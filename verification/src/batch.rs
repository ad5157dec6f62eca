//! Several methods in one judge request. The methods of a request are told apart by a prefix on
//! their question keys (`m3.r2` is question `r2` about the request's fourth method), and the
//! answers are split back by that prefix.

use crate::review::replace_all;
use crate::text::{self, all_digits, decimal, digit, digit_value, digits_value, find_char, parse_usize, without_plus};
use vstd::prelude::*;

verus! {

/// The requests for `n` methods, `size` at a time: consecutive ranges from `start` on.
pub open spec fn batches_from(start: nat, n: nat, size: nat) -> Seq<(usize, usize)>
    decreases n - start,
{
    if start >= n || size == 0 {
        seq![]
    } else if start + size >= n {
        seq![(start as usize, n as usize)]
    } else {
        seq![(start as usize, (start + size) as usize)] + batches_from(start + size, n, size)
    }
}

/// The ranges of methods that go into one request each, `size` methods a request.
pub fn batch_ranges(n: usize, size: usize) -> (r: Vec<(usize, usize)>)
    requires
        size > 0,
    ensures
        r@ == batches_from(0, n as nat, size as nat),
{
    let mut out: Vec<(usize, usize)> = Vec::new();
    let mut start: usize = 0;
    while start < n
        invariant
            size > 0,
            out@ + batches_from(start as nat, n as nat, size as nat) == batches_from(0, n as nat, size as nat),
        decreases n - start,
    {
        if size >= n - start {
            out.push((start, n));
            assert(out@ =~= batches_from(0, n as nat, size as nat));
            return out;
        }
        let ghost before = out@;
        out.push((start, start + size));
        assert(before + batches_from(start as nat, n as nat, size as nat) =~= out@ + batches_from(
            (start + size) as nat,
            n as nat,
            size as nat,
        ));
        start = start + size;
    }
    assert(out@ =~= batches_from(0, n as nat, size as nat));
    out
}

/// The key under which question `key` about a request's `i`-th method is asked.
pub open spec fn spec_batch_key(i: nat, key: Seq<char>) -> Seq<char> {
    seq!['m'] + decimal(i) + seq!['.'] + key
}

pub fn batch_key(i: usize, key: &str) -> (r: String)
    ensures
        r@ == spec_batch_key(i as nat, key@),
{
    let mut k: Vec<char> = Vec::new();
    k.push('m');
    text::push_decimal(&mut k, i);
    k.push('.');
    text::push_str(&mut k, key);
    assert(k@ =~= spec_batch_key(i as nat, key@));
    text::string_of(k.as_slice())
}

/// The method and the question a batched key names; `None` for a key that is not one.
pub open spec fn spec_split_batch_key(s: Seq<char>) -> Option<(usize, Seq<char>)> {
    if s.len() > 0 && s[0] == 'm' {
        let t = s.drop_first();
        let k = find_char(t, '.');
        if k < t.len() {
            match parse_usize(t.take(k as int)) {
                Some(i) => Some((i, t.skip(k + 1int))),
                None => None,
            }
        } else {
            None
        }
    } else {
        None
    }
}

pub fn split_batch_key(s: &str) -> (r: Option<(usize, String)>)
    ensures
        r matches Some(p) ==> spec_split_batch_key(s@) == Some((p.0, p.1@)),
        r is None ==> spec_split_batch_key(s@) is None,
{
    let v = text::chars_of(s);
    if v.len() == 0 || v[0] != 'm' {
        return None;
    }
    let t = text::slice(&v, 1, v.len());
    assert(t@ =~= s@.drop_first());
    let k = text::find_from(&t, 0, '.');
    assert(t@.skip(0) =~= t@);
    if k >= t.len() {
        return None;
    }
    let head = text::slice(&t, 0, k);
    assert(head@ =~= t@.take(k as int));
    match text::parse_usize_of(&head) {
        Some(i) => {
            let rest = text::slice(&t, k + 1, t.len());
            assert(rest@ =~= t@.skip(k + 1));
            Some((i, text::string_of(rest.as_slice())))
        },
        None => None,
    }
}

/// `s` with every occurrence of `pat` replaced by `rep`, as `str::replace` gives it.
pub fn replace_text(s: &str, pat: &str, rep: &String) -> (r: String)
    ensures
        r@ == replace_all(s@, pat@, rep@),
{
    let v = text::chars_of(s);
    let p = text::chars_of(pat);
    let mut out: Vec<char> = Vec::new();
    let mut pos: usize = 0;
    assert(v@.skip(0) =~= v@);
    while pos < v.len()
        invariant
            v@ == s@,
            p@ == pat@,
            pos <= v.len(),
            out@ + replace_all(v@.skip(pos as int), p@, rep@) == replace_all(v@, p@, rep@),
        decreases v.len() - pos,
    {
        let ghost rest = v@.skip(pos as int);
        if p.len() > 0 && text::has_at(&v, pos, &p) {
            assert(rest.skip(p.len() as int) =~= v@.skip(pos + p.len()));
            let ghost before = out@;
            text::push_string(&mut out, rep);
            assert(before + replace_all(rest, p@, rep@) =~= out@ + replace_all(
                v@.skip(pos + p.len()),
                p@,
                rep@,
            ));
            pos = pos + p.len();
        } else {
            assert(rest.drop_first() =~= v@.skip(pos + 1));
            assert(rest[0] == v@[pos as int]);
            let ghost before = out@;
            out.push(v[pos]);
            assert(before + replace_all(rest, p@, rep@) =~= out@ + replace_all(
                v@.skip(pos + 1),
                p@,
                rep@,
            ));
            pos = pos + 1;
        }
    }
    assert(v@.skip(pos as int).len() == 0);
    assert(out@ =~= replace_all(v@, p@, rep@));
    text::string_of(out.as_slice())
}


proof fn lemma_digit(d: nat)
    requires
        d < 10,
    ensures
        '0' <= digit(d) <= '9',
        digit_value(digit(d)) == d,
{
}

proof fn lemma_decimal(n: nat)
    ensures
        decimal(n).len() > 0,
        all_digits(decimal(n)),
        digits_value(decimal(n)) == n,
    decreases n,
{
    if n < 10 {
        lemma_digit(n);
        assert(decimal(n).drop_last() =~= Seq::<char>::empty());
        assert(digits_value(decimal(n)) == digits_value(Seq::<char>::empty()) * 10 + digit_value(digit(n)));
    } else {
        lemma_decimal(n / 10);
        lemma_digit(n % 10);
        let d = decimal(n);
        assert(d.drop_last() =~= decimal(n / 10));
        assert(forall|j: int| 0 <= j < d.len() - 1 ==> d[j] == #[trigger] decimal(n / 10)[j]);
        assert(d.last() == digit(n % 10));
        assert(digits_value(d) == digits_value(decimal(n / 10)) * 10 + digit_value(digit(n % 10)));
        assert((n / 10) * 10 + n % 10 == n);
    }
}

proof fn lemma_find_char_after(a: Seq<char>, b: Seq<char>, c: char)
    requires
        forall|j: int| 0 <= j < a.len() ==> a[j] != c,
    ensures
        find_char(a + b, c) == a.len() + find_char(b, c),
    decreases a.len(),
{
    if a.len() > 0 {
        assert((a + b).drop_first() =~= a.drop_first() + b);
        lemma_find_char_after(a.drop_first(), b, c);
    } else {
        assert(a + b =~= b);
    }
}

/// A batched key splits back into the method and the question it was made from, whatever the
/// question's key.
pub proof fn law_batch_key_round_trip(i: usize, key: Seq<char>)
    ensures
        spec_split_batch_key(spec_batch_key(i as nat, key)) == Some((i, key)),
{
    let d = decimal(i as nat);
    lemma_decimal(i as nat);
    let s = spec_batch_key(i as nat, key);
    let t = s.drop_first();
    assert(t =~= d + (seq!['.'] + key));
    assert forall|j: int| 0 <= j < d.len() implies d[j] != '.' by {
        assert('0' <= d[j] <= '9');
    }
    lemma_find_char_after(d, seq!['.'] + key, '.');
    assert(find_char(seq!['.'] + key, '.') == 0);
    assert(t.take(d.len() as int) =~= d);
    assert(t.skip(d.len() + 1int) =~= key);
    assert('0' <= d[0] <= '9');
    assert(without_plus(d) == d);
}
} // verus!
