//! Rule 10: names that share an affix. Known antonym pairs (`start`/`end`, `min`/`max`, ...)
//! are flagged; any other group of names sharing all but their first or last word is a
//! candidate for judgment.

use crate::inherit::group;
use crate::lang::Lang;
use crate::pattern::{self, regex_captures_all, regex_matches};
use crate::text::{self, lowercase};
use crate::tree::ParsedFile;
use crate::rules::{finding_models, spec_mechanical, Finding, FindingModel};
use crate::text::uppercase;
use crate::units::{first_of, kind_names, Unit, UnitModel};
use vstd::prelude::*;

verus! {

/// A word of an identifier: a capitalised or all-capital run, a lower-case run, or digits.
pub const WORD: &'static str = r"[A-Z]+(?:[a-z]+)?|[a-z]+|\d+";

/// A field assignment `self.x = ...` at the start of a line (group 1: the field).
pub const SELF_FIELD: &'static str = r"(?m)^\s*self\.(\w+)\s*(?::[^=\n]+)?=";

/// `s` with `_` and `$` made spaces.
pub open spec fn spaced(s: Seq<char>) -> Seq<char> {
    s.map_values(|c: char| if c == '_' || c == '$' { ' ' } else { c })
}

/// The words of an identifier, lower-cased: `maxPrice` and `max_price` both give `max`,
/// `price`.
pub open spec fn spec_words(id: Seq<char>) -> Seq<Seq<char>> {
    regex_matches(WORD@, spaced(id)).map_values(|m: Seq<char>| lowercase(m))
}

/// The words of an identifier, lower-cased.
pub fn words(identifier: &str) -> (r: Vec<String>)
    ensures
        r.deep_view() == spec_words(identifier@),
{
    let v = text::chars_of(identifier);
    let mut sp: Vec<char> = Vec::new();
    let mut i: usize = 0;
    while i < v.len()
        invariant
            i <= v.len(),
            sp@ =~= spaced(v@.take(i as int)),
        decreases v.len() - i,
    {
        let c = v[i];
        if c == '_' || c == '$' {
            sp.push(' ');
        } else {
            sp.push(c);
        }
        i += 1;
        assert(spaced(v@.take(i as int)) =~= spaced(v@.take(i - 1)).push(sp@.last()));
    }
    assert(v@.take(v.len() as int) =~= v@);
    let spaced_text = text::string_of(sp.as_slice());
    let found = pattern::find_all(WORD, spaced_text.as_str());
    let ghost ms = regex_matches(WORD@, spaced(identifier@));
    let mut out: Vec<String> = Vec::new();
    let mut k: usize = 0;
    while k < found.len()
        invariant
            found.deep_view() == ms,
            k <= found.len(),
            out.deep_view() =~= ms.take(k as int).map_values(|m: Seq<char>| lowercase(m)),
        decreases found.len() - k,
    {
        assert(found.deep_view()[k as int] == found@[k as int]@);
        let w = text::to_lowercase(found[k].as_str());
        let ghost before = out.deep_view();
        out.push(w);
        assert(out.deep_view() =~= before.push(lowercase(ms[k as int])));
        k += 1;
        assert(ms.take(k as int) =~= ms.take(k - 1).push(ms[k - 1]));
    }
    assert(ms.take(found.len() as int) =~= ms);
    out
}

// ---------------------------------------------------------------- the names a method declares

/// The parameter list of a function: its `parameters` field, or (C, C++) the
/// `parameter_list` inside its declarator.
pub open spec fn spec_parameters(p: ParsedFile, f: int) -> Option<usize> {
    match p.spec_child_by_field(f, "parameters"@) {
        Some(x) => Some(x),
        None => match p.spec_child_by_field(f, "declarator"@) {
            Some(d) => p.spec_first_of(d as int, seq!["parameter_list"@]),
            None => None,
        },
    }
}

/// The part of a parameter that holds its name: its `name`, `pattern` or `declarator` field,
/// or the parameter itself.
pub open spec fn holder_of(p: ParsedFile, q: int) -> int {
    match p.spec_child_by_field(q, "name"@) {
        Some(h) => h as int,
        None => match p.spec_child_by_field(q, "pattern"@) {
            Some(h) => h as int,
            None => match p.spec_child_by_field(q, "declarator"@) {
                Some(h) => h as int,
                None => q,
            },
        },
    }
}

/// `s` without its leading `$` signs.
pub open spec fn strip_dollars(s: Seq<char>) -> Seq<char>
    decreases s.len(),
{
    if s.len() > 0 && s[0] == '$' {
        strip_dollars(s.drop_first())
    } else {
        s
    }
}

pub open spec fn name_kinds() -> Seq<Seq<char>> {
    seq!["identifier"@, "variable_name"@, "name"@]
}

/// The name a parameter declares, when it has one.
pub open spec fn parameter_name(p: ParsedFile, q: int) -> Option<Seq<char>> {
    match p.spec_first_of(holder_of(p, q), name_kinds()) {
        Some(id) => Some(strip_dollars(p.spec_text(id as int))),
        None => None,
    }
}

pub open spec fn parameter_names(p: ParsedFile, qs: Seq<usize>) -> Seq<Seq<char>>
    decreases qs.len(),
{
    if qs.len() == 0 {
        seq![]
    } else {
        let rest = parameter_names(p, qs.drop_last());
        match parameter_name(p, qs.last() as int) {
            Some(n) => rest.push(n),
            None => rest,
        }
    }
}

/// The fields of `self.x = ...` assignments.
pub open spec fn self_fields(caps: Seq<Seq<Option<Seq<char>>>>) -> Seq<Seq<char>> {
    caps.map_values(|c: Seq<Option<Seq<char>>>| group(c, 1))
}

/// Every name a function declares, in order: its parameters and, in Python, the fields it
/// assigns on `self`.
pub open spec fn raw_names(p: ParsedFile, f: int) -> Seq<Seq<char>> {
    let params = match spec_parameters(p, f) {
        Some(q) => parameter_names(p, p.spec_named_children(q as int)),
        None => seq![],
    };
    if p.lang == Lang::Python {
        params + self_fields(regex_captures_all(SELF_FIELD@, p.spec_text(f)))
    } else {
        params
    }
}

pub open spec fn is_receiver(n: Seq<char>) -> bool {
    n == "self"@ || n == "cls"@ || n == "this"@
}

/// `ns` without the receiver and with each name once, at its first place.
pub open spec fn dedup_names(ns: Seq<Seq<char>>) -> Seq<Seq<char>>
    decreases ns.len(),
{
    if ns.len() == 0 {
        seq![]
    } else {
        let rest = dedup_names(ns.drop_last());
        if is_receiver(ns.last()) || rest.contains(ns.last()) {
            rest
        } else {
            rest.push(ns.last())
        }
    }
}

/// The parameters and fields a method declares: the siblings rule 10 compares.
pub open spec fn spec_declared_names(p: ParsedFile, f: int) -> Seq<Seq<char>> {
    dedup_names(raw_names(p, f))
}

fn strip_leading_dollars(v: &Vec<char>) -> (r: Vec<char>)
    ensures
        r@ == strip_dollars(v@),
{
    let mut k: usize = 0;
    assert(v@.skip(0) =~= v@);
    while k < v.len() && v[k] == '$'
        invariant
            k <= v.len(),
            strip_dollars(v@) == strip_dollars(v@.skip(k as int)),
        decreases v.len() - k,
    {
        assert(v@.skip(k as int).drop_first() =~= v@.skip(k + 1));
        k += 1;
    }
    assert(v@.skip(k as int) =~= v@.subrange(k as int, v.len() as int));
    text::slice(v, k, v.len())
}

fn parameters_of(p: &ParsedFile, f: usize) -> (r: Option<usize>)
    requires
        p.wf(),
        f < p.len(),
    ensures
        r == spec_parameters(*p, f as int),
        r matches Some(q) ==> q < p.len(),
{
    match p.child_by_field_name(f, "parameters") {
        Some(x) => Some(x),
        None => match p.child_by_field_name(f, "declarator") {
            Some(d) => {
                let kinds: [&str; 1] = ["parameter_list"];
                assert(kind_names(kinds@) =~= seq!["parameter_list"@]);
                first_of(p, d, &kinds)
            },
            None => None,
        },
    }
}

fn name_of_parameter(p: &ParsedFile, q: usize) -> (r: Option<Vec<char>>)
    requires
        p.wf(),
        q < p.len(),
    ensures
        r matches Some(n) ==> parameter_name(*p, q as int) == Some(n@),
        r is None ==> parameter_name(*p, q as int) is None,
{
    let holder = match p.child_by_field_name(q, "name") {
        Some(h) => h,
        None => match p.child_by_field_name(q, "pattern") {
            Some(h) => h,
            None => match p.child_by_field_name(q, "declarator") {
                Some(h) => h,
                None => q,
            },
        },
    };
    let kinds: [&str; 3] = ["identifier", "variable_name", "name"];
    assert(kind_names(kinds@) =~= name_kinds());
    match first_of(p, holder, &kinds) {
        Some(id) => {
            let t = p.text_chars(id);
            Some(strip_leading_dollars(&t))
        },
        None => None,
    }
}

fn contains_name(ns: &Vec<Vec<char>>, n: &Vec<char>) -> (r: bool)
    ensures
        r == ns@.map_values(|v: Vec<char>| v@).contains(n@),
{
    let ghost vs = ns@.map_values(|v: Vec<char>| v@);
    let mut i: usize = 0;
    while i < ns.len()
        invariant
            vs == ns@.map_values(|v: Vec<char>| v@),
            i <= ns.len(),
            forall|j: int| 0 <= j < i ==> vs[j] != n@,
        decreases ns.len() - i,
    {
        if text::chars_eq(&ns[i], n) {
            assert(vs[i as int] == n@);
            return true;
        }
        i += 1;
    }
    false
}

/// Parameters and fields this method declares, each once, without `self`, `cls` and `this`.
pub fn declared_names(function: usize, parsed: &ParsedFile) -> (r: Vec<String>)
    requires
        parsed.wf(),
        function < parsed.len(),
    ensures
        r.deep_view() == spec_declared_names(*parsed, function as int),
{
    let p = parsed;
    let mut raw: Vec<Vec<char>> = Vec::new();
    let ghost params = match spec_parameters(*p, function as int) {
        Some(q) => parameter_names(*p, p.spec_named_children(q as int)),
        None => seq![],
    };
    match parameters_of(p, function) {
        Some(q) => {
            let qs = p.named_children(q);
            let mut i: usize = 0;
            assert(qs@.take(0) =~= seq![]);
            while i < qs.len()
                invariant
                    p.wf(),
                    forall|k: int| 0 <= k < qs@.len() ==> #[trigger] qs@[k] < p.len(),
                    i <= qs.len(),
                    raw@.map_values(|v: Vec<char>| v@) =~= parameter_names(*p, qs@.take(i as int)),
                decreases qs.len() - i,
            {
                assert(qs@.take(i + 1).drop_last() =~= qs@.take(i as int));
                assert(qs@.take(i + 1).last() == qs@[i as int]);
                match name_of_parameter(p, qs[i]) {
                    Some(n) => raw.push(n),
                    None => {},
                }
                i += 1;
            }
            assert(qs@.take(qs.len() as int) =~= qs@);
        },
        None => {},
    }
    assert(raw@.map_values(|v: Vec<char>| v@) =~= params);
    if p.lang == Lang::Python {
        let t = p.text(function);
        let caps = pattern::captures_all(SELF_FIELD, t.as_str());
        let ghost fields = self_fields(regex_captures_all(SELF_FIELD@, t@));
        let ghost start = raw@.map_values(|v: Vec<char>| v@);
        let mut k: usize = 0;
        while k < caps.len()
            invariant
                caps.deep_view() == regex_captures_all(SELF_FIELD@, t@),
                fields == self_fields(regex_captures_all(SELF_FIELD@, t@)),
                k <= caps.len(),
                raw@.map_values(|v: Vec<char>| v@) =~= start + fields.take(k as int),
            decreases caps.len() - k,
        {
            assert(caps.deep_view()[k as int] == caps@[k as int].deep_view());
            let f = crate::inherit::group_of(&caps[k], 1);
            let ghost before = raw@.map_values(|v: Vec<char>| v@);
            raw.push(text::chars_of(f.as_str()));
            assert(fields[k as int] == f@);
            assert(raw@.map_values(|v: Vec<char>| v@) =~= before.push(f@));
            k += 1;
            assert(fields.take(k as int) =~= fields.take(k - 1).push(fields[k - 1]));
        }
        assert(fields.take(caps.len() as int) =~= fields);
    }
    let ghost all = raw@.map_values(|v: Vec<char>| v@);
    assert(all == raw_names(*p, function as int));
    let mut kept: Vec<Vec<char>> = Vec::new();
    let mut out: Vec<String> = Vec::new();
    let mut i: usize = 0;
    assert(all.take(0) =~= seq![]);
    while i < raw.len()
        invariant
            all == raw@.map_values(|v: Vec<char>| v@),
            i <= raw.len(),
            kept@.map_values(|v: Vec<char>| v@) == dedup_names(all.take(i as int)),
            out.deep_view() == dedup_names(all.take(i as int)),
        decreases raw.len() - i,
    {
        assert(all.take(i + 1).drop_last() =~= all.take(i as int));
        assert(all.take(i + 1).last() == raw@[i as int]@);
        let n = &raw[i];
        let receiver = text::is(n, "self") || text::is(n, "cls") || text::is(n, "this");
        if !receiver && !contains_name(&kept, n) {
            let ghost before = kept@.map_values(|v: Vec<char>| v@);
            let ghost before_out = out.deep_view();
            let copy = text::slice(n, 0, n.len());
            assert(copy@ =~= n@);
            kept.push(copy);
            out.push(text::string_of(n.as_slice()));
            assert(kept@.map_values(|v: Vec<char>| v@) =~= before.push(n@));
            assert(out.deep_view() =~= before_out.push(n@));
        }
        i += 1;
    }
    assert(all.take(raw.len() as int) =~= all);
    out
}


// ---------------------------------------------------------------- rule 10: antonym pairs

/// One of the known antonym pairs, in this order.
pub open spec fn antonyms(p: Seq<char>, q: Seq<char>) -> bool {
    ||| p == "start"@ && q == "end"@
    ||| p == "begin"@ && q == "end"@
    ||| p == "min"@ && q == "max"@
    ||| p == "from"@ && q == "to"@
    ||| p == "first"@ && q == "last"@
    ||| p == "old"@ && q == "new"@
    ||| p == "src"@ && q == "dst"@
    ||| p == "source"@ && q == "target"@
    ||| p == "source"@ && q == "destination"@
    ||| p == "lower"@ && q == "upper"@
    ||| p == "left"@ && q == "right"@
    ||| p == "before"@ && q == "after"@
    ||| p == "prev"@ && q == "next"@
    ||| p == "previous"@ && q == "next"@
    ||| p == "in"@ && q == "out"@
    ||| p == "input"@ && q == "output"@
    ||| p == "x"@ && q == "y"@
    ||| p == "lat"@ && q == "lng"@
    ||| p == "lat"@ && q == "lon"@
    ||| p == "latitude"@ && q == "longitude"@
    ||| p == "width"@ && q == "height"@
}

/// Two words that are a known antonym pair, in either order.
pub open spec fn is_pair(x: Seq<char>, y: Seq<char>) -> bool {
    antonyms(x, y) || antonyms(y, x)
}

/// The positions below `n` at which two word lists differ.
pub open spec fn differing(wa: Seq<Seq<char>>, wb: Seq<Seq<char>>, n: int) -> Seq<int>
    decreases n,
{
    if n <= 0 {
        seq![]
    } else if wa[n - 1] != wb[n - 1] {
        differing(wa, wb, n - 1).push(n - 1)
    } else {
        differing(wa, wb, n - 1)
    }
}

/// Where two names of two words or more differ by exactly one word, an antonym pair, at
/// their start or at their end.
pub open spec fn affix_position(wa: Seq<Seq<char>>, wb: Seq<Seq<char>>) -> Option<int> {
    if wa.len() != wb.len() || wa.len() < 2 {
        None
    } else {
        let d = differing(wa, wb, wa.len() as int);
        if d.len() == 1 && is_pair(wa[d[0]], wb[d[0]]) && (d[0] == 0 || d[0] == wa.len() - 1) {
            Some(d[0])
        } else {
            None
        }
    }
}

/// A word with its first character upper-cased.
pub open spec fn capitalised(w: Seq<char>) -> Seq<char> {
    if w.len() == 0 {
        seq![]
    } else {
        uppercase(w[0]) + w.drop_first()
    }
}

/// The words other than the `k`-th, capitalised and run together.
pub open spec fn shared_name(ws: Seq<Seq<char>>, k: int) -> Seq<char>
    decreases ws.len(),
{
    if ws.len() == 0 {
        seq![]
    } else if ws.len() - 1 == k {
        shared_name(ws.drop_last(), k)
    } else {
        shared_name(ws.drop_last(), k) + capitalised(ws.last())
    }
}

/// The finding for two names that differ only by an antonym affix.
pub open spec fn pair_finding(u: UnitModel, a: Seq<char>, b: Seq<char>) -> Option<FindingModel> {
    let (wa, wb) = (spec_words(a), spec_words(b));
    match affix_position(wa, wb) {
        Some(k) => Some(
            spec_mechanical(
                10,
                u,
                u.start,
                "`"@ + a + "` and `"@ + b + "` differ only by the affix "@ + wa[k] + "/"@ + wb[k],
                "introduce a `"@ + shared_name(wa, k)
                    + "Range`-style type holding both, and move the logic that uses them onto it"@,
            ),
        ),
        None => None,
    }
}

pub open spec fn opt_seq(o: Option<FindingModel>) -> Seq<FindingModel> {
    match o {
        Some(f) => seq![f],
        None => seq![],
    }
}

/// The findings for the pairs (`i`, `j'`) with `i < j' < j`.
pub open spec fn row_findings(u: UnitModel, names: Seq<Seq<char>>, i: int, j: int) -> Seq<FindingModel>
    decreases j - i,
{
    if j <= i + 1 {
        seq![]
    } else {
        row_findings(u, names, i, j - 1) + opt_seq(pair_finding(u, names[i], names[j - 1]))
    }
}

/// The findings for the pairs whose first name is one of the first `i`.
pub open spec fn affix_findings(u: UnitModel, names: Seq<Seq<char>>, i: int) -> Seq<FindingModel>
    decreases i,
{
    if i <= 0 {
        seq![]
    } else {
        affix_findings(u, names, i - 1) + row_findings(u, names, i - 1, names.len() as int)
    }
}

/// The pair (`a`, `b`) differs by an antonym affix and one of its names is `x`.
pub open spec fn flags_pair(names: Seq<Seq<char>>, a: int, b: int, x: Seq<char>) -> bool {
    &&& affix_position(spec_words(names[a]), spec_words(names[b])) is Some
    &&& (names[a] == x || names[b] == x)
}

/// `x` is in a flagged pair that comes before (`i`, `j`).
pub open spec fn flagged_before(names: Seq<Seq<char>>, x: Seq<char>, i: int, j: int) -> bool {
    exists|a: int, b: int|
        0 <= a < b < names.len() && (a < i || (a == i && b < j)) && #[trigger] flags_pair(names, a, b, x)
}

/// `x` is one of a pair that differs by an antonym affix.
pub open spec fn flagged(names: Seq<Seq<char>>, x: Seq<char>) -> bool {
    flagged_before(names, x, names.len() as int, 0)
}

pub open spec fn name_views(names: Seq<String>) -> Seq<Seq<char>> {
    names.map_values(|s: String| s@)
}

fn is_antonym_pair(x: &String, y: &String) -> (r: bool)
    ensures
        r == is_pair(x@, y@),
{
    let (p, q) = (x.as_str(), y.as_str());
    let forward = (text::str_eq(p, "start") && text::str_eq(q, "end")) || (text::str_eq(p, "begin")
        && text::str_eq(q, "end")) || (text::str_eq(p, "min") && text::str_eq(q, "max")) || (
    text::str_eq(p, "from") && text::str_eq(q, "to")) || (text::str_eq(p, "first") && text::str_eq(
        q,
        "last",
    )) || (text::str_eq(p, "old") && text::str_eq(q, "new")) || (text::str_eq(p, "src")
        && text::str_eq(q, "dst")) || (text::str_eq(p, "source") && text::str_eq(q, "target")) || (
    text::str_eq(p, "source") && text::str_eq(q, "destination")) || (text::str_eq(p, "lower")
        && text::str_eq(q, "upper")) || (text::str_eq(p, "left") && text::str_eq(q, "right")) || (
    text::str_eq(p, "before") && text::str_eq(q, "after")) || (text::str_eq(p, "prev")
        && text::str_eq(q, "next")) || (text::str_eq(p, "previous") && text::str_eq(q, "next")) || (
    text::str_eq(p, "in") && text::str_eq(q, "out")) || (text::str_eq(p, "input") && text::str_eq(
        q,
        "output",
    )) || (text::str_eq(p, "x") && text::str_eq(q, "y")) || (text::str_eq(p, "lat")
        && text::str_eq(q, "lng")) || (text::str_eq(p, "lat") && text::str_eq(q, "lon")) || (
    text::str_eq(p, "latitude") && text::str_eq(q, "longitude")) || (text::str_eq(p, "width")
        && text::str_eq(q, "height"));
    let backward = (text::str_eq(q, "start") && text::str_eq(p, "end")) || (text::str_eq(q, "begin")
        && text::str_eq(p, "end")) || (text::str_eq(q, "min") && text::str_eq(p, "max")) || (
    text::str_eq(q, "from") && text::str_eq(p, "to")) || (text::str_eq(q, "first") && text::str_eq(
        p,
        "last",
    )) || (text::str_eq(q, "old") && text::str_eq(p, "new")) || (text::str_eq(q, "src")
        && text::str_eq(p, "dst")) || (text::str_eq(q, "source") && text::str_eq(p, "target")) || (
    text::str_eq(q, "source") && text::str_eq(p, "destination")) || (text::str_eq(q, "lower")
        && text::str_eq(p, "upper")) || (text::str_eq(q, "left") && text::str_eq(p, "right")) || (
    text::str_eq(q, "before") && text::str_eq(p, "after")) || (text::str_eq(q, "prev")
        && text::str_eq(p, "next")) || (text::str_eq(q, "previous") && text::str_eq(p, "next")) || (
    text::str_eq(q, "in") && text::str_eq(p, "out")) || (text::str_eq(q, "input") && text::str_eq(
        p,
        "output",
    )) || (text::str_eq(q, "x") && text::str_eq(p, "y")) || (text::str_eq(q, "lat")
        && text::str_eq(p, "lng")) || (text::str_eq(q, "lat") && text::str_eq(p, "lon")) || (
    text::str_eq(q, "latitude") && text::str_eq(p, "longitude")) || (text::str_eq(q, "width")
        && text::str_eq(p, "height"));
    forward || backward
}

/// The affix position of two word lists, as `affix_position` states it.
fn affix_of(wa: &Vec<String>, wb: &Vec<String>) -> (r: Option<usize>)
    ensures
        r matches Some(k) ==> affix_position(wa.deep_view(), wb.deep_view()) == Some(k as int) && k
            < wa.len(),
        r is None ==> affix_position(wa.deep_view(), wb.deep_view()) is None,
{
    let ghost (va, vb) = (wa.deep_view(), wb.deep_view());
    if wa.len() != wb.len() || wa.len() < 2 {
        return None;
    }
    let mut count: usize = 0;
    let mut first: usize = 0;
    let mut i: usize = 0;
    while i < wa.len()
        invariant
            va == wa.deep_view(),
            vb == wb.deep_view(),
            wa.len() == wb.len(),
            i <= wa.len(),
            count == differing(va, vb, i as int).len(),
            count <= i,
            count > 0 ==> first == differing(va, vb, i as int)[0] && first < wa.len(),
        decreases wa.len() - i,
    {
        assert(va[i as int] == wa@[i as int]@ && vb[i as int] == wb@[i as int]@);
        if wa[i] != wb[i] {
            if count == 0 {
                first = i;
            }
            count += 1;
        }
        i += 1;
    }
    if count == 1 {
        assert(va[first as int] == wa@[first as int]@ && vb[first as int] == wb@[first as int]@);
        if is_antonym_pair(&wa[first], &wb[first]) && (first == 0 || first == wa.len() - 1) {
            return Some(first);
        }
    }
    None
}

/// The first character of `word` upper-cased.
pub fn capitalise(word: &str) -> (r: String)
    ensures
        r@ == capitalised(word@),
{
    let cs = text::chars_of(word);
    if cs.len() == 0 {
        return String::new();
    }
    let head = text::to_uppercase(cs[0]);
    let mut out = text::chars_of(head.as_str());
    let rest = text::slice(&cs, 1, cs.len());
    text::append(&mut out, &rest);
    assert(rest@ =~= word@.drop_first());
    text::string_of(out.as_slice())
}

fn shared_of(ws: &Vec<String>, k: usize) -> (r: Vec<char>)
    ensures
        r@ == shared_name(ws.deep_view(), k as int),
{
    let ghost v = ws.deep_view();
    let mut out: Vec<char> = Vec::new();
    let mut i: usize = 0;
    assert(v.take(0) =~= seq![]);
    while i < ws.len()
        invariant
            v == ws.deep_view(),
            i <= ws.len(),
            out@ == shared_name(v.take(i as int), k as int),
        decreases ws.len() - i,
    {
        assert(v.take(i + 1).drop_last() =~= v.take(i as int));
        assert(v.take(i + 1).last() == ws@[i as int]@);
        if i != k {
            let c = capitalise(ws[i].as_str());
            text::push_string(&mut out, &c);
        }
        i += 1;
    }
    assert(v.take(ws.len() as int) =~= v);
    out
}

fn pair_finding_of(unit: &Unit, a: &String, b: &String, wa: &Vec<String>, wb: &Vec<String>) -> (r: Option<Finding>)
    requires
        wa.deep_view() == spec_words(a@),
        wb.deep_view() == spec_words(b@),
    ensures
        r matches Some(f) ==> pair_finding(unit.model(), a@, b@) == Some(f.model()),
        r is None ==> pair_finding(unit.model(), a@, b@) is None,
{
    let k = match affix_of(wa, wb) {
        Some(k) => k,
        None => return None,
    };
    assert(wa.deep_view()[k as int] == wa@[k as int]@ && wb.deep_view()[k as int] == wb@[k as int]@);
    let mut message: Vec<char> = Vec::new();
    text::push_str(&mut message, "`");
    text::push_string(&mut message, a);
    text::push_str(&mut message, "` and `");
    text::push_string(&mut message, b);
    text::push_str(&mut message, "` differ only by the affix ");
    text::push_string(&mut message, &wa[k]);
    text::push_str(&mut message, "/");
    text::push_string(&mut message, &wb[k]);
    let mut fix: Vec<char> = Vec::new();
    text::push_str(&mut fix, "introduce a `");
    let shared = shared_of(wa, k);
    text::append(&mut fix, &shared);
    text::push_str(&mut fix, "Range`-style type holding both, and move the logic that uses them onto it");
    Some(Finding::mechanical(10, unit, unit.start, text::string_of(message.as_slice()), text::string_of(fix.as_slice())))
}

// ---------------------------------------------------------------- rule 10: candidates

/// `a` sorts strictly before `b`, character by character, as `String`s compare.
pub open spec fn str_lt(a: Seq<char>, b: Seq<char>) -> bool
    decreases a.len(),
{
    if a.len() == 0 {
        b.len() > 0
    } else if b.len() == 0 {
        false
    } else if a[0] != b[0] {
        (a[0] as int) < (b[0] as int)
    } else {
        str_lt(a.drop_first(), b.drop_first())
    }
}

/// `a` sorts strictly before `b`, name by name, as `Vec<String>`s compare.
pub open spec fn list_lt(a: Seq<Seq<char>>, b: Seq<Seq<char>>) -> bool
    decreases a.len(),
{
    if a.len() == 0 {
        b.len() > 0
    } else if b.len() == 0 {
        false
    } else if a[0] != b[0] {
        str_lt(a[0], b[0])
    } else {
        list_lt(a.drop_first(), b.drop_first())
    }
}

pub proof fn lemma_str_lt_total(a: Seq<char>, b: Seq<char>)
    ensures
        a != b ==> str_lt(a, b) || str_lt(b, a),
        !(str_lt(a, b) && str_lt(b, a)),
    decreases a.len(),
{
    if a.len() == 0 || b.len() == 0 {
        if a.len() == 0 && b.len() == 0 {
            assert(a =~= b);
        }
    } else if a[0] != b[0] {
        assert((a[0] as int) != (b[0] as int));
    } else {
        lemma_str_lt_total(a.drop_first(), b.drop_first());
        if a.drop_first() == b.drop_first() {
            assert(a =~= seq![a[0]] + a.drop_first());
            assert(b =~= seq![b[0]] + b.drop_first());
        }
    }
}

/// The order of names is transitive.
pub proof fn lemma_str_lt_transitive(a: Seq<char>, b: Seq<char>, c: Seq<char>)
    requires
        str_lt(a, b),
        str_lt(b, c),
    ensures
        str_lt(a, c),
    decreases a.len(),
{
    if a.len() > 0 && b.len() > 0 && c.len() > 0 && a[0] == b[0] && b[0] == c[0] {
        lemma_str_lt_transitive(a.drop_first(), b.drop_first(), c.drop_first());
    }
}

proof fn lemma_list_lt_total(a: Seq<Seq<char>>, b: Seq<Seq<char>>)
    ensures
        a != b ==> list_lt(a, b) || list_lt(b, a),
        !(list_lt(a, b) && list_lt(b, a)),
    decreases a.len(),
{
    if a.len() == 0 || b.len() == 0 {
        if a.len() == 0 && b.len() == 0 {
            assert(a =~= b);
        }
    } else if a[0] != b[0] {
        lemma_str_lt_total(a[0], b[0]);
    } else {
        lemma_list_lt_total(a.drop_first(), b.drop_first());
        if a.drop_first() == b.drop_first() {
            assert(a =~= seq![a[0]] + a.drop_first());
            assert(b =~= seq![b[0]] + b.drop_first());
        }
    }
}

pub(crate) fn string_less(a: &String, b: &String) -> (r: bool)
    ensures
        r == str_lt(a@, b@),
{
    let x = text::chars_of(a.as_str());
    let y = text::chars_of(b.as_str());
    let mut i: usize = 0;
    assert(x@.skip(0) =~= x@ && y@.skip(0) =~= y@);
    while i < x.len() && i < y.len() && x[i] == y[i]
        invariant
            x@ == a@,
            y@ == b@,
            i <= x.len(),
            i <= y.len(),
            str_lt(a@, b@) == str_lt(x@.skip(i as int), y@.skip(i as int)),
        decreases x.len() - i,
    {
        assert(x@.skip(i as int).drop_first() =~= x@.skip(i + 1));
        assert(y@.skip(i as int).drop_first() =~= y@.skip(i + 1));
        i += 1;
    }
    if i == x.len() {
        i < y.len()
    } else if i == y.len() {
        false
    } else {
        assert(x@.skip(i as int)[0] == x@[i as int] && y@.skip(i as int)[0] == y@[i as int]);
        x[i] < y[i]
    }
}

fn list_less(a: &Vec<String>, b: &Vec<String>) -> (r: bool)
    ensures
        r == list_lt(a.deep_view(), b.deep_view()),
{
    let ghost (x, y) = (a.deep_view(), b.deep_view());
    let mut i: usize = 0;
    assert(x.skip(0) =~= x && y.skip(0) =~= y);
    while i < a.len() && i < b.len() && a[i] == b[i]
        invariant
            x == a.deep_view(),
            y == b.deep_view(),
            i <= a.len(),
            i <= b.len(),
            list_lt(x, y) == list_lt(x.skip(i as int), y.skip(i as int)),
        decreases a.len() - i,
    {
        assert(x.skip(i as int).drop_first() =~= x.skip(i + 1));
        assert(y.skip(i as int).drop_first() =~= y.skip(i + 1));
        assert(x[i as int] == a@[i as int]@ && y[i as int] == b@[i as int]@);
        i += 1;
    }
    if i == a.len() {
        i < b.len()
    } else if i == b.len() {
        false
    } else {
        assert(x.skip(i as int)[0] == a@[i as int]@ && y.skip(i as int)[0] == b@[i as int]@);
        string_less(&a[i], &b[i])
    }
}

/// Names in order: no name sorts before the one ahead of it.
pub open spec fn names_sorted(s: Seq<Seq<char>>) -> bool {
    forall|k: int, l: int| #![trigger s[k], s[l]] 0 <= k && l == k + 1 && l < s.len() ==> !str_lt(s[l], s[k])
}

/// Each list sorts strictly before the next.
pub open spec fn strictly_increasing(cs: Seq<Seq<Seq<char>>>) -> bool {
    forall|k: int, l: int| #![trigger cs[k], cs[l]] 0 <= k && l == k + 1 && l < cs.len() ==> list_lt(cs[k], cs[l])
}

/// Sorts names as `sort` sorts `String`s.
fn sort_names(v: &Vec<String>) -> (r: Vec<String>)
    ensures
        names_sorted(r.deep_view()),
        r.deep_view().to_multiset() == v.deep_view().to_multiset(),
{
    let ghost vv = v.deep_view();
    let mut out: Vec<String> = Vec::new();
    let mut i: usize = 0;
    assert(out.deep_view() =~= vv.take(0));
    while i < v.len()
        invariant
            vv == v.deep_view(),
            i <= v.len(),
            names_sorted(out.deep_view()),
            out.deep_view().to_multiset() == vv.take(i as int).to_multiset(),
        decreases v.len() - i,
    {
        let x = &v[i];
        let ghost o = out.deep_view();
        let mut p: usize = 0;
        while p < out.len() && !string_less(x, &out[p])
            invariant
                o == out.deep_view(),
                p <= out.len(),
                forall|q: int| 0 <= q < p ==> !str_lt(x@, #[trigger] o[q]),
            decreases out.len() - p,
        {
            assert(o[p as int] == out@[p as int]@);
            p += 1;
        }
        if p < out.len() {
            assert(o[p as int] == out@[p as int]@);
            assert(str_lt(x@, o[p as int]));
            proof {
                lemma_str_lt_total(x@, o[p as int]);
            }
        }
        out.insert(p, x.clone());
        let ghost n = out.deep_view();
        assert(n =~= o.insert(p as int, x@));
        assert forall|k: int, l: int| #![trigger n[k], n[l]] 0 <= k && l == k + 1 && l < n.len() implies !str_lt(n[l], n[k]) by {
            if l < p {
                assert(n[k] == o[k] && n[l] == o[l]);
            } else if l == p {
                assert(n[k] == o[k]);
            } else if k == p {
                assert(n[l] == o[p as int]);
            } else {
                assert(n[k] == o[k - 1] && n[l] == o[l - 1]);
            }
        }
        proof {
            vstd::seq_lib::to_multiset_insert(o, p as int, x@);
            vstd::seq_lib::to_multiset_build(vv.take(i as int), x@);
        }
        assert(vv.take(i + 1) =~= vv.take(i as int).push(x@));
        i += 1;
    }
    assert(vv.take(v.len() as int) =~= vv);
    out
}

fn lists_equal(a: &Vec<String>, b: &Vec<String>) -> (r: bool)
    ensures
        r == (a.deep_view() == b.deep_view()),
{
    if a.len() != b.len() {
        assert(a.deep_view().len() != b.deep_view().len());
        return false;
    }
    let mut i: usize = 0;
    while i < a.len()
        invariant
            a.len() == b.len(),
            i <= a.len(),
            forall|k: int| 0 <= k < i ==> #[trigger] a@[k]@ == b@[k]@,
        decreases a.len() - i,
    {
        if a[i] != b[i] {
            assert(a.deep_view()[i as int] != b.deep_view()[i as int]);
            return false;
        }
        i += 1;
    }
    assert(a.deep_view() =~= b.deep_view());
    true
}

/// Adds `c` to a strictly increasing list of lists, where it is not there already.
fn insert_candidate(cs: &mut Vec<Vec<String>>, c: Vec<String>)
    requires
        strictly_increasing(old(cs).deep_view()),
    ensures
        strictly_increasing(final(cs).deep_view()),
        forall|s: Seq<Seq<char>>|
            #[trigger] final(cs).deep_view().contains(s) <==> (old(cs).deep_view().contains(s) || s
                == c.deep_view()),
{
    let ghost o = cs.deep_view();
    let ghost cv = c.deep_view();
    let mut p: usize = 0;
    while p < cs.len() && list_less(&cs[p], &c)
        invariant
            o == cs.deep_view(),
            cv == c.deep_view(),
            p <= cs.len(),
            forall|q: int| 0 <= q < p ==> list_lt(#[trigger] o[q], cv),
        decreases cs.len() - p,
    {
        assert(o[p as int] == cs@[p as int].deep_view());
        p += 1;
    }
    if p < cs.len() {
        assert(o[p as int] == cs@[p as int].deep_view());
        proof {
            lemma_list_lt_total(o[p as int], cv);
        }
        if lists_equal(&cs[p], &c) {
            assert(o.contains(cv));
            return;
        }
    }
    cs.insert(p, c);
    let ghost n = cs.deep_view();
    assert(n =~= o.insert(p as int, cv));
    assert forall|k: int, l: int| #![trigger n[k], n[l]] 0 <= k && l == k + 1 && l < n.len() implies list_lt(n[k], n[l]) by {
        if l < p {
            assert(n[k] == o[k] && n[l] == o[l]);
        } else if l == p {
            assert(n[k] == o[k]);
        } else if k == p {
            assert(n[l] == o[p as int]);
            if o[p as int] == cv {
                assert(false);
            }
        } else {
            assert(n[k] == o[k - 1] && n[l] == o[l - 1]);
        }
    }
    assert forall|s: Seq<Seq<char>>| #[trigger] n.contains(s) <==> (o.contains(s) || s == cv) by {
        if n.contains(s) {
            let k = choose|k: int| 0 <= k < n.len() && n[k] == s;
            if k < p {
                assert(o[k] == s);
            } else if k > p {
                assert(o[k - 1] == s);
            }
        }
        if o.contains(s) {
            let k = choose|k: int| 0 <= k < o.len() && o[k] == s;
            if k < p {
                assert(n[k] == s);
            } else {
                assert(n[k + 1] == s);
            }
        }
        if s == cv {
            assert(n[p as int] == s);
        }
    }
}

/// A name that can share an affix: it is not in an antonym pair and has two words or more.
pub open spec fn eligible(names: Seq<Seq<char>>, x: Seq<char>) -> bool {
    !flagged(names, x) && spec_words(x).len() >= 2
}

/// The words two names must share: all but the last (`first`), or all but the first.
pub open spec fn key_of_words(w: Seq<Seq<char>>, first: bool) -> (bool, Seq<Seq<char>>) {
    if first {
        (true, w.take(w.len() - 1))
    } else {
        (false, w.skip(1))
    }
}

pub open spec fn key_of(x: Seq<char>, first: bool) -> (bool, Seq<Seq<char>>) {
    key_of_words(spec_words(x), first)
}

/// The eligible names among the first `n` whose key is `key`, in order.
pub open spec fn members_upto(names: Seq<Seq<char>>, key: (bool, Seq<Seq<char>>), n: int) -> Seq<Seq<char>>
    decreases n,
{
    if n <= 0 {
        seq![]
    } else {
        let rest = members_upto(names, key, n - 1);
        if eligible(names, names[n - 1]) && key_of(names[n - 1], key.0) == key {
            rest.push(names[n - 1])
        } else {
            rest
        }
    }
}

/// The names that share the key `key`.
pub open spec fn group_members(names: Seq<Seq<char>>, key: (bool, Seq<Seq<char>>)) -> Seq<Seq<char>> {
    members_upto(names, key, names.len() as int)
}

/// Words run together.
pub open spec fn concat_all(ws: Seq<Seq<char>>) -> Seq<char>
    decreases ws.len(),
{
    if ws.len() == 0 {
        seq![]
    } else {
        concat_all(ws.drop_last()) + ws.last()
    }
}

/// A group worth asking about: two names or more, sharing at least four bytes of words.
pub open spec fn qualifies(names: Seq<Seq<char>>, key: (bool, Seq<Seq<char>>)) -> bool {
    &&& group_members(names, key).len() >= 2
    &&& vstd::utf8::encode_utf8(concat_all(key.1)).len() >= 4
}

/// A key some eligible name has.
pub open spec fn is_group_key(names: Seq<Seq<char>>, key: (bool, Seq<Seq<char>>)) -> bool {
    exists|y: int| 0 <= y < names.len() && eligible(names, names[y]) && #[trigger] key_of(names[y], key.0) == key
}

/// A candidate: the sorted members of a group worth asking about.
pub open spec fn is_candidate(names: Seq<Seq<char>>, c: Seq<Seq<char>>) -> bool {
    &&& names_sorted(c)
    &&& exists|key: (bool, Seq<Seq<char>>)|
        is_group_key(names, key) && #[trigger] qualifies(names, key) && c.to_multiset() == group_members(
            names,
            key,
        ).to_multiset()
}

/// Some list of `cs` holds the names `m`, in some order.
pub open spec fn represented(cs: Seq<Seq<Seq<char>>>, m: Seq<Seq<char>>) -> bool {
    exists|k: int| 0 <= k < cs.len() && #[trigger] cs[k].to_multiset() == m.to_multiset()
}

/// The candidates of rule 10: the sorted groups worth asking about, each once, in order.
pub open spec fn candidates_ok(names: Seq<Seq<char>>, cs: Seq<Seq<Seq<char>>>) -> bool {
    &&& strictly_increasing(cs)
    &&& forall|k: int| 0 <= k < cs.len() ==> is_candidate(names, #[trigger] cs[k])
    &&& forall|key: (bool, Seq<Seq<char>>)|
        is_group_key(names, key) && #[trigger] qualifies(names, key) ==> represented(
            cs,
            group_members(names, key),
        )
}

proof fn lemma_flagged_step(nv: Seq<Seq<char>>, i: int, j: int)
    requires
        0 <= i < j < nv.len(),
    ensures
        forall|s: Seq<char>|
            #[trigger] flagged_before(nv, s, i, j + 1) == (flagged_before(nv, s, i, j) || flags_pair(nv, i, j, s)),
{
    assert forall|s: Seq<char>| #[trigger] flagged_before(nv, s, i, j + 1) == (flagged_before(nv, s, i, j) || flags_pair(nv, i, j, s)) by {
        if flagged_before(nv, s, i, j + 1) {
            let (a, b) = choose|a: int, b: int|
                0 <= a < b < nv.len() && (a < i || (a == i && b < j + 1)) && #[trigger] flags_pair(nv, a, b, s);
            if !(a == i && b == j) {
                assert(flagged_before(nv, s, i, j));
            }
        }
        if flagged_before(nv, s, i, j) {
            let (a, b) = choose|a: int, b: int|
                0 <= a < b < nv.len() && (a < i || (a == i && b < j)) && #[trigger] flags_pair(nv, a, b, s);
            assert(flags_pair(nv, a, b, s));
        }
        if flags_pair(nv, i, j, s) {
            assert(flagged_before(nv, s, i, j + 1));
        }
    }
}

proof fn lemma_flagged_row_start(nv: Seq<Seq<char>>, i: int)
    requires
        0 <= i < nv.len(),
    ensures
        forall|s: Seq<char>| #[trigger] flagged_before(nv, s, i, i + 1) == flagged_before(nv, s, i, 0),
{
    assert forall|s: Seq<char>| #[trigger] flagged_before(nv, s, i, i + 1) == flagged_before(nv, s, i, 0) by {
        if flagged_before(nv, s, i, i + 1) {
            let (a, b) = choose|a: int, b: int|
                0 <= a < b < nv.len() && (a < i || (a == i && b < i + 1)) && #[trigger] flags_pair(nv, a, b, s);
            assert(flags_pair(nv, a, b, s));
        }
        if flagged_before(nv, s, i, 0) {
            let (a, b) = choose|a: int, b: int|
                0 <= a < b < nv.len() && (a < i || (a == i && b < 0)) && #[trigger] flags_pair(nv, a, b, s);
            assert(flags_pair(nv, a, b, s));
        }
    }
}

proof fn lemma_flagged_row_end(nv: Seq<Seq<char>>, i: int)
    requires
        0 <= i < nv.len(),
    ensures
        forall|s: Seq<char>|
            #[trigger] flagged_before(nv, s, i + 1, 0) == flagged_before(nv, s, i, nv.len() as int),
{
    assert forall|s: Seq<char>| #[trigger] flagged_before(nv, s, i + 1, 0) == flagged_before(nv, s, i, nv.len() as int) by {
        if flagged_before(nv, s, i + 1, 0) {
            let (a, b) = choose|a: int, b: int|
                0 <= a < b < nv.len() && (a < i + 1 || (a == i + 1 && b < 0)) && #[trigger] flags_pair(nv, a, b, s);
            assert(flags_pair(nv, a, b, s));
        }
        if flagged_before(nv, s, i, nv.len() as int) {
            let (a, b) = choose|a: int, b: int|
                0 <= a < b < nv.len() && (a < i || (a == i && b < nv.len())) && #[trigger] flags_pair(nv, a, b, s);
            assert(flags_pair(nv, a, b, s));
        }
    }
}

proof fn lemma_represented_grows(old: Seq<Seq<Seq<char>>>, new: Seq<Seq<Seq<char>>>, m: Seq<Seq<char>>)
    requires
        forall|s: Seq<Seq<char>>| #[trigger] old.contains(s) ==> new.contains(s),
        represented(old, m),
    ensures
        represented(new, m),
{
    let k = choose|k: int| 0 <= k < old.len() && #[trigger] old[k].to_multiset() == m.to_multiset();
    assert(old.contains(old[k]));
    assert(new.contains(old[k]));
    let j = choose|j: int| 0 <= j < new.len() && new[j] == old[k];
    assert(new[j].to_multiset() == m.to_multiset());
}

fn contains_string(v: &Vec<String>, s: &String) -> (r: bool)
    ensures
        r == name_views(v@).contains(s@),
{
    let mut i: usize = 0;
    while i < v.len()
        invariant
            i <= v.len(),
            forall|k: int| 0 <= k < i ==> #[trigger] v@[k]@ != s@,
        decreases v.len() - i,
    {
        if v[i] == *s {
            assert(name_views(v@)[i as int] == s@);
            return true;
        }
        i += 1;
    }
    assert forall|k: int| 0 <= k < name_views(v@).len() implies name_views(v@)[k] != s@ by {
        assert(name_views(v@)[k] == v@[k]@);
    }
    false
}

fn key_words(w: &Vec<String>, first: bool) -> (r: Vec<String>)
    requires
        w.len() >= 2,
    ensures
        (first, r.deep_view()) == key_of_words(w.deep_view(), first),
{
    let (from, to) = if first {
        (0, w.len() - 1)
    } else {
        (1, w.len())
    };
    let mut out: Vec<String> = Vec::new();
    let mut i = from;
    while i < to
        invariant
            from <= i <= to <= w.len(),
            out.deep_view() =~= w.deep_view().subrange(from as int, i as int),
        decreases to - i,
    {
        let ghost before = out.deep_view();
        out.push(w[i].clone());
        assert(out.deep_view() =~= before.push(w.deep_view()[i as int]));
        i += 1;
    }
    out
}

fn concat_bytes(key: &Vec<String>) -> (r: usize)
    ensures
        r == vstd::utf8::encode_utf8(concat_all(key.deep_view())).len(),
{
    let ghost kv = key.deep_view();
    let mut cs: Vec<char> = Vec::new();
    let mut i: usize = 0;
    assert(kv.take(0) =~= seq![]);
    while i < key.len()
        invariant
            kv == key.deep_view(),
            i <= key.len(),
            cs@ == concat_all(kv.take(i as int)),
        decreases key.len() - i,
    {
        assert(kv.take(i + 1).drop_last() =~= kv.take(i as int));
        assert(kv.take(i + 1).last() == key@[i as int]@);
        text::push_string(&mut cs, &key[i]);
        i += 1;
    }
    assert(kv.take(key.len() as int) =~= kv);
    let joined = text::string_of(cs.as_slice());
    let bytes = joined.as_str().as_bytes();
    bytes.len()
}

/// Consistency of the per-name data `rule_10` computes once.
pub open spec fn name_data(names: Seq<String>, ws: Seq<Vec<String>>, el: Seq<bool>) -> bool {
    &&& ws.len() == names.len()
    &&& el.len() == names.len()
    &&& forall|k: int| 0 <= k < names.len() ==> #[trigger] ws[k].deep_view() == spec_words(names[k]@)
    &&& forall|k: int| 0 <= k < names.len() ==> #[trigger] el[k] == eligible(name_views(names), names[k]@)
}

fn members_of(names: &[String], ws: &Vec<Vec<String>>, el: &Vec<bool>, first: bool, key: &Vec<String>) -> (r: Vec<String>)
    requires
        name_data(names@, ws@, el@),
    ensures
        r.deep_view() == group_members(name_views(names@), (first, key.deep_view())),
{
    let ghost nv = name_views(names@);
    let ghost k = (first, key.deep_view());
    let mut out: Vec<String> = Vec::new();
    let mut y: usize = 0;
    assert(out.deep_view() =~= members_upto(nv, k, 0));
    while y < names.len()
        invariant
            name_data(names@, ws@, el@),
            nv == name_views(names@),
            k == (first, key.deep_view()),
            y <= names.len(),
            out.deep_view() == members_upto(nv, k, y as int),
        decreases names.len() - y,
    {
        assert(nv[y as int] == names@[y as int]@);
        let ghost before = out.deep_view();
        if el[y] {
            assert(ws@[y as int].deep_view() == spec_words(nv[y as int]));
            let kw = key_words(&ws[y], first);
            if lists_equal(&kw, key) {
                out.push(names[y].clone());
                assert(out.deep_view() =~= before.push(nv[y as int]));
            }
        }
        y += 1;
    }
    out
}

proof fn lemma_key_of_first(x: Seq<char>, first: bool)
    ensures
        key_of(x, first).0 == first,
{
}

fn consider(cands: &mut Vec<Vec<String>>, names: &[String], ws: &Vec<Vec<String>>, el: &Vec<bool>, x: usize, first: bool)
    requires
        name_data(names@, ws@, el@),
        x < names.len(),
        el@[x as int],
        strictly_increasing(old(cands).deep_view()),
        forall|k: int| 0 <= k < old(cands).deep_view().len() ==> is_candidate(name_views(names@), #[trigger] old(cands).deep_view()[k]),
    ensures
        strictly_increasing(final(cands).deep_view()),
        forall|k: int| 0 <= k < final(cands).deep_view().len() ==> is_candidate(name_views(names@), #[trigger] final(cands).deep_view()[k]),
        forall|s: Seq<Seq<char>>| #[trigger] old(cands).deep_view().contains(s) ==> final(cands).deep_view().contains(s),
        qualifies(name_views(names@), key_of(names@[x as int]@, first)) ==> represented(
            final(cands).deep_view(),
            group_members(name_views(names@), key_of(names@[x as int]@, first)),
        ),
{
    let ghost nv = name_views(names@);
    assert(nv[x as int] == names@[x as int]@);
    assert(ws@[x as int].deep_view() == spec_words(nv[x as int]));
    let key = key_words(&ws[x], first);
    let ghost kk = key_of(nv[x as int], first);
    assert(kk == (first, key.deep_view()));
    let members = members_of(names, ws, el, first, &key);
    if members.len() >= 2 && concat_bytes(&key) >= 4 {
        let sorted = sort_names(&members);
        proof {
            assert(eligible(nv, nv[x as int]));
            assert(is_group_key(nv, kk));
            assert(qualifies(nv, kk));
            assert(is_candidate(nv, sorted.deep_view()));
        }
        let ghost o = cands.deep_view();
        let ghost sv = sorted.deep_view();
        insert_candidate(cands, sorted);
        proof {
            let n = cands.deep_view();
            assert forall|k: int| 0 <= k < n.len() implies is_candidate(nv, #[trigger] n[k]) by {
                assert(n.contains(n[k]));
                if n[k] != sv {
                    assert(o.contains(n[k]));
                    let j = choose|j: int| 0 <= j < o.len() && o[j] == n[k];
                    assert(is_candidate(nv, o[j]));
                }
            }
            assert(n.contains(sv));
            let j = choose|j: int| 0 <= j < n.len() && n[j] == sv;
            assert(n[j].to_multiset() == group_members(nv, kk).to_multiset());
            assert(represented(n, group_members(nv, kk)));
        }
    } else {
        assert(!qualifies(nv, kk));
    }
}

/// Known antonym pairs are flagged mechanically; other shared affixes are returned as
/// candidates for judgment.
pub fn rule_10(unit: &Unit, names: &[String]) -> (r: (Vec<Finding>, Vec<Vec<String>>))
    ensures
        finding_models(r.0@) == affix_findings(unit.model(), name_views(names@), names@.len() as int),
        candidates_ok(name_views(names@), r.1.deep_view()),
{
    let ghost nv = name_views(names@);
    let ghost u = unit.model();
    let n = names.len();
    let mut ws: Vec<Vec<String>> = Vec::new();
    let mut i: usize = 0;
    while i < n
        invariant
            n == names@.len(),
            i <= n,
            ws@.len() == i,
            forall|k: int| 0 <= k < i ==> #[trigger] ws@[k].deep_view() == spec_words(names@[k]@),
        decreases n - i,
    {
        ws.push(words(names[i].as_str()));
        i += 1;
    }
    let mut findings: Vec<Finding> = Vec::new();
    let mut fl: Vec<String> = Vec::new();
    let mut i: usize = 0;
    assert(finding_models(findings@) =~= seq![]);
    while i < n
        invariant
            n == names@.len(),
            nv == name_views(names@),
            u == unit.model(),
            ws@.len() == n,
            forall|k: int| 0 <= k < n ==> #[trigger] ws@[k].deep_view() == spec_words(names@[k]@),
            i <= n,
            finding_models(findings@) == affix_findings(u, nv, i as int),
            forall|s: Seq<char>| #[trigger] name_views(fl@).contains(s) <==> flagged_before(nv, s, i as int, 0),
        decreases n - i,
    {
        proof {
            lemma_flagged_row_start(nv, i as int);
        }
        let mut j = i + 1;
        assert(finding_models(findings@) =~= affix_findings(u, nv, i as int) + row_findings(u, nv, i as int, j as int));
        while j < n
            invariant
                n == names@.len(),
                nv == name_views(names@),
                u == unit.model(),
                ws@.len() == n,
                forall|k: int| 0 <= k < n ==> #[trigger] ws@[k].deep_view() == spec_words(names@[k]@),
                i < n,
                i + 1 <= j <= n,
                finding_models(findings@) == affix_findings(u, nv, i as int) + row_findings(u, nv, i as int, j as int),
                forall|s: Seq<char>| #[trigger] name_views(fl@).contains(s) <==> flagged_before(nv, s, i as int, j as int),
            decreases n - j,
        {
            assert(nv[i as int] == names@[i as int]@ && nv[j as int] == names@[j as int]@);
            proof {
                lemma_flagged_step(nv, i as int, j as int);
            }
            let ghost before = findings@;
            let ghost fl_before = name_views(fl@);
            match pair_finding_of(unit, &names[i], &names[j], &ws[i], &ws[j]) {
                Some(f) => {
                    findings.push(f);
                    fl.push(names[i].clone());
                    fl.push(names[j].clone());
                    assert(finding_models(findings@) =~= finding_models(before).push(f.model()));
                    assert(name_views(fl@) =~= fl_before.push(nv[i as int]).push(nv[j as int]));
                    assert forall|s: Seq<char>| #[trigger] name_views(fl@).contains(s) <==> flagged_before(nv, s, i as int, j + 1) by {
                        if name_views(fl@).contains(s) && !fl_before.contains(s) {
                            let k = choose|k: int| 0 <= k < name_views(fl@).len() && name_views(fl@)[k] == s;
                            if k < fl_before.len() {
                                assert(fl_before[k] == s);
                            }
                        }
                        if fl_before.contains(s) {
                            let k = choose|k: int| 0 <= k < fl_before.len() && fl_before[k] == s;
                            assert(name_views(fl@)[k] == s);
                        }
                        if s == nv[i as int] {
                            assert(name_views(fl@)[fl_before.len() as int] == s);
                        }
                        if s == nv[j as int] {
                            assert(name_views(fl@)[fl_before.len() + 1int] == s);
                        }
                    }
                },
                None => {
                    assert(finding_models(findings@) =~= finding_models(before) + opt_seq(
                        pair_finding(u, nv[i as int], nv[j as int]),
                    ));
                },
            }
            j += 1;
        }
        proof {
            lemma_flagged_row_end(nv, i as int);
        }
        i += 1;
    }
    let mut el: Vec<bool> = Vec::new();
    let mut x: usize = 0;
    while x < n
        invariant
            n == names@.len(),
            nv == name_views(names@),
            ws@.len() == n,
            forall|k: int| 0 <= k < n ==> #[trigger] ws@[k].deep_view() == spec_words(names@[k]@),
            forall|s: Seq<char>| #[trigger] name_views(fl@).contains(s) <==> flagged(nv, s),
            x <= n,
            el@.len() == x,
            forall|k: int| 0 <= k < x ==> #[trigger] el@[k] == eligible(nv, names@[k]@),
        decreases n - x,
    {
        assert(ws@[x as int].deep_view() == spec_words(names@[x as int]@));
        let e = ws[x].len() >= 2 && !contains_string(&fl, &names[x]);
        el.push(e);
        x += 1;
    }
    let mut cands: Vec<Vec<String>> = Vec::new();
    let mut x: usize = 0;
    while x < n
        invariant
            n == names@.len(),
            nv == name_views(names@),
            name_data(names@, ws@, el@),
            x <= n,
            strictly_increasing(cands.deep_view()),
            forall|k: int| 0 <= k < cands.deep_view().len() ==> is_candidate(nv, #[trigger] cands.deep_view()[k]),
            forall|y: int, b: bool|
                0 <= y < x && eligible(nv, nv[y]) && #[trigger] qualifies(nv, key_of(nv[y], b)) ==> represented(
                    cands.deep_view(),
                    group_members(nv, key_of(nv[y], b)),
                ),
        decreases n - x,
    {
        assert(nv[x as int] == names@[x as int]@);
        if el[x] {
            let ghost c0 = cands.deep_view();
            consider(&mut cands, names, &ws, &el, x, true);
            let ghost c1 = cands.deep_view();
            consider(&mut cands, names, &ws, &el, x, false);
            let ghost c2 = cands.deep_view();
            assert forall|y: int, b: bool|
                0 <= y < x + 1 && eligible(nv, nv[y]) && #[trigger] qualifies(nv, key_of(nv[y], b)) implies represented(
                    c2,
                    group_members(nv, key_of(nv[y], b)),
                ) by {
                if y < x {
                    lemma_represented_grows(c0, c1, group_members(nv, key_of(nv[y], b)));
                    lemma_represented_grows(c1, c2, group_members(nv, key_of(nv[y], b)));
                } else if b {
                    lemma_represented_grows(c1, c2, group_members(nv, key_of(nv[y], b)));
                }
            }
        }
        x += 1;
    }
    proof {
        let cs = cands.deep_view();
        assert forall|key: (bool, Seq<Seq<char>>)| is_group_key(nv, key) && #[trigger] qualifies(nv, key) implies represented(
            cs,
            group_members(nv, key),
        ) by {
            let y = choose|y: int| 0 <= y < nv.len() && eligible(nv, nv[y]) && #[trigger] key_of(nv[y], key.0) == key;
            assert(qualifies(nv, key_of(nv[y], key.0)));
        }
    }
    (findings, cands)
}
} // verus!
