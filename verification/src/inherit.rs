//! Rules 6 and 8: the inheritance and the interfaces a diff adds, and what the repository says
//! of them. The repository is a list of `(path, source)` files in increasing path order.

use crate::diff::{entries, listing, pair_view, strings};
use crate::pattern::{self, regex_captures, regex_escaped, regex_is_match};
use crate::rules::{body_statements, is_docstring, spec_body_statements, spec_is_docstring};
use crate::text::{self, ends_with, find_char, has_char, trim};
use crate::tree::{parsed_from, parses, ParsedFile};
use std::collections::BTreeMap;
use vstd::prelude::*;

verus! {

/// `class A extends B` (groups: 1 the class, 2 the base).
pub const EXTENDS: &'static str = r"\bclass\s+(?P<cls>\w+)(?:<[^>]*>)?\s+extends\s+(?P<base>[\w.\\]+)";

/// A Python class header with bases (groups: 1 the class, 2 the bases).
pub const PY_CLASS: &'static str = r"^\s*class\s+(?P<cls>\w+)\s*\((?P<bases>[^)]*)\)\s*:";

/// An interface, trait or protocol declaration (group 1: its name).
pub const INTERFACE_DECL: &'static str = r"\b(?:interface|trait|protocol)\s+(?P<name>\w+)";

/// Paths of tests and test doubles.
pub const TEST_PATH: &'static str = r"(?i)(^|/)(tests?|spec|__tests__|mocks?|fakes?|stubs?|fixtures)(/|$)|[._-](test|spec|mock|fake|stub)s?\.";

/// The text of group `i` of a match; empty when the group took no part in it.
pub open spec fn group(caps: Seq<Option<Seq<char>>>, i: int) -> Seq<char> {
    if 0 <= i < caps.len() {
        match caps[i] {
            Some(t) => t,
            None => seq![],
        }
    } else {
        seq![]
    }
}

pub(crate) fn group_of(caps: &Vec<Option<String>>, i: usize) -> (r: String)
    ensures
        r@ == group(caps.deep_view(), i as int),
{
    if i < caps.len() {
        match &caps[i] {
            Some(t) => t.clone(),
            None => String::new(),
        }
    } else {
        String::new()
    }
}

pub open spec fn is_path_sep(c: char) -> bool {
    c == '.' || c == '\\'
}

/// The text after the last `.` or `\` of `s`, or all of `s` when there is none.
pub open spec fn after_last_sep(s: Seq<char>) -> Seq<char>
    decreases s.len(),
{
    if s.len() == 0 {
        s
    } else if is_path_sep(s.last()) {
        seq![]
    } else {
        after_last_sep(s.drop_last()).push(s.last())
    }
}

/// A base as written, without type arguments (`[..]`) and without its module path.
pub open spec fn spec_short(name: Seq<char>) -> Seq<char> {
    let t = trim(name);
    after_last_sep(t.take(find_char(t, '[') as int))
}

proof fn lemma_after_last_sep(s: Seq<char>, k: int)
    requires
        0 <= k <= s.len(),
        forall|j: int| k <= j < s.len() ==> !is_path_sep(#[trigger] s[j]),
        k == 0 || is_path_sep(s[k - 1]),
    ensures
        after_last_sep(s) == s.skip(k),
    decreases s.len(),
{
    if s.len() == k {
        if k > 0 {
            assert(s.last() == s[k - 1]);
        }
        assert(s.skip(k).len() == 0);
    } else {
        lemma_after_last_sep(s.drop_last(), k);
        assert(s.skip(k) =~= s.drop_last().skip(k).push(s.last()));
    }
}

fn short_chars(name: &Vec<char>) -> (r: Vec<char>)
    ensures
        r@ == spec_short(name@),
{
    let t = text::trimmed(name);
    let head = text::before_char(&t, '[');
    let mut k = head.len();
    while k > 0 && !(head[k - 1] == '.' || head[k - 1] == '\\')
        invariant
            k <= head.len(),
            forall|j: int| k <= j < head@.len() ==> !is_path_sep(#[trigger] head@[j]),
        decreases k,
    {
        k -= 1;
    }
    proof {
        lemma_after_last_sep(head@, k as int);
    }
    text::slice(&head, k, head.len())
}

/// A base without type arguments and module path: `typing.Generic[T]` gives `Generic`.
pub fn short(name: &str) -> (r: String)
    ensures
        r@ == spec_short(name@),
{
    let v = text::chars_of(name);
    let s = short_chars(&v);
    text::string_of(s.as_slice())
}

/// Bases that are the language's or a framework's idiom, not a design choice.
pub open spec fn spec_is_idiom_base(b: Seq<char>) -> bool {
    ||| b == "Exception"@
    ||| b == "BaseException"@
    ||| b == "Error"@
    ||| b == "Protocol"@
    ||| b == "ABC"@
    ||| b == "Enum"@
    ||| b == "IntEnum"@
    ||| b == "StrEnum"@
    ||| b == "Flag"@
    ||| b == "TypedDict"@
    ||| b == "NamedTuple"@
    ||| b == "BaseModel"@
    ||| b == "object"@
    ||| b == "Generic"@
    ||| b == "TestCase"@
    ||| b == "Component"@
    ||| b == "PureComponent"@
}

/// A base worth a finding: named, not an idiom, not an exception type.
pub open spec fn kept_base(b: Seq<char>) -> bool {
    &&& b.len() > 0
    &&& !spec_is_idiom_base(b)
    &&& !ends_with(b, "Error"@)
    &&& !ends_with(b, "Exception"@)
}

fn is_kept_base(b: &Vec<char>) -> (r: bool)
    ensures
        r == kept_base(b@),
{
    let idiom = text::is(b, "Exception") || text::is(b, "BaseException") || text::is(b, "Error")
        || text::is(b, "Protocol") || text::is(b, "ABC") || text::is(b, "Enum") || text::is(
        b,
        "IntEnum",
    ) || text::is(b, "StrEnum") || text::is(b, "Flag") || text::is(b, "TypedDict") || text::is(
        b,
        "NamedTuple",
    ) || text::is(b, "BaseModel") || text::is(b, "object") || text::is(b, "Generic") || text::is(
        b,
        "TestCase",
    ) || text::is(b, "Component") || text::is(b, "PureComponent");
    b.len() > 0 && !idiom && !text::finishes(b, "Error") && !text::finishes(b, "Exception")
}

// ---------------------------------------------------------------- rule 6: what the diff adds

pub open spec fn triple_view(t: (usize, String, String)) -> (usize, Seq<char>, Seq<char>) {
    (t.0, t.1@, t.2@)
}

pub open spec fn triple_views(ts: Seq<(usize, String, String)>) -> Seq<(usize, Seq<char>, Seq<char>)> {
    ts.map_values(|t: (usize, String, String)| triple_view(t))
}

/// A base list cut at the commas that stand outside square brackets, `cur` holding the base
/// read so far and `depth` the brackets open around it: `Generic[K, V], Base` gives
/// `Generic[K, V]` and ` Base`, so the type arguments stay with their base.
pub open spec fn split_outside(s: Seq<char>, depth: nat, cur: Seq<char>) -> Seq<Seq<char>>
    decreases s.len(),
{
    if s.len() == 0 {
        seq![cur]
    } else {
        let c = s[0];
        let rest = s.drop_first();
        if c == ',' && depth == 0 {
            seq![cur] + split_outside(rest, 0, seq![])
        } else if c == '[' {
            split_outside(rest, depth + 1, cur.push(c))
        } else if c == ']' {
            split_outside(
                rest,
                if depth > 0 {
                    (depth - 1) as nat
                } else {
                    0
                },
                cur.push(c),
            )
        } else {
            split_outside(rest, depth, cur.push(c))
        }
    }
}

/// The bases of a class header's base list, split at the commas outside square brackets.
pub open spec fn split_bases(s: Seq<char>) -> Seq<Seq<char>> {
    split_outside(s, 0, seq![])
}

pub open spec fn char_views(vs: Seq<Vec<char>>) -> Seq<Seq<char>> {
    vs.map_values(|v: Vec<char>| v@)
}

fn bases_of(v: &Vec<char>) -> (r: Vec<Vec<char>>)
    ensures
        char_views(r@) == split_bases(v@),
{
    let mut out: Vec<Vec<char>> = Vec::new();
    let mut cur: Vec<char> = Vec::new();
    let mut depth: usize = 0;
    let mut i: usize = 0;
    assert(v@.skip(0) =~= v@);
    assert(char_views(out@) =~= seq![]);
    assert(char_views(out@) + split_outside(v@.skip(0), 0, cur@) =~= split_bases(v@));
    while i < v.len()
        invariant
            i <= v.len(),
            depth <= i,
            char_views(out@) + split_outside(v@.skip(i as int), depth as nat, cur@) == split_bases(v@),
        decreases v.len() - i,
    {
        let c = v[i];
        let ghost s = v@.skip(i as int);
        assert(s[0] == c);
        assert(s.drop_first() =~= v@.skip(i + 1));
        let ghost before = char_views(out@);
        if c == ',' && depth == 0 {
            let done = cur;
            cur = Vec::new();
            out.push(done);
            assert(char_views(out@) =~= before.push(done@));
            assert(char_views(out@) + split_outside(v@.skip(i + 1), 0, cur@) =~= before + (seq![done@]
                + split_outside(v@.skip(i + 1), 0, seq![])));
        } else {
            cur.push(c);
            if c == '[' {
                depth += 1;
            } else if c == ']' {
                if depth > 0 {
                    depth -= 1;
                }
            }
        }
        i += 1;
    }
    assert(v@.skip(v.len() as int).len() == 0);
    let ghost before = char_views(out@);
    out.push(cur);
    assert(char_views(out@) =~= before + seq![cur@]);
    out
}

/// The bases of a Python class header that are not keyword arguments (`metaclass=...`).
pub open spec fn py_bases(line: usize, cls: Seq<char>, parts: Seq<Seq<char>>) -> Seq<(usize, Seq<char>, Seq<char>)>
    decreases parts.len(),
{
    if parts.len() == 0 {
        seq![]
    } else {
        let rest = py_bases(line, cls, parts.drop_last());
        if has_char(parts.last(), '=') {
            rest
        } else {
            rest.push((line, cls, spec_short(parts.last())))
        }
    }
}

/// What one added line declares: an `extends`, else the bases of a Python class header.
pub open spec fn inheritance_of_line(line: usize, text: Seq<char>) -> Seq<(usize, Seq<char>, Seq<char>)> {
    match regex_captures(EXTENDS@, text) {
        Some(c) => seq![(line, group(c, 1), spec_short(group(c, 2)))],
        None => match regex_captures(PY_CLASS@, text) {
            Some(c) => py_bases(line, group(c, 1), split_bases(group(c, 2))),
            None => seq![],
        },
    }
}

pub open spec fn inheritance_of(es: Seq<(usize, Seq<char>)>) -> Seq<(usize, Seq<char>, Seq<char>)>
    decreases es.len(),
{
    if es.len() == 0 {
        seq![]
    } else {
        inheritance_of(es.drop_last()) + inheritance_of_line(es.last().0, es.last().1)
    }
}

/// The triples whose base is worth a finding, in order.
pub open spec fn kept(ts: Seq<(usize, Seq<char>, Seq<char>)>) -> Seq<(usize, Seq<char>, Seq<char>)>
    decreases ts.len(),
{
    if ts.len() == 0 {
        seq![]
    } else if kept_base(ts.last().2) {
        kept(ts.drop_last()).push(ts.last())
    } else {
        kept(ts.drop_last())
    }
}

/// Rule 6's input: every (line, class, base) the added lines declare, in line order, without
/// exceptions and idiomatic bases. A Python base list is split only at the commas outside square
/// brackets, so a type argument (`Generic[K, V]`) is never taken for a base of its own.
pub open spec fn spec_inheritance_in(added: Map<usize, Seq<char>>) -> Seq<(usize, Seq<char>, Seq<char>)> {
    kept(inheritance_of(listing(added)))
}

/// The (line, class, base) triples of a Python class header, from what its pattern captured:
/// the class name and the base list. The list is split at the commas outside square brackets,
/// keyword arguments (`metaclass=...`) are left out, and each base loses its type arguments and
/// module path. Which bases are worth a finding is decided after this.
pub fn python_bases(line: usize, cls: &String, bases: &String) -> (r: Vec<(usize, String, String)>)
    ensures
        triple_views(r@) == py_bases(line, cls@, split_bases(bases@)),
{
    let bs = text::chars_of(bases.as_str());
    let parts = bases_of(&bs);
    let ghost ps = split_bases(bases@);
    let mut out: Vec<(usize, String, String)> = Vec::new();
    let mut i: usize = 0;
    assert(ps.take(0) =~= seq![]);
    assert(triple_views(out@) =~= py_bases(line, cls@, ps.take(0)));
    while i < parts.len()
        invariant
            ps == split_bases(bases@),
            parts@.len() == ps.len(),
            forall|k: int| 0 <= k < parts@.len() ==> #[trigger] parts@[k]@ == ps[k],
            i <= parts.len(),
            triple_views(out@) == py_bases(line, cls@, ps.take(i as int)),
        decreases parts.len() - i,
    {
        assert(ps.take(i + 1).drop_last() =~= ps.take(i as int));
        assert(ps.take(i + 1).last() == parts@[i as int]@);
        if !text::contains_char(&parts[i], '=') {
            let b = short_chars(&parts[i]);
            let ghost before = out@;
            out.push((line, cls.clone(), text::string_of(b.as_slice())));
            assert(triple_views(out@) =~= triple_views(before).push((line, cls@, spec_short(ps[i as int]))));
        }
        i += 1;
    }
    assert(ps.take(parts.len() as int) =~= ps);
    out
}

fn inheritance_of_text(line: usize, text: &String, out: &mut Vec<(usize, String, String)>)
    ensures
        triple_views(final(out)@) == triple_views(old(out)@) + inheritance_of_line(line, text@),
{
    match pattern::captures(EXTENDS, text.as_str()) {
        Some(c) => {
            let cls = group_of(&c, 1);
            let base = group_of(&c, 2);
            let b = short(base.as_str());
            out.push((line, cls, b));
            assert(triple_views(out@) =~= triple_views(old(out)@) + inheritance_of_line(line, text@));
        },
        None => match pattern::captures(PY_CLASS, text.as_str()) {
            Some(c) => {
                let cls = group_of(&c, 1);
                let bases = group_of(&c, 2);
                let mut found = python_bases(line, &cls, &bases);
                let ghost before = out@;
                let ghost more = found@;
                out.append(&mut found);
                assert(triple_views(out@) =~= triple_views(before) + triple_views(more));
            },
            None => {
                assert(triple_views(out@) =~= triple_views(old(out)@) + inheritance_of_line(line, text@));
            },
        },
    }
}

/// (line, class, base) for every inheritance the diff adds.
pub fn inheritance_in(added: &BTreeMap<usize, String>) -> (r: Vec<(usize, String, String)>)
    ensures
        triple_views(r@) == spec_inheritance_in(strings(added@)),
{
    let es = entries(added);
    let ghost ls = listing(strings(added@));
    let mut found: Vec<(usize, String, String)> = Vec::new();
    let mut i: usize = 0;
    assert(ls.take(0) =~= seq![]);
    assert(triple_views(found@) =~= seq![]);
    while i < es.len()
        invariant
            es@.map_values(|p: (usize, String)| pair_view(p)) == ls,
            i <= es.len(),
            triple_views(found@) == inheritance_of(ls.take(i as int)),
        decreases es.len() - i,
    {
        assert(ls.take(i + 1).drop_last() =~= ls.take(i as int));
        assert(ls.take(i + 1).last() == pair_view(es@[i as int]));
        inheritance_of_text(es[i].0, &es[i].1, &mut found);
        i += 1;
    }
    assert(ls.take(es.len() as int) =~= ls);
    let ghost all = triple_views(found@);
    let mut out: Vec<(usize, String, String)> = Vec::new();
    let mut k: usize = 0;
    assert(all.take(0) =~= seq![]);
    assert(triple_views(out@) =~= seq![]);
    while k < found.len()
        invariant
            all == triple_views(found@),
            k <= found.len(),
            triple_views(out@) == kept(all.take(k as int)),
        decreases found.len() - k,
    {
        assert(all.take(k + 1).drop_last() =~= all.take(k as int));
        assert(all.take(k + 1).last() == triple_view(found@[k as int]));
        let b = text::chars_of(found[k].2.as_str());
        if is_kept_base(&b) {
            let ghost before = out@;
            out.push((found[k].0, found[k].1.clone(), found[k].2.clone()));
            assert(triple_views(out@) =~= triple_views(before).push(triple_view(found@[k as int])));
        }
        k += 1;
    }
    assert(all.take(found.len() as int) =~= all);
    out
}

// ---------------------------------------------------------------- rule 8: what the diff adds

pub open spec fn pair_views(ps: Seq<(usize, String)>) -> Seq<(usize, Seq<char>)> {
    ps.map_values(|p: (usize, String)| pair_view(p))
}

/// Whether one of a Python class's bases is `Protocol` or `ABC`.
pub open spec fn has_protocol_base(parts: Seq<Seq<char>>) -> bool {
    exists|k: int|
        0 <= k < parts.len() && (spec_short(#[trigger] parts[k]) == "Protocol"@ || spec_short(parts[k])
            == "ABC"@)
}

/// The interface one added line declares: an interface, trait or protocol, or a Python class
/// with a `Protocol` or `ABC` base.
pub open spec fn interface_of_line(line: usize, text: Seq<char>) -> Option<(usize, Seq<char>)> {
    match regex_captures(INTERFACE_DECL@, text) {
        Some(c) => Some((line, group(c, 1))),
        None => match regex_captures(PY_CLASS@, text) {
            Some(c) => if has_protocol_base(split_bases(group(c, 2))) {
                Some((line, group(c, 1)))
            } else {
                None
            },
            None => None,
        },
    }
}

pub open spec fn interfaces_of(es: Seq<(usize, Seq<char>)>) -> Seq<(usize, Seq<char>)>
    decreases es.len(),
{
    if es.len() == 0 {
        seq![]
    } else {
        let rest = interfaces_of(es.drop_last());
        match interface_of_line(es.last().0, es.last().1) {
            Some(found) => rest.push(found),
            None => rest,
        }
    }
}

/// Rule 8's input: (line, name) of every interface the added lines declare, in line order.
pub open spec fn spec_interfaces_in(added: Map<usize, Seq<char>>) -> Seq<(usize, Seq<char>)> {
    interfaces_of(listing(added))
}

/// Whether a Python class header's base list, as its pattern captured it, names `Protocol` or
/// `ABC` among its bases (split at the commas outside square brackets, each without type
/// arguments and module path).
pub fn names_protocol_base(bases: &String) -> (r: bool)
    ensures
        r == has_protocol_base(split_bases(bases@)),
{
    let bs = text::chars_of(bases.as_str());
    let parts = bases_of(&bs);
    let ghost ps = split_bases(bases@);
    let mut i: usize = 0;
    while i < parts.len()
        invariant
            ps == split_bases(bases@),
            parts@.len() == ps.len(),
            forall|k: int| 0 <= k < parts@.len() ==> #[trigger] parts@[k]@ == ps[k],
            i <= parts.len(),
            forall|k: int|
                0 <= k < i ==> !(spec_short(#[trigger] ps[k]) == "Protocol"@ || spec_short(ps[k])
                    == "ABC"@),
        decreases parts.len() - i,
    {
        let s = short_chars(&parts[i]);
        if text::is(&s, "Protocol") || text::is(&s, "ABC") {
            assert(spec_short(ps[i as int]) == s@);
            return true;
        }
        i += 1;
    }
    false
}

fn interface_of_text(line: usize, text: &String) -> (r: Option<(usize, String)>)
    ensures
        r matches Some(p) ==> interface_of_line(line, text@) == Some(pair_view(p)),
        r is None ==> interface_of_line(line, text@) is None,
{
    match pattern::captures(INTERFACE_DECL, text.as_str()) {
        Some(c) => Some((line, group_of(&c, 1))),
        None => match pattern::captures(PY_CLASS, text.as_str()) {
            Some(c) => {
                let bases = group_of(&c, 2);
                if names_protocol_base(&bases) {
                    Some((line, group_of(&c, 1)))
                } else {
                    None
                }
            },
            None => None,
        },
    }
}

/// (line, name) for every interface, trait or protocol the diff adds.
pub fn interfaces_in(added: &BTreeMap<usize, String>) -> (r: Vec<(usize, String)>)
    ensures
        pair_views(r@) == spec_interfaces_in(strings(added@)),
{
    let es = entries(added);
    let ghost ls = listing(strings(added@));
    let mut found: Vec<(usize, String)> = Vec::new();
    let mut i: usize = 0;
    assert(ls.take(0) =~= seq![]);
    assert(pair_views(found@) =~= seq![]);
    while i < es.len()
        invariant
            es@.map_values(|p: (usize, String)| pair_view(p)) == ls,
            i <= es.len(),
            pair_views(found@) == interfaces_of(ls.take(i as int)),
        decreases es.len() - i,
    {
        assert(ls.take(i + 1).drop_last() =~= ls.take(i as int));
        assert(ls.take(i + 1).last() == pair_view(es@[i as int]));
        let ghost before = found@;
        match interface_of_text(es[i].0, &es[i].1) {
            Some(p) => {
                found.push(p);
                assert(pair_views(found@) =~= pair_views(before).push(pair_view(p)));
            },
            None => {},
        }
        i += 1;
    }
    assert(ls.take(es.len() as int) =~= ls);
    found
}


// ---------------------------------------------------------------- the repository

/// The files of a repository as (path, source) texts.
pub open spec fn file_views(repo: Seq<(String, String)>) -> Seq<(Seq<char>, Seq<char>)> {
    repo.map_values(|f: (String, String)| (f.0@, f.1@))
}

/// The pattern of a bodiless contract named `name`.
pub open spec fn contract_pattern(name: Seq<char>) -> Seq<char> {
    r"\b(?:interface|trait|protocol)\s+"@ + regex_escaped(name) + r"\b"@
}

/// The pattern of a Python class header named `name`.
pub open spec fn py_class_pattern(name: Seq<char>) -> Seq<char> {
    r"(?m)^\s*class\s+"@ + regex_escaped(name) + r"\b"@
}

/// The pattern of a class declaration named `name`.
pub open spec fn class_pattern(name: Seq<char>) -> Seq<char> {
    r"\b(?:abstract\s+)?class\s+"@ + regex_escaped(name) + r"\b"@
}

/// Whether a file of the repository settles what `name` is.
pub open spec fn decides(name: Seq<char>, path: Seq<char>, source: Seq<char>) -> bool {
    ||| regex_is_match(contract_pattern(name), source)
    ||| ends_with(path, ".py"@) && regex_is_match(py_class_pattern(name), source)
    ||| regex_is_match(class_pattern(name), source)
}

/// The first file, from the `k`-th on, that settles what `name` is; `files.len()` when none does.
pub open spec fn first_deciding(name: Seq<char>, files: Seq<(Seq<char>, Seq<char>)>, k: int) -> int
    decreases files.len() - k,
{
    if k < 0 || k >= files.len() {
        files.len() as int
    } else if decides(name, files[k].0, files[k].1) {
        k
    } else {
        first_deciding(name, files, k + 1)
    }
}

/// A class statement of the name `name`.
pub open spec fn is_named_class(p: ParsedFile, c: int, name: Seq<char>) -> bool {
    &&& p.kind(c) == "class_definition"@
    &&& p.spec_child_by_field(c, "name"@) matches Some(id) && p.spec_text(id as int) == name
}

/// The first of `ns` that is a class statement named `name`.
pub open spec fn first_named_class(p: ParsedFile, ns: Seq<usize>, name: Seq<char>) -> Option<usize>
    decreases ns.len(),
{
    if ns.len() == 0 {
        None
    } else if 0 <= ns[0] < p.len() && is_named_class(p, ns[0] as int, name) {
        Some(ns[0])
    } else {
        first_named_class(p, ns.drop_first(), name)
    }
}

/// A statement that carries no implementation: `pass`, a `raise`, a docstring or `...`.
pub open spec fn is_stub(p: ParsedFile, s: int) -> bool {
    ||| p.kind(s) == "pass_statement"@
    ||| p.kind(s) == "raise_statement"@
    ||| spec_is_docstring(p, s)
    ||| trim(p.spec_text(s)) == "..."@
}

pub open spec fn method_is_bodiless(p: ParsedFile, m: int) -> bool {
    let st = spec_body_statements(p, m);
    forall|k: int| 0 <= k < st.len() ==> is_stub(p, #[trigger] st[k] as int)
}

pub open spec fn all_bodiless(p: ParsedFile, ms: Seq<usize>) -> bool {
    forall|k: int| 0 <= k < ms.len() ==> method_is_bodiless(p, #[trigger] ms[k] as int)
}

/// Whether the Python class `name` of a parsed file is a bodiless contract; `None` when the
/// file declares no such class outside its functions.
pub open spec fn spec_class_is_bodiless(p: ParsedFile, name: Seq<char>) -> Option<bool> {
    if p.len() == 0 {
        None
    } else {
        match first_named_class(p, p.spec_within(0) + seq![0usize], name) {
            None => None,
            Some(c) => Some(all_bodiless(p, p.spec_outer_functions(c as int))),
        }
    }
}

/// What `python_class_is_bodiless` answers for a file: the answer for the tree its grammar
/// gives, or `None` when it does not parse.
pub open spec fn bodiless_outcome(path: Seq<char>, source: Seq<char>, name: Seq<char>, r: Option<bool>) -> bool {
    if parses(path, source) {
        exists|p: ParsedFile| parsed_from(p, path, source) && #[trigger] spec_class_is_bodiless(p, name) == r
    } else {
        r is None
    }
}

fn is_stub_statement(p: &ParsedFile, s: usize) -> (r: bool)
    requires
        p.wf(),
        s < p.len(),
    ensures
        r == is_stub(*p, s as int),
{
    if p.kind_is(s, "pass_statement") || p.kind_is(s, "raise_statement") || is_docstring(p, s) {
        return true;
    }
    let t = p.text_chars(s);
    let tt = text::trimmed(&t);
    text::is(&tt, "...")
}

fn bodiless_method(p: &ParsedFile, m: usize) -> (r: bool)
    requires
        p.wf(),
        m < p.len(),
    ensures
        r == method_is_bodiless(*p, m as int),
{
    let st = body_statements(p, m);
    let mut k: usize = 0;
    while k < st.len()
        invariant
            p.wf(),
            st@ == spec_body_statements(*p, m as int),
            forall|j: int| 0 <= j < st@.len() ==> #[trigger] st@[j] < p.len(),
            k <= st.len(),
            forall|j: int| 0 <= j < k ==> is_stub(*p, #[trigger] st@[j] as int),
        decreases st.len() - k,
    {
        if !is_stub_statement(p, st[k]) {
            return false;
        }
        k += 1;
    }
    true
}

fn find_named_class(p: &ParsedFile, ns: &Vec<usize>, name: &str) -> (r: Option<usize>)
    requires
        p.wf(),
        forall|j: int| 0 <= j < ns@.len() ==> #[trigger] ns@[j] < p.len(),
    ensures
        r == first_named_class(*p, ns@, name@),
        r matches Some(c) ==> c < p.len(),
{
    let mut i: usize = 0;
    assert(ns@.skip(0) =~= ns@);
    while i < ns.len()
        invariant
            p.wf(),
            forall|j: int| 0 <= j < ns@.len() ==> #[trigger] ns@[j] < p.len(),
            i <= ns.len(),
            first_named_class(*p, ns@, name@) == first_named_class(*p, ns@.skip(i as int), name@),
        decreases ns.len() - i,
    {
        let c = ns[i];
        let ghost rest = ns@.skip(i as int);
        assert(rest[0] == c);
        assert(rest.drop_first() =~= ns@.skip(i + 1));
        let is_class = p.kind_is(c, "class_definition") && match p.child_by_field_name(c, "name") {
            Some(id) => {
                let t = p.text(id);
                text::str_eq(t.as_str(), name)
            },
            None => false,
        };
        if is_class {
            return Some(c);
        }
        i += 1;
    }
    assert(ns@.skip(ns.len() as int).len() == 0);
    None
}

/// Whether the Python class `name` in a parsed file is a bodiless contract: every method's
/// body is only `pass`, `raise`, a docstring or `...`. `None` when there is no such class.
pub fn class_is_bodiless(parsed: &ParsedFile, name: &str) -> (r: Option<bool>)
    requires
        parsed.wf(),
    ensures
        r == spec_class_is_bodiless(*parsed, name@),
{
    let p = parsed;
    if p.nodes.len() == 0 {
        return None;
    }
    let mut ns = p.descendants(0);
    ns.push(0);
    assert(ns@ =~= p.spec_within(0) + seq![0usize]);
    let c = match find_named_class(p, &ns, name) {
        Some(c) => c,
        None => return None,
    };
    let mut ms: Vec<usize> = Vec::new();
    p.collect_functions(c, &mut ms);
    assert(ms@ =~= p.spec_outer_functions(c as int));
    let mut k: usize = 0;
    while k < ms.len()
        invariant
            p.wf(),
            ms@ == p.spec_outer_functions(c as int),
            forall|j: int| 0 <= j < ms@.len() ==> #[trigger] ms@[j] < p.len(),
            p.len() > 0,
            p == parsed,
            first_named_class(*p, p.spec_within(0) + seq![0usize], name@) == Some(c),
            k <= ms.len(),
            forall|j: int| 0 <= j < k ==> method_is_bodiless(*p, #[trigger] ms@[j] as int),
        decreases ms.len() - k,
    {
        if !bodiless_method(p, ms[k]) {
            assert(!method_is_bodiless(*p, ms@[k as int] as int));
            return Some(false);
        }
        k += 1;
    }
    Some(true)
}

/// Parses a Python file and asks whether its class `name` is a bodiless contract.
pub fn python_class_is_bodiless(path: &str, source: &str, name: &str) -> (r: Option<bool>)
    ensures
        bodiless_outcome(path@, source@, name@, r),
{
    let parsed = match ParsedFile::parse(path, source) {
        Some(p) => p,
        None => return None,
    };
    let r = class_is_bodiless(&parsed, name);
    assert(spec_class_is_bodiless(parsed, name@) == r);
    r
}

fn pattern_around(before: &str, name: &Vec<char>, after: &str) -> (r: String)
    ensures
        r@ == before@ + name@ + after@,
{
    let mut p: Vec<char> = Vec::new();
    text::push_str(&mut p, before);
    text::append(&mut p, name);
    text::push_str(&mut p, after);
    text::string_of(p.as_slice())
}

/// What `base_is_interface` answers for `base`: decided by the first file, in path order, that
/// mentions it as a contract (true), as a Python class (whether that class is bodiless, when
/// the file parses) or as a class (false); `None` when no file does.
pub open spec fn verdict_ok(base: Seq<char>, files: Seq<(Seq<char>, Seq<char>)>, r: Option<bool>) -> bool {
    let i = first_deciding(base, files, 0);
    &&& i == files.len() ==> r is None
    &&& i < files.len() ==> if regex_is_match(contract_pattern(base), files[i].1) {
        r == Some(true)
    } else if ends_with(files[i].0, ".py"@) && regex_is_match(py_class_pattern(base), files[i].1) {
        bodiless_outcome(files[i].0, files[i].1, base, r)
    } else {
        r == Some(false)
    }
}

/// Some(true): a bodiless contract; Some(false): a class that carries implementation; None:
/// not in the repository (a library type?). Settled by the first file, in path order, that
/// mentions it.
pub fn base_is_interface(base: &str, repo: &[(String, String)]) -> (r: Option<bool>)
    ensures
        verdict_ok(base@, file_views(repo@), r),
{
    let ghost files = file_views(repo@);
    let escaped = pattern::escape(base);
    let n = text::chars_of(escaped.as_str());
    let contract = pattern_around(r"\b(?:interface|trait|protocol)\s+", &n, r"\b");
    let py_class = pattern_around(r"(?m)^\s*class\s+", &n, r"\b");
    let class = pattern_around(r"\b(?:abstract\s+)?class\s+", &n, r"\b");
    let mut i: usize = 0;
    while i < repo.len()
        invariant
            files == file_views(repo@),
            contract@ == contract_pattern(base@),
            py_class@ == py_class_pattern(base@),
            class@ == class_pattern(base@),
            i <= repo.len(),
            first_deciding(base@, files, 0) == first_deciding(base@, files, i as int),
        decreases repo.len() - i,
    {
        let path = &repo[i].0;
        let source = &repo[i].1;
        assert(files[i as int] == (path@, source@));
        if pattern::is_match(contract.as_str(), source.as_str()) {
            return Some(true);
        }
        let p = text::chars_of(path.as_str());
        if text::finishes(&p, ".py") && pattern::is_match(py_class.as_str(), source.as_str()) {
            return python_class_is_bodiless(path.as_str(), source.as_str(), base);
        }
        if pattern::is_match(class.as_str(), source.as_str()) {
            return Some(false);
        }
        i += 1;
    }
    None
}

/// The patterns by which a file implements `name`.
pub open spec fn implementer_patterns(name: Seq<char>) -> Seq<Seq<char>> {
    let n = regex_escaped(name);
    seq![
        r"\bimplements\b[^{]*\b"@ + n + r"\b"@,
        r"(?m)^\s*class\s+\w+\s*\([^)]*\b"@ + n + r"\b[^)]*\)\s*:"@,
        r"\bimpl(?:<[^>]*>)?\s+"@ + n + r"\b"@,
        r"\bclass\s+\w+[^{\n]*:\s*[^{\n]*\b"@ + n + r"\b"@,
        r"\buse\s+"@ + n + r"\s*;"@,
    ]
}

/// A file that implements `name` and is not a test or a test double.
pub open spec fn is_implementer(name: Seq<char>, path: Seq<char>, source: Seq<char>) -> bool {
    let ps = implementer_patterns(name);
    &&& !regex_is_match(TEST_PATH@, path)
    &&& exists|k: int| 0 <= k < ps.len() && regex_is_match(#[trigger] ps[k], source)
}

pub open spec fn spec_implementers(name: Seq<char>, files: Seq<(Seq<char>, Seq<char>)>) -> Seq<Seq<char>>
    decreases files.len(),
{
    if files.len() == 0 {
        seq![]
    } else {
        let rest = spec_implementers(name, files.drop_last());
        if is_implementer(name, files.last().0, files.last().1) {
            rest.push(files.last().0)
        } else {
            rest
        }
    }
}

/// Files that implement `interface`, not counting test doubles: a mock is not a second
/// implementation.
pub fn implementers(interface: &str, repo: &[(String, String)]) -> (r: Vec<String>)
    ensures
        r@.map_values(|s: String| s@) == spec_implementers(interface@, file_views(repo@)),
{
    let ghost files = file_views(repo@);
    let escaped = pattern::escape(interface);
    let n = text::chars_of(escaped.as_str());
    let mut patterns: Vec<String> = Vec::new();
    patterns.push(pattern_around(r"\bimplements\b[^{]*\b", &n, r"\b"));
    patterns.push(pattern_around(r"(?m)^\s*class\s+\w+\s*\([^)]*\b", &n, r"\b[^)]*\)\s*:"));
    patterns.push(pattern_around(r"\bimpl(?:<[^>]*>)?\s+", &n, r"\b"));
    patterns.push(pattern_around(r"\bclass\s+\w+[^{\n]*:\s*[^{\n]*\b", &n, r"\b"));
    patterns.push(pattern_around(r"\buse\s+", &n, r"\s*;"));
    let ghost ps = implementer_patterns(interface@);
    assert(patterns@.map_values(|s: String| s@) =~= ps);
    let mut out: Vec<String> = Vec::new();
    let mut i: usize = 0;
    assert(files.take(0) =~= seq![]);
    assert(out@.map_values(|s: String| s@) =~= seq![]);
    while i < repo.len()
        invariant
            files == file_views(repo@),
            ps == implementer_patterns(interface@),
            patterns@.len() == ps.len(),
            forall|k: int| 0 <= k < ps.len() ==> #[trigger] patterns@[k]@ == ps[k],
            i <= repo.len(),
            out@.map_values(|s: String| s@) == spec_implementers(interface@, files.take(i as int)),
        decreases repo.len() - i,
    {
        let path = &repo[i].0;
        let source = &repo[i].1;
        assert(files.take(i + 1).drop_last() =~= files.take(i as int));
        assert(files.take(i + 1).last() == (path@, source@));
        let mut any = false;
        let mut k: usize = 0;
        while k < patterns.len()
            invariant
                patterns@.len() == ps.len(),
                forall|j: int| 0 <= j < ps.len() ==> #[trigger] patterns@[j]@ == ps[j],
                k <= patterns.len(),
                any == exists|j: int| 0 <= j < k && regex_is_match(#[trigger] ps[j], source@),
            decreases patterns.len() - k,
        {
            let m = pattern::is_match(patterns[k].as_str(), source.as_str());
            if m {
                assert(regex_is_match(ps[k as int], source@));
            }
            any = any || m;
            k += 1;
        }
        if any && !pattern::is_match(TEST_PATH, path.as_str()) {
            let ghost before = out@;
            out.push(path.clone());
            assert(out@.map_values(|s: String| s@) =~= before.map_values(|s: String| s@).push(path@));
        }
        i += 1;
    }
    assert(files.take(repo.len() as int) =~= files);
    out
}
} // verus!
