//! Find the methods a diff touched. The rules are per-method, so the method is the unit of review.
//!
//! Every supported language is parsed with its tree-sitter grammar. A file in any other
//! language, or a diff reviewed without its repository, falls back to the hunk text itself.

use crate::diff::{self, listing, strings, FileDiff, FileModel};

use crate::lang::{language_name_of_path, Lang};
use crate::text::{self, decimal, lines, trim};
use crate::tree::{node_wf, ParsedFile};
use std::collections::BTreeMap;
use vstd::prelude::*;

pub use crate::tree::SyntaxNode;

verus! {

#[derive(Debug)]
pub struct Unit {
    pub path: String,
    pub language: String,
    pub name: String,
    /// False for a hunk reviewed without its file.
    pub is_method: bool,
    pub start: usize,
    pub end: usize,
    pub source: String,
    pub added_lines: Vec<usize>,
    /// Byte range of the function node, when the file was parsed.
    pub bytes: Option<(usize, usize)>,
}

/// What a `Unit` says, with its texts as character sequences.
pub ghost struct UnitModel {
    pub path: Seq<char>,
    pub language: Seq<char>,
    pub name: Seq<char>,
    pub is_method: bool,
    pub start: usize,
    pub end: usize,
    pub source: Seq<char>,
    pub added_lines: Seq<usize>,
    pub bytes: Option<(usize, usize)>,
}

impl Unit {
    pub open spec fn model(&self) -> UnitModel {
        UnitModel {
            path: self.path@,
            language: self.language@,
            name: self.name@,
            is_method: self.is_method,
            start: self.start,
            end: self.end,
            source: self.source@,
            added_lines: self.added_lines@,
            bytes: self.bytes,
        }
    }
}

impl Clone for Unit {
    fn clone(&self) -> (r: Unit)
        ensures
            r.model() == self.model(),
    {
        Unit {
            path: self.path.clone(),
            language: self.language.clone(),
            name: self.name.clone(),
            is_method: self.is_method,
            start: self.start,
            end: self.end,
            source: self.source.clone(),
            added_lines: self.added_lines.clone(),
            bytes: self.bytes,
        }
    }
}

pub open spec fn unit_models(units: Seq<Unit>) -> Seq<UnitModel> {
    units.map_values(|u: Unit| u.model())
}

/// `parts` joined by `sep`, as `join` on a slice of strings gives it.
pub open spec fn join(parts: Seq<Seq<char>>, sep: char) -> Seq<char>
    decreases parts.len(),
{
    if parts.len() == 0 {
        seq![]
    } else if parts.len() == 1 {
        parts[0]
    } else {
        join(parts.drop_last(), sep).push(sep) + parts.last()
    }
}

/// The lines of `source` that the line numbers `added` name, where `source` begins at line
/// `start`; numbers outside the source are skipped.
pub open spec fn picked_lines(source: Seq<char>, start: usize, added: Seq<usize>) -> Seq<Seq<char>>
    decreases added.len(),
{
    if added.len() == 0 {
        seq![]
    } else {
        let rest = picked_lines(source, start, added.drop_last());
        let n = added.last();
        let ls = lines(source);
        if n >= start && n - start < ls.len() {
            rest.push(ls[n - start])
        } else {
            rest
        }
    }
}

pub open spec fn spec_added_text(u: UnitModel) -> Seq<char> {
    join(picked_lines(u.source, u.start, u.added_lines), '\n')
}

/// Appends `parts`, joined by `sep`, to the joining so far.
fn join_all(parts: &Vec<Vec<char>>, sep: char) -> (r: Vec<char>)
    ensures
        r@ == join(parts@.map_values(|p: Vec<char>| p@), sep),
{
    let ghost views = parts@.map_values(|p: Vec<char>| p@);
    let mut out: Vec<char> = Vec::new();
    let mut i: usize = 0;
    assert(views.take(0) =~= seq![]);
    while i < parts.len()
        invariant
            views == parts@.map_values(|p: Vec<char>| p@),
            i <= parts.len(),
            out@ == join(views.take(i as int), sep),
        decreases parts.len() - i,
    {
        assert(views.take(i + 1).drop_last() =~= views.take(i as int));
        assert(views.take(i + 1).last() == parts@[i as int]@);
        if i > 0 {
            out.push(sep);
        }
        text::append(&mut out, &parts[i]);
        i += 1;
    }
    assert(views.take(parts.len() as int) =~= views);
    out
}

impl Unit {
    /// Only the lines this diff added. A rule about a construct (an if, a switch) is judged on
    /// these: an `if` that was already there is pre-existing and out of scope, even inside a
    /// method the diff touched.
    pub fn added_text(&self) -> (r: String)
        ensures
            r@ == spec_added_text(self.model()),
    {
        let source = text::chars_of(self.source.as_str());
        let ls = text::lines_of(&source);
        let mut picked: Vec<Vec<char>> = Vec::new();
        let mut i: usize = 0;
        let ghost added = self.added_lines@;
        assert(added.take(0) =~= seq![]);
        assert(picked@.map_values(|p: Vec<char>| p@) =~= seq![]);
        while i < self.added_lines.len()
            invariant
                added == self.added_lines@,
                source@ == self.source@,
                ls@.len() == lines(source@).len(),
                forall|j: int| 0 <= j < ls@.len() ==> #[trigger] ls@[j]@ == lines(source@)[j],
                i <= added.len(),
                picked@.map_values(|p: Vec<char>| p@) == picked_lines(
                    self.source@,
                    self.start,
                    added.take(i as int),
                ),
            decreases added.len() - i,
        {
            let n = self.added_lines[i];
            assert(added.take(i + 1).drop_last() =~= added.take(i as int));
            assert(added.take(i + 1).last() == n);
            let ghost before = picked@;
            if n >= self.start && n - self.start < ls.len() {
                let line = ls[n - self.start].clone();
                picked.push(line);
                assert(picked@.map_values(|p: Vec<char>| p@) =~= before.map_values(
                    |p: Vec<char>| p@,
                ).push(lines(source@)[n - self.start]));
            }
            i += 1;
        }
        assert(added.take(added.len() as int) =~= added);
        let joined = join_all(&picked, '\n');
        text::string_of(joined.as_slice())
    }

    pub fn added(&self, line: usize) -> (r: bool)
        ensures
            r == self.added_lines@.contains(line),
    {
        let mut i: usize = 0;
        while i < self.added_lines.len()
            invariant
                i <= self.added_lines.len(),
                forall|j: int| 0 <= j < i ==> self.added_lines@[j] != line,
            decreases self.added_lines.len() - i,
        {
            if self.added_lines[i] == line {
                return true;
            }
            i += 1;
        }
        false
    }
}


/// The kinds of `kinds`, as character sequences.
pub open spec fn kind_names(kinds: Seq<&str>) -> Seq<Seq<char>> {
    kinds.map_values(|k: &str| k@)
}

fn kind_in(kind: &str, kinds: &[&str]) -> (r: bool)
    ensures
        r == kind_names(kinds@).contains(kind@),
{
    let mut i: usize = 0;
    while i < kinds.len()
        invariant
            i <= kinds@.len(),
            forall|j: int| 0 <= j < i ==> kinds@[j]@ != kind@,
        decreases kinds.len() - i,
    {
        if text::str_eq(kinds[i], kind) {
            assert(kind_names(kinds@)[i as int] == kind@);
            return true;
        }
        i += 1;
    }
    assert forall|j: int| 0 <= j < kind_names(kinds@).len() implies kind_names(kinds@)[j] != kind@ by {
        assert(kind_names(kinds@)[j] == kinds@[j]@);
    }
    false
}

/// The first node at or below `node`, in preorder, whose kind is one of `kinds`.
pub fn first_of(parsed: &ParsedFile, node: usize, kinds: &[&str]) -> (r: Option<usize>)
    requires
        parsed.wf(),
        node < parsed.len(),
    ensures
        r == parsed.spec_first_of(node as int, kind_names(kinds@)),
        r matches Some(n) ==> n < parsed.len(),
    decreases parsed.len() - node,
{
    if kind_in(parsed.nodes[node].kind.as_str(), kinds) {
        return Some(node);
    }
    let mut k: usize = 0;
    while k < parsed.nodes[node].children.len()
        invariant
            parsed.wf(),
            node < parsed.len(),
            !kind_names(kinds@).contains(parsed.kind(node as int)),
            k <= parsed.children(node as int).len(),
            parsed.spec_first_of(node as int, kind_names(kinds@)) == parsed.first_of_from(
                node as int,
                k as int,
                kind_names(kinds@),
            ),
        decreases parsed.children(node as int).len() - k,
    {
        let c = parsed.nodes[node].children[k];
        assert(node_wf(parsed.nodes@, node as int));
        let found = first_of(parsed, c, kinds);
        if found.is_some() {
            return found;
        }
        k += 1;
    }
    None
}

/// The name of a function: its `name` field; in C and C++ the identifier inside its
/// declarator; for an anonymous function the name it is assigned to.
pub open spec fn spec_name_of(p: ParsedFile, node: int) -> Seq<char> {
    match p.spec_child_by_field(node, "name"@) {
        Some(name) => p.spec_text(name as int),
        None => {
            let declared = match p.spec_child_by_field(node, "declarator"@) {
                Some(declarator) => p.spec_first_of(declarator as int, id_kinds()),
                None => None,
            };
            match declared {
                Some(id) => p.spec_text(id as int),
                None => {
                    let owner = match p.nodes@[node].parent {
                        Some(parent) => match p.spec_child_by_field(parent as int, "name"@) {
                            Some(n) => Some(n),
                            None => p.spec_child_by_field(parent as int, "left"@),
                        },
                        None => None,
                    };
                    match owner {
                        Some(n) => p.spec_text(n as int),
                        None => "<anonymous>"@,
                    }
                },
            }
        },
    }
}

pub open spec fn id_kinds() -> Seq<Seq<char>> {
    seq!["identifier"@, "field_identifier"@, "qualified_identifier"@]
}

pub fn name_of(node: usize, parsed: &ParsedFile) -> (r: String)
    requires
        parsed.wf(),
        node < parsed.len(),
    ensures
        r@ == spec_name_of(*parsed, node as int),
{
    if let Some(name) = parsed.child_by_field_name(node, "name") {
        return parsed.text(name);
    }
    // C and C++ bury the name inside nested declarators.
    if let Some(declarator) = parsed.child_by_field_name(node, "declarator") {
        let kinds: [&str; 3] = ["identifier", "field_identifier", "qualified_identifier"];
        assert(kind_names(kinds@) =~= id_kinds());
        if let Some(id) = first_of(parsed, declarator, &kinds) {
            return parsed.text(id);
        }
    }
    // `const total = (a, b) => ...`: an anonymous function takes the name it is assigned to.
    assert(node_wf(parsed.nodes@, node as int));
    let owner = match parsed.nodes[node].parent {
        Some(parent) => match parsed.child_by_field_name(parent, "name") {
            Some(n) => Some(n),
            None => parsed.child_by_field_name(parent, "left"),
        },
        None => None,
    };
    match owner {
        Some(n) => parsed.text(n),
        None => "<anonymous>".to_owned(),
    }
}

/// The function a unit was built from: the first function whose byte range is the unit's.
pub open spec fn spec_node_of(p: ParsedFile, bytes: Option<(usize, usize)>) -> Option<usize> {
    match bytes {
        Some(b) => first_with_bytes(p, p.spec_functions(), b),
        None => None,
    }
}

pub open spec fn first_with_bytes(p: ParsedFile, fs: Seq<usize>, b: (usize, usize)) -> Option<usize>
    decreases fs.len(),
{
    if fs.len() == 0 {
        None
    } else if 0 <= fs[0] < p.len() && p.nodes@[fs[0] as int].start_byte == b.0
        && p.nodes@[fs[0] as int].end_byte == b.1 {
        Some(fs[0])
    } else {
        first_with_bytes(p, fs.drop_first(), b)
    }
}

impl ParsedFile {
    /// The function node a unit was built from.
    pub fn node_of(&self, unit: &Unit) -> (r: Option<usize>)
        requires
            self.wf(),
        ensures
            r == spec_node_of(*self, unit.bytes),
            r matches Some(n) ==> n < self.len(),
    {
        let (start, end) = match unit.bytes {
            Some(b) => b,
            None => return None,
        };
        let fs = self.functions();
        let mut i: usize = 0;
        assert(fs@.skip(0) == fs@);
        while i < fs.len()
            invariant
                self.wf(),
                unit.bytes == Some((start, end)),
                fs@ == self.spec_functions(),
                forall|k: int| 0 <= k < fs@.len() ==> #[trigger] fs@[k] < self.len(),
                i <= fs.len(),
                first_with_bytes(*self, fs@, (start, end)) == first_with_bytes(
                    *self,
                    fs@.skip(i as int),
                    (start, end),
                ),
            decreases fs.len() - i,
        {
            let f = fs[i];
            assert(fs@.skip(i as int)[0] == f);
            assert(f < self.len());
            if self.nodes[f].start_byte == start && self.nodes[f].end_byte == end {
                assert(fs@.skip(i as int).len() > 0);
                assert(first_with_bytes(*self, fs@.skip(i as int), (start, end)) == Some(f));
                return Some(f);
            }
            assert(fs@.skip(i as int).drop_first() == fs@.skip(i + 1));
            i += 1;
        }
        None
    }
}

// ---------------------------------------------------------------- the methods a diff touched

/// Does function `f` span the one-based line `line`?
pub open spec fn spans(p: ParsedFile, f: usize, line: usize) -> bool {
    p.nodes@[f as int].start_row + 1 <= line <= p.nodes@[f as int].end_row + 1
}

pub open spec fn byte_size(p: ParsedFile, f: usize) -> int {
    p.nodes@[f as int].end_byte - p.nodes@[f as int].start_byte
}

/// The innermost function around `line`: the narrowest of `fs` that spans it, the first of
/// equally narrow ones.
pub open spec fn holder(p: ParsedFile, fs: Seq<usize>, line: usize) -> Option<usize>
    decreases fs.len(),
{
    if fs.len() == 0 {
        None
    } else {
        let prev = holder(p, fs.drop_last(), line);
        let f = fs.last();
        if 0 <= f < p.len() && spans(p, f, line) {
            match prev {
                Some(b) => if byte_size(p, f) < byte_size(p, b) {
                    Some(f)
                } else {
                    prev
                },
                None => Some(f),
            }
        } else {
            prev
        }
    }
}

/// A new unit for function `f`, holding the added line `line`.
pub open spec fn new_unit(path: Seq<char>, p: ParsedFile, f: usize, line: usize) -> UnitModel {
    UnitModel {
        path,
        language: p.lang.spec_name(),
        name: spec_name_of(p, f as int),
        is_method: true,
        start: (p.nodes@[f as int].start_row + 1) as usize,
        end: (p.nodes@[f as int].end_row + 1) as usize,
        source: p.spec_text(f as int),
        added_lines: seq![line],
        bytes: Some((p.nodes@[f as int].start_byte, p.nodes@[f as int].end_byte)),
    }
}

/// The first unit built from the function with byte range `b`.
pub open spec fn unit_with_bytes(us: Seq<UnitModel>, b: Option<(usize, usize)>) -> Option<int>
    decreases us.len(),
{
    if us.len() == 0 {
        None
    } else if us[0].bytes == b {
        Some(0)
    } else {
        match unit_with_bytes(us.drop_first(), b) {
            Some(i) => Some(i + 1),
            None => None,
        }
    }
}

/// Adds one added line to the units: to the unit of its innermost function, a new one if
/// need be. A blank line, or a line outside every function, changes nothing.
pub open spec fn place_line(
    p: ParsedFile,
    fs: Seq<usize>,
    path: Seq<char>,
    us: Seq<UnitModel>,
    entry: (usize, Seq<char>),
) -> Seq<UnitModel> {
    if trim(entry.1).len() == 0 {
        us
    } else {
        match holder(p, fs, entry.0) {
            None => us,
            Some(f) => {
                let b = Some((p.nodes@[f as int].start_byte, p.nodes@[f as int].end_byte));
                match unit_with_bytes(us, b) {
                    Some(i) => us.update(
                        i,
                        UnitModel { added_lines: us[i].added_lines.push(entry.0), ..us[i] },
                    ),
                    None => us.push(new_unit(path, p, f, entry.0)),
                }
            },
        }
    }
}

pub open spec fn place_lines(
    p: ParsedFile,
    fs: Seq<usize>,
    path: Seq<char>,
    entries: Seq<(usize, Seq<char>)>,
) -> Seq<UnitModel>
    decreases entries.len(),
{
    if entries.len() == 0 {
        seq![]
    } else {
        place_line(p, fs, path, place_lines(p, fs, path, entries.drop_last()), entries.last())
    }
}

/// The units of the methods that hold the lines a file diff adds, in the order their first
/// added line comes.
pub open spec fn spec_method_units(file: FileModel, p: ParsedFile) -> Seq<UnitModel> {
    place_lines(p, p.spec_functions(), file.path, listing(file.added))
}

fn find_holder(parsed: &ParsedFile, fs: &Vec<usize>, line: usize) -> (r: Option<usize>)
    requires
        parsed.wf(),
        forall|k: int| 0 <= k < fs@.len() ==> #[trigger] fs@[k] < parsed.len(),
    ensures
        r == holder(*parsed, fs@, line),
        r matches Some(f) ==> f < parsed.len(),
{
    let mut best: Option<usize> = None;
    let mut i: usize = 0;
    assert(fs@.take(0) =~= seq![]);
    while i < fs.len()
        invariant
            parsed.wf(),
            forall|k: int| 0 <= k < fs@.len() ==> #[trigger] fs@[k] < parsed.len(),
            i <= fs.len(),
            best == holder(*parsed, fs@.take(i as int), line),
            best matches Some(b) ==> b < parsed.len(),
        decreases fs.len() - i,
    {
        let f = fs[i];
        assert(fs@.take(i + 1).drop_last() =~= fs@.take(i as int));
        assert(fs@.take(i + 1).last() == f);
        assert(crate::tree::node_sane(parsed.nodes@[f as int]));
        let n = &parsed.nodes[f];
        if n.start_row + 1 <= line && line <= n.end_row + 1 {
            best = match best {
                Some(b) => {
                    assert(crate::tree::node_sane(parsed.nodes@[b as int]));
                    let m = &parsed.nodes[b];
                    if n.end_byte - n.start_byte < m.end_byte - m.start_byte {
                        Some(f)
                    } else {
                        Some(b)
                    }
                },
                None => Some(f),
            };
        }
        i += 1;
    }
    assert(fs@.take(fs.len() as int) =~= fs@);
    best
}

fn find_unit(units: &Vec<Unit>, bytes: Option<(usize, usize)>) -> (r: Option<usize>)
    ensures
        r matches Some(i) ==> i < units@.len() && unit_with_bytes(unit_models(units@), bytes)
            == Some(i as int),
        r is None ==> unit_with_bytes(unit_models(units@), bytes) is None,
{
    let ghost us = unit_models(units@);
    let mut i: usize = 0;
    assert(us.skip(0) == us);
    while i < units.len()
        invariant
            us == unit_models(units@),
            i <= units.len(),
            forall|j: int| 0 <= j < i ==> units@[j].bytes != bytes,
            unit_with_bytes(us, bytes) == (match unit_with_bytes(us.skip(i as int), bytes) {
                Some(j) => Some(j + i),
                None => None,
            }),
        decreases units.len() - i,
    {
        assert(us.skip(i as int)[0] == units@[i as int].model());
        if units[i].bytes == bytes {
            return Some(i);
        }
        assert(us.skip(i as int).drop_first() == us.skip(i + 1));
        i += 1;
    }
    assert(us.skip(i as int).len() == 0);
    None
}

fn method_units(file: &FileDiff, parsed: &ParsedFile) -> (r: Vec<Unit>)
    requires
        parsed.wf(),
    ensures
        unit_models(r@) == spec_method_units(file.model(), *parsed),
{
    let functions = parsed.functions();
    let es = diff::entries(&file.added);
    let ghost entries = es@.map_values(|e: (usize, String)| diff::pair_view(e));
    let ghost fs = functions@;
    let mut units: Vec<Unit> = Vec::new();
    let mut i: usize = 0;
    assert(entries.take(0) =~= seq![]);
    assert(unit_models(units@) =~= seq![]);
    while i < es.len()
        invariant
            parsed.wf(),
            fs == functions@,
            fs == parsed.spec_functions(),
            forall|k: int| 0 <= k < fs.len() ==> #[trigger] fs[k] < parsed.len(),
            entries == es@.map_values(|e: (usize, String)| diff::pair_view(e)),
            entries == listing(strings(file.added@)),
            i <= es.len(),
            unit_models(units@) == place_lines(*parsed, fs, file.path@, entries.take(i as int)),
        decreases es.len() - i,
    {
        let line = es[i].0;
        assert(entries.take(i + 1).drop_last() =~= entries.take(i as int));
        assert(entries.take(i + 1).last() == (line, es@[i as int].1@));
        let ghost before = units@;
        let chars = text::chars_of(es[i].1.as_str());
        let blank = text::trimmed(&chars).len() == 0;
        assert(blank == (trim(entries[i as int].1).len() == 0));
        if !blank {
            if let Some(node) = find_holder(parsed, &functions, line) {
                let bytes = Some((parsed.nodes[node].start_byte, parsed.nodes[node].end_byte));
                match find_unit(&units, bytes) {
                    Some(u) => {
                        units[u].added_lines.push(line);
                        assert(unit_models(units@) =~= unit_models(before).update(
                            u as int,
                            UnitModel { added_lines: before[u as int].added_lines@.push(line), ..before[u as int].model() },
                        ));
                        assert(unit_models(units@) == place_line(*parsed, fs, file.path@, unit_models(before), entries[i as int]));
                    },
                    None => {
                        assert(crate::tree::node_sane(parsed.nodes@[node as int]));
                        let n = &parsed.nodes[node];
                        let mut added_lines: Vec<usize> = Vec::new();
                        added_lines.push(line);
                        let unit = Unit {
                            path: file.path.clone(),
                            language: parsed.lang.name().to_owned(),
                            name: name_of(node, parsed),
                            is_method: true,
                            start: n.start_row + 1,
                            end: n.end_row + 1,
                            source: parsed.text(node),
                            added_lines,
                            bytes,
                        };
                        units.push(unit);
                        assert(unit.model() == new_unit(file.path@, *parsed, node, line));
                        assert(unit_models(units@) =~= unit_models(before).push(unit.model()));
                        assert(unit_models(units@) == place_line(*parsed, fs, file.path@, unit_models(before), entries[i as int]));
                    },
                }
            }
        }
        i += 1;
    }
    assert(entries.take(es.len() as int) =~= entries);
    units
}

/// The source lines numbered from one, as `(number, line)` pairs.
pub open spec fn numbered_lines(ls: Seq<Seq<char>>) -> Seq<(usize, Seq<char>)> {
    Seq::new(ls.len(), |i: int| ((i + 1) as usize, ls[i]))
}

/// Every method of a file, as if the whole file had been added.
pub open spec fn spec_all_units(path: Seq<char>, p: ParsedFile) -> Seq<UnitModel> {
    place_lines(p, p.spec_functions(), path, numbered_lines(lines(p.source@)))
}

/// Every method of a file, as if the whole file had been added. Used on the base version to
/// tell "introduced" from "grown".
pub fn all_units(path: &str, parsed: &ParsedFile) -> (r: Vec<Unit>)
    requires
        parsed.wf(),
    ensures
        unit_models(r@) == spec_all_units(path@, *parsed),
{
    let source = text::chars_of(parsed.source.as_str());
    let ls = text::lines_of(&source);
    let mut added: BTreeMap<usize, String> = BTreeMap::new();
    let ghost want = numbered_lines(lines(parsed.source@));
    let mut i: usize = 0;
    while i < ls.len()
        invariant
            source@ == parsed.source@,
            ls@.len() == lines(source@).len(),
            forall|j: int| 0 <= j < ls@.len() ==> #[trigger] ls@[j]@ == lines(source@)[j],
            want == numbered_lines(lines(parsed.source@)),
            i <= ls.len(),
            forall|k: usize| #[trigger] strings(added@).contains_key(k) <==> 1 <= k <= i,
            forall|k: usize| 1 <= k <= i ==> #[trigger] strings(added@)[k] == want[k - 1].1,
        decreases ls.len() - i,
    {
        let line = text::string_of(ls[i].as_slice());
        let ghost before = added@;
        added.insert(i + 1, line);
        proof {
            diff::lemma_strings_insert(before, (i + 1) as usize, line);
        }
        i += 1;
    }
    proof {
        let m = strings(added@);
        assert forall|a: int, b: int| 0 <= a < b < want.len() implies #[trigger] want[a].0 < #[trigger] want[b].0 by {}
        assert forall|a: int| 0 <= a < want.len() implies m.contains_key(#[trigger] want[a].0) && m[want[a].0] == want[a].1 by {
            assert(want[a].0 == a + 1);
        }
        assert forall|k: usize| #[trigger] m.contains_key(k) implies exists|a: int| 0 <= a < want.len() && #[trigger] want[a].0 == k by {
            assert(want[k - 1].0 == k);
        }
        assert(diff::is_listing(m, want));
        diff::lemma_listing_unique(m, want, listing(m));
    }
    let file = FileDiff { path: path.to_owned(), is_new: false, added, context: BTreeMap::new() };
    method_units(&file, parsed)
}

// ---------------------------------------------------------------- without a parse

/// Runs of consecutive line numbers.
pub open spec fn runs(keys: Seq<usize>) -> Seq<Seq<usize>>
    decreases keys.len(),
{
    if keys.len() == 0 {
        seq![]
    } else {
        let rs = runs(keys.drop_last());
        let k = keys.last();
        if rs.len() > 0 && rs.last().len() > 0 && rs.last().last() == k - 1 {
            rs.update(rs.len() - 1, rs.last().push(k))
        } else {
            rs.push(seq![k])
        }
    }
}

pub open spec fn least_key(m: Map<usize, Seq<char>>) -> usize {
    choose|k: usize| m.contains_key(k) && forall|j: usize| #[trigger] m.contains_key(j) ==> k <= j
}

pub open spec fn greatest_key(m: Map<usize, Seq<char>>) -> usize {
    choose|k: usize| m.contains_key(k) && forall|j: usize| #[trigger] m.contains_key(j) ==> j <= k
}

/// The text a hunk carried for the new-file line `n`: added or context, or nothing.
pub open spec fn hunk_line(file: FileModel, n: int) -> Seq<char> {
    if file.added.contains_key(n as usize) {
        file.added[n as usize]
    } else if file.context.contains_key(n as usize) {
        file.context[n as usize]
    } else {
        seq![]
    }
}

/// The lines `start..=end` of the hunks, joined.
pub open spec fn window(file: FileModel, start: int, end: int) -> Seq<char> {
    join(Seq::new((end - start + 1) as nat, |i: int| hunk_line(file, start + i)), '\n')
}

/// A run of added lines with up to three lines of context on either side.
pub open spec fn hunk_unit(file: FileModel, first: usize, last: usize, run: Seq<usize>) -> UnitModel {
    let low = if run[0] >= 3 { run[0] - 3 } else { 0 };
    let start = if low > first { low } else { first as int };
    let end = if run.last() + 3 <= last { run.last() + 3 } else { last as int };
    UnitModel {
        path: file.path,
        language: language_name_of_path(file.path),
        name: "lines "@ + decimal(run[0] as nat) + "-"@ + decimal(run.last() as nat),
        is_method: false,
        start: start as usize,
        end: end as usize,
        source: if start <= end { window(file, start, end) } else { seq![] },
        added_lines: run,
        bytes: None,
    }
}

pub open spec fn hunk_units_of(file: FileModel, first: usize, last: usize, rs: Seq<Seq<usize>>) -> Seq<UnitModel>
    decreases rs.len(),
{
    if rs.len() == 0 {
        seq![]
    } else {
        let rest = hunk_units_of(file, first, last, rs.drop_last());
        let u = hunk_unit(file, first, last, rs.last());
        if trim(u.source).len() > 0 {
            rest.push(u)
        } else {
            rest
        }
    }
}

/// Each run of added lines, with the context the hunk carried, as one unit.
pub open spec fn spec_hunk_units(file: FileModel) -> Seq<UnitModel> {
    let merged = file.context.union_prefer_right(file.added);
    if merged.dom() == Set::<usize>::empty() {
        seq![]
    } else {
        hunk_units_of(
            file,
            least_key(merged),
            greatest_key(merged),
            runs(listing(file.added).map_values(|e: (usize, Seq<char>)| e.0)),
        )
    }
}

/// Every added line number leaves room for three lines of context after it.
pub open spec fn room_after(file: FileModel) -> bool {
    forall|k: usize| #[trigger] file.added.contains_key(k) ==> k <= usize::MAX - 3
}

fn runs_of(es: &Vec<(usize, String)>) -> (r: Vec<Vec<usize>>)
    ensures
        r@.map_values(|v: Vec<usize>| v@) == runs(es@.map_values(|e: (usize, String)| e.0)),
{
    let ghost keys = es@.map_values(|e: (usize, String)| e.0);
    let mut rs: Vec<Vec<usize>> = Vec::new();
    let mut i: usize = 0;
    assert(keys.take(0) =~= seq![]);
    assert(rs@.map_values(|v: Vec<usize>| v@) =~= seq![]);
    while i < es.len()
        invariant
            keys == es@.map_values(|e: (usize, String)| e.0),
            i <= es.len(),
            rs@.map_values(|v: Vec<usize>| v@) == runs(keys.take(i as int)),
        decreases es.len() - i,
    {
        let k = es[i].0;
        assert(keys.take(i + 1).drop_last() =~= keys.take(i as int));
        assert(keys.take(i + 1).last() == k);
        let ghost before = rs@.map_values(|v: Vec<usize>| v@);
        let n = rs.len();
        let extends = n > 0 && rs[n - 1].len() > 0 && k > 0 && rs[n - 1][rs[n - 1].len() - 1] == k - 1;
        if extends {
            rs[n - 1].push(k);
            assert(rs@.map_values(|v: Vec<usize>| v@) =~= before.update(n - 1, before[n - 1].push(k)));
        } else {
            let mut run: Vec<usize> = Vec::new();
            run.push(k);
            rs.push(run);
            assert(rs@.map_values(|v: Vec<usize>| v@) =~= before.push(seq![k]));
        }
        i += 1;
    }
    assert(keys.take(es.len() as int) =~= keys);
    rs
}

/// The text a hunk carried for line `n`.
fn hunk_line_of(file: &FileDiff, n: usize) -> (r: Vec<char>)
    ensures
        r@ == hunk_line(file.model(), n as int),
{
    match file.added.get(&n) {
        Some(t) => text::chars_of(t.as_str()),
        None => match file.context.get(&n) {
            Some(t) => text::chars_of(t.as_str()),
            None => Vec::new(),
        },
    }
}

fn make_hunk_unit(file: &FileDiff, first: usize, last: usize, run: &Vec<usize>) -> (r: Unit)
    requires
        run@.len() > 0,
        run@.last() <= usize::MAX - 3,
    ensures
        r.model() == hunk_unit(file.model(), first, last, run@),
{
    let r0 = run[0];
    let rl = run[run.len() - 1];
    let low = if r0 >= 3 { r0 - 3 } else { 0 };
    let start = if low > first { low } else { first };
    let end = if rl + 3 <= last { rl + 3 } else { last };
    let mut parts: Vec<Vec<char>> = Vec::new();
    if start <= end {
        let mut n = start;
        let ghost want = Seq::new((end - start + 1) as nat, |i: int| hunk_line(file.model(), start + i));
        loop
            invariant_except_break
                start <= n <= end,
                want == Seq::new((end - start + 1) as nat, |i: int| hunk_line(file.model(), start + i)),
                parts@.map_values(|p: Vec<char>| p@) == want.take(n - start),
            ensures
                parts@.map_values(|p: Vec<char>| p@) == want,
            decreases end - n,
        {
            let line = hunk_line_of(file, n);
            assert(want[n - start] == line@);
            let ghost before = parts@;
            parts.push(line);
            assert(parts@ == before.push(line));
            assert(want.take(n + 1 - start) =~= want.take(n - start).push(want[n - start]));
            assert(parts@.map_values(|p: Vec<char>| p@) =~= before.map_values(|p: Vec<char>| p@).push(line@));
            assert(parts@.map_values(|p: Vec<char>| p@) =~= want.take(n + 1 - start));
            if n == end {
                assert(want.take(n + 1 - start) =~= want);
                break;
            }
            n += 1;
        }
    }
    let source = join_all(&parts, '\n');
    assert(start > end ==> parts@.map_values(|p: Vec<char>| p@) =~= seq![]);
    let mut name: Vec<char> = Vec::new();
    text::push_str(&mut name, "lines ");
    text::push_decimal(&mut name, r0);
    text::push_str(&mut name, "-");
    text::push_decimal(&mut name, rl);
    Unit {
        path: file.path.clone(),
        language: Lang::name_for_path(file.path.as_str()),
        name: text::string_of(name.as_slice()),
        is_method: false,
        start,
        end,
        source: text::string_of(source.as_slice()),
        added_lines: run.clone(),
        bytes: None,
    }
}

proof fn lemma_listing_ends(m: Map<usize, Seq<char>>, s: Seq<(usize, Seq<char>)>)
    requires
        diff::is_listing(m, s),
    ensures
        s.len() == 0 <==> m.dom() == Set::<usize>::empty(),
        s.len() > 0 ==> forall|k: usize| #[trigger] m.contains_key(k) ==> s[0].0 <= k <= s.last().0,
        s.len() > 0 ==> m.contains_key(s[0].0) && m.contains_key(s.last().0),
{
    if s.len() == 0 {
        assert forall|k: usize| !m.dom().contains(k) by {
            if m.contains_key(k) {
                let i = choose|i: int| 0 <= i < s.len() && #[trigger] s[i].0 == k;
            }
        }
        assert(m.dom() =~= Set::empty());
    } else {
        assert(m.dom().contains(s[0].0));
        assert(m.dom() != Set::<usize>::empty());
        assert forall|k: usize| #[trigger] m.contains_key(k) implies s[0].0 <= k <= s.last().0 by {
            let i = choose|i: int| 0 <= i < s.len() && #[trigger] s[i].0 == k;
            if i > 0 {
                assert(s[0].0 < s[i].0);
            }
            if i < s.len() - 1 {
                assert(s[i].0 < s[s.len() - 1].0);
            }
        }
    }
}

/// No parse available: review each run of added lines together with the context the hunk
/// carried.
fn hunk_units(file: &FileDiff) -> (r: Vec<Unit>)
    requires
        room_after(file.model()),
    ensures
        unit_models(r@) == spec_hunk_units(file.model()),
{
    let ghost fm = file.model();
    let ghost merged = fm.context.union_prefer_right(fm.added);
    let ea = diff::entries(&file.added);
    let ec = diff::entries(&file.context);
    let ghost la = ea@.map_values(|e: (usize, String)| diff::pair_view(e));
    let ghost lc = ec@.map_values(|e: (usize, String)| diff::pair_view(e));
    proof {
        lemma_listing_ends(fm.added, la);
        lemma_listing_ends(fm.context, lc);
    }
    if ea.len() == 0 && ec.len() == 0 {
        assert(merged.dom() =~= Set::empty());
        return Vec::new();
    }
    let first = if ea.len() == 0 {
        ec[0].0
    } else if ec.len() == 0 {
        ea[0].0
    } else if ea[0].0 < ec[0].0 {
        ea[0].0
    } else {
        ec[0].0
    };
    let last = if ea.len() == 0 {
        ec[ec.len() - 1].0
    } else if ec.len() == 0 {
        ea[ea.len() - 1].0
    } else if ea[ea.len() - 1].0 > ec[ec.len() - 1].0 {
        ea[ea.len() - 1].0
    } else {
        ec[ec.len() - 1].0
    };
    proof {
        assert(merged.contains_key(first));
        assert(forall|j: usize| #[trigger] merged.contains_key(j) ==> first <= j);
        assert(merged.contains_key(last));
        assert(forall|j: usize| #[trigger] merged.contains_key(j) ==> j <= last);
        let lk = least_key(merged);
        let gk = greatest_key(merged);
        assert(merged.contains_key(lk) && first <= lk && lk <= first);
        assert(merged.contains_key(gk) && gk <= last && last <= gk);
        assert(merged.dom().contains(first));
    }
    let rs = runs_of(&ea);
    let ghost rsv = rs@.map_values(|v: Vec<usize>| v@);
    proof {
        lemma_runs_keys(la.map_values(|e: (usize, Seq<char>)| e.0));
        assert(ea@.map_values(|e: (usize, String)| e.0) =~= la.map_values(|e: (usize, Seq<char>)| e.0));
    }
    let mut units: Vec<Unit> = Vec::new();
    let mut j: usize = 0;
    assert(rsv.take(0) =~= seq![]);
    assert(unit_models(units@) =~= seq![]);
    while j < rs.len()
        invariant
            fm == file.model(),
            room_after(fm),
            rsv == rs@.map_values(|v: Vec<usize>| v@),
            rsv == runs(listing(fm.added).map_values(|e: (usize, Seq<char>)| e.0)),
            forall|a: int| 0 <= a < rsv.len() ==> (#[trigger] rsv[a]).len() > 0,
            forall|a: int, b: int| 0 <= a < rsv.len() && 0 <= b < rsv[a].len() ==> fm.added.contains_key(#[trigger] rsv[a][b]),
            j <= rs.len(),
            unit_models(units@) == hunk_units_of(fm, first, last, rsv.take(j as int)),
        decreases rs.len() - j,
    {
        assert(rsv.take(j + 1).drop_last() =~= rsv.take(j as int));
        assert(rsv.take(j + 1).last() == rs@[j as int]@);
        assert(rsv[j as int].len() > 0);
        assert(fm.added.contains_key(rsv[j as int].last()));
        let u = make_hunk_unit(file, first, last, &rs[j]);
        let chars = text::chars_of(u.source.as_str());
        let ghost before = units@;
        if text::trimmed(&chars).len() > 0 {
            units.push(u);
            assert(unit_models(units@) =~= unit_models(before).push(u.model()));
        }
        j += 1;
    }
    assert(rsv.take(rs.len() as int) =~= rsv);
    units
}

/// Every run is non-empty and made of the given keys.
proof fn lemma_runs_keys(keys: Seq<usize>)
    ensures
        forall|a: int| 0 <= a < runs(keys).len() ==> (#[trigger] runs(keys)[a]).len() > 0,
        forall|a: int, b: int|
            0 <= a < runs(keys).len() && 0 <= b < runs(keys)[a].len() ==> keys.contains(
                #[trigger] runs(keys)[a][b],
            ),
    decreases keys.len(),
{
    if keys.len() > 0 {
        lemma_runs_keys(keys.drop_last());
        let rs = runs(keys.drop_last());
        assert forall|a: int, b: int|
            0 <= a < runs(keys).len() && 0 <= b < runs(keys)[a].len() implies keys.contains(
                #[trigger] runs(keys)[a][b],
            ) by {
            if a < rs.len() && b < rs[a].len() {
                assert(keys.drop_last().contains(rs[a][b]));
                let i = choose|i: int| 0 <= i < keys.drop_last().len() && keys.drop_last()[i] == rs[a][b];
                assert(keys[i] == rs[a][b]);
            } else {
                assert(runs(keys)[a][b] == keys.last());
                assert(keys[keys.len() - 1] == keys.last());
            }
        }
    }
}

/// The units of a file diff: its methods when the file was parsed and some added line falls
/// in one; otherwise each run of added lines with its hunk's context.
pub open spec fn spec_units_for(file: FileModel, parsed: Option<ParsedFile>) -> Seq<UnitModel> {
    let units = match parsed {
        Some(p) => spec_method_units(file, p),
        None => seq![],
    };
    if units.len() == 0 {
        spec_hunk_units(file)
    } else {
        units
    }
}

pub fn units_for(file: &FileDiff, parsed: Option<&ParsedFile>) -> (r: Vec<Unit>)
    requires
        room_after(file.model()),
        parsed matches Some(p) ==> p.wf(),
    ensures
        unit_models(r@) == spec_units_for(
            file.model(),
            match parsed {
                Some(p) => Some(*p),
                None => None,
            },
        ),
{
    let units = match parsed {
        Some(p) => method_units(file, p),
        None => Vec::new(),
    };
    if units.len() == 0 {
        hunk_units(file)
    } else {
        units
    }
}

/// Whether every added line number leaves room for three lines of context after it.
pub fn has_room_after(file: &FileDiff) -> (r: bool)
    ensures
        r == room_after(file.model()),
{
    let es = diff::entries(&file.added);
    let ghost m = strings(file.added@);
    let ghost ls = listing(m);
    let mut i: usize = 0;
    while i < es.len()
        invariant
            es@.map_values(|p: (usize, String)| diff::pair_view(p)) == ls,
            diff::is_listing(m, ls),
            m == file.model().added,
            i <= es.len(),
            forall|j: int| 0 <= j < i ==> #[trigger] ls[j].0 <= usize::MAX - 3,
        decreases es.len() - i,
    {
        assert(ls[i as int].0 == es@[i as int].0);
        if es[i].0 > usize::MAX - 3 {
            assert(m.contains_key(ls[i as int].0));
            return false;
        }
        i += 1;
    }
    assert forall|k: usize| #[trigger] m.contains_key(k) implies k <= usize::MAX - 3 by {
        let j = choose|j: int| 0 <= j < ls.len() && #[trigger] ls[j].0 == k;
    }
    true
}

/// `units_for`, or `None` for a file with an added line too near the largest line number to
/// number the context after it.
pub fn units_for_checked(file: &FileDiff, parsed: Option<&ParsedFile>) -> (r: Option<Vec<Unit>>)
    requires
        parsed matches Some(p) ==> p.wf(),
    ensures
        r is Some <==> room_after(file.model()),
        r matches Some(us) ==> unit_models(us@) == spec_units_for(
            file.model(),
            match parsed {
                Some(p) => Some(*p),
                None => None,
            },
        ),
{
    if has_room_after(file) {
        Some(units_for(file, parsed))
    } else {
        None
    }
}
} // verus!
