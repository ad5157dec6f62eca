//! Unified-diff parsing: which lines of which files did this PR add?

use crate::text::{self, find_char, lines, parse_usize, split_ws, starts_with, trim};
use std::collections::BTreeMap;
use vstd::std_specs::cmp::OrdSpec;
use vstd::std_specs::iter::IteratorSpec;
use vstd::prelude::*;

verus! {

#[derive(Debug)]
pub struct FileDiff {
    pub path: String,
    pub is_new: bool,
    /// New-file line number -> added text. The rules only ever judge what a diff ADDS.
    pub added: BTreeMap<usize, String>,
    /// New-file line number -> unchanged text the hunk carried; the fallback when the full file
    /// is unavailable.
    pub context: BTreeMap<usize, String>,
}

impl Clone for FileDiff {
    fn clone(&self) -> (r: FileDiff)
        ensures
            r.model() == self.model(),
    {
        FileDiff {
            path: self.path.clone(),
            is_new: self.is_new,
            added: self.added.clone(),
            context: self.context.clone(),
        }
    }
}

impl Default for FileDiff {
    fn default() -> (r: FileDiff)
        ensures
            r.path@ == Seq::<char>::empty(),
            !r.is_new,
            r.added@ == Map::<usize, String>::empty(),
            r.context@ == Map::<usize, String>::empty(),
    {
        FileDiff { path: String::new(), is_new: false, added: BTreeMap::new(), context: BTreeMap::new() }
    }
}

/// What a `FileDiff` says, with its texts as character sequences.
pub ghost struct FileModel {
    pub path: Seq<char>,
    pub is_new: bool,
    pub added: Map<usize, Seq<char>>,
    pub context: Map<usize, Seq<char>>,
}

pub open spec fn strings(m: Map<usize, String>) -> Map<usize, Seq<char>> {
    m.map_values(|s: String| s@)
}

impl FileDiff {
    pub open spec fn model(&self) -> FileModel {
        FileModel {
            path: self.path@,
            is_new: self.is_new,
            added: strings(self.added@),
            context: strings(self.context@),
        }
    }
}

pub open spec fn models(files: Seq<FileDiff>) -> Seq<FileModel> {
    files.map_values(|f: FileDiff| f.model())
}

/// Where the parser stands after some lines of a diff.
pub ghost struct ParseState {
    pub files: Seq<FileModel>,
    /// Is the last of `files` the file the lines belong to?
    pub open: bool,
    /// Did the last `---` line name `/dev/null`? It precedes the `+++` line it describes.
    pub old_is_null: bool,
    /// The new-file number of the next line of the hunk, or 0 outside a hunk.
    pub new_line: int,
}

pub open spec fn start_state() -> ParseState {
    ParseState { files: seq![], open: false, old_is_null: false, new_line: 0 }
}

/// The first word that starts with `+`.
pub open spec fn first_plus(parts: Seq<Seq<char>>) -> Option<Seq<char>>
    decreases parts.len(),
{
    if parts.len() == 0 {
        None
    } else if parts[0].len() > 0 && parts[0][0] == '+' {
        Some(parts[0])
    } else {
        first_plus(parts.drop_first())
    }
}

/// `@@ -12,3 +15,8 @@` -> 15: the number after the `+`, up to a comma.
pub open spec fn spec_hunk_start(header: Seq<char>) -> Option<usize> {
    match first_plus(split_ws(header)) {
        Some(part) => {
            let rest = part.drop_first();
            parse_usize(rest.take(find_char(rest, ',') as int))
        },
        None => None,
    }
}

/// A `+++` target without its `b/`.
pub open spec fn strip_b(target: Seq<char>) -> Seq<char> {
    if starts_with(target, "b/"@) {
        target.skip("b/"@.len() as int)
    } else {
        target
    }
}

/// The added or context text of a hunk line: all but its first character.
pub open spec fn hunk_text(raw: Seq<char>) -> Seq<char> {
    if raw.len() > 0 {
        raw.drop_first()
    } else {
        seq![]
    }
}

/// Does this line of a hunk count toward the new file?
pub open spec fn counts_in_hunk(st: ParseState, raw: Seq<char>) -> bool {
    &&& st.open
    &&& st.new_line > 0
    &&& st.files.len() > 0
    &&& (raw.len() == 0 || raw[0] == '+' || raw[0] == ' ')
}

pub open spec fn is_header(st: ParseState, raw: Seq<char>) -> bool {
    ||| starts_with(raw, "diff --git"@)
    ||| starts_with(raw, "--- "@)
    ||| starts_with(raw, "+++ "@)
    ||| (st.open && starts_with(raw, "@@"@))
}

/// What one line of a diff does to the parser.
#[verifier::opaque]
pub open spec fn step(st: ParseState, raw: Seq<char>) -> ParseState {
    if starts_with(raw, "diff --git"@) {
        ParseState { open: false, new_line: 0, ..st }
    } else if starts_with(raw, "--- "@) {
        ParseState { old_is_null: trim(raw.skip("--- "@.len() as int)) == "/dev/null"@, ..st }
    } else if starts_with(raw, "+++ "@) {
        let target = trim(raw.skip("+++ "@.len() as int));
        let open = target != "/dev/null"@;
        let files = if open {
            st.files.push(
                FileModel {
                    path: strip_b(target),
                    is_new: st.old_is_null,
                    added: Map::empty(),
                    context: Map::empty(),
                },
            )
        } else {
            st.files
        };
        ParseState { files, open, new_line: 0, ..st }
    } else if st.open && starts_with(raw, "@@"@) {
        ParseState {
            new_line: match spec_hunk_start(raw) {
                Some(n) => n as int,
                None => 0,
            },
            ..st
        }
    } else if counts_in_hunk(st, raw) {
        let last = st.files.last();
        let f = if raw.len() > 0 && raw[0] == '+' {
            FileModel { added: last.added.insert(st.new_line as usize, hunk_text(raw)), ..last }
        } else {
            FileModel { context: last.context.insert(st.new_line as usize, hunk_text(raw)), ..last }
        };
        ParseState {
            files: st.files.update(st.files.len() - 1, f),
            new_line: st.new_line + 1,
            ..st
        }
    } else {
        st
    }
}

/// The parser after the lines `ls`.
pub open spec fn run(ls: Seq<Seq<char>>) -> ParseState
    decreases ls.len(),
{
    if ls.len() == 0 {
        start_state()
    } else {
        step(run(ls.drop_last()), ls.last())
    }
}

/// The files that gained at least one line.
pub open spec fn with_added(files: Seq<FileModel>) -> Seq<FileModel>
    decreases files.len(),
{
    if files.len() == 0 {
        seq![]
    } else {
        let rest = with_added(files.drop_last());
        if files.last().added.is_empty() {
            rest
        } else {
            rest.push(files.last())
        }
    }
}

/// The files of a diff and the lines each gained.
pub open spec fn spec_parse(diff_text: Seq<char>) -> Seq<FileModel> {
    with_added(run(lines(diff_text)).files)
}

/// No hunk counts past the largest line number: the counter would overflow.
pub open spec fn line_numbers_fit(diff_text: Seq<char>) -> bool {
    lines_fit(lines(diff_text))
}

pub open spec fn lines_fit(ls: Seq<Seq<char>>) -> bool {
    forall|i: int|
        #![trigger ls[i]]
        0 <= i < ls.len() && !is_header(run(ls.take(i)), ls[i]) && counts_in_hunk(
            run(ls.take(i)),
            ls[i],
        ) ==> run(ls.take(i)).new_line < usize::MAX
}

proof fn lemma_hunk_start(header: Seq<char>, part: Seq<char>)
    requires
        first_plus(split_ws(header)) == Some(part),
    ensures
        spec_hunk_start(header) == parse_usize(
            part.drop_first().take(find_char(part.drop_first(), ',') as int),
        ),
{
}

/// `@@ -12,3 +15,8 @@` -> 15
fn hunk_start(header: &Vec<char>) -> (r: Option<usize>)
    ensures
        r == spec_hunk_start(header@),
{
    let parts = text::words_of(header);
    let ghost all = split_ws(header@);
    let mut k: usize = 0;
    assert(all.skip(0) == all);
    while k < parts.len()
        invariant
            all == split_ws(header@),
            k <= parts@.len(),
            parts@.len() == all.len(),
            forall|i: int| 0 <= i < parts@.len() ==> #[trigger] parts@[i]@ == all[i],
            first_plus(all) == first_plus(all.skip(k as int)),
        decreases parts.len() - k,
    {
        let part = &parts[k];
        assert(all.skip(k as int)[0] == all[k as int]);
        if part.len() > 0 && part[0] == '+' {
            let rest = text::slice(part, 1, part.len());
            assert(rest@ == part@.drop_first());
            let comma = text::find_from(&rest, 0, ',');
            assert(rest@.skip(0) == rest@);
            let number = text::slice(&rest, 0, comma);
            assert(number@ == rest@.take(comma as int));
            assert(all.skip(k as int).len() > 0);
            assert(first_plus(all.skip(k as int)) == Some(part@));
            assert(first_plus(all) == Some(part@));
            assert(comma == find_char(part@.drop_first(), ','));
            proof {
                lemma_hunk_start(header@, part@);
            }
            return text::parse_usize_of(&number);
        }
        assert(all.skip(k as int).drop_first() == all.skip(k + 1));
        k += 1;
    }
    None
}

/// Whether `raw` continues with the literal `prefix`, and what follows it, trimmed.
fn trimmed_after(raw: &Vec<char>, prefix: &str) -> (r: Vec<char>)
    requires
        starts_with(raw@, prefix@),
    ensures
        r@ == trim(raw@.skip(prefix@.len() as int)),
{
    let p = text::chars_of(prefix);
    let rest = text::slice(raw, p.len(), raw.len());
    assert(rest@ == raw@.skip(prefix@.len() as int));
    text::trimmed(&rest)
}

pub proof fn lemma_strings_insert(m: Map<usize, String>, k: usize, s: String)
    ensures
        strings(m.insert(k, s)) == strings(m).insert(k, s@),
{
    assert(strings(m.insert(k, s)) =~= strings(m).insert(k, s@));
}

/// The parser's state as it runs.
struct DiffReader {
    files: Vec<FileDiff>,
    open: bool,
    old_is_null: bool,
    new_line: usize,
}

impl DiffReader {
    spec fn state(&self) -> ParseState {
        ParseState {
            files: models(self.files@),
            open: self.open,
            old_is_null: self.old_is_null,
            new_line: self.new_line as int,
        }
    }

    /// Takes one line of the diff; false, with nothing changed, where the line would count
    /// past the largest line number.
    fn feed(&mut self, raw: &Vec<char>) -> (r: bool)
        requires
            old(self).open ==> old(self).files@.len() > 0,
        ensures
            final(self).open ==> final(self).files@.len() > 0,
            r <==> !(!is_header(old(self).state(), raw@) && counts_in_hunk(old(self).state(), raw@)
                && old(self).new_line == usize::MAX),
            r ==> final(self).state() == step(old(self).state(), raw@),
    {
        reveal(step);
        let ghost st = self.state();
        let ghost before = self.files@;
        if text::begins(raw, "diff --git") {
            self.open = false;
            self.new_line = 0;
        } else if text::begins(raw, "--- ") {
            let old = trimmed_after(raw, "--- ");
            self.old_is_null = text::is(&old, "/dev/null");
        } else if text::begins(raw, "+++ ") {
            let target = trimmed_after(raw, "+++ ");
            self.open = !text::is(&target, "/dev/null");
            if self.open {
                let path = if text::begins(&target, "b/") {
                    let b = text::chars_of("b/");
                    text::slice(&target, b.len(), target.len())
                } else {
                    target
                };
                assert(path@ == strip_b(target@));
                let file = FileDiff {
                    path: text::string_of(path.as_slice()),
                    is_new: self.old_is_null,
                    added: BTreeMap::new(),
                    context: BTreeMap::new(),
                };
                self.files.push(file);
                assert(strings(file.added@) =~= Map::empty());
                assert(strings(file.context@) =~= Map::empty());
                assert(models(self.files@) =~= models(before).push(file.model()));
            }
            self.new_line = 0;
        } else if self.open && text::begins(raw, "@@") {
            self.new_line = match hunk_start(raw) {
                Some(n) => n,
                None => 0,
            };
        } else if self.open && self.new_line > 0 && (raw.len() == 0 || raw[0] == '+' || raw[0]
            == ' ') {
            assert(counts_in_hunk(st, raw@));
            if self.new_line == usize::MAX {
                return false;
            }
            let n = self.files.len() - 1;
            let line_text = if raw.len() > 0 {
                text::slice(raw, 1, raw.len())
            } else {
                Vec::new()
            };
            assert(line_text@ == hunk_text(raw@));
            let s = text::string_of(line_text.as_slice());
            let ghost old_file = self.files@[n as int];
            let key = self.new_line;
            if raw.len() > 0 && raw[0] == '+' {
                self.files[n].added.insert(key, s);
                proof {
                    lemma_strings_insert(old_file.added@, key, s);
                }
            } else {
                self.files[n].context.insert(key, s);
                proof {
                    lemma_strings_insert(old_file.context@, key, s);
                }
            }
            assert(models(self.files@) =~= models(before).update(
                n as int,
                self.files@[n as int].model(),
            ));
            self.new_line = key + 1;
        }
        true
    }
}

/// The files that gained at least one line.
fn keep_with_added(files: Vec<FileDiff>) -> (r: Vec<FileDiff>)
    ensures
        models(r@) == with_added(models(files@)),
{
    let mut kept: Vec<FileDiff> = Vec::new();
    let mut k: usize = 0;
    let ghost fs = files@;
    assert(fs.take(0) =~= seq![]);
    assert(models(kept@) =~= seq![]);
    while k < files.len()
        invariant
            fs == files@,
            k <= files@.len(),
            models(kept@) == with_added(models(fs.take(k as int))),
        decreases files.len() - k,
    {
        assert(models(fs.take(k + 1)).drop_last() =~= models(fs.take(k as int)));
        assert(models(fs.take(k + 1)).last() == fs[k as int].model());
        let ghost before = kept@;
        if !files[k].added.is_empty() {
            let f = files[k].clone();
            kept.push(f);
            assert(models(kept@) =~= models(before).push(fs[k as int].model()));
        }
        k += 1;
    }
    assert(fs.take(files.len() as int) == fs);
    kept
}

/// Parses a diff, or `None` where a hunk would count its lines past the largest line number.
pub fn parse_checked(diff_text: &str) -> (r: Option<Vec<FileDiff>>)
    ensures
        r is Some <==> line_numbers_fit(diff_text@),
        r matches Some(files) ==> models(files@) == spec_parse(diff_text@),
{
    let chars = text::chars_of(diff_text);
    let all = text::lines_of(&chars);
    let ghost ls = lines(diff_text@);
    let mut parser = DiffReader { files: Vec::new(), open: false, old_is_null: false, new_line: 0 };
    let mut i: usize = 0;
    assert(ls.take(0) =~= seq![]);
    assert(models(parser.files@) =~= seq![]);
    while i < all.len()
        invariant
            ls == lines(diff_text@),
            all@.len() == ls.len(),
            forall|j: int| 0 <= j < all@.len() ==> #[trigger] all@[j]@ == ls[j],
            i <= all@.len(),
            parser.state() == run(ls.take(i as int)),
            parser.open ==> parser.files@.len() > 0,
            forall|j: int|
                #![trigger ls[j]]
                0 <= j < i && !is_header(run(ls.take(j)), ls[j]) && counts_in_hunk(
                    run(ls.take(j)),
                    ls[j],
                ) ==> run(ls.take(j)).new_line < usize::MAX,
        decreases all.len() - i,
    {
        assert(ls.take(i + 1).drop_last() == ls.take(i as int));
        assert(ls.take(i + 1).last() == ls[i as int]);
        assert(all@[i as int]@ == ls[i as int]);
        if !parser.feed(&all[i]) {
            assert(!line_numbers_fit(diff_text@));
            return None;
        }
        i += 1;
    }
    assert(ls.take(all.len() as int) == ls);
    Some(keep_with_added(parser.files))
}

/// Parses a unified diff: for each file it adds lines to, the lines it adds and the context
/// lines its hunks carry, by new-file line number. A deleted file adds nothing and is left out.
pub fn parse(diff_text: &str) -> (r: Vec<FileDiff>)
    requires
        line_numbers_fit(diff_text@),
    ensures
        models(r@) == spec_parse(diff_text@),
{
    match parse_checked(diff_text) {
        Some(files) => files,
        None => Vec::new(),
    }
}


/// `s` lists the entries of `m` once each, in increasing line order.
pub open spec fn is_listing(m: Map<usize, Seq<char>>, s: Seq<(usize, Seq<char>)>) -> bool {
    &&& forall|i: int, j: int| 0 <= i < j < s.len() ==> #[trigger] s[i].0 < #[trigger] s[j].0
    &&& forall|i: int|
        0 <= i < s.len() ==> m.contains_key(#[trigger] s[i].0) && m[s[i].0] == s[i].1
    &&& forall|k: usize|
        #[trigger] m.contains_key(k) ==> exists|i: int| 0 <= i < s.len() && #[trigger] s[i].0 == k
}

/// The entries of a line map in increasing line order.
pub open spec fn listing(m: Map<usize, Seq<char>>) -> Seq<(usize, Seq<char>)> {
    choose|s: Seq<(usize, Seq<char>)>| is_listing(m, s)
}

pub open spec fn pair_view(p: (usize, String)) -> (usize, Seq<char>) {
    (p.0, p.1@)
}

proof fn lemma_listing_rest(m: Map<usize, Seq<char>>, s: Seq<(usize, Seq<char>)>)
    requires
        is_listing(m, s),
        s.len() > 0,
    ensures
        is_listing(m.remove(s[0].0), s.drop_first()),
{
    let r = s.drop_first();
    let m2 = m.remove(s[0].0);
    assert forall|i: int, j: int| 0 <= i < j < r.len() implies #[trigger] r[i].0 < #[trigger] r[j].0 by {
        assert(s[i + 1].0 < s[j + 1].0);
    }
    assert forall|i: int| 0 <= i < r.len() implies m2.contains_key(#[trigger] r[i].0) && m2[r[i].0] == r[i].1 by {
        assert(s[0].0 < s[i + 1].0);
        assert(m.contains_key(s[i + 1].0));
    }
    assert forall|k: usize| #[trigger] m2.contains_key(k) implies exists|i: int| 0 <= i < r.len() && #[trigger] r[i].0 == k by {
        assert(m.contains_key(k));
        let i = choose|i: int| 0 <= i < s.len() && #[trigger] s[i].0 == k;
        assert(i != 0);
        assert(r[i - 1].0 == k);
    }
}

/// There is one listing of a map: two listings of it are equal.
pub proof fn lemma_listing_unique(m: Map<usize, Seq<char>>, s1: Seq<(usize, Seq<char>)>, s2: Seq<(usize, Seq<char>)>)
    requires
        is_listing(m, s1),
        is_listing(m, s2),
    ensures
        s1 == s2,
    decreases s1.len(),
{
    if s1.len() == 0 {
        if s2.len() > 0 {
            assert(m.contains_key(s2[0].0));
        }
        assert(s1 =~= s2);
    } else {
        assert(m.contains_key(s1[0].0));
        let j = choose|i: int| 0 <= i < s2.len() && #[trigger] s2[i].0 == s1[0].0;
        assert(m.contains_key(s2[0].0));
        let i = choose|i: int| 0 <= i < s1.len() && #[trigger] s1[i].0 == s2[0].0;
        if i > 0 {
            assert(s1[0].0 < s1[i].0);
        }
        if j > 0 {
            assert(s2[0].0 < s2[j].0);
        }
        assert(s1[0].0 == s2[0].0);
        lemma_listing_rest(m, s1);
        lemma_listing_rest(m, s2);
        lemma_listing_unique(m.remove(s1[0].0), s1.drop_first(), s2.drop_first());
        assert(s1 =~= seq![s1[0]] + s1.drop_first());
        assert(s2 =~= seq![s2[0]] + s2.drop_first());
    }
}

/// The entries of a line map, in increasing line order.
pub fn entries(m: &BTreeMap<usize, String>) -> (r: Vec<(usize, String)>)
    ensures
        r@.map_values(|p: (usize, String)| pair_view(p)) == listing(strings(m@)),
        is_listing(strings(m@), listing(strings(m@))),
{
    let mut out: Vec<(usize, String)> = Vec::new();
    let ghost rem = vstd::std_specs::btree::spec_btree_map_iter(m).remaining();
    for (k, v) in it: m.iter()
        invariant
            out@.len() == it.index(),
            forall|i: int| 0 <= i < it.index() ==> #[trigger] out@[i] == (*it.seq()[i].0, *it.seq()[i].1),
            it.seq() == rem,
            vstd::std_specs::btree::increasing_seq(rem.map_values(|kv: (&usize, &String)| *kv.0)),
    {
        out.push((*k, v.clone()));
    }
    proof {
        let s = out@.map_values(|p: (usize, String)| pair_view(p));
        let keys = rem.map_values(|kv: (&usize, &String)| *kv.0);
        assert(out@.len() == rem.len());
        assert forall|i: int, j: int| 0 <= i < j < s.len() implies #[trigger] s[i].0 < #[trigger] s[j].0 by {
            assert(keys[i] == s[i].0);
            assert(keys[j] == s[j].0);
            assert(keys[i].cmp_spec(&keys[j]) is Less);
        }
        assert forall|i: int| 0 <= i < s.len() implies strings(m@).contains_key(#[trigger] s[i].0) && strings(m@)[s[i].0] == s[i].1 by {
            assert(m@.contains_key(*rem[i].0));
        }
        assert forall|k: usize| #[trigger] strings(m@).contains_key(k) implies exists|i: int| 0 <= i < s.len() && #[trigger] s[i].0 == k by {
            assert(rem.contains((&k, &m@[k])));
            let i = choose|i: int| 0 <= i < rem.len() && rem[i] == (&k, &m@[k]);
            assert(s[i].0 == k);
        }
        assert(is_listing(strings(m@), s));
        lemma_listing_unique(strings(m@), s, listing(strings(m@)));
    }
    out
}
} // verus!
