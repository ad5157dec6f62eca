//! What holds of the library as a whole, proved over the specifications the functions meet.

use crate::affix::{candidates_ok, eligible, flagged, group_members, is_candidate, members_upto};
use crate::diff::{is_listing, listing, spec_parse, with_added, FileModel};
use crate::inherit::{kept, kept_base, spec_implementers, spec_inheritance_in, TEST_PATH};
use crate::jev::{picked_keys, spec_precondition, spec_questions_for, sorted_question_keys, worth_asking, ELSE_WORD};
use crate::pattern::regex_is_match;
use crate::review::{
    affix_judgments, key_before, rule_judgments, spec_settle_judged, stable_order, first_after,
    suppressed_as_idiom, unjudged, JudgmentModel,
};
use crate::rules::{
    any_catch_all, arms_of, capped, count_open, rule_3_of, rule_4_of, rule_5_finding, rule_5_of,
    spec_arm_does_not_return, spec_is_catch_all, spec_own_ifs,
    spec_rule_1, spec_rule_3, spec_rule_4_candidates, spec_rule_5, spec_body_statements, spec_statement_count,
    FindingModel, LIMIT,
};
use crate::tree::ParsedFile;
use crate::text::trim;
use crate::units::{
    first_with_bytes, holder, place_line, place_lines, spec_added_text, spec_all_units, spec_method_units, spec_node_of,
    unit_with_bytes, UnitModel,
};
use crate::lang::{spec_is_function, spec_is_if};
use crate::rules::{arm_items, count_statements, spec_counts_as_statement, last_statement, own_ifs_of, spec_is_else_if};
use crate::affix::{affix_findings, differing, is_pair, opt_seq, pair_finding, row_findings, spec_words};
use vstd::prelude::*;

verus! {

// ---------------------------------------------------------------- only what the diff adds

proof fn lemma_rule_3_lines(u: UnitModel, p: ParsedFile, body: Seq<usize>, ifs: Seq<usize>)
    ensures
        forall|k: int|
            0 <= k < rule_3_of(u, p, body, ifs).len() ==> u.added_lines.contains(
                #[trigger] rule_3_of(u, p, body, ifs)[k].line,
            ),
    decreases ifs.len(),
{
    if ifs.len() > 0 {
        lemma_rule_3_lines(u, p, body, ifs.drop_last());
    }
}

/// Rule 3 flags only an `if` on a line the diff added: an `if` that was already in a method
/// the diff touched is out of scope.
pub proof fn law_rule_3_flags_only_added_ifs(u: UnitModel, p: ParsedFile, f: int)
    ensures
        forall|k: int|
            0 <= k < spec_rule_3(u, p, f).len() ==> u.added_lines.contains(#[trigger] spec_rule_3(u, p, f)[k].line),
{
    lemma_rule_3_lines(u, p, spec_body_statements(p, f), spec_own_ifs(p, f));
}

proof fn lemma_rule_4_lines(u: UnitModel, p: ParsedFile, ifs: Seq<usize>)
    ensures
        forall|k: int| 0 <= k < rule_4_of(u, p, ifs).len() ==> u.added_lines.contains(#[trigger] rule_4_of(u, p, ifs)[k]),
    decreases ifs.len(),
{
    if ifs.len() > 0 {
        lemma_rule_4_lines(u, p, ifs.drop_last());
        let rest = rule_4_of(u, p, ifs.drop_last());
        assert forall|k: int| 0 <= k < rule_4_of(u, p, ifs).len() implies u.added_lines.contains(#[trigger] rule_4_of(u, p, ifs)[k]) by {
            if k < rest.len() {
                assert(rule_4_of(u, p, ifs)[k] == rest[k]);
            }
        }
    }
}

/// Rule 4 considers only the if/else constructs on lines the diff added.
pub proof fn law_rule_4_considers_only_added_lines(u: UnitModel, p: ParsedFile, f: int)
    ensures
        forall|k: int|
            0 <= k < spec_rule_4_candidates(u, p, f).len() ==> u.added_lines.contains(
                #[trigger] spec_rule_4_candidates(u, p, f)[k],
            ),
{
    lemma_rule_4_lines(u, p, spec_own_ifs(p, f));
}

proof fn lemma_rule_5_lines(u: UnitModel, p: ParsedFile, ns: Seq<usize>)
    ensures
        forall|k: int| 0 <= k < rule_5_of(u, p, ns).len() ==> u.added_lines.contains(#[trigger] rule_5_of(u, p, ns)[k].line),
    decreases ns.len(),
{
    if ns.len() > 0 {
        lemma_rule_5_lines(u, p, ns.drop_last());
    }
}

/// Rule 5 flags only a switch on a line the diff added.
pub proof fn law_rule_5_flags_only_added_switches(u: UnitModel, p: ParsedFile, f: int)
    ensures
        forall|k: int|
            0 <= k < spec_rule_5(u, p, f).len() ==> u.added_lines.contains(#[trigger] spec_rule_5(u, p, f)[k].line),
{
    lemma_rule_5_lines(u, p, p.spec_within(f));
}

proof fn lemma_no_open_arms(p: ParsedFile, arms: Seq<usize>)
    requires
        forall|k: int| 0 <= k < arms.len() ==> !spec_arm_does_not_return(p, #[trigger] arms[k] as int),
    ensures
        count_open(p, arms) == 0,
    decreases arms.len(),
{
    if arms.len() > 0 {
        assert forall|k: int| 0 <= k < arms.drop_last().len() implies !spec_arm_does_not_return(p, #[trigger] arms.drop_last()[k] as int) by {
            assert(arms.drop_last()[k] == arms[k]);
        }
        lemma_no_open_arms(p, arms.drop_last());
    }
}

/// An exhaustive switch where every arm returns is rule 5's approved shape: no arm catches all,
/// no arm falls through, and nothing is raised.
pub proof fn law_rule_5_approves_exhaustive_returning_switches(u: UnitModel, p: ParsedFile, s: usize)
    requires
        forall|k: int|
            0 <= k < arms_of(p, s, p.spec_within(s as int)).len() ==> {
                let arm = #[trigger] arms_of(p, s, p.spec_within(s as int))[k] as int;
                !spec_is_catch_all(p, arm) && !spec_arm_does_not_return(p, arm)
            },
    ensures
        rule_5_finding(u, p, s) is None,
{
    let arms = arms_of(p, s, p.spec_within(s as int));
    assert(!any_catch_all(p, arms));
    lemma_no_open_arms(p, arms);
}

// ---------------------------------------------------------------- rule 1 and the base version

/// A long method is flagged only if the diff introduced it or made it longer: a method of at
/// most five statements, or no longer than in the base version, raises nothing.
pub proof fn law_rule_1_spares_what_did_not_grow(u: UnitModel, p: ParsedFile, f: int, base: Option<usize>)
    requires
        capped(spec_statement_count(p, f)) <= LIMIT || (base matches Some(b) && capped(spec_statement_count(p, f)) <= b),
    ensures
        spec_rule_1(u, p, f, base).len() == 0,
{
}

/// A method flagged by rule 1 is `grown` exactly when it was already over budget in the base
/// version, and `introduced` otherwise.
pub proof fn law_rule_1_grown_or_introduced(u: UnitModel, p: ParsedFile, f: int, base: Option<usize>)
    requires
        spec_rule_1(u, p, f, base).len() > 0,
    ensures
        spec_rule_1(u, p, f, base).len() == 1,
        spec_rule_1(u, p, f, base)[0].severity == if base matches Some(b) && b > LIMIT {
            "grown"@
        } else {
            "introduced"@
        },
        capped(spec_statement_count(p, f)) > LIMIT,
{
}

// ---------------------------------------------------------------- idioms are suppressed, not deleted

/// An idiom hides a method's findings without removing any: the same findings come out, in
/// the same order, each marked suppressed.
pub proof fn law_idiom_suppresses_without_deleting(
    u: UnitModel,
    findings: Seq<FindingModel>,
    else_lines: Seq<usize>,
    affixes: Seq<Seq<Seq<char>>>,
    answers: Seq<JudgmentModel>,
    p: Seq<char>,
)
    ensures
        ({
            let open = spec_settle_judged(u, findings, else_lines, affixes, answers, None);
            let hidden = spec_settle_judged(u, findings, else_lines, affixes, answers, Some(p));
            &&& hidden.len() == open.len()
            &&& forall|k: int|
                0 <= k < hidden.len() ==> #[trigger] hidden[k] == (suppressed_as_idiom(open[k].0, p), open[k].1)
            &&& forall|k: int| 0 <= k < hidden.len() ==> (#[trigger] hidden[k]).0.suppressed is Some
        }),
{
}

/// A judged finding is one whose judgment reached the "worth a look" floor: raised as
/// introduced at the threshold, worth a look below it.
pub open spec fn carries_its_judgment(e: (FindingModel, int), answers: Seq<JudgmentModel>) -> bool {
    0 <= e.1 < answers.len() ==> {
        &&& answers[e.1].worth_a_look
        &&& e.0.basis == "jev"@
        &&& e.0.severity == if answers[e.1].raised {
            "introduced"@
        } else {
            "worth a look"@
        }
    }
}

proof fn lemma_rule_judgments(u: UnitModel, else_lines: Seq<usize>, answers: Seq<JudgmentModel>, all: Seq<JudgmentModel>)
    requires
        answers.len() <= all.len(),
        forall|k: int| 0 <= k < answers.len() ==> #[trigger] answers[k] == all[k],
    ensures
        forall|k: int|
            0 <= k < rule_judgments(u, else_lines, answers).len() ==> carries_its_judgment(
                #[trigger] rule_judgments(u, else_lines, answers)[k],
                all,
            ),
    decreases answers.len(),
{
    if answers.len() > 0 {
        let prev = answers.drop_last();
        assert forall|k: int| 0 <= k < prev.len() implies #[trigger] prev[k] == all[k] by {
            assert(prev[k] == answers[k]);
        }
        lemma_rule_judgments(u, else_lines, prev, all);
        let rest = rule_judgments(u, else_lines, prev);
        let r = rule_judgments(u, else_lines, answers);
        assert forall|k: int| 0 <= k < r.len() implies carries_its_judgment(#[trigger] r[k], all) by {
            if k < rest.len() {
                assert(r[k] == rest[k]);
            } else {
                assert(answers[answers.len() - 1] == all[answers.len() - 1]);
            }
        }
    }
}

proof fn lemma_first_answer_bound(answers: Seq<JudgmentModel>, key: Seq<char>)
    ensures
        crate::review::first_answer(answers, key) matches Some(a) ==> 0 <= a < answers.len(),
    decreases answers.len(),
{
    if answers.len() > 0 {
        lemma_first_answer_bound(answers.drop_last(), key);
    }
}

proof fn lemma_affix_judgments(u: UnitModel, affixes: Seq<Seq<Seq<char>>>, answers: Seq<JudgmentModel>, n: int)
    ensures
        forall|k: int|
            0 <= k < affix_judgments(u, affixes, answers, n).len() ==> carries_its_judgment(
                #[trigger] affix_judgments(u, affixes, answers, n)[k],
                answers,
            ),
    decreases n,
{
    if n > 0 {
        lemma_affix_judgments(u, affixes, answers, n - 1);
        lemma_first_answer_bound(answers, crate::jev::affix_key((n - 1) as nat));
        let rest = affix_judgments(u, affixes, answers, n - 1);
        let r = affix_judgments(u, affixes, answers, n);
        assert forall|k: int| 0 <= k < r.len() implies carries_its_judgment(#[trigger] r[k], answers) by {
            if k < rest.len() {
                assert(r[k] == rest[k]);
            }
        }
    }
}

/// Every finding a judgment raises carries a judgment at or above the "worth a look" floor,
/// and is introduced exactly when that judgment reached the threshold.
pub proof fn law_judged_findings_reach_the_floor(
    u: UnitModel,
    findings: Seq<FindingModel>,
    else_lines: Seq<usize>,
    affixes: Seq<Seq<Seq<char>>>,
    answers: Seq<JudgmentModel>,
)
    ensures
        forall|k: int|
            0 <= k < spec_settle_judged(u, findings, else_lines, affixes, answers, None).len() ==> carries_its_judgment(
                #[trigger] spec_settle_judged(u, findings, else_lines, affixes, answers, None)[k],
                answers,
            ),
{
    let a = unjudged(findings);
    let b = rule_judgments(u, else_lines, answers);
    let c = affix_judgments(u, affixes, answers, affixes.len() as int);
    assert forall|k: int| 0 <= k < answers.len() implies #[trigger] answers[k] == answers[k] by {}
    lemma_rule_judgments(u, else_lines, answers, answers);
    lemma_affix_judgments(u, affixes, answers, affixes.len() as int);
    let all = a + b + c;
    assert forall|k: int| 0 <= k < all.len() implies carries_its_judgment(#[trigger] all[k], answers) by {
        if k < a.len() {
            assert(all[k] == a[k]);
            assert(a[k].1 == -1);
        } else if k < a.len() + b.len() {
            assert(all[k] == b[k - a.len()]);
        } else {
            assert(all[k] == c[k - a.len() - b.len()]);
        }
    }
}

// ---------------------------------------------------------------- rules 6 and 8

proof fn lemma_kept(ts: Seq<(usize, Seq<char>, Seq<char>)>)
    ensures
        forall|k: int| 0 <= k < kept(ts).len() ==> kept_base(#[trigger] kept(ts)[k].2),
    decreases ts.len(),
{
    if ts.len() > 0 {
        lemma_kept(ts.drop_last());
        let rest = kept(ts.drop_last());
        assert forall|k: int| 0 <= k < kept(ts).len() implies kept_base(#[trigger] kept(ts)[k].2) by {
            if k < rest.len() {
                assert(kept(ts)[k] == rest[k]);
            }
        }
    }
}

/// Exceptions and idiomatic bases (`Protocol`, `ABC`, `Enum`, `BaseModel`, ...) never reach
/// rule 6.
pub proof fn law_idiomatic_bases_are_not_inheritance(added: Map<usize, Seq<char>>)
    ensures
        forall|k: int|
            0 <= k < spec_inheritance_in(added).len() ==> kept_base(#[trigger] spec_inheritance_in(added)[k].2),
{
    lemma_kept(crate::inherit::inheritance_of(listing(added)));
}

proof fn lemma_implementers(name: Seq<char>, files: Seq<(Seq<char>, Seq<char>)>)
    ensures
        forall|k: int|
            0 <= k < spec_implementers(name, files).len() ==> !regex_is_match(
                TEST_PATH@,
                #[trigger] spec_implementers(name, files)[k],
            ),
    decreases files.len(),
{
    if files.len() > 0 {
        lemma_implementers(name, files.drop_last());
        let rest = spec_implementers(name, files.drop_last());
        assert forall|k: int| 0 <= k < spec_implementers(name, files).len() implies !regex_is_match(
            TEST_PATH@,
            #[trigger] spec_implementers(name, files)[k],
        ) by {
            if k < rest.len() {
                assert(spec_implementers(name, files)[k] == rest[k]);
            }
        }
    }
}

/// Test doubles do not count as implementations: no implementer has a test path.
pub proof fn law_test_doubles_are_not_implementers(name: Seq<char>, files: Seq<(Seq<char>, Seq<char>)>)
    ensures
        forall|k: int|
            0 <= k < spec_implementers(name, files).len() ==> !regex_is_match(
                TEST_PATH@,
                #[trigger] spec_implementers(name, files)[k],
            ),
{
    lemma_implementers(name, files);
}

// ---------------------------------------------------------------- what is asked

proof fn lemma_picked(keys: Seq<Seq<char>>, skip: Seq<Seq<char>>, added: Seq<char>)
    ensures
        forall|k: int|
            0 <= k < picked_keys(keys, skip, added).len() ==> worth_asking(
                #[trigger] picked_keys(keys, skip, added)[k],
                skip,
                added,
            ),
    decreases keys.len(),
{
    if keys.len() > 0 {
        lemma_picked(keys.drop_last(), skip, added);
        let rest = picked_keys(keys.drop_last(), skip, added);
        assert forall|k: int| 0 <= k < picked_keys(keys, skip, added).len() implies worth_asking(
            #[trigger] picked_keys(keys, skip, added)[k],
            skip,
            added,
        ) by {
            if k < rest.len() {
                assert(picked_keys(keys, skip, added)[k] == rest[k]);
            }
        }
    }
}

/// Only questions whose construct is in the added lines, and that parsing did not decide, are
/// asked; so a method whose diff adds no `else` is never asked about if-else. And the idiom
/// question is never asked alone.
pub proof fn law_questions_need_their_construct(u: UnitModel, skip: Seq<Seq<char>>)
    ensures
        forall|k: int|
            0 <= k < spec_questions_for(u, skip).len() ==> worth_asking(
                #[trigger] spec_questions_for(u, skip)[k],
                skip,
                spec_added_text(u),
            ),
        spec_questions_for(u, skip).contains("r4"@) ==> regex_is_match(ELSE_WORD@, spec_added_text(u)),
        spec_questions_for(u, skip).len() > 0 ==> exists|k: int|
            0 <= k < spec_questions_for(u, skip).len() && #[trigger] spec_questions_for(u, skip)[k] != "idiom"@,
{
    lemma_picked(sorted_question_keys(), skip, spec_added_text(u));
    let q = spec_questions_for(u, skip);
    if q.contains("r4"@) {
        let k = choose|k: int| 0 <= k < q.len() && q[k] == "r4"@;
        assert(worth_asking(q[k], skip, spec_added_text(u)));
        reveal_strlit("r3");
        reveal_strlit("r4");
        assert("r4"@[1] == '4' && "r3"@[1] == '3');
        assert("r4"@ != "r3"@);
        assert(spec_precondition("r4"@) == Some(ELSE_WORD@));
    }
}

// ---------------------------------------------------------------- rule 10

proof fn lemma_members_eligible(names: Seq<Seq<char>>, key: (bool, Seq<Seq<char>>), n: int)
    ensures
        forall|k: int|
            0 <= k < members_upto(names, key, n).len() ==> eligible(names, #[trigger] members_upto(names, key, n)[k]),
    decreases n,
{
    if n > 0 {
        lemma_members_eligible(names, key, n - 1);
        let rest = members_upto(names, key, n - 1);
        assert forall|k: int| 0 <= k < members_upto(names, key, n).len() implies eligible(names, #[trigger] members_upto(names, key, n)[k]) by {
            if k < rest.len() {
                assert(members_upto(names, key, n)[k] == rest[k]);
            }
        }
    }
}

proof fn lemma_same_elements(a: Seq<Seq<char>>, b: Seq<Seq<char>>, j: int)
    requires
        a.to_multiset() == b.to_multiset(),
        0 <= j < a.len(),
    ensures
        exists|i: int| 0 <= i < b.len() && b[i] == a[j],
{
    vstd::seq_lib::to_multiset_contains(a, a[j]);
    vstd::seq_lib::to_multiset_contains(b, a[j]);
    assert(a.contains(a[j]));
}

proof fn lemma_candidate_names(names: Seq<Seq<char>>, c: Seq<Seq<char>>, j: int)
    requires
        is_candidate(names, c),
        0 <= j < c.len(),
    ensures
        !flagged(names, c[j]),
{
    let key = choose|key: (bool, Seq<Seq<char>>)|
        crate::affix::is_group_key(names, key) && #[trigger] crate::affix::qualifies(names, key)
            && c.to_multiset() == group_members(names, key).to_multiset();
    let m = group_members(names, key);
    lemma_same_elements(c, m, j);
    lemma_members_eligible(names, key, names.len() as int);
    let i = choose|i: int| 0 <= i < m.len() && m[i] == c[j];
    assert(eligible(names, m[i]));
}

/// A name of an antonym pair is flagged and never also offered as an affix candidate.
pub proof fn law_flagged_names_are_not_candidates(names: Seq<Seq<char>>, cs: Seq<Seq<Seq<char>>>)
    requires
        candidates_ok(names, cs),
    ensures
        forall|k: int, j: int|
            0 <= k < cs.len() && 0 <= j < cs[k].len() ==> !flagged(names, #[trigger] cs[k][j]),
{
    assert forall|k: int, j: int| 0 <= k < cs.len() && 0 <= j < cs[k].len() implies !flagged(names, #[trigger] cs[k][j]) by {
        assert(is_candidate(names, cs[k]));
        lemma_candidate_names(names, cs[k], j);
    }
}

proof fn lemma_differing_symmetric(wa: Seq<Seq<char>>, wb: Seq<Seq<char>>, n: int)
    ensures
        crate::affix::differing(wa, wb, n) == crate::affix::differing(wb, wa, n),
    decreases n,
{
    if n > 0 {
        lemma_differing_symmetric(wa, wb, n - 1);
    }
}

/// Whether two names differ by an antonym affix does not depend on which comes first, and the
/// differing word is at the same place either way.
pub proof fn law_antonym_pairs_are_symmetric(a: Seq<char>, b: Seq<char>)
    ensures
        crate::affix::affix_position(crate::affix::spec_words(a), crate::affix::spec_words(b))
            == crate::affix::affix_position(crate::affix::spec_words(b), crate::affix::spec_words(a)),
{
    let (wa, wb) = (crate::affix::spec_words(a), crate::affix::spec_words(b));
    lemma_differing_symmetric(wa, wb, wa.len() as int);
}

// ---------------------------------------------------------------- the diff

proof fn lemma_with_added(files: Seq<FileModel>)
    ensures
        forall|k: int| 0 <= k < with_added(files).len() ==> !(#[trigger] with_added(files)[k]).added.is_empty(),
    decreases files.len(),
{
    if files.len() > 0 {
        lemma_with_added(files.drop_last());
        let rest = with_added(files.drop_last());
        assert forall|k: int| 0 <= k < with_added(files).len() implies !(#[trigger] with_added(files)[k]).added.is_empty() by {
            if k < rest.len() {
                assert(with_added(files)[k] == rest[k]);
            }
        }
    }
}

/// Every file a diff yields has at least one added line: a deleted file, or one the diff only
/// removes lines from, is left out.
pub proof fn law_every_file_adds_a_line(diff_text: Seq<char>)
    ensures
        forall|k: int| 0 <= k < spec_parse(diff_text).len() ==> !(#[trigger] spec_parse(diff_text)[k]).added.is_empty(),
{
    lemma_with_added(crate::diff::run(crate::text::lines(diff_text)).files);
}

// ---------------------------------------------------------------- the units

proof fn lemma_unit_with_bytes(us: Seq<UnitModel>, b: Option<(usize, usize)>)
    ensures
        unit_with_bytes(us, b) matches Some(i) ==> 0 <= i < us.len(),
    decreases us.len(),
{
    if us.len() > 0 && us[0].bytes != b {
        lemma_unit_with_bytes(us.drop_first(), b);
    }
}

pub open spec fn holds_added_lines(file: FileModel, u: UnitModel) -> bool {
    &&& u.added_lines.len() > 0
    &&& forall|j: int| 0 <= j < u.added_lines.len() ==> file.added.contains_key(#[trigger] u.added_lines[j])
}

proof fn lemma_place_lines(file: FileModel, p: ParsedFile, fs: Seq<usize>, es: Seq<(usize, Seq<char>)>)
    requires
        forall|k: int| 0 <= k < es.len() ==> file.added.contains_key(#[trigger] es[k].0),
    ensures
        forall|k: int|
            0 <= k < place_lines(p, fs, file.path, es).len() ==> holds_added_lines(
                file,
                #[trigger] place_lines(p, fs, file.path, es)[k],
            ),
    decreases es.len(),
{
    if es.len() > 0 {
        let us = place_lines(p, fs, file.path, es.drop_last());
        assert forall|k: int| 0 <= k < es.drop_last().len() implies file.added.contains_key(#[trigger] es.drop_last()[k].0) by {
            assert(es.drop_last()[k] == es[k]);
        }
        lemma_place_lines(file, p, fs, es.drop_last());
        let e = es.last();
        assert(file.added.contains_key(es[es.len() - 1].0));
        let r = place_line(p, fs, file.path, us, e);
        if trim(e.1).len() != 0 {
            match holder(p, fs, e.0) {
                None => {},
                Some(f) => {
                    let b = Some((p.nodes@[f as int].start_byte, p.nodes@[f as int].end_byte));
                    match unit_with_bytes(us, b) {
                        Some(i) => {
                            lemma_unit_with_bytes(us, b);
                            assert forall|k: int| 0 <= k < r.len() implies holds_added_lines(file, #[trigger] r[k]) by {
                                assert(holds_added_lines(file, us[k]));
                                if k == i {
                                    let a = r[k].added_lines;
                                    assert(a == us[i].added_lines.push(e.0));
                                    assert forall|j: int| 0 <= j < a.len() implies file.added.contains_key(#[trigger] a[j]) by {
                                        if j < us[i].added_lines.len() {
                                            assert(a[j] == us[i].added_lines[j]);
                                        }
                                    }
                                }
                            }
                        },
                        None => {
                            assert forall|k: int| 0 <= k < r.len() implies holds_added_lines(file, #[trigger] r[k]) by {
                                if k < us.len() {
                                    assert(r[k] == us[k]);
                                } else {
                                    assert(r[k].added_lines =~= seq![e.0]);
                                }
                            }
                        },
                    }
                },
            }
        }
    }
}

/// Only methods that hold an added line are units of review: every method unit carries at
/// least one line, and each line it carries is one the diff added.
pub proof fn law_method_units_hold_added_lines(file: FileModel, p: ParsedFile)
    requires
        is_listing(file.added, listing(file.added)),
    ensures
        forall|k: int|
            0 <= k < spec_method_units(file, p).len() ==> holds_added_lines(file, #[trigger] spec_method_units(file, p)[k]),
{
    let es = listing(file.added);
    assert forall|k: int| 0 <= k < es.len() implies file.added.contains_key(#[trigger] es[k].0) by {}
    lemma_place_lines(file, p, p.spec_functions(), es);
}

// ---------------------------------------------------------------- the order of a review

proof fn lemma_key_before_asymmetric(a: FindingModel, b: FindingModel)
    ensures
        !(key_before(a, b) && key_before(b, a)),
{
    crate::affix::lemma_str_lt_total(a.path, b.path);
}

proof fn lemma_first_after(order: Seq<usize>, fs: Seq<FindingModel>, i: int, q: int)
    requires
        0 <= q <= order.len(),
    ensures
        q <= first_after(order, fs, i, q) <= order.len(),
        forall|j: int| q <= j < first_after(order, fs, i, q) ==> !key_before(fs[i], fs[#[trigger] order[j] as int]),
        first_after(order, fs, i, q) < order.len() ==> key_before(fs[i], fs[order[first_after(order, fs, i, q)] as int]),
    decreases order.len() - q,
{
    if q < order.len() && !key_before(fs[i], fs[order[q] as int]) {
        lemma_first_after(order, fs, i, q + 1);
    }
}

pub open spec fn sorted_once(fs: Seq<FindingModel>, o: Seq<usize>, n: int) -> bool {
    &&& o.len() == n
    &&& forall|k: int| 0 <= k < n ==> #[trigger] o[k] < n
    &&& forall|a: int, b: int| 0 <= a < b < n ==> #[trigger] o[a] != #[trigger] o[b]
    &&& forall|k: int, l: int|
        #![trigger o[k], o[l]]
        0 <= k && l == k + 1 && l < n ==> !key_before(fs[o[l] as int], fs[o[k] as int])
}

#[verifier::rlimit(40)]
proof fn lemma_insert_keeps_order(fs: Seq<FindingModel>, o: Seq<usize>, i: int)
    requires
        0 <= i < usize::MAX,
        sorted_once(fs, o, i),
    ensures
        sorted_once(fs, o.insert(first_after(o, fs, i, 0), i as usize), i + 1),
{
    let p = first_after(o, fs, i, 0);
    lemma_first_after(o, fs, i, 0);
    let r = o.insert(p, i as usize);
    let n = i + 1;
    assert(r.len() == n);
    assert forall|k: int| 0 <= k < n implies #[trigger] r[k] < n by {
        if k < p {
            assert(r[k] == o[k]);
        } else if k > p {
            assert(r[k] == o[k - 1]);
        }
    }
    assert forall|a: int, b: int| 0 <= a < b < n implies #[trigger] r[a] != #[trigger] r[b] by {
        if a < p && b < p {
            assert(r[a] == o[a] && r[b] == o[b]);
        } else if a < p && b == p {
            assert(r[a] == o[a]);
        } else if a < p {
            assert(r[a] == o[a] && r[b] == o[b - 1]);
        } else if a == p {
            assert(r[b] == o[b - 1]);
        } else {
            assert(r[a] == o[a - 1] && r[b] == o[b - 1]);
        }
    }
    assert forall|k: int, l: int|
        #![trigger r[k], r[l]]
        0 <= k && l == k + 1 && l < n implies !key_before(fs[r[l] as int], fs[r[k] as int]) by {
        if l < p {
            assert(r[k] == o[k] && r[l] == o[l]);
        } else if l == p {
            assert(r[k] == o[k] && r[l] == i);
        } else if k == p {
            assert(r[k] == i && r[l] == o[k]);
            lemma_key_before_asymmetric(fs[i], fs[o[k] as int]);
        } else {
            assert(r[k] == o[k - 1] && r[l] == o[k]);
        }
    }
}

/// The order of a review lists each finding exactly once, and never a finding before one it
/// sorts after: by rule, then path, then line.
pub proof fn law_review_order_sorts_each_finding_once(fs: Seq<FindingModel>, n: int)
    requires
        0 <= n <= fs.len(),
        fs.len() <= usize::MAX,
    ensures
        sorted_once(fs, stable_order(fs, n), n),
    decreases n,
{
    if n > 0 {
        law_review_order_sorts_each_finding_once(fs, n - 1);
        lemma_insert_keeps_order(fs, stable_order(fs, n - 1), n - 1);
    }
}


// ---------------------------------------------------------------- every unit finds its node

/// Node `f` is a function of `p`.
pub open spec fn is_function_node(p: ParsedFile, f: usize) -> bool {
    f < p.len() && spec_is_function(p.kind(f as int))
}

proof fn lemma_collect_functions(p: ParsedFile, i: int)
    ensures
        forall|j: int| 0 <= j < p.spec_collect(i).len() ==> is_function_node(p, #[trigger] p.spec_collect(i)[j]),
    decreases p.len() - i, 1int, 0int,
{
    if 0 <= i < p.len() {
        assert(p.nodes@.len() == p.nodes.len());
        lemma_collect_from_functions(p, i, 0);
        let own: Seq<usize> = if spec_is_function(p.kind(i)) {
            seq![i as usize]
        } else {
            seq![]
        };
        let all = p.spec_collect(i);
        assert(all == own + p.collect_from(i, 0));
        assert forall|j: int| 0 <= j < all.len() implies is_function_node(p, #[trigger] all[j]) by {
            if j < own.len() {
                assert(all[j] == own[j]);
                assert(own[j] as int == i);
            } else {
                assert(all[j] == p.collect_from(i, 0)[j - own.len()]);
            }
        }
    }
}

proof fn lemma_collect_from_functions(p: ParsedFile, i: int, k: int)
    ensures
        forall|j: int| 0 <= j < p.collect_from(i, k).len() ==> is_function_node(p, #[trigger] p.collect_from(i, k)[j]),
    decreases p.len() - i, 0int, p.children(i).len() - k,
{
    if 0 <= i < p.len() && 0 <= k < p.children(i).len() {
        let c = p.children(i)[k] as int;
        let head: Seq<usize> = if i < c < p.len() {
            p.spec_collect(c)
        } else {
            seq![]
        };
        if i < c < p.len() {
            lemma_collect_functions(p, c);
        }
        lemma_collect_from_functions(p, i, k + 1);
        let all = p.collect_from(i, k);
        assert(all == head + p.collect_from(i, k + 1));
        assert forall|j: int| 0 <= j < all.len() implies is_function_node(p, #[trigger] all[j]) by {
            if j < head.len() {
                assert(all[j] == head[j]);
            } else {
                assert(all[j] == p.collect_from(i, k + 1)[j - head.len()]);
            }
        }
    }
}

proof fn lemma_holder_is_one_of(p: ParsedFile, fs: Seq<usize>, line: usize)
    ensures
        holder(p, fs, line) matches Some(f) ==> fs.contains(f) && f < p.len(),
    decreases fs.len(),
{
    if fs.len() > 0 {
        lemma_holder_is_one_of(p, fs.drop_last(), line);
        if let Some(f) = holder(p, fs.drop_last(), line) {
            let k = choose|k: int| 0 <= k < fs.drop_last().len() && fs.drop_last()[k] == f;
            assert(fs[k] == f);
        }
        assert(fs[fs.len() - 1] == fs.last());
    }
}

/// Unit `u` was built from function node `f`: it has its byte range and its lines.
pub open spec fn built_from(p: ParsedFile, u: UnitModel, f: usize) -> bool {
    &&& f < p.len()
    &&& u.bytes == Some((p.nodes@[f as int].start_byte, p.nodes@[f as int].end_byte))
    &&& u.start == (p.nodes@[f as int].start_row + 1) as usize
    &&& u.end == (p.nodes@[f as int].end_row + 1) as usize
}

proof fn lemma_units_built_from(p: ParsedFile, fs: Seq<usize>, path: Seq<char>, es: Seq<(usize, Seq<char>)>)
    ensures
        forall|k: int|
            0 <= k < place_lines(p, fs, path, es).len() ==> exists|f: usize|
                fs.contains(f) && built_from(p, #[trigger] place_lines(p, fs, path, es)[k], f),
    decreases es.len(),
{
    if es.len() > 0 {
        lemma_units_built_from(p, fs, path, es.drop_last());
        let us = place_lines(p, fs, path, es.drop_last());
        let e = es.last();
        let r = place_line(p, fs, path, us, e);
        assert(place_lines(p, fs, path, es) == r);
        if trim(e.1).len() != 0 {
            lemma_holder_is_one_of(p, fs, e.0);
            match holder(p, fs, e.0) {
                None => {},
                Some(f) => {
                    let b = Some((p.nodes@[f as int].start_byte, p.nodes@[f as int].end_byte));
                    match unit_with_bytes(us, b) {
                        Some(i) => {
                            lemma_unit_with_bytes(us, b);
                            assert forall|k: int| 0 <= k < r.len() implies exists|g: usize|
                                fs.contains(g) && built_from(p, #[trigger] r[k], g) by {
                                let g = choose|g: usize| fs.contains(g) && built_from(p, us[k], g);
                                assert(built_from(p, r[k], g));
                            }
                        },
                        None => {
                            assert forall|k: int| 0 <= k < r.len() implies exists|g: usize|
                                fs.contains(g) && built_from(p, #[trigger] r[k], g) by {
                                if k < us.len() {
                                    assert(r[k] == us[k]);
                                } else {
                                    assert(built_from(p, r[k], f));
                                }
                            }
                        },
                    }
                },
            }
        }
    }
}

proof fn lemma_first_with_bytes(p: ParsedFile, fs: Seq<usize>, f: usize)
    requires
        fs.contains(f),
        f < p.len(),
    ensures
        first_with_bytes(p, fs, (p.nodes@[f as int].start_byte, p.nodes@[f as int].end_byte)) matches Some(n)
            && fs.contains(n) && n < p.len() && p.nodes@[n as int].start_byte == p.nodes@[f as int].start_byte
            && p.nodes@[n as int].end_byte == p.nodes@[f as int].end_byte,
    decreases fs.len(),
{
    let b = (p.nodes@[f as int].start_byte, p.nodes@[f as int].end_byte);
    if !(0 <= fs[0] < p.len() && p.nodes@[fs[0] as int].start_byte == b.0 && p.nodes@[fs[0] as int].end_byte
        == b.1) {
        let k = choose|k: int| 0 <= k < fs.len() && fs[k] == f;
        assert(k != 0);
        assert(fs.drop_first()[k - 1] == f);
        lemma_first_with_bytes(p, fs.drop_first(), f);
        let n = first_with_bytes(p, fs.drop_first(), b)->0;
        let j = choose|j: int| 0 <= j < fs.drop_first().len() && fs.drop_first()[j] == n;
        assert(fs[j + 1] == n);
    } else {
        assert(fs[0] == fs[0]);
    }
}

/// Every unit `all_units` gives is found again by `node_of`: a function node with the unit's
/// byte range, starting on the unit's first line and ending on its last. A unit without a byte
/// range finds no node. This holds of every file `ParsedFile::parse` gives, whose nodes' rows
/// follow from their bytes.
pub proof fn law_all_units_find_their_nodes(path: Seq<char>, p: ParsedFile, unit: UnitModel)
    requires
        p.rows_follow_bytes(),
    ensures
        forall|k: int|
            0 <= k < spec_all_units(path, p).len() ==> (spec_node_of(p, (#[trigger] spec_all_units(path, p)[k]).bytes) matches Some(n)
                && is_function_node(p, n) && built_from(p, spec_all_units(path, p)[k], n)),
        unit.bytes is None ==> spec_node_of(p, unit.bytes) is None,
{
    let fs = p.spec_functions();
    let us = spec_all_units(path, p);
    lemma_collect_functions(p, 0);
    lemma_units_built_from(p, fs, path, crate::units::numbered_lines(crate::text::lines(p.source@)));
    assert forall|k: int| 0 <= k < us.len() implies (spec_node_of(p, (#[trigger] us[k]).bytes) matches Some(n)
        && is_function_node(p, n) && built_from(p, us[k], n)) by {
        let f = choose|f: usize| fs.contains(f) && built_from(p, us[k], f);
        lemma_first_with_bytes(p, fs, f);
        let n = spec_node_of(p, us[k].bytes)->0;
        let jf = choose|j: int| 0 <= j < fs.len() && fs[j] == f;
        let jn = choose|j: int| 0 <= j < fs.len() && fs[j] == n;
        assert(is_function_node(p, fs[jf]));
        assert(is_function_node(p, fs[jn]));
        assert(p.nodes@[n as int] == p.nodes@[n as int] && p.nodes@[f as int] == p.nodes@[f as int]);
    }
}


// ---------------------------------------------------------------- the idiom answer only suppresses

/// The findings with each judgment position from `i` on moved one place up: the positions the
/// same judgments have in a list with one more answer at `i`.
pub open spec fn shifted(es: Seq<(FindingModel, int)>, i: int) -> Seq<(FindingModel, int)> {
    es.map_values(|e: (FindingModel, int)| (e.0, if e.1 >= i { e.1 + 1 } else { e.1 }))
}

proof fn lemma_rule_judgment_positions(u: UnitModel, else_lines: Seq<usize>, answers: Seq<JudgmentModel>)
    ensures
        forall|k: int|
            0 <= k < rule_judgments(u, else_lines, answers).len() ==> 0 <= (#[trigger] rule_judgments(
                u,
                else_lines,
                answers,
            )[k]).1 < answers.len(),
    decreases answers.len(),
{
    if answers.len() > 0 {
        lemma_rule_judgment_positions(u, else_lines, answers.drop_last());
        let rest = rule_judgments(u, else_lines, answers.drop_last());
        let r = rule_judgments(u, else_lines, answers);
        assert forall|k: int| 0 <= k < r.len() implies 0 <= (#[trigger] r[k]).1 < answers.len() by {
            if k < rest.len() {
                assert(r[k] == rest[k]);
            }
        }
    }
}

proof fn lemma_rule_judgments_without(u: UnitModel, else_lines: Seq<usize>, a: Seq<JudgmentModel>, i: int)
    requires
        0 <= i < a.len(),
        crate::review::spec_jev_rule(a[i].key) is None,
    ensures
        rule_judgments(u, else_lines, a) == shifted(rule_judgments(u, else_lines, a.remove(i)), i),
    decreases a.len(),
{
    let b = a.remove(i);
    if i == a.len() - 1 {
        assert(b =~= a.drop_last());
        lemma_rule_judgment_positions(u, else_lines, b);
        let rest = rule_judgments(u, else_lines, b);
        assert(a.last() == a[i]);
        assert(rule_judgments(u, else_lines, a) == rest);
        assert(shifted(rest, i) =~= rest);
    } else {
        assert(b.drop_last() =~= a.drop_last().remove(i));
        assert(b.last() == a.last());
        lemma_rule_judgments_without(u, else_lines, a.drop_last(), i);
        let rest_b = rule_judgments(u, else_lines, b.drop_last());
        let rest_a = rule_judgments(u, else_lines, a.drop_last());
        assert(rest_a == shifted(rest_b, i));
        let ra = rule_judgments(u, else_lines, a);
        let rb = rule_judgments(u, else_lines, b);
        match crate::review::spec_jev_rule(a.last().key) {
            Some(_) => {
                if a.last().worth_a_look {
                    assert(ra == rest_a.push((ra.last().0, a.len() - 1)));
                    assert(rb == rest_b.push((ra.last().0, b.len() - 1)));
                    assert(ra =~= shifted(rb, i));
                }
            },
            None => {},
        }
    }
}

proof fn lemma_first_answer_without(a: Seq<JudgmentModel>, i: int, key: Seq<char>)
    requires
        0 <= i < a.len(),
        a[i].key != key,
    ensures
        crate::review::first_answer(a, key) == match crate::review::first_answer(a.remove(i), key) {
            Some(j) => Some(if j >= i { j + 1 } else { j }),
            None => None,
        },
    decreases a.len(),
{
    let b = a.remove(i);
    if i == a.len() - 1 {
        assert(b =~= a.drop_last());
        lemma_first_answer_bound(b, key);
        assert(a.last() == a[i]);
    } else {
        assert(b.drop_last() =~= a.drop_last().remove(i));
        assert(b.last() == a.last());
        lemma_first_answer_without(a.drop_last(), i, key);
    }
}

proof fn lemma_affix_judgments_without(
    u: UnitModel,
    affixes: Seq<Seq<Seq<char>>>,
    a: Seq<JudgmentModel>,
    i: int,
    n: int,
)
    requires
        0 <= i < a.len(),
        forall|m: nat| #[trigger] crate::jev::affix_key(m) != a[i].key,
    ensures
        affix_judgments(u, affixes, a, n) == shifted(affix_judgments(u, affixes, a.remove(i), n), i),
    decreases n,
{
    if n > 0 {
        lemma_affix_judgments_without(u, affixes, a, i, n - 1);
        let key = crate::jev::affix_key((n - 1) as nat);
        lemma_first_answer_without(a, i, key);
        lemma_first_answer_bound(a.remove(i), key);
        let ra = affix_judgments(u, affixes, a, n);
        let rb = affix_judgments(u, affixes, a.remove(i), n);
        match crate::review::first_answer(a.remove(i), key) {
            Some(j) => {
                let ja = if j >= i { j + 1 } else { j };
                assert(a[ja] == a.remove(i)[j]);
                if a.remove(i)[j].worth_a_look {
                    assert(ra =~= shifted(rb, i));
                }
            },
            None => {},
        }
    }
}

/// Dropping the idiom answer only lifts the suppression. With the idiom answer at its floor, a
/// method's judged findings are the ones settled from the same answers without it, in the same
/// order and number, each suppressed as an idiom, each carrying the same judgment.
pub proof fn law_idiom_answer_only_suppresses(
    u: UnitModel,
    findings: Seq<FindingModel>,
    else_lines: Seq<usize>,
    affixes: Seq<Seq<Seq<char>>>,
    answers: Seq<JudgmentModel>,
    i: int,
    p: Seq<char>,
)
    requires
        0 <= i < answers.len(),
        answers[i].key == "idiom"@,
    ensures
        ({
            let with = spec_settle_judged(u, findings, else_lines, affixes, answers, Some(p));
            let without = spec_settle_judged(u, findings, else_lines, affixes, answers.remove(i), None);
            &&& with.len() == without.len()
            &&& forall|k: int|
                0 <= k < with.len() ==> (#[trigger] with[k]).0 == suppressed_as_idiom(without[k].0, p)
            &&& forall|k: int| 0 <= k < with.len() ==> ((#[trigger] with[k]).1 < 0 <==> without[k].1 < 0)
            &&& forall|k: int|
                0 <= k < with.len() && without[k].1 >= 0 ==> answers[(#[trigger] with[k]).1] == answers.remove(
                    i,
                )[without[k].1]
        }),
{
    reveal_strlit("idiom");
    reveal_strlit("r2");
    reveal_strlit("r3");
    reveal_strlit("r4");
    reveal_strlit("r5");
    reveal_strlit("r7");
    reveal_strlit("r9");
    reveal_strlit("affix");
    assert("idiom"@.len() != "r2"@.len());
    assert(crate::review::spec_jev_rule(answers[i].key) is None);
    assert forall|m: nat| #[trigger] crate::jev::affix_key(m) != answers[i].key by {
        assert(crate::jev::affix_key(m)[0] == 'a');
        assert(answers[i].key[0] == 'i');
    }
    let b = answers.remove(i);
    lemma_rule_judgments_without(u, else_lines, answers, i);
    lemma_affix_judgments_without(u, affixes, answers, i, affixes.len() as int);
    lemma_rule_judgment_positions(u, else_lines, b);
    let un = unjudged(findings);
    let rb = rule_judgments(u, else_lines, b);
    let ab = affix_judgments(u, affixes, b, affixes.len() as int);
    lemma_affix_judgment_positions(u, affixes, b, affixes.len() as int);
    let without = un + rb + ab;
    let all_with = un + shifted(rb, i) + shifted(ab, i);
    assert(un =~= shifted(un, i));
    assert(all_with =~= shifted(without, i));
    let with = spec_settle_judged(u, findings, else_lines, affixes, answers, Some(p));
    assert(spec_settle_judged(u, findings, else_lines, affixes, b, None) == without);
    assert forall|k: int| 0 <= k < with.len() && without[k].1 >= 0 implies answers[(#[trigger] with[k]).1]
        == b[without[k].1] by {
        let t = without[k].1;
        if k < un.len() {
            assert(without[k] == un[k]);
        } else if k < un.len() + rb.len() {
            assert(without[k] == rb[k - un.len()]);
        } else {
            assert(without[k] == ab[k - un.len() - rb.len()]);
        }
        assert(0 <= t < b.len());
        if t >= i {
            assert(answers[t + 1] == b[t]);
        } else {
            assert(answers[t] == b[t]);
        }
    }
}

proof fn lemma_affix_judgment_positions(u: UnitModel, affixes: Seq<Seq<Seq<char>>>, answers: Seq<JudgmentModel>, n: int)
    ensures
        forall|k: int|
            0 <= k < affix_judgments(u, affixes, answers, n).len() ==> 0 <= (#[trigger] affix_judgments(
                u,
                affixes,
                answers,
                n,
            )[k]).1 < answers.len(),
    decreases n,
{
    if n > 0 {
        lemma_affix_judgment_positions(u, affixes, answers, n - 1);
        lemma_first_answer_bound(answers, crate::jev::affix_key((n - 1) as nat));
        let rest = affix_judgments(u, affixes, answers, n - 1);
        let r = affix_judgments(u, affixes, answers, n);
        assert forall|k: int| 0 <= k < r.len() implies 0 <= (#[trigger] r[k]).1 < answers.len() by {
            if k < rest.len() {
                assert(r[k] == rest[k]);
            }
        }
    }
}


// ---------------------------------------------------------------- rule 3: an `else if` is no `if` of its own

proof fn lemma_own_ifs_of(p: ParsedFile, ns: Seq<usize>)
    ensures
        forall|k: int|
            0 <= k < own_ifs_of(p, ns).len() ==> {
                let n = #[trigger] own_ifs_of(p, ns)[k];
                &&& ns.contains(n)
                &&& spec_is_if(p.kind(n as int))
                &&& !spec_is_else_if(p, n as int)
            },
        forall|j: int|
            0 <= j < ns.len() && spec_is_if(p.kind(#[trigger] ns[j] as int)) && !spec_is_else_if(p, ns[j] as int)
                ==> own_ifs_of(p, ns).contains(ns[j]),
    decreases ns.len(),
{
    if ns.len() > 0 {
        let prev = ns.drop_last();
        lemma_own_ifs_of(p, prev);
        let rest = own_ifs_of(p, prev);
        let all = own_ifs_of(p, ns);
        assert forall|k: int| 0 <= k < all.len() implies {
            let n = #[trigger] all[k];
            &&& ns.contains(n)
            &&& spec_is_if(p.kind(n as int))
            &&& !spec_is_else_if(p, n as int)
        } by {
            if k < rest.len() {
                assert(all[k] == rest[k]);
                let j = choose|j: int| 0 <= j < prev.len() && prev[j] == rest[k];
                assert(ns[j] == prev[j]);
            } else {
                assert(all[k] == ns.last());
                assert(ns[ns.len() - 1] == ns.last());
            }
        }
        assert forall|j: int|
            0 <= j < ns.len() && spec_is_if(p.kind(#[trigger] ns[j] as int)) && !spec_is_else_if(p, ns[j] as int)
            implies all.contains(ns[j]) by {
            if j < prev.len() {
                assert(prev[j] == ns[j]);
                let k = choose|k: int| 0 <= k < rest.len() && rest[k] == ns[j];
                assert(all[k] == rest[k]);
            } else {
                assert(all[all.len() - 1] == ns[j]);
            }
        }
    }
}

/// An `if` continues the conditional above it when it sits in an `else` clause, or when it is
/// the `alternative` of the `if` it hangs from (Java, Go, C#: `} else if (..) {`).
pub open spec fn continues_a_conditional(p: ParsedFile, n: int) -> bool {
    p.nodes@[n].parent matches Some(q) && {
        ||| p.kind(q as int) == "else_clause"@
        ||| (spec_is_if(p.kind(q as int)) && p.spec_child_by_field(q as int, "alternative"@) == Some(n as usize))
    }
}

/// The `if`s rule 3 looks at are exactly the `if`s of the method that start a conditional of
/// their own: an `else if` belongs to the `if` above it and is never reported apart from it.
pub proof fn law_else_if_belongs_to_the_if_above(p: ParsedFile, f: int)
    ensures
        forall|k: int|
            0 <= k < spec_own_ifs(p, f).len() ==> {
                let n = #[trigger] spec_own_ifs(p, f)[k];
                &&& p.spec_within(f).contains(n)
                &&& spec_is_if(p.kind(n as int))
                &&& !continues_a_conditional(p, n as int)
            },
        forall|j: int|
            0 <= j < p.spec_within(f).len() && spec_is_if(p.kind(#[trigger] p.spec_within(f)[j] as int))
                && !continues_a_conditional(p, p.spec_within(f)[j] as int) ==> spec_own_ifs(p, f).contains(
                p.spec_within(f)[j],
            ),
{
    lemma_own_ifs_of(p, p.spec_within(f));
}

// ---------------------------------------------------------------- rule 1: braces are no statement

/// The nodes without the braced blocks (`compound_statement`) among them.
pub open spec fn without_braces(p: ParsedFile, ns: Seq<usize>) -> Seq<usize>
    decreases ns.len(),
{
    if ns.len() == 0 {
        seq![]
    } else if p.kind(ns.last() as int) == "compound_statement"@ {
        without_braces(p, ns.drop_last())
    } else {
        without_braces(p, ns.drop_last()).push(ns.last())
    }
}

/// A braced block is a container, not a statement: taking every `compound_statement` out of the
/// nodes a method's count runs over changes nothing, so wrapping statements in braces never
/// changes a method's statement count.
pub proof fn law_braces_are_not_statements(p: ParsedFile, ns: Seq<usize>, skip: Option<usize>)
    ensures
        count_statements(p, ns, skip) == count_statements(p, without_braces(p, ns), skip),
    decreases ns.len(),
{
    if ns.len() > 0 {
        law_braces_are_not_statements(p, ns.drop_last(), skip);
        let w = without_braces(p, ns.drop_last());
        if p.kind(ns.last() as int) != "compound_statement"@ {
            assert(without_braces(p, ns).drop_last() =~= w);
        }
    }
}

/// Containers and nested definitions, named one by one: braced blocks, empty and labelled
/// statements, switch labels, and the functions, classes, parameters and fields a method
/// declares inside it.
pub open spec fn container_or_definition(k: Seq<char>) -> bool {
    ||| k == "compound_statement"@
    ||| k == "empty_statement"@
    ||| k == "labeled_statement"@
    ||| k == "case_statement"@
    ||| k == "default_statement"@
    ||| k == "function_declaration"@
    ||| k == "generator_function_declaration"@
    ||| k == "method_declaration"@
    ||| k == "constructor_declaration"@
    ||| k == "class_declaration"@
    ||| k == "parameter_declaration"@
    ||| k == "variadic_parameter_declaration"@
    ||| k == "optional_parameter_declaration"@
    ||| k == "field_declaration"@
    ||| k == "local_function_statement"@
}

/// No container and no nested definition ever spends a method's budget, wherever it stands:
/// adding such nodes to those a count runs over leaves the count as it was.
pub proof fn law_containers_and_definitions_never_count(p: ParsedFile, ns: Seq<usize>, n: usize, skip: Option<usize>)
    requires
        container_or_definition(p.kind(n as int)),
    ensures
        !spec_counts_as_statement(p, n as int),
        count_statements(p, ns.push(n), skip) == count_statements(p, ns, skip),
{
    assert(ns.push(n).drop_last() =~= ns);
}

// ---------------------------------------------------------------- rule 5: a throw ends an arm

/// An arm returns when its last statement is a `return` or a `throw` (`raise` in Python,
/// a `return` expression in Rust): such an arm never counts as one that falls through.
pub proof fn law_return_or_throw_ends_an_arm(p: ParsedFile, arm: int)
    requires
        last_statement(p, arm_items(p, p.spec_named_children(arm))) matches Some(n) && {
            ||| p.kind(n as int) == "return_statement"@
            ||| p.kind(n as int) == "throw_statement"@
            ||| p.kind(n as int) == "raise_statement"@
            ||| p.kind(n as int) == "return_expression"@
        },
    ensures
        !spec_arm_does_not_return(p, arm),
{
}

/// A switch with no catch-all arm whose every arm ends in a `return` or a `throw` (or is a
/// label with no statements of its own) raises nothing under rule 5.
pub proof fn law_switch_of_returns_and_throws_is_approved(u: UnitModel, p: ParsedFile, s: usize)
    requires
        forall|k: int|
            0 <= k < arms_of(p, s, p.spec_within(s as int)).len() ==> {
                let arm = #[trigger] arms_of(p, s, p.spec_within(s as int))[k] as int;
                &&& !spec_is_catch_all(p, arm)
                &&& match last_statement(p, arm_items(p, p.spec_named_children(arm))) {
                    Some(n) => {
                        ||| p.kind(n as int) == "return_statement"@
                        ||| p.kind(n as int) == "throw_statement"@
                        ||| p.kind(n as int) == "raise_statement"@
                        ||| p.kind(n as int) == "return_expression"@
                    },
                    None => true,
                }
            },
    ensures
        rule_5_finding(u, p, s) is None,
{
    let arms = arms_of(p, s, p.spec_within(s as int));
    assert forall|k: int| 0 <= k < arms.len() implies !spec_arm_does_not_return(p, #[trigger] arms[k] as int) by {
        let arm = arms[k] as int;
        if last_statement(p, arm_items(p, p.spec_named_children(arm))) is Some {
            law_return_or_throw_ends_an_arm(p, arm);
        }
    }
    law_rule_5_approves_exhaustive_returning_switches(u, p, s);
}

// ---------------------------------------------------------------- rule 10: an affix at either end

proof fn lemma_differing_one(wa: Seq<Seq<char>>, wb: Seq<Seq<char>>, k: int, n: int)
    requires
        0 <= n <= wa.len(),
        wa.len() == wb.len(),
        0 <= k < wa.len(),
        wa[k] != wb[k],
        forall|j: int| 0 <= j < wa.len() && j != k ==> wa[j] == wb[j],
    ensures
        differing(wa, wb, n) == if n <= k { Seq::<int>::empty() } else { seq![k] },
    decreases n,
{
    if n > 0 {
        lemma_differing_one(wa, wb, k, n - 1);
        if n - 1 == k {
            assert(Seq::<int>::empty().push(k) =~= seq![k]);
        }
    }
}

/// Two names whose words differ in exactly one place, by an antonym pair, are flagged when that
/// place is their first word or their last: one finding, saying which affix they differ by. In
/// the middle of a name the pair is no affix, and nothing is flagged.
pub proof fn law_antonym_affix_at_either_end_is_flagged(u: UnitModel, a: Seq<char>, b: Seq<char>, k: int)
    requires
        spec_words(a).len() == spec_words(b).len(),
        spec_words(a).len() >= 2,
        0 <= k < spec_words(a).len(),
        spec_words(a)[k] != spec_words(b)[k],
        is_pair(spec_words(a)[k], spec_words(b)[k]),
        forall|j: int| 0 <= j < spec_words(a).len() && j != k ==> spec_words(a)[j] == spec_words(b)[j],
    ensures
        (k == 0 || k == spec_words(a).len() - 1) ==> {
            let fs = affix_findings(u, seq![a, b], 2);
            &&& fs.len() == 1
            &&& fs[0].rule == 10
            &&& fs[0].line == u.start
            &&& fs[0].message == "`"@ + a + "` and `"@ + b + "` differ only by the affix "@ + spec_words(a)[k]
                + "/"@ + spec_words(b)[k]
        },
        (0 < k < spec_words(a).len() - 1) ==> affix_findings(u, seq![a, b], 2) == Seq::<FindingModel>::empty(),
{
    let (wa, wb) = (spec_words(a), spec_words(b));
    lemma_differing_one(wa, wb, k, wa.len() as int);
    let names = seq![a, b];
    assert(names[0] == a && names[1] == b);
    assert(row_findings(u, names, 0, 1) == Seq::<FindingModel>::empty());
    assert(row_findings(u, names, 0, 2) == row_findings(u, names, 0, 1) + opt_seq(pair_finding(u, a, b)));
    assert(row_findings(u, names, 1, 2) == Seq::<FindingModel>::empty());
    assert(affix_findings(u, names, 0) == Seq::<FindingModel>::empty());
    assert(affix_findings(u, names, 1) == affix_findings(u, names, 0) + row_findings(u, names, 0, 2));
    assert(affix_findings(u, names, 2) == affix_findings(u, names, 1) + row_findings(u, names, 1, 2));
    assert(affix_findings(u, names, 2) =~= opt_seq(pair_finding(u, a, b)));
}

// ---------------------------------------------------------------- rule 6: idiom bases, by name

/// The bases that are the language's or a framework's idiom, named one by one.
pub open spec fn named_idiom_base(b: Seq<char>) -> bool {
    ||| b == "Exception"@
    ||| b == "BaseException"@
    ||| b == "Error"@
    ||| b == "Protocol"@
    ||| b == "ABC"@
    ||| b == "Enum"@
    ||| b == "IntEnum"@
    ||| b == "StrEnum"@
    ||| b == "Flag"@
    ||| b == "TypedDict"@
    ||| b == "NamedTuple"@
    ||| b == "BaseModel"@
    ||| b == "object"@
    ||| b == "Generic"@
    ||| b == "TestCase"@
    ||| b == "Component"@
    ||| b == "PureComponent"@
}

/// Inheriting from an exception type or from a language or framework idiom (`Exception`,
/// `Protocol`, `ABC`, `Enum`, `IntEnum`, `StrEnum`, `BaseModel`, ...) never reaches rule 6: no
/// such base is kept, and none is among the inheritances of any added lines.
pub proof fn law_idiom_bases_never_reach_rule_6(added: Map<usize, Seq<char>>)
    ensures
        forall|b: Seq<char>| named_idiom_base(b) ==> !#[trigger] kept_base(b),
        forall|b: Seq<char>| crate::text::ends_with(b, "Error"@) || crate::text::ends_with(b, "Exception"@) ==> !#[trigger] kept_base(b),
        forall|k: int|
            0 <= k < spec_inheritance_in(added).len() ==> {
                let b = (#[trigger] spec_inheritance_in(added)[k]).2;
                &&& !named_idiom_base(b)
                &&& !crate::text::ends_with(b, "Error"@)
                &&& !crate::text::ends_with(b, "Exception"@)
                &&& b.len() > 0
            },
{
    law_idiomatic_bases_are_not_inheritance(added);
}

} // verus!
