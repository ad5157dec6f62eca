//! Scoring Jev against labelled snippets: per question, how many judgments were right, how many
//! were raised, and how many of those were false alarms. The costly error in a review is the
//! false alarm, so that is the count to watch. Whether a probability clears 0.5 or the raise
//! threshold is decided by the caller; what is counted from that is here.

use crate::affix::{lemma_str_lt_total, lemma_str_lt_transitive, str_lt, string_less};
use crate::text;
use vstd::prelude::*;

verus! {

/// One judgment of one labelled snippet.
pub struct EvalRow {
    pub question: String,
    /// The label: whether the snippet breaks the rule the question asks about.
    pub expected: bool,
    /// Whether the judgment, read at 0.5, agrees with the label.
    pub correct: bool,
    /// Whether the judgment reached the raise threshold.
    pub raised: bool,
}

/// The counts of one question's judgments (or of all of them).
pub struct QuestionTally {
    pub question: String,
    pub n: usize,
    pub correct: usize,
    pub raised: usize,
    /// Raised, though the snippet keeps the rule.
    pub false_alarms: usize,
    /// The snippet breaks the rule, and the judgment was not raised.
    pub missed: usize,
}

/// The question the total is reported under.
pub const ALL: &'static str = "all";

pub open spec fn one(b: bool) -> nat {
    if b {
        1
    } else {
        0
    }
}

/// The counts `(n, correct, raised, false alarms, missed)` over the rows of question `on`, or
/// over every row when `on` is `None`.
pub open spec fn counts(rows: Seq<EvalRow>, on: Option<Seq<char>>) -> (nat, nat, nat, nat, nat)
    decreases rows.len(),
{
    if rows.len() == 0 {
        (0, 0, 0, 0, 0)
    } else {
        let prev = counts(rows.drop_last(), on);
        let r = rows.last();
        if on is None || on == Some(r.question@) {
            (
                prev.0 + 1,
                prev.1 + one(r.correct),
                prev.2 + one(r.raised),
                prev.3 + one(r.raised && !r.expected),
                prev.4 + one(r.expected && !r.raised),
            )
        } else {
            prev
        }
    }
}

/// `t` holds the counts of the rows `on` selects.
pub open spec fn tallies(t: QuestionTally, rows: Seq<EvalRow>, on: Option<Seq<char>>) -> bool {
    (t.n as nat, t.correct as nat, t.raised as nat, t.false_alarms as nat, t.missed as nat) == counts(
        rows,
        on,
    )
}

pub open spec fn row_questions(rows: Seq<EvalRow>) -> Seq<Seq<char>> {
    rows.map_values(|r: EvalRow| r.question@)
}

pub open spec fn tally_questions(ts: Seq<QuestionTally>) -> Seq<Seq<char>> {
    ts.map_values(|t: QuestionTally| t.question@)
}

pub open spec fn string_views(ss: Seq<String>) -> Seq<Seq<char>> {
    ss.map_values(|s: String| s@)
}

/// Each name comes before every later one: ascending, and none twice.
pub open spec fn ascending(qs: Seq<Seq<char>>) -> bool {
    forall|i: int, j: int| 0 <= i < j < qs.len() ==> str_lt(#[trigger] qs[i], #[trigger] qs[j])
}

proof fn lemma_counts_bounded(rows: Seq<EvalRow>, on: Option<Seq<char>>)
    ensures
        counts(rows, on).0 <= rows.len(),
        counts(rows, on).1 <= counts(rows, on).0,
        counts(rows, on).2 <= counts(rows, on).0,
        counts(rows, on).3 <= counts(rows, on).0,
        counts(rows, on).4 <= counts(rows, on).0,
    decreases rows.len(),
{
    if rows.len() > 0 {
        lemma_counts_bounded(rows.drop_last(), on);
    }
}

/// The counts of the rows of question `q`, or of all rows when `all`; reported under `q`.
fn tally_of(rows: &[EvalRow], q: &String, all: bool) -> (r: QuestionTally)
    ensures
        r.question@ == q@,
        tallies(r, rows@, if all { None } else { Some(q@) }),
{
    let ghost on = if all { None } else { Some(q@) };
    let mut n: usize = 0;
    let mut correct: usize = 0;
    let mut raised: usize = 0;
    let mut false_alarms: usize = 0;
    let mut missed: usize = 0;
    let mut i: usize = 0;
    assert(rows@.take(0) =~= seq![]);
    while i < rows.len()
        invariant
            i <= rows.len(),
            on == (if all { None } else { Some(q@) }),
            (n as nat, correct as nat, raised as nat, false_alarms as nat, missed as nat) == counts(
                rows@.take(i as int),
                on,
            ),
        decreases rows.len() - i,
    {
        proof {
            lemma_counts_bounded(rows@.take(i as int), on);
        }
        assert(rows@.take(i + 1).drop_last() =~= rows@.take(i as int));
        assert(rows@.take(i + 1).last() == rows@[i as int]);
        let r = &rows[i];
        if all || text::str_eq(r.question.as_str(), q.as_str()) {
            n += 1;
            if r.correct {
                correct += 1;
            }
            if r.raised {
                raised += 1;
            }
            if r.raised && !r.expected {
                false_alarms += 1;
            }
            if r.expected && !r.raised {
                missed += 1;
            }
        }
        i += 1;
    }
    assert(rows@.take(rows.len() as int) =~= rows@);
    QuestionTally { question: q.clone(), n, correct, raised, false_alarms, missed }
}

/// Adds `s` to the ascending names `qs`, unless it is there already.
fn insert_question(qs: &mut Vec<String>, s: &String)
    requires
        ascending(string_views(old(qs)@)),
    ensures
        ascending(string_views(final(qs)@)),
        forall|x: Seq<char>|
            #[trigger] string_views(final(qs)@).contains(x) <==> (string_views(old(qs)@).contains(x)
                || x == s@),
{
    let ghost o = string_views(qs@);
    let mut p: usize = 0;
    while p < qs.len() && string_less(&qs[p], s)
        invariant
            o == string_views(qs@),
            p <= qs.len(),
            forall|k: int| 0 <= k < p ==> str_lt(#[trigger] o[k], s@),
        decreases qs.len() - p,
    {
        p += 1;
    }
    if p < qs.len() {
        proof {
            lemma_str_lt_total(o[p as int], s@);
        }
        if text::str_eq(qs[p].as_str(), s.as_str()) {
            assert(o[p as int] == s@);
            assert(o.contains(s@));
            return;
        }
    }
    qs.insert(p, s.clone());
    let ghost n = string_views(qs@);
    assert(n =~= o.insert(p as int, s@));
    assert forall|k: int, l: int| 0 <= k < l < n.len() implies str_lt(#[trigger] n[k], #[trigger] n[l]) by {
        if l < p {
            assert(n[k] == o[k] && n[l] == o[l]);
        } else if l == p {
            assert(n[k] == o[k]);
        } else if k > p {
            assert(n[k] == o[k - 1] && n[l] == o[l - 1]);
        } else {
            assert(n[l] == o[l - 1]);
            // o[p] comes after s, and o[l - 1] is o[p] or after it
            assert(str_lt(s@, o[p as int]));
            if l - 1 > p {
                assert(str_lt(o[p as int], o[l - 1]));
                lemma_str_lt_transitive(s@, o[p as int], o[l - 1]);
            }
            if k < p {
                assert(n[k] == o[k]);
                lemma_str_lt_transitive(o[k], s@, o[l - 1]);
            }
        }
    }
    assert forall|x: Seq<char>| #[trigger] n.contains(x) <==> (o.contains(x) || x == s@) by {
        if n.contains(x) {
            let k = choose|k: int| 0 <= k < n.len() && n[k] == x;
            if k < p {
                assert(o[k] == x);
            } else if k > p {
                assert(o[k - 1] == x);
            }
        }
        if o.contains(x) {
            let k = choose|k: int| 0 <= k < o.len() && o[k] == x;
            if k < p {
                assert(n[k] == x);
            } else {
                assert(n[k + 1] == x);
            }
        }
        if x == s@ {
            assert(n[p as int] == x);
        }
    }
}

/// Per question, in ascending order and each once: how many judgments there were, how many
/// were correct, how many were raised, and how many of those raised were false alarms, and how
/// many violations were missed.
pub fn eval_tally(rows: &[EvalRow]) -> (r: Vec<QuestionTally>)
    ensures
        ascending(tally_questions(r@)),
        forall|x: Seq<char>| #[trigger] tally_questions(r@).contains(x) <==> row_questions(rows@).contains(x),
        forall|i: int| 0 <= i < r@.len() ==> tallies(#[trigger] r@[i], rows@, Some(r@[i].question@)),
{
    let mut qs: Vec<String> = Vec::new();
    let mut i: usize = 0;
    assert(row_questions(rows@.take(0)) =~= seq![]);
    assert(string_views(qs@) =~= seq![]);
    while i < rows.len()
        invariant
            i <= rows.len(),
            ascending(string_views(qs@)),
            forall|x: Seq<char>| #[trigger] string_views(qs@).contains(x) <==> row_questions(rows@.take(i as int)).contains(x),
        decreases rows.len() - i,
    {
        let ghost before = row_questions(rows@.take(i as int));
        insert_question(&mut qs, &rows[i].question);
        proof {
            let after = row_questions(rows@.take(i + 1));
            assert(after =~= before.push(rows@[i as int].question@));
            assert forall|x: Seq<char>| #[trigger] after.contains(x) <==> (before.contains(x) || x == rows@[i as int].question@) by {
                if after.contains(x) {
                    let k = choose|k: int| 0 <= k < after.len() && after[k] == x;
                    if k < before.len() {
                        assert(before[k] == x);
                    }
                }
                if before.contains(x) {
                    let k = choose|k: int| 0 <= k < before.len() && before[k] == x;
                    assert(after[k] == x);
                }
                if x == rows@[i as int].question@ {
                    assert(after[i as int] == x);
                }
            }
        }
        i += 1;
    }
    assert(rows@.take(rows.len() as int) =~= rows@);
    let ghost qv = string_views(qs@);
    let mut out: Vec<QuestionTally> = Vec::new();
    let mut k: usize = 0;
    while k < qs.len()
        invariant
            qv == string_views(qs@),
            k <= qs.len(),
            tally_questions(out@) =~= qv.take(k as int),
            forall|j: int| 0 <= j < out@.len() ==> tallies(#[trigger] out@[j], rows@, Some(out@[j].question@)),
        decreases qs.len() - k,
    {
        let t = tally_of(rows, &qs[k], false);
        let ghost before = out@;
        assert(qv[k as int] == qs@[k as int]@);
        out.push(t);
        assert(out@ =~= before.push(t));
        assert(t.question@ == qv[k as int]);
        assert(tally_questions(before).len() == k);
        assert forall|j: int| 0 <= j < k + 1 implies #[trigger] tally_questions(out@)[j] == qv.take(k + 1)[j] by {
            if j < k {
                assert(tally_questions(before)[j] == qv.take(k as int)[j]);
                assert(out@[j] == before[j]);
            }
        }
        assert(tally_questions(out@) =~= qv.take(k + 1));
        k += 1;
    }
    assert(qv.take(qs.len() as int) =~= qv);
    out
}

/// The same counts over every judgment, reported under the question `all`.
pub fn eval_total(rows: &[EvalRow]) -> (r: QuestionTally)
    ensures
        r.question@ == ALL@,
        tallies(r, rows@, None),
{
    let all = String::from_str(ALL);
    tally_of(rows, &all, true)
}

} // verus!
