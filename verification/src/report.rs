//! A review rendered as Markdown, for a pull-request comment.
//!
//! Judged findings carry a probability; it reaches this module already written out with two
//! decimals, one entry per finding (`None` for a finding that carries none).

use crate::rules::{finding_models, spec_rule_name, Finding, FindingModel};
use crate::text::{self, decimal};
use vstd::prelude::*;

verus! {

/// How a finding was decided, as the report tags it.
pub open spec fn spec_tag(f: FindingModel, confidence: Option<Seq<char>>) -> Seq<char> {
    if f.basis == "jev"@ && confidence is Some {
        "Jev "@ + confidence->0
    } else if f.basis == "candidate"@ {
        "unconfirmed"@
    } else {
        "mechanical"@
    }
}

/// The findings shown, with their probabilities: all of them, or only those not suppressed.
pub open spec fn shown_of(fs: Seq<FindingModel>, cs: Seq<Option<Seq<char>>>, show_suppressed: bool) -> Seq<(FindingModel, Option<Seq<char>>)>
    decreases fs.len(),
{
    if fs.len() == 0 || cs.len() == 0 {
        seq![]
    } else {
        let rest = shown_of(fs.drop_last(), cs.drop_last(), show_suppressed);
        if show_suppressed || fs.last().suppressed is None {
            rest.push((fs.last(), cs.last()))
        } else {
            rest
        }
    }
}

/// A finding's status: why it was suppressed, or its severity.
pub open spec fn status(f: FindingModel) -> Seq<char> {
    match f.suppressed {
        Some(why) => "suppressed: "@ + why,
        None => f.severity,
    }
}

/// The two lines of one finding.
pub open spec fn finding_entry(f: FindingModel, c: Option<Seq<char>>) -> Seq<char> {
    "- `"@ + f.path + ":"@ + decimal(f.line as nat) + "` — "@ + f.message + " _("@ + spec_tag(f, c) + "; "@ + status(f)
        + ")_\n  - Fix: "@ + f.fix + "\n"@
}

/// The entries of the shown findings of one rule, in order.
pub open spec fn rule_entries(shown: Seq<(FindingModel, Option<Seq<char>>)>, rule: u8) -> Seq<char>
    decreases shown.len(),
{
    if shown.len() == 0 {
        seq![]
    } else {
        rule_entries(shown.drop_last(), rule) + if shown.last().0.rule == rule {
            finding_entry(shown.last().0, shown.last().1)
        } else {
            seq![]
        }
    }
}

pub open spec fn has_rule(shown: Seq<(FindingModel, Option<Seq<char>>)>, rule: u8) -> bool {
    exists|k: int| 0 <= k < shown.len() && #[trigger] shown[k].0.rule == rule
}

/// One section per rule below `n` that has a shown finding, in rule order.
pub open spec fn sections(shown: Seq<(FindingModel, Option<Seq<char>>)>, n: nat) -> Seq<char>
    decreases n,
{
    if n == 0 {
        seq![]
    } else {
        let rule = (n - 1) as u8;
        sections(shown, (n - 1) as nat) + if has_rule(shown, rule) {
            "\n### Rule "@ + decimal((n - 1) as nat) + " · "@ + spec_rule_name(rule) + "\n"@ + rule_entries(shown, rule)
        } else {
            seq![]
        }
    }
}

pub open spec fn is_raised(f: FindingModel) -> bool {
    f.suppressed is None && f.severity != "worth a look"@
}

pub open spec fn raised_count(shown: Seq<(FindingModel, Option<Seq<char>>)>) -> nat
    decreases shown.len(),
{
    if shown.len() == 0 {
        0
    } else {
        raised_count(shown.drop_last()) + if is_raised(shown.last().0) {
            1nat
        } else {
            0nat
        }
    }
}

pub open spec fn note_lines(notes: Seq<Seq<char>>) -> Seq<char>
    decreases notes.len(),
{
    if notes.len() == 0 {
        seq![]
    } else {
        note_lines(notes.drop_last()) + "> "@ + notes.last() + "\n"@
    }
}

pub open spec fn intro() -> Seq<char> {
    "## Five Lines review\n\n_A structural-quality lens (Christian Clausen, *Five Lines of Code*). It is not a correctness review: a method can break every rule below and be correct, and a 3-line method can still have a bug._\n\n"@
}

/// The report: a header with the counts and the effort spent, the notes, then one section per
/// rule with its findings, and a line on what was suppressed.
pub open spec fn spec_markdown(
    fs: Seq<FindingModel>,
    cs: Seq<Option<Seq<char>>>,
    units: usize,
    jev_used: bool,
    jev_requests: usize,
    notes: Seq<Seq<char>>,
    show_suppressed: bool,
) -> Seq<char> {
    let shown = shown_of(fs, cs, show_suppressed);
    let hidden = fs.len() - shown.len();
    let effort = if jev_used {
        decimal(jev_requests as nat) + " Jev request(s)"@
    } else {
        "mechanical rules only"@
    };
    intro() + decimal(units as nat) + " changed method(s) reviewed · "@ + decimal(raised_count(shown)) + " finding(s) · "@
        + effort + "\n"@ + (if notes.len() > 0 {
        "\n"@ + note_lines(notes)
    } else {
        seq![]
    }) + (if shown.len() == 0 {
        "\nNo rule violations introduced by this diff.\n"@
    } else {
        seq![]
    }) + sections(shown, 256) + if hidden > 0 {
        "\n_"@ + decimal(hidden as nat)
            + " finding(s) suppressed as framework or language idioms; rerun with `--show-suppressed`._\n"@
    } else {
        seq![]
    }
}

pub open spec fn option_views(cs: Seq<Option<String>>) -> Seq<Option<Seq<char>>> {
    cs.map_values(
        |c: Option<String>|
            match c {
                Some(s) => Some(s@),
                None => None,
            },
    )
}

fn tag(f: &Finding, confidence: &Option<String>) -> (r: Vec<char>)
    ensures
        r@ == spec_tag(
            f.model(),
            match confidence {
                Some(s) => Some(s@),
                None => None,
            },
        ),
{
    let mut out: Vec<char> = Vec::new();
    if text::str_eq(f.basis, "jev") && confidence.is_some() {
        text::push_str(&mut out, "Jev ");
        match confidence {
            Some(p) => text::push_string(&mut out, p),
            None => {},
        }
    } else if text::str_eq(f.basis, "candidate") {
        text::push_str(&mut out, "unconfirmed");
    } else {
        text::push_str(&mut out, "mechanical");
    }
    out
}

fn push_entry(out: &mut Vec<char>, f: &Finding, confidence: &Option<String>)
    ensures
        final(out)@ == old(out)@ + finding_entry(
            f.model(),
            match confidence {
                Some(s) => Some(s@),
                None => None,
            },
        ),
{
    let ghost start = out@;
    text::push_str(out, "- `");
    text::push_string(out, &f.path);
    text::push_str(out, ":");
    text::push_decimal(out, f.line);
    text::push_str(out, "` — ");
    text::push_string(out, &f.message);
    text::push_str(out, " _(");
    let t = tag(f, confidence);
    text::append(out, &t);
    text::push_str(out, "; ");
    match &f.suppressed {
        Some(why) => {
            text::push_str(out, "suppressed: ");
            text::push_string(out, why);
        },
        None => text::push_str(out, f.severity),
    }
    text::push_str(out, ")_\n  - Fix: ");
    text::push_string(out, &f.fix);
    text::push_str(out, "\n");
    assert(out@ =~= start + finding_entry(
        f.model(),
        match confidence {
            Some(s) => Some(s@),
            None => None,
        },
    ));
}

/// The positions of the shown findings, and how many of them are raised.
fn shown_positions(findings: &[Finding], confidences: &[Option<String>], show_suppressed: bool) -> (r: (Vec<usize>, usize))
    requires
        confidences.len() == findings.len(),
    ensures
        ({
            let sh = shown_of(finding_models(findings@), option_views(confidences@), show_suppressed);
            &&& r.0@.len() == sh.len()
            &&& r.0@.len() <= findings.len()
            &&& forall|k: int|
                0 <= k < r.0@.len() ==> #[trigger] r.0@[k] < findings.len() && sh[k] == (
                    finding_models(findings@)[r.0@[k] as int],
                    option_views(confidences@)[r.0@[k] as int],
                )
            &&& r.1 == raised_count(sh)
        }),
{
    let ghost fs = finding_models(findings@);
    let ghost cs = option_views(confidences@);
    let mut shown: Vec<usize> = Vec::new();
    let mut raised: usize = 0;
    let mut i: usize = 0;
    assert(fs.take(0) =~= seq![] && cs.take(0) =~= seq![]);
    while i < findings.len()
        invariant
            fs == finding_models(findings@),
            cs == option_views(confidences@),
            confidences.len() == findings.len(),
            i <= findings.len(),
            shown@.len() == shown_of(fs.take(i as int), cs.take(i as int), show_suppressed).len(),
            forall|k: int|
                0 <= k < shown@.len() ==> #[trigger] shown@[k] < i && shown_of(fs.take(i as int), cs.take(i as int), show_suppressed)[k]
                    == (fs[shown@[k] as int], cs[shown@[k] as int]),
            raised == raised_count(shown_of(fs.take(i as int), cs.take(i as int), show_suppressed)),
            raised <= i,
            shown@.len() <= i,
        decreases findings.len() - i,
    {
        let ghost prev = shown_of(fs.take(i as int), cs.take(i as int), show_suppressed);
        assert(fs.take(i + 1).drop_last() =~= fs.take(i as int));
        assert(cs.take(i + 1).drop_last() =~= cs.take(i as int));
        assert(fs.take(i + 1).last() == findings@[i as int].model());
        assert(cs.take(i + 1).last() == cs[i as int]);
        if show_suppressed || findings[i].suppressed.is_none() {
            let ghost x = (fs[i as int], cs[i as int]);
            assert(shown_of(fs.take(i + 1), cs.take(i + 1), show_suppressed) == prev.push(x));
            assert(prev.push(x).drop_last() =~= prev);
            shown.push(i);
            if findings[i].raised() {
                raised += 1;
            }
        } else {
            assert(shown_of(fs.take(i + 1), cs.take(i + 1), show_suppressed) == prev);
        }
        i += 1;
    }
    assert(fs.take(findings.len() as int) =~= fs && cs.take(findings.len() as int) =~= cs);
    (shown, raised)
}

/// Appends the notes, each as a quoted line.
fn push_notes(out: &mut Vec<char>, notes: &[String])
    ensures
        final(out)@ == old(out)@ + note_lines(notes@.map_values(|n: String| n@)),
{
    let ghost nv = notes@.map_values(|n: String| n@);
    let ghost start = out@;
    let mut k: usize = 0;
    assert(nv.take(0) =~= seq![]);
    while k < notes.len()
        invariant
            nv == notes@.map_values(|n: String| n@),
            k <= notes.len(),
            out@ == start + note_lines(nv.take(k as int)),
        decreases notes.len() - k,
    {
        assert(nv.take(k + 1).drop_last() =~= nv.take(k as int));
        assert(nv.take(k + 1).last() == notes@[k as int]@);
        text::push_str(out, "> ");
        text::push_string(out, &notes[k]);
        text::push_str(out, "\n");
        k += 1;
    }
    assert(nv.take(notes.len() as int) =~= nv);
}

/// Appends the section of one rule, if a shown finding has that rule.
fn push_section(
    out: &mut Vec<char>,
    findings: &[Finding],
    confidences: &[Option<String>],
    shown: &Vec<usize>,
    r: u8,
    Ghost(sh): Ghost<Seq<(FindingModel, Option<Seq<char>>)>>,
)
    requires
        confidences.len() == findings.len(),
        shown@.len() == sh.len(),
        forall|k: int|
            0 <= k < shown@.len() ==> #[trigger] shown@[k] < findings.len() && sh[k] == (
                finding_models(findings@)[shown@[k] as int],
                option_views(confidences@)[shown@[k] as int],
            ),
    ensures
        final(out)@ == old(out)@ + if has_rule(sh, r) {
            "\n### Rule "@ + decimal(r as nat) + " · "@ + spec_rule_name(r) + "\n"@ + rule_entries(sh, r)
        } else {
            seq![]
        },
{
    let ghost fs = finding_models(findings@);
    let ghost cs = option_views(confidences@);
    let mut any = false;
    let mut entries: Vec<char> = Vec::new();
    let mut k: usize = 0;
    assert(sh.take(0) =~= seq![]);
    while k < shown.len()
        invariant
            fs == finding_models(findings@),
            cs == option_views(confidences@),
            confidences.len() == findings.len(),
            shown@.len() == sh.len(),
            forall|j: int| 0 <= j < shown@.len() ==> #[trigger] shown@[j] < findings.len() && sh[j] == (fs[shown@[j] as int], cs[shown@[j] as int]),
            k <= shown.len(),
            entries@ == rule_entries(sh.take(k as int), r),
            any == exists|j: int| 0 <= j < k && #[trigger] sh[j].0.rule == r,
        decreases shown.len() - k,
    {
        let at = shown[k];
        assert(sh.take(k + 1).drop_last() =~= sh.take(k as int));
        assert(sh.take(k + 1).last() == sh[k as int]);
        assert(fs[at as int] == findings@[at as int].model());
        assert(cs[at as int] == match confidences@[at as int] {
            Some(s) => Some(s@),
            None => None,
        });
        if findings[at].rule == r {
            assert(sh[k as int].0.rule == r);
            push_entry(&mut entries, &findings[at], &confidences[at]);
            any = true;
        } else {
            assert(sh[k as int].0.rule != r);
        }
        k += 1;
    }
    assert(sh.take(shown.len() as int) =~= sh);
    assert(any == has_rule(sh, r));
    if any {
        text::push_str(out, "\n### Rule ");
        text::push_decimal(out, r as usize);
        text::push_str(out, " · ");
        text::push_str(out, crate::rules::rule_name(r));
        text::push_str(out, "\n");
        text::append(out, &entries);
    }
}

/// Renders a review as Markdown. `confidences[i]` is the probability finding `i` was judged
/// with, written out, if it carries one.
#[verifier::rlimit(60)]
pub fn markdown(
    findings: &[Finding],
    confidences: &[Option<String>],
    units: usize,
    jev_used: bool,
    jev_requests: usize,
    notes: &[String],
    show_suppressed: bool,
) -> (r: String)
    requires
        confidences.len() == findings.len(),
    ensures
        r@ == spec_markdown(
            finding_models(findings@),
            option_views(confidences@),
            units,
            jev_used,
            jev_requests,
            notes@.map_values(|n: String| n@),
            show_suppressed,
        ),
{
    let ghost sh = shown_of(finding_models(findings@), option_views(confidences@), show_suppressed);
    let (shown, raised) = shown_positions(findings, confidences, show_suppressed);
    let mut out: Vec<char> = Vec::new();
    text::push_str(
        &mut out,
        "## Five Lines review\n\n_A structural-quality lens (Christian Clausen, *Five Lines of Code*). It is not a correctness review: a method can break every rule below and be correct, and a 3-line method can still have a bug._\n\n",
    );
    text::push_decimal(&mut out, units);
    text::push_str(&mut out, " changed method(s) reviewed · ");
    text::push_decimal(&mut out, raised);
    text::push_str(&mut out, " finding(s) · ");
    if jev_used {
        text::push_decimal(&mut out, jev_requests);
        text::push_str(&mut out, " Jev request(s)");
    } else {
        text::push_str(&mut out, "mechanical rules only");
    }
    text::push_str(&mut out, "\n");
    let ghost effort = if jev_used {
        decimal(jev_requests as nat) + " Jev request(s)"@
    } else {
        "mechanical rules only"@
    };
    let ghost head = intro() + decimal(units as nat) + " changed method(s) reviewed · "@ + decimal(raised_count(sh))
        + " finding(s) · "@ + effort + "\n"@;
    assert(out@ =~= head);
    let ghost nv = notes@.map_values(|n: String| n@);
    let ghost noted = if nv.len() > 0 {
        "\n"@ + note_lines(nv)
    } else {
        seq![]
    };
    if notes.len() > 0 {
        text::push_str(&mut out, "\n");
        push_notes(&mut out, notes);
    }
    assert(out@ =~= head + noted);
    let ghost empty = if sh.len() == 0 {
        "\nNo rule violations introduced by this diff.\n"@
    } else {
        seq![]
    };
    if shown.len() == 0 {
        text::push_str(&mut out, "\nNo rule violations introduced by this diff.\n");
    }
    assert(out@ =~= head + noted + empty);
    let ghost before_sections = out@;
    let mut rule: u16 = 0;
    while rule < 256
        invariant
            sh == shown_of(finding_models(findings@), option_views(confidences@), show_suppressed),
            confidences.len() == findings.len(),
            shown@.len() == sh.len(),
            forall|k: int|
                0 <= k < shown@.len() ==> #[trigger] shown@[k] < findings.len() && sh[k] == (
                    finding_models(findings@)[shown@[k] as int],
                    option_views(confidences@)[shown@[k] as int],
                ),
            rule <= 256,
            out@ == before_sections + sections(sh, rule as nat),
        decreases 256 - rule,
    {
        push_section(&mut out, findings, confidences, &shown, rule as u8, Ghost(sh));
        rule += 1;
        assert(out@ =~= before_sections + sections(sh, rule as nat));
    }
    let ghost body = out@;
    assert(body =~= head + noted + empty + sections(sh, 256));
    let hidden = findings.len() - shown.len();
    if hidden > 0 {
        text::push_str(&mut out, "\n_");
        text::push_decimal(&mut out, hidden);
        text::push_str(&mut out, " finding(s) suppressed as framework or language idioms; rerun with `--show-suppressed`._\n");
    }
    assert(finding_models(findings@).len() - sh.len() == hidden);
    text::string_of(out.as_slice())
}

} // verus!
