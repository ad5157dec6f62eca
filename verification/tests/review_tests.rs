use five_lines::batch::{batch_key, batch_ranges, replace_text, split_batch_key};
use five_lines::diff;
use five_lines::jev::{question, questions_for};
use five_lines::report::markdown;
use five_lines::review::{
    base_statement_count, file_notes, jev_rule, mechanical_pass, review_order, settle_judged, settle_unjudged,
    structure_findings, Judgment,
};
use five_lines::rules::Finding;
use five_lines::tree::ParsedFile;
use five_lines::units::{all_units, units_for, units_for_checked};

const SOURCE: &str = "def f(x):\n    y = 1\n    if x:\n        return 1\n    z = 2\n    return y + z\n";

/// The rules raised when the diff adds line `line` of `SOURCE`, reviewed without judgment.
fn rules_when_adding(line: usize) -> Vec<u8> {
    let text = SOURCE.lines().nth(line - 1).unwrap();
    let patch = format!("diff --git a/m.py b/m.py\n--- a/m.py\n+++ b/m.py\n@@ -{line},0 +{line},1 @@\n+{text}\n");
    let parsed = ParsedFile::parse("m.py", SOURCE).unwrap();
    let mut rules = Vec::new();
    for file in diff::parse(&patch) {
        for unit in units_for(&file, Some(&parsed)) {
            let pending = mechanical_pass(unit, Some(&parsed), None);
            rules.extend(settle_unjudged(pending).iter().map(|f| f.rule));
        }
    }
    rules
}

#[test]
fn a_pre_existing_if_in_a_touched_method_is_not_flagged() {
    assert!(rules_when_adding(5).is_empty());
}

#[test]
fn an_if_the_diff_added_is_flagged() {
    assert_eq!(rules_when_adding(3), [3]);
}

#[test]
fn an_unparsed_language_falls_back_to_the_hunk_and_says_so() {
    let patch = "diff --git a/a.kt b/a.kt\n--- a/a.kt\n+++ b/a.kt\n@@ -2,0 +2,1 @@\n+  println(1)\n";
    let file = diff::parse(patch).into_iter().next().unwrap();
    let parsed = ParsedFile::parse("a.kt", "fun f() {\n  println(1)\n}\n");
    assert!(parsed.is_none());
    let units = units_for_checked(&file, parsed.as_ref()).unwrap();
    assert_eq!(units.len(), 1);
    let notes = file_notes("a.kt", true, true, parsed.is_some());
    assert!(notes.iter().any(|n| n.contains("no parser")));
}

#[test]
fn a_file_missing_from_the_repo_is_noted() {
    assert_eq!(file_notes("x.py", true, false, false), ["x.py: not found under --repo, reviewed from the hunk text only"]);
    assert!(file_notes("x.py", false, false, false).is_empty());
    assert!(file_notes("x.py", true, true, true).is_empty());
}

fn pending_for(source: &str, added: &[usize]) -> five_lines::review::Pending {
    let parsed = ParsedFile::parse("m.ts", source).unwrap();
    let mut body = String::new();
    for &n in added {
        body.push_str(&format!("@@ -{n},0 +{n},1 @@\n+{}\n", source.lines().nth(n - 1).unwrap()));
    }
    let patch = format!("--- a/m.ts\n+++ b/m.ts\n{body}");
    let file = diff::parse(&patch).into_iter().next().unwrap();
    let unit = units_for(&file, Some(&parsed)).into_iter().next().unwrap();
    mechanical_pass(unit, Some(&parsed), None)
}

const BRANCHY: &str = "function f(x: number) {\n  if (x) {\n    return 1;\n  } else {\n    return 2;\n  }\n}\n";

#[test]
fn an_unjudged_if_else_is_an_unconfirmed_candidate() {
    let pending = pending_for(BRANCHY, &[2]);
    assert_eq!(pending.else_lines, [2]);
    assert!(!pending.item.questions.contains(&"r4".to_string()) || pending.item.questions.contains(&"idiom".to_string()));
    let findings = settle_unjudged(pending);
    let candidate = findings.iter().find(|f| f.rule == 4).unwrap();
    assert_eq!(candidate.basis, "candidate");
    assert_eq!(
        candidate.message,
        "if/else at line 2 in `f` (unconfirmed: needs judgment on whether both branches are your own domain logic)"
    );
    assert_eq!(candidate.fix, "introduce one interface with a class per branch, and push each branch's body into its class");
}

#[test]
fn judged_questions_raise_findings_above_the_floor_and_idioms_suppress_them() {
    let answers = [
        Judgment { key: "idiom".to_string(), worth_a_look: true, raised: false },
        Judgment { key: "r2".to_string(), worth_a_look: true, raised: true },
        Judgment { key: "r4".to_string(), worth_a_look: true, raised: false },
        Judgment { key: "r7".to_string(), worth_a_look: false, raised: false },
    ];
    let (findings, tags) = settle_judged(pending_for(BRANCHY, &[2]), &answers, None);
    let judged: Vec<(u8, &str, usize, Option<usize>)> =
        findings.iter().zip(&tags).filter(|(f, _)| f.basis == "jev").map(|(f, t)| (f.rule, f.severity, f.line, *t)).collect();
    assert_eq!(judged, [(2, "introduced", 1, Some(1)), (4, "worth a look", 2, Some(2))]);
    let r2 = findings.iter().find(|f| f.rule == 2).unwrap();
    assert_eq!(r2.message, "`f` both orchestrates collaborators and computes on raw values");
    assert_eq!(r2.fix, "keep the calls in `f`; move the inline computation into a method that is handed the values");

    let (hidden, _) = settle_judged(pending_for(BRANCHY, &[2]), &answers, Some("0.91".to_string()));
    assert_eq!(hidden.len(), findings.len());
    assert!(hidden.iter().all(|f| f.suppressed.as_deref() == Some("framework or language idiom (p=0.91)")));
}

#[test]
fn an_affix_group_is_raised_from_its_own_answer() {
    let source = "function f(billingAddress: string, shippingAddress: string) {\n  return 1;\n}\n";
    let pending = pending_for(source, &[1]);
    assert_eq!(pending.item.affixes, [["billingAddress".to_string(), "shippingAddress".to_string()]]);
    let answers = [Judgment { key: "affix0".to_string(), worth_a_look: true, raised: true }];
    let (findings, tags) = settle_judged(pending, &answers, None);
    assert_eq!(tags, [Some(0)]);
    assert_eq!(findings[0].rule, 10);
    assert_eq!(findings[0].message, "`billingAddress`, `shippingAddress` share an affix and look like one concept");
}

#[test]
fn only_questions_whose_construct_was_added_are_asked() {
    let pending = pending_for("function f(x: number) {\n  const y = x + 1;\n  return y;\n}\n", &[2]);
    assert_eq!(pending.item.questions, ["idiom", "r2", "r7"].map(String::from).to_vec().into_iter().filter(|k| k != "r7").collect::<Vec<_>>());
    let parsed = ParsedFile::parse("m.ts", BRANCHY).unwrap();
    let unit = all_units("m.ts", &parsed).into_iter().next().unwrap();
    assert_eq!(questions_for(&unit, &[]), ["idiom", "r2", "r3", "r4", "r7"]);
    assert_eq!(questions_for(&unit, &["r3", "r5"]), ["idiom", "r2", "r4", "r7"]);
    assert!(questions_for(&unit, &["r2", "r3", "r4", "r7"]).is_empty());
}

#[test]
fn the_judge_rules_and_questions_read_as_written() {
    assert_eq!(jev_rule("r7").unwrap().0, 7);
    assert!(jev_rule("idiom").is_none());
    assert!(question("affix").instructions.contains("`names`"));
    assert!(question("anything").instructions.starts_with("Is the shape of `method`"));
}

#[test]
fn batched_keys_split_back() {
    let k = batch_key(12, "affix3");
    assert_eq!(k, "m12.affix3");
    assert_eq!(split_batch_key(&k), Some((12, "affix3".to_string())));
    assert_eq!(split_batch_key("r2"), None);
    assert_eq!(batch_ranges(10, 4), [(0, 4), (4, 8), (8, 10)]);
    assert!(batch_ranges(0, 4).is_empty());
    assert_eq!(replace_text("a `method` b `method`", "`method`", &"`m0.method`".to_string()), "a `m0.method` b `m0.method`");
}

#[test]
fn inheritance_and_lonely_interfaces_are_found_in_the_repo() {
    let repo: Vec<(String, String)> = vec![
        ("base.py".to_string(), "class Concrete:\n    def go(self):\n        return 1\n".to_string()),
        ("pricing.py".to_string(), "class TaxPolicy(Protocol):\n    def rate(self): ...\nclass Flat(TaxPolicy):\n    pass\n".to_string()),
    ];
    let patch = "--- a/pricing.py\n+++ b/pricing.py\n@@ -0,0 +1,3 @@\n+class TaxPolicy(Protocol):\n+class Thing(Concrete):\n+class Other(Missing):\n";
    let file = diff::parse(patch).into_iter().next().unwrap();
    let found = structure_findings(&file, &repo, true);
    let summary: Vec<(u8, usize, &str, &str)> = found.iter().map(|f| (f.rule, f.line, f.unit.as_str(), f.basis)).collect();
    assert_eq!(summary, [(6, 2, "Thing", "mechanical"), (6, 3, "Other", "candidate"), (8, 1, "TaxPolicy", "mechanical")]);
    assert_eq!(found[0].message, "`Thing` inherits from `Concrete`, which carries method bodies: that is inheriting implementation");
    assert_eq!(found[2].message, "interface `TaxPolicy` has 1 non-test implementer(s): pricing.py");
    assert_eq!(structure_findings(&file, &repo, false).len(), 2);
}

#[test]
fn the_base_twin_is_the_nearest_method_of_the_same_name() {
    let base_source = "def f():\n    a = 1\n\ndef g():\n    b = 1\n\ndef f():\n    c = 1\n    d = 2\n";
    let base = ParsedFile::parse("m.py", base_source).unwrap();
    let base_units = all_units("m.py", &base);
    let head = ParsedFile::parse("m.py", "def x():\n    pass\n\n\n\n\ndef f():\n    c = 1\n").unwrap();
    let unit = all_units("m.py", &head).into_iter().find(|u| u.name == "f").unwrap();
    assert_eq!(base_statement_count(&unit, &base_units, &base), Some(2));
    let lonely = all_units("m.py", &head).into_iter().find(|u| u.name == "x").unwrap();
    assert_eq!(base_statement_count(&lonely, &base_units, &base), None);
}

fn finding(rule: u8, path: &str, line: usize, message: &str) -> Finding {
    Finding {
        rule,
        path: path.to_string(),
        line,
        unit: "u".to_string(),
        message: message.to_string(),
        fix: "fix it".to_string(),
        basis: "mechanical",
        severity: "introduced",
        suppressed: None,
    }
}

#[test]
fn a_review_is_ordered_by_rule_path_and_line_keeping_ties_in_place() {
    let fs = [
        finding(3, "b.py", 4, "first"),
        finding(1, "b.py", 9, ""),
        finding(3, "a.py", 7, ""),
        finding(3, "b.py", 4, "second"),
        finding(1, "a.py", 2, ""),
    ];
    assert_eq!(review_order(&fs), [4, 1, 2, 0, 3]);
}

#[test]
fn the_markdown_report_lists_findings_by_rule() {
    let mut hidden = finding(5, "m.py", 3, "hidden");
    hidden.suppressed = Some("framework or language idiom (p=0.90)".to_string());
    let mut judged = finding(2, "m.py", 1, "judged");
    judged.basis = "jev";
    judged.severity = "worth a look";
    let fs = [finding(1, "m.py", 1, "long"), judged, hidden];
    let confidences = [None, Some("0.71".to_string()), None];
    let text = markdown(&fs, &confidences, 2, true, 1, &["a note".to_string()], false);
    let expected = "## Five Lines review\n\n_A structural-quality lens (Christian Clausen, *Five Lines of Code*). It is not a correctness review: a method can break every rule below and be correct, and a 3-line method can still have a bug._\n\n2 changed method(s) reviewed · 1 finding(s) · 1 Jev request(s)\n\n> a note\n\n### Rule 1 · Five lines\n- `m.py:1` — long _(mechanical; introduced)_\n  - Fix: fix it\n\n### Rule 2 · Call or pass, not both\n- `m.py:1` — judged _(Jev 0.71; worth a look)_\n  - Fix: fix it\n\n_1 finding(s) suppressed as framework or language idioms; rerun with `--show-suppressed`._\n";
    assert_eq!(text, expected);
    let empty = markdown(&[], &[], 0, false, 0, &[], false);
    assert!(empty.ends_with("0 changed method(s) reviewed · 0 finding(s) · mechanical rules only\n\nNo rule violations introduced by this diff.\n"));
}

#[test]
fn an_else_on_a_line_the_diff_did_not_add_is_not_a_candidate() {
    let pending = pending_for(BRANCHY, &[5]);
    assert!(pending.else_lines.is_empty());
    assert!(settle_unjudged(pending).iter().all(|f| f.rule != 4));
}

#[test]
fn antonyms_are_found_whichever_name_comes_first() {
    let unit_source = "function f(endDate: number, startDate: number) {\n  return 1;\n}\n";
    let pending = pending_for(unit_source, &[1]);
    let found: Vec<&str> = pending.findings.iter().filter(|f| f.rule == 10).map(|f| f.message.as_str()).collect();
    assert_eq!(found, ["`endDate` and `startDate` differ only by the affix end/start"]);
}

#[test]
fn dropping_the_idiom_answer_only_lifts_the_suppression() {
    let with_idiom = [
        Judgment { key: "idiom".to_string(), worth_a_look: true, raised: true },
        Judgment { key: "r2".to_string(), worth_a_look: true, raised: true },
        Judgment { key: "r4".to_string(), worth_a_look: true, raised: false },
    ];
    let without_idiom = [
        Judgment { key: "r2".to_string(), worth_a_look: true, raised: true },
        Judgment { key: "r4".to_string(), worth_a_look: true, raised: false },
    ];
    let (hidden, hidden_tags) = settle_judged(pending_for(BRANCHY, &[2]), &with_idiom, Some("0.91".to_string()));
    let (open, open_tags) = settle_judged(pending_for(BRANCHY, &[2]), &without_idiom, None);
    assert_eq!(hidden.len(), open.len());
    for k in 0..open.len() {
        assert_eq!((hidden[k].rule, &hidden[k].message, hidden[k].severity), (open[k].rule, &open[k].message, open[k].severity));
        assert_eq!(hidden[k].suppressed.as_deref(), Some("framework or language idiom (p=0.91)"));
        assert_eq!(open[k].suppressed, None);
        match (hidden_tags[k], open_tags[k]) {
            (Some(h), Some(o)) => assert_eq!(with_idiom[h].key, without_idiom[o].key),
            (None, None) => {}
            _ => panic!("a finding changed its judgment"),
        }
    }
}
