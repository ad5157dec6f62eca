//! Run the ten rules over a diff: mechanical checks first, judgment only where it is needed.
//!
//! Reading files, running git and asking the judge are the caller's work; every decision made
//! with what they return is taken here.

use crate::affix::{affix_findings, candidates_ok, spec_declared_names};
use crate::diff::{FileDiff, FileModel};
use crate::affix::{str_lt, string_less};
use crate::inherit::{
    file_views, pair_views, spec_implementers, spec_inheritance_in, spec_interfaces_in, triple_views, verdict_ok,
};
use crate::jev::{self, affix_key, spec_questions_for, str_views, Item};
use crate::lang::lang_of_path;
use crate::rules::{
    self, capped, finding_models, spec_mechanical, spec_rule_1, spec_rule_3, spec_rule_4_candidates, spec_rule_5,
    spec_statement_count, Finding, FindingModel,
};
use crate::text::{self, decimal, starts_with};
use crate::tree::ParsedFile;
use crate::units::{spec_node_of, unit_models, Unit, UnitModel};
use vstd::prelude::*;

verus! {

/// Methods per judge request unless told otherwise: eight cut the requests eightfold while
/// compliant code stays well below the reporting floor.
pub const DEFAULT_BATCH: usize = 8;

/// (rule, message, fix) for each judgment that can raise a finding. `{name}` is the method.
pub open spec fn spec_jev_rule(question: Seq<char>) -> Option<(u8, Seq<char>, Seq<char>)> {
    if question == "r2"@ {
        Some(
            (
                2,
                "`{name}` both orchestrates collaborators and computes on raw values"@,
                "keep the calls in `{name}`; move the inline computation into a method that is handed the values"@,
            ),
        )
    } else if question == "r3"@ {
        Some(
            (
                3,
                "`{name}` has an `if` that is not its first statement, or code after its if/else block"@,
                "extract the `if` and its block into its own method, so the condition starts that method"@,
            ),
        )
    } else if question == "r4"@ {
        Some(
            (
                4,
                "`{name}` branches with if/else between two pieces of its own domain logic"@,
                "introduce one interface with a class per branch, and push each branch's body into its class"@,
            ),
        )
    } else if question == "r5"@ {
        Some(
            (
                5,
                "`{name}` has a switch with a catch-all arm, or an arm that does not return"@,
                "drop the catch-all so a new variant fails loudly and make every arm return; or replace with polymorphism"@,
            ),
        )
    } else if question == "r7"@ {
        Some(
            (
                7,
                "a condition in `{name}` has a side effect"@,
                "hoist the side effect into its own statement before the condition; split the query from the command"@,
            ),
        )
    } else if question == "r9"@ {
        Some(
            (
                9,
                "`{name}` is an accessor that invites callers to do the object's work"@,
                "move the caller logic that uses `{name}` into the owning class (push code into data), then remove the accessor"@,
            ),
        )
    } else {
        None
    }
}

/// The rule, message and fix a judged question raises.
pub fn jev_rule(question: &str) -> (r: Option<(u8, &'static str, &'static str)>)
    ensures
        r matches Some(t) ==> spec_jev_rule(question@) == Some((t.0, t.1@, t.2@)),
        r is None ==> spec_jev_rule(question@) is None,
{
    if text::str_eq(question, "r2") {
        Some(
            (
                2,
                "`{name}` both orchestrates collaborators and computes on raw values",
                "keep the calls in `{name}`; move the inline computation into a method that is handed the values",
            ),
        )
    } else if text::str_eq(question, "r3") {
        Some(
            (
                3,
                "`{name}` has an `if` that is not its first statement, or code after its if/else block",
                "extract the `if` and its block into its own method, so the condition starts that method",
            ),
        )
    } else if text::str_eq(question, "r4") {
        Some(
            (
                4,
                "`{name}` branches with if/else between two pieces of its own domain logic",
                "introduce one interface with a class per branch, and push each branch's body into its class",
            ),
        )
    } else if text::str_eq(question, "r5") {
        Some(
            (
                5,
                "`{name}` has a switch with a catch-all arm, or an arm that does not return",
                "drop the catch-all so a new variant fails loudly and make every arm return; or replace with polymorphism",
            ),
        )
    } else if text::str_eq(question, "r7") {
        Some(
            (
                7,
                "a condition in `{name}` has a side effect",
                "hoist the side effect into its own statement before the condition; split the query from the command",
            ),
        )
    } else if text::str_eq(question, "r9") {
        Some(
            (
                9,
                "`{name}` is an accessor that invites callers to do the object's work",
                "move the caller logic that uses `{name}` into the owning class (push code into data), then remove the accessor",
            ),
        )
    } else {
        None
    }
}

/// `s` with every occurrence of `pat` replaced by `rep`, left to right, as `str::replace` does.
pub open spec fn replace_all(s: Seq<char>, pat: Seq<char>, rep: Seq<char>) -> Seq<char>
    decreases s.len(),
{
    if s.len() == 0 {
        seq![]
    } else if pat.len() > 0 && starts_with(s, pat) {
        rep + replace_all(s.skip(pat.len() as int), pat, rep)
    } else {
        seq![s[0]] + replace_all(s.drop_first(), pat, rep)
    }
}

/// A message template with the method's name in place of `{name}`.
pub open spec fn with_name(template: Seq<char>, name: Seq<char>) -> Seq<char> {
    replace_all(template, "{name}"@, name)
}

fn fill_name(template: &str, name: &String) -> (r: String)
    ensures
        r@ == with_name(template@, name@),
{
    crate::batch::replace_text(template, "{name}", name)
}

// ---------------------------------------------------------------- pass 1: what parsing decides

/// A changed method after the mechanical pass, waiting for judgment.
pub struct Pending {
    pub unit: Unit,
    pub findings: Vec<Finding>,
    /// Lines of the if/else constructs the diff added.
    pub else_lines: Vec<usize>,
    pub item: Item,
}

/// The function node a unit stands for, when its file was parsed.
pub open spec fn pass_node(parsed: Option<ParsedFile>, u: UnitModel) -> Option<usize> {
    match parsed {
        Some(p) => spec_node_of(p, u.bytes),
        None => None,
    }
}

/// The questions parsing has already answered.
pub open spec fn decided(else_lines: Seq<usize>) -> Seq<Seq<char>> {
    if else_lines.len() == 0 {
        seq!["r3"@, "r5"@, "r4"@]
    } else {
        seq!["r3"@, "r5"@]
    }
}

/// The findings parsing raises on a function: rules 1, 3, 5 and the antonym pairs of rule 10.
pub open spec fn spec_mechanical_findings(u: UnitModel, p: ParsedFile, f: int, base: Option<usize>) -> Seq<FindingModel> {
    let names = spec_declared_names(p, f);
    spec_rule_1(u, p, f, base) + spec_rule_3(u, p, f) + spec_rule_5(u, p, f) + affix_findings(u, names, names.len() as int)
}

/// Everything parsing can decide about one changed method. Without a parse, or when the unit is
/// a hunk, nothing is decided and every question is left to judgment.
pub fn mechanical_pass(unit: Unit, parsed: Option<&ParsedFile>, base_count: Option<usize>) -> (r: Pending)
    requires
        parsed matches Some(p) ==> p.wf(),
    ensures
        r.unit.model() == unit.model(),
        r.item.language@ == unit.language@,
        r.item.name@ == unit.name@,
        r.item.source@ == unit.source@,
        ({
            let pp = match parsed {
                Some(p) => Some(*p),
                None => None,
            };
            match (pp, pass_node(pp, unit.model())) {
                (Some(p), Some(f)) => {
                    &&& finding_models(r.findings@) == spec_mechanical_findings(unit.model(), p, f as int, base_count)
                    &&& r.else_lines@ == spec_rule_4_candidates(unit.model(), p, f as int)
                    &&& candidates_ok(spec_declared_names(p, f as int), r.item.affixes.deep_view())
                    &&& r.item.questions.deep_view() == spec_questions_for(unit.model(), decided(r.else_lines@))
                },
                _ => {
                    &&& r.findings@.len() == 0
                    &&& r.else_lines@.len() == 0
                    &&& r.item.affixes@.len() == 0
                    &&& r.item.questions.deep_view() == spec_questions_for(unit.model(), seq![])
                },
            }
        }),
{
    let node = match parsed {
        Some(p) => match p.node_of(&unit) {
            Some(f) => Some((p, f)),
            None => None,
        },
        None => None,
    };
    match node {
        Some((p, function)) => {
            let mut findings = rules::rule_1(&unit, function, p, base_count);
            let ghost m1 = finding_models(findings@);
            let mut three = rules::rule_3(&unit, function, p);
            let ghost m3 = finding_models(three@);
            findings.append(&mut three);
            assert(finding_models(findings@) =~= m1 + m3);
            let mut five = rules::rule_5(&unit, function, p);
            let ghost m5 = finding_models(five@);
            findings.append(&mut five);
            assert(finding_models(findings@) =~= m1 + m3 + m5);
            let else_lines = rules::rule_4_candidates(&unit, function, p);
            let names = rules::declared_names(function, p);
            let (mut affix_found, candidates) = rules::rule_10(&unit, names.as_slice());
            let ghost m10 = finding_models(affix_found@);
            findings.append(&mut affix_found);
            assert(finding_models(findings@) =~= m1 + m3 + m5 + m10);
            assert(crate::affix::name_views(names@) =~= names.deep_view());
            let mut decided_keys: Vec<&str> = Vec::new();
            decided_keys.push("r3");
            decided_keys.push("r5");
            if else_lines.len() == 0 {
                decided_keys.push("r4");
            }
            assert(str_views(decided_keys@) =~= decided(else_lines@));
            let questions = jev::questions_for(&unit, decided_keys.as_slice());
            let item = Item {
                language: unit.language.clone(),
                name: unit.name.clone(),
                source: unit.source.clone(),
                questions,
                affixes: candidates,
            };
            Pending { unit, findings, else_lines, item }
        },
        None => {
            let nothing: Vec<&str> = Vec::new();
            assert(str_views(nothing@) =~= seq![]);
            let questions = jev::questions_for(&unit, nothing.as_slice());
            let item = Item {
                language: unit.language.clone(),
                name: unit.name.clone(),
                source: unit.source.clone(),
                questions,
                affixes: Vec::new(),
            };
            Pending { unit, findings: Vec::new(), else_lines: Vec::new(), item }
        },
    }
}


// ---------------------------------------------------------------- pass 3: settling a method

/// The finding an if/else the diff added gets when no judgment was available to confirm it.
pub open spec fn unconfirmed_if_else(u: UnitModel, line: usize) -> FindingModel {
    let (_, _, fix) = spec_jev_rule("r4"@)->0;
    FindingModel {
        basis: "candidate"@,
        ..spec_mechanical(
            4,
            u,
            line,
            "if/else at line "@ + decimal(line as nat) + " in `"@ + u.name
                + "` (unconfirmed: needs judgment on whether both branches are your own domain logic)"@,
            with_name(fix, u.name),
        )
    }
}

/// A method's findings when nothing was judged: the mechanical ones, and its first if/else
/// as an unconfirmed rule 4 finding.
pub open spec fn spec_settle_unjudged(u: UnitModel, findings: Seq<FindingModel>, else_lines: Seq<usize>) -> Seq<FindingModel> {
    if else_lines.len() > 0 {
        findings.push(unconfirmed_if_else(u, else_lines[0]))
    } else {
        findings
    }
}

/// Settles a method for which no judgment is available.
pub fn settle_unjudged(waiting: Pending) -> (r: Vec<Finding>)
    ensures
        finding_models(r@) == spec_settle_unjudged(waiting.unit.model(), finding_models(waiting.findings@), waiting.else_lines@),
{
    let Pending { unit, mut findings, else_lines, item: _ } = waiting;
    if else_lines.len() > 0 {
        let line = else_lines[0];
        let (_, _, fix) = match jev_rule("r4") {
            Some(t) => t,
            None => return findings,
        };
        let mut message: Vec<char> = Vec::new();
        text::push_str(&mut message, "if/else at line ");
        text::push_decimal(&mut message, line);
        text::push_str(&mut message, " in `");
        text::push_string(&mut message, &unit.name);
        text::push_str(
            &mut message,
            "` (unconfirmed: needs judgment on whether both branches are your own domain logic)",
        );
        let mut finding = Finding::mechanical(4, &unit, line, text::string_of(message.as_slice()), fill_name(fix, &unit.name));
        finding.basis = "candidate";
        let ghost before = finding_models(findings@);
        findings.push(finding);
        assert(finding_models(findings@) =~= before.push(finding.model()));
    }
    findings
}

/// One judged question: its key, and where its probability stands against the two floors
/// (the "worth a look" floor and the raising threshold).
pub struct Judgment {
    pub key: String,
    pub worth_a_look: bool,
    pub raised: bool,
}

pub ghost struct JudgmentModel {
    pub key: Seq<char>,
    pub worth_a_look: bool,
    pub raised: bool,
}

impl Judgment {
    pub open spec fn model(&self) -> JudgmentModel {
        JudgmentModel { key: self.key@, worth_a_look: self.worth_a_look, raised: self.raised }
    }
}

pub open spec fn judgment_models(js: Seq<Judgment>) -> Seq<JudgmentModel> {
    js.map_values(|j: Judgment| j.model())
}

/// A finding decided by judgment: raised as introduced at the threshold, else worth a look.
pub open spec fn judged_model(u: UnitModel, rule: u8, line: usize, message: Seq<char>, fix: Seq<char>, raised: bool) -> FindingModel {
    FindingModel {
        basis: "jev"@,
        severity: if raised {
            "introduced"@
        } else {
            "worth a look"@
        },
        ..spec_mechanical(rule, u, line, message, fix)
    }
}

/// The line a judged question points at: the first if/else the diff added for rule 4, the
/// method's start otherwise.
pub open spec fn judged_line(u: UnitModel, key: Seq<char>, else_lines: Seq<usize>) -> usize {
    if key == "r4"@ && else_lines.len() > 0 {
        else_lines[0]
    } else {
        u.start
    }
}

/// The findings the rule questions raise, each with the position of the judgment it carries.
pub open spec fn rule_judgments(u: UnitModel, else_lines: Seq<usize>, answers: Seq<JudgmentModel>) -> Seq<(FindingModel, int)>
    decreases answers.len(),
{
    if answers.len() == 0 {
        seq![]
    } else {
        let rest = rule_judgments(u, else_lines, answers.drop_last());
        let a = answers.last();
        match spec_jev_rule(a.key) {
            Some((rule, message, fix)) => if a.worth_a_look {
                rest.push(
                    (
                        judged_model(
                            u,
                            rule,
                            judged_line(u, a.key, else_lines),
                            with_name(message, u.name),
                            with_name(fix, u.name),
                            a.raised,
                        ),
                        answers.len() - 1,
                    ),
                )
            } else {
                rest
            },
            None => rest,
        }
    }
}

/// The position of the first judgment of `key`.
pub open spec fn first_answer(answers: Seq<JudgmentModel>, key: Seq<char>) -> Option<int>
    decreases answers.len(),
{
    if answers.len() == 0 {
        None
    } else {
        match first_answer(answers.drop_last(), key) {
            Some(i) => Some(i),
            None => if answers.last().key == key {
                Some(answers.len() - 1)
            } else {
                None
            },
        }
    }
}

/// Names quoted and listed: `` `a`, `b` ``.
pub open spec fn listed(names: Seq<Seq<char>>) -> Seq<char>
    decreases names.len(),
{
    if names.len() == 0 {
        seq![]
    } else if names.len() == 1 {
        "`"@ + names[0] + "`"@
    } else {
        listed(names.drop_last()) + ", `"@ + names.last() + "`"@
    }
}

/// The findings the affix questions raise for the first `n` groups.
pub open spec fn affix_judgments(u: UnitModel, affixes: Seq<Seq<Seq<char>>>, answers: Seq<JudgmentModel>, n: int) -> Seq<(FindingModel, int)>
    decreases n,
{
    if n <= 0 {
        seq![]
    } else {
        let rest = affix_judgments(u, affixes, answers, n - 1);
        match first_answer(answers, affix_key((n - 1) as nat)) {
            Some(a) => if answers[a].worth_a_look {
                rest.push(
                    (
                        judged_model(
                            u,
                            10,
                            u.start,
                            listed(affixes[n - 1]) + " share an affix and look like one concept"@,
                            "introduce a type that holds them together, and move the logic that uses them onto it"@,
                            answers[a].raised,
                        ),
                        a,
                    ),
                )
            } else {
                rest
            },
            None => rest,
        }
    }
}

pub open spec fn unjudged(fs: Seq<FindingModel>) -> Seq<(FindingModel, int)> {
    fs.map_values(|f: FindingModel| (f, -1int))
}

/// A finding suppressed as a framework or language idiom, with the probability as given.
pub open spec fn suppressed_as_idiom(f: FindingModel, p: Seq<char>) -> FindingModel {
    FindingModel { suppressed: Some("framework or language idiom (p="@ + p + ")"@), ..f }
}

/// A method's findings once judged, each with the position of the judgment whose probability
/// it carries (-1 for a mechanical one); all of them suppressed when the method's shape is an
/// idiom (`idiom`: the idiom probability, written out, when it reached the idiom floor).
pub open spec fn spec_settle_judged(
    u: UnitModel,
    findings: Seq<FindingModel>,
    else_lines: Seq<usize>,
    affixes: Seq<Seq<Seq<char>>>,
    answers: Seq<JudgmentModel>,
    idiom: Option<Seq<char>>,
) -> Seq<(FindingModel, int)> {
    let all = unjudged(findings) + rule_judgments(u, else_lines, answers) + affix_judgments(
        u,
        affixes,
        answers,
        affixes.len() as int,
    );
    match idiom {
        Some(p) => all.map_values(|e: (FindingModel, int)| (suppressed_as_idiom(e.0, p), e.1)),
        None => all,
    }
}

pub open spec fn tagged_models(fs: Seq<Finding>, tags: Seq<Option<usize>>) -> Seq<(FindingModel, int)> {
    Seq::new(
        fs.len(),
        |i: int| (fs[i].model(), match tags[i] {
            Some(a) => a as int,
            None => -1int,
        }),
    )
}

fn judged(rule: u8, unit: &Unit, line: usize, message: String, fix: String, raised: bool) -> (r: Finding)
    ensures
        r.model() == judged_model(unit.model(), rule, line, message@, fix@, raised),
{
    let mut finding = Finding::mechanical(rule, unit, line, message, fix);
    finding.basis = "jev";
    finding.severity = if raised {
        "introduced"
    } else {
        "worth a look"
    };
    finding
}

fn listed_names(names: &Vec<String>) -> (r: Vec<char>)
    ensures
        r@ == listed(names.deep_view()),
{
    let ghost v = names.deep_view();
    let mut out: Vec<char> = Vec::new();
    let mut i: usize = 0;
    assert(v.take(0) =~= seq![]);
    while i < names.len()
        invariant
            v == names.deep_view(),
            i <= names.len(),
            out@ == listed(v.take(i as int)),
        decreases names.len() - i,
    {
        assert(v.take(i + 1).drop_last() =~= v.take(i as int));
        assert(v.take(i + 1).last() == names@[i as int]@);
        if i > 0 {
            text::push_str(&mut out, ", `");
        } else {
            text::push_str(&mut out, "`");
        }
        text::push_string(&mut out, &names[i]);
        text::push_str(&mut out, "`");
        i += 1;
    }
    assert(v.take(names.len() as int) =~= v);
    out
}

fn find_answer(answers: &[Judgment], key: &String) -> (r: Option<usize>)
    ensures
        r matches Some(a) ==> first_answer(judgment_models(answers@), key@) == Some(a as int) && a < answers.len(),
        r is None ==> first_answer(judgment_models(answers@), key@) is None,
{
    let ghost js = judgment_models(answers@);
    let mut i: usize = 0;
    while i < answers.len()
        invariant
            js == judgment_models(answers@),
            i <= answers.len(),
            first_answer(js.take(i as int), key@) is None,
        decreases answers.len() - i,
    {
        assert(js.take(i + 1).drop_last() =~= js.take(i as int));
        assert(js.take(i + 1).last() == answers@[i as int].model());
        if answers[i].key == *key {
            proof {
                lemma_first_answer_prefix(js, key@, i as int + 1);
            }
            return Some(i);
        }
        i += 1;
    }
    assert(js.take(answers.len() as int) =~= js);
    None
}

proof fn lemma_first_answer_prefix(js: Seq<JudgmentModel>, key: Seq<char>, n: int)
    requires
        0 <= n <= js.len(),
        first_answer(js.take(n), key) is Some,
    ensures
        first_answer(js, key) == first_answer(js.take(n), key),
    decreases js.len() - n,
{
    if n < js.len() {
        assert(js.take(n + 1).drop_last() =~= js.take(n));
        lemma_first_answer_prefix(js, key, n + 1);
    } else {
        assert(js.take(n) =~= js);
    }
}

/// Settles a method with the judge's answers: every rule question at the "worth a look" floor
/// or above raises its finding, every affix group likewise, and an idiom suppresses them all.
/// Each finding comes with the position in `answers` of the judgment it carries.
pub fn settle_judged(waiting: Pending, answers: &[Judgment], idiom: Option<String>) -> (r: (Vec<Finding>, Vec<Option<usize>>))
    ensures
        r.0@.len() == r.1@.len(),
        tagged_models(r.0@, r.1@) == spec_settle_judged(
            waiting.unit.model(),
            finding_models(waiting.findings@),
            waiting.else_lines@,
            waiting.item.affixes.deep_view(),
            judgment_models(answers@),
            match idiom {
                Some(p) => Some(p@),
                None => None,
            },
        ),
{
    let Pending { unit, findings: mechanical, else_lines, item } = waiting;
    let ghost u = unit.model();
    let ghost js = judgment_models(answers@);
    let ghost av = item.affixes.deep_view();
    let mut findings: Vec<Finding> = mechanical;
    let mut tags: Vec<Option<usize>> = Vec::new();
    let mut k: usize = 0;
    while k < findings.len()
        invariant
            k <= findings.len(),
            tags@.len() == k,
            forall|j: int| 0 <= j < k ==> tags@[j] is None,
        decreases findings.len() - k,
    {
        tags.push(None);
        k += 1;
    }
    let ghost base = finding_models(findings@);
    assert(tagged_models(findings@, tags@) =~= unjudged(base));
    let mut i: usize = 0;
    assert(js.take(0) =~= seq![]);
    while i < answers.len()
        invariant
            js == judgment_models(answers@),
            u == unit.model(),
            i <= answers.len(),
            findings@.len() == tags@.len(),
            tagged_models(findings@, tags@) == unjudged(base) + rule_judgments(u, else_lines@, js.take(i as int)),
        decreases answers.len() - i,
    {
        assert(js.take(i + 1).drop_last() =~= js.take(i as int));
        assert(js.take(i + 1).last() == answers@[i as int].model());
        let a = &answers[i];
        let ghost before = tagged_models(findings@, tags@);
        match jev_rule(a.key.as_str()) {
            Some((rule, message, fix)) => {
                if a.worth_a_look {
                    let line = if text::str_eq(a.key.as_str(), "r4") && else_lines.len() > 0 {
                        else_lines[0]
                    } else {
                        unit.start
                    };
                    let f = judged(rule, &unit, line, fill_name(message, &unit.name), fill_name(fix, &unit.name), a.raised);
                    findings.push(f);
                    tags.push(Some(i));
                    assert(tagged_models(findings@, tags@) =~= before.push((f.model(), i as int)));
                }
            },
            None => {},
        }
        i += 1;
    }
    assert(js.take(answers.len() as int) =~= js);
    let mut n: usize = 0;
    while n < item.affixes.len()
        invariant
            js == judgment_models(answers@),
            u == unit.model(),
            av == item.affixes.deep_view(),
            n <= item.affixes.len(),
            findings@.len() == tags@.len(),
            tagged_models(findings@, tags@) == unjudged(base) + rule_judgments(u, else_lines@, js) + affix_judgments(u, av, js, n as int),
        decreases item.affixes.len() - n,
    {
        let key = jev::affix_key_of(n);
        let ghost before = tagged_models(findings@, tags@);
        match find_answer(answers, &key) {
            Some(a) => {
                if answers[a].worth_a_look {
                    let mut message = listed_names(&item.affixes[n]);
                    assert(av[n as int] == item.affixes@[n as int].deep_view());
                    text::push_str(&mut message, " share an affix and look like one concept");
                    let f = judged(
                        10,
                        &unit,
                        unit.start,
                        text::string_of(message.as_slice()),
                        "introduce a type that holds them together, and move the logic that uses them onto it".to_owned(),
                        answers[a].raised,
                    );
                    findings.push(f);
                    tags.push(Some(a));
                    assert(tagged_models(findings@, tags@) =~= before.push((f.model(), a as int)));
                }
            },
            None => {},
        }
        n += 1;
    }
    match idiom {
        Some(p) => {
            let ghost all = tagged_models(findings@, tags@);
            let ghost fs = findings@;
            let mut note: Vec<char> = Vec::new();
            text::push_str(&mut note, "framework or language idiom (p=");
            text::push_string(&mut note, &p);
            text::push_str(&mut note, ")");
            let mut j: usize = 0;
            while j < findings.len()
                invariant
                    fs.len() == tags@.len(),
                    findings@.len() == fs.len(),
                    all == tagged_models(fs, tags@),
                    j <= findings.len(),
                    note@ == "framework or language idiom (p="@ + p@ + ")"@,
                    forall|q: int| 0 <= q < j ==> #[trigger] findings@[q].model() == suppressed_as_idiom(fs[q].model(), p@),
                    forall|q: int| j <= q < fs.len() ==> #[trigger] findings@[q] == fs[q],
                decreases findings.len() - j,
            {
                findings[j].suppressed = Some(text::string_of(note.as_slice()));
                j += 1;
            }
            assert(tagged_models(findings@, tags@) =~= all.map_values(
                |e: (FindingModel, int)| (suppressed_as_idiom(e.0, p@), e.1),
            ));
            (findings, tags)
        },
        None => (findings, tags),
    }
}

// ---------------------------------------------------------------- rules 6 and 8 for a file

/// A finding about a type rather than a method.
pub open spec fn structure_finding(
    rule: u8,
    path: Seq<char>,
    line: usize,
    unit: Seq<char>,
    message: Seq<char>,
    fix: Seq<char>,
    basis: Seq<char>,
) -> FindingModel {
    FindingModel {
        rule,
        path,
        line,
        unit,
        message,
        fix,
        basis,
        severity: "introduced"@,
        suppressed: None,
    }
}

/// Rule 6 for each inheritance the diff adds, given what the repository says of each base:
/// nothing for a bodiless contract, a finding for a class with bodies, an unconfirmed one for a
/// base not in the repository.
pub open spec fn inheritance_findings(path: Seq<char>, found: Seq<(usize, Seq<char>, Seq<char>)>, verdicts: Seq<Option<bool>>) -> Seq<FindingModel>
    decreases found.len(),
{
    if found.len() == 0 || verdicts.len() == 0 {
        seq![]
    } else {
        let rest = inheritance_findings(path, found.drop_last(), verdicts.drop_last());
        let (line, class, base) = found.last();
        let message = "`"@ + class + "` inherits from `"@ + base + "`"@;
        let fix = "give `"@ + class + "` a `"@ + base + "` field and delegate to it; share the contract through an interface"@;
        match verdicts.last() {
            Some(true) => rest,
            Some(false) => rest.push(
                structure_finding(
                    6,
                    path,
                    line,
                    class,
                    message + ", which carries method bodies: that is inheriting implementation"@,
                    fix,
                    "mechanical"@,
                ),
            ),
            None => rest.push(
                structure_finding(
                    6,
                    path,
                    line,
                    class,
                    message + ", which was not found in the repo (a library type? then this is fine)"@,
                    fix,
                    "candidate"@,
                ),
            ),
        }
    }
}

/// Rule 8 for each interface the diff adds that has at most one implementer outside tests.
pub open spec fn interface_findings(path: Seq<char>, found: Seq<(usize, Seq<char>)>, files: Seq<(Seq<char>, Seq<char>)>) -> Seq<FindingModel>
    decreases found.len(),
{
    if found.len() == 0 {
        seq![]
    } else {
        let rest = interface_findings(path, found.drop_last(), files);
        let (line, name) = found.last();
        let users = spec_implementers(name, files);
        let who = if users.len() > 0 {
            ": "@ + users[0]
        } else {
            seq![]
        };
        if users.len() <= 1 {
            rest.push(
                structure_finding(
                    8,
                    path,
                    line,
                    name,
                    "interface `"@ + name + "` has "@ + decimal(users.len()) + " non-test implementer(s)"@ + who,
                    "delete `"@ + name + "` and use the concrete class directly until a second implementation exists"@,
                    "mechanical"@,
                ),
            )
        } else {
            rest
        }
    }
}

/// What the repository says of each base, one verdict per inheritance.
pub open spec fn verdicts_ok(found: Seq<(usize, Seq<char>, Seq<char>)>, files: Seq<(Seq<char>, Seq<char>)>, vs: Seq<Option<bool>>) -> bool {
    &&& vs.len() == found.len()
    &&& forall|i: int| 0 <= i < vs.len() ==> verdict_ok(found[i].2, files, #[trigger] vs[i])
}

/// Rules 6 and 8 for a file, given the verdicts on its bases; rule 8 only with a repository.
pub open spec fn spec_structure(file: FileModel, files: Seq<(Seq<char>, Seq<char>)>, have_repo: bool, vs: Seq<Option<bool>>) -> Seq<FindingModel> {
    inheritance_findings(file.path, spec_inheritance_in(file.added), vs) + if have_repo {
        interface_findings(file.path, spec_interfaces_in(file.added), files)
    } else {
        seq![]
    }
}

fn structure(rule: u8, path: &String, line: usize, unit: &String, message: Vec<char>, fix: Vec<char>, basis: &'static str) -> (r: Finding)
    ensures
        r.model() == structure_finding(rule, path@, line, unit@, message@, fix@, basis@),
{
    Finding {
        rule,
        path: path.clone(),
        line,
        unit: unit.clone(),
        message: text::string_of(message.as_slice()),
        fix: text::string_of(fix.as_slice()),
        basis,
        severity: "introduced",
        suppressed: None,
    }
}

/// Rules 6 and 8 for one file of the diff: inheritance from a base that carries
/// implementation, and interfaces with one implementer or none. Whatever the repository lookups
/// answer, the findings are those their answers give.
pub fn structure_findings(file: &FileDiff, repo: &[(String, String)], have_repo: bool) -> (r: Vec<Finding>)
    ensures
        exists|vs: Seq<Option<bool>>|
            verdicts_ok(spec_inheritance_in(file.model().added), file_views(repo@), vs) && finding_models(r@)
                == #[trigger] spec_structure(file.model(), file_views(repo@), have_repo, vs),
{
    let ghost files = file_views(repo@);
    let ghost path = file.path@;
    let found = rules::inheritance_in(&file.added);
    let ghost fv = triple_views(found@);
    let mut out: Vec<Finding> = Vec::new();
    let mut verdicts: Vec<Option<bool>> = Vec::new();
    let mut i: usize = 0;
    assert(fv.take(0) =~= seq![]);
    assert(finding_models(out@) =~= seq![]);
    while i < found.len()
        invariant
            files == file_views(repo@),
            path == file.path@,
            fv == triple_views(found@),
            fv == spec_inheritance_in(file.model().added),
            i <= found.len(),
            verdicts@.len() == i,
            forall|k: int| 0 <= k < i ==> verdict_ok(fv[k].2, files, #[trigger] verdicts@[k]),
            finding_models(out@) == inheritance_findings(path, fv.take(i as int), verdicts@),
        decreases found.len() - i,
    {
        let (line, class, base) = (found[i].0, &found[i].1, &found[i].2);
        assert(fv[i as int] == (line, class@, base@));
        let verdict = rules::base_is_interface(base.as_str(), repo);
        let ghost before = finding_models(out@);
        let ghost vs_before = verdicts@;
        verdicts.push(verdict);
        assert(fv.take(i + 1).drop_last() =~= fv.take(i as int));
        assert(verdicts@.drop_last() =~= vs_before);
        assert(fv.take(i + 1).last() == fv[i as int]);
        let mut message: Vec<char> = Vec::new();
        text::push_str(&mut message, "`");
        text::push_string(&mut message, class);
        text::push_str(&mut message, "` inherits from `");
        text::push_string(&mut message, base);
        text::push_str(&mut message, "`");
        let mut fix: Vec<char> = Vec::new();
        text::push_str(&mut fix, "give `");
        text::push_string(&mut fix, class);
        text::push_str(&mut fix, "` a `");
        text::push_string(&mut fix, base);
        text::push_str(&mut fix, "` field and delegate to it; share the contract through an interface");
        match verdict {
            Some(true) => {},
            Some(false) => {
                text::push_str(&mut message, ", which carries method bodies: that is inheriting implementation");
                let f = structure(6, &file.path, line, class, message, fix, "mechanical");
                out.push(f);
                assert(finding_models(out@) =~= before.push(f.model()));
            },
            None => {
                text::push_str(&mut message, ", which was not found in the repo (a library type? then this is fine)");
                let f = structure(6, &file.path, line, class, message, fix, "candidate");
                out.push(f);
                assert(finding_models(out@) =~= before.push(f.model()));
            },
        }
        i += 1;
    }
    assert(fv.take(found.len() as int) =~= fv);
    let ghost head = finding_models(out@);
    if have_repo {
        let ifaces = rules::interfaces_in(&file.added);
        let ghost iv = pair_views(ifaces@);
        let mut k: usize = 0;
        assert(iv.take(0) =~= seq![]);
        assert(finding_models(out@) =~= head + interface_findings(path, iv.take(0), files));
        while k < ifaces.len()
            invariant
                files == file_views(repo@),
                path == file.path@,
                iv == pair_views(ifaces@),
                k <= ifaces.len(),
                finding_models(out@) == head + interface_findings(path, iv.take(k as int), files),
            decreases ifaces.len() - k,
        {
            let (line, name) = (ifaces[k].0, &ifaces[k].1);
            assert(iv.take(k + 1).drop_last() =~= iv.take(k as int));
            assert(iv.take(k + 1).last() == (line, name@));
            let users = rules::implementers(name.as_str(), repo);
            let ghost sp = spec_implementers(name@, files);
            assert(sp == users@.map_values(|s: String| s@));
            assert(sp.len() == users.len());
            if users.len() <= 1 {
                let mut message: Vec<char> = Vec::new();
                text::push_str(&mut message, "interface `");
                text::push_string(&mut message, name);
                text::push_str(&mut message, "` has ");
                text::push_decimal(&mut message, users.len());
                text::push_str(&mut message, " non-test implementer(s)");
                if users.len() > 0 {
                    assert(users@.map_values(|s: String| s@)[0] == users@[0]@);
                    text::push_str(&mut message, ": ");
                    text::push_string(&mut message, &users[0]);
                }
                let mut fix: Vec<char> = Vec::new();
                text::push_str(&mut fix, "delete `");
                text::push_string(&mut fix, name);
                text::push_str(&mut fix, "` and use the concrete class directly until a second implementation exists");
                let ghost before = finding_models(out@);
                let ghost who = if sp.len() > 0 {
                    ": "@ + sp[0]
                } else {
                    seq![]
                };
                assert(message@ == "interface `"@ + name@ + "` has "@ + decimal(sp.len()) + " non-test implementer(s)"@ + who);
                let f = structure(8, &file.path, line, name, message, fix, "mechanical");
                out.push(f);
                assert(finding_models(out@) =~= before.push(f.model()));
            }
            k += 1;
        }
        assert(iv.take(ifaces.len() as int) =~= iv);
    } else {
        assert(finding_models(out@) =~= head + seq![]);
    }
    assert(verdicts_ok(fv, files, verdicts@));
    assert(finding_models(out@) == spec_structure(file.model(), files, have_repo, verdicts@));
    out
}

// ---------------------------------------------------------------- the base version

pub open spec fn distance(a: usize, b: usize) -> nat {
    if a >= b {
        (a - b) as nat
    } else {
        (b - a) as nat
    }
}

/// Among the first `n` base units, the one named like `u` that starts nearest to it; the first
/// such when several are equally near.
pub open spec fn best_twin(us: Seq<UnitModel>, u: UnitModel, n: int) -> Option<int>
    decreases n,
{
    if n <= 0 {
        None
    } else {
        let rest = best_twin(us, u, n - 1);
        let c = us[n - 1];
        if c.name == u.name && (rest matches Some(b) ==> distance(c.start, u.start) < distance(us[b].start, u.start)) {
            Some(n - 1)
        } else {
            rest
        }
    }
}

/// The statement count of the same method in the base version: by name, and nearest in
/// position if the name repeats.
pub open spec fn spec_base_statement_count(u: UnitModel, base_units: Seq<UnitModel>, base: ParsedFile) -> Option<usize> {
    match best_twin(base_units, u, base_units.len() as int) {
        Some(i) => match spec_node_of(base, base_units[i].bytes) {
            Some(n) => Some(capped(spec_statement_count(base, n as int))),
            None => None,
        },
        None => None,
    }
}

pub fn base_statement_count(unit: &Unit, base_units: &[Unit], base: &ParsedFile) -> (r: Option<usize>)
    requires
        base.wf(),
    ensures
        r == spec_base_statement_count(unit.model(), unit_models(base_units@), *base),
{
    let ghost us = unit_models(base_units@);
    let mut best: Option<usize> = None;
    let mut i: usize = 0;
    while i < base_units.len()
        invariant
            us == unit_models(base_units@),
            i <= base_units.len(),
            best matches Some(b) ==> b < i,
            best matches Some(b) ==> best_twin(us, unit.model(), i as int) == Some(b as int),
            best is None ==> best_twin(us, unit.model(), i as int) is None,
        decreases base_units.len() - i,
    {
        let c = &base_units[i];
        assert(us[i as int] == c.model());
        if c.name == unit.name {
            let d = if c.start >= unit.start {
                c.start - unit.start
            } else {
                unit.start - c.start
            };
            let better = match best {
                Some(b) => {
                    assert(us[b as int] == base_units@[b as int].model());
                    let e = if base_units[b].start >= unit.start {
                        base_units[b].start - unit.start
                    } else {
                        unit.start - base_units[b].start
                    };
                    d < e
                },
                None => true,
            };
            if better {
                best = Some(i);
            }
        }
        i += 1;
    }
    match best {
        Some(b) => {
            assert(us[b as int] == base_units@[b as int].model());
            match base.node_of(&base_units[b]) {
                Some(n) => Some(rules::statement_count(n, base)),
                None => None,
            }
        },
        None => None,
    }
}

// ---------------------------------------------------------------- notes on a file

/// What a review says about a file it could not read or parse.
pub open spec fn spec_file_notes(path: Seq<char>, have_repo: bool, found: bool, parsed: bool) -> Seq<Seq<char>> {
    if !found && have_repo {
        seq![path + ": not found under --repo, reviewed from the hunk text only"@]
    } else if found && !parsed && lang_of_path(path) is None {
        seq![path + ": no parser for this language, mechanical rules skipped"@]
    } else {
        seq![]
    }
}

/// The notes on one file: read from the hunk alone when the repository lacks it, and no
/// mechanical rules when its language has no parser.
pub fn file_notes(path: &str, have_repo: bool, found: bool, parsed: bool) -> (r: Vec<String>)
    ensures
        r.deep_view() == spec_file_notes(path@, have_repo, found, parsed),
{
    let mut out: Vec<String> = Vec::new();
    if !found && have_repo {
        let mut note = text::chars_of(path);
        text::push_str(&mut note, ": not found under --repo, reviewed from the hunk text only");
        out.push(text::string_of(note.as_slice()));
        assert(out.deep_view() =~= spec_file_notes(path@, have_repo, found, parsed));
    } else if found && !parsed && crate::lang::Lang::from_path(path).is_none() {
        let mut note = text::chars_of(path);
        text::push_str(&mut note, ": no parser for this language, mechanical rules skipped");
        out.push(text::string_of(note.as_slice()));
        assert(out.deep_view() =~= spec_file_notes(path@, have_repo, found, parsed));
    } else {
        assert(out.deep_view() =~= spec_file_notes(path@, have_repo, found, parsed));
    }
    out
}

// ---------------------------------------------------------------- the order of a review

/// `a` is listed before `b`: by rule, then path, then line.
pub open spec fn key_before(a: FindingModel, b: FindingModel) -> bool {
    ||| a.rule < b.rule
    ||| a.rule == b.rule && str_lt(a.path, b.path)
    ||| a.rule == b.rule && a.path == b.path && a.line < b.line
}

/// The first place in `order` whose finding is listed after finding `i`.
pub open spec fn first_after(order: Seq<usize>, fs: Seq<FindingModel>, i: int, q: int) -> int
    decreases order.len() - q,
{
    if q < 0 || q >= order.len() {
        order.len() as int
    } else if key_before(fs[i], fs[order[q] as int]) {
        q
    } else {
        first_after(order, fs, i, q + 1)
    }
}

/// The order in which a stable sort by rule, path and line lists the first `n` findings:
/// each finding goes after every earlier one it is not listed before.
pub open spec fn stable_order(fs: Seq<FindingModel>, n: int) -> Seq<usize>
    decreases n,
{
    if n <= 0 {
        seq![]
    } else {
        let o = stable_order(fs, n - 1);
        o.insert(first_after(o, fs, n - 1, 0), (n - 1) as usize)
    }
}

fn listed_before(a: &Finding, b: &Finding) -> (r: bool)
    ensures
        r == key_before(a.model(), b.model()),
{
    if a.rule < b.rule {
        return true;
    }
    if a.rule != b.rule {
        return false;
    }
    if string_less(&a.path, &b.path) {
        return true;
    }
    a.path == b.path && a.line < b.line
}

/// The order of a review's findings: by rule, path and line, findings with equal keys in the
/// order they were found. Returned as positions into `fs`.
pub fn review_order(fs: &[Finding]) -> (r: Vec<usize>)
    ensures
        r@ == stable_order(finding_models(fs@), fs@.len() as int),
{
    let ghost ms = finding_models(fs@);
    let mut order: Vec<usize> = Vec::new();
    let mut i: usize = 0;
    while i < fs.len()
        invariant
            ms == finding_models(fs@),
            i <= fs.len(),
            order@ == stable_order(ms, i as int),
            forall|k: int| 0 <= k < order@.len() ==> #[trigger] order@[k] < i,
        decreases fs.len() - i,
    {
        let mut q: usize = 0;
        assert(first_after(order@, ms, i as int, 0) == first_after(order@, ms, i as int, q as int));
        while q < order.len() && !listed_before(&fs[i], &fs[order[q]])
            invariant
                ms == finding_models(fs@),
                i < fs.len(),
                q <= order.len(),
                forall|k: int| 0 <= k < order@.len() ==> #[trigger] order@[k] < i,
                first_after(order@, ms, i as int, 0) == first_after(order@, ms, i as int, q as int),
            decreases order.len() - q,
        {
            assert(ms[i as int] == fs@[i as int].model());
            assert(ms[order@[q as int] as int] == fs@[order@[q as int] as int].model());
            q += 1;
        }
        if q < order.len() {
            assert(ms[i as int] == fs@[i as int].model());
            assert(ms[order@[q as int] as int] == fs@[order@[q as int] as int].model());
        }
        let ghost o = order@;
        order.insert(q, i);
        assert(order@ == o.insert(q as int, i));
        assert forall|k: int| 0 <= k < order@.len() implies #[trigger] order@[k] < i + 1 by {
            if k < q {
                assert(order@[k] == o[k]);
            } else if k > q {
                assert(order@[k] == o[k - 1]);
            }
        }
        i += 1;
    }
    order
}
} // verus!
