//! The ten rules. What can be COUNTED is counted here; what needs judgment becomes a question.
//!
//! A finding's `basis` says how it was decided:
//!
//! * `mechanical` — by parsing alone. Reproducible, no model involved.
//! * `jev`        — by a typed yes/no question, with the probability attached.
//! * `candidate`  — a structural signal was found, but no judgment was available to confirm it.

use crate::lang::{self, spec_ends_the_arm, spec_is_arm, spec_is_if, spec_is_statement, spec_is_switch, Lang};
use crate::text::{self, decimal, find_char, starts_with, trim, trim_start};
use crate::tree::{has_part, node_wf, ParsedFile};
use crate::units::{Unit, UnitModel};
use vstd::prelude::*;

pub use crate::affix::{capitalise, declared_names, rule_10, words};
pub use crate::inherit::{base_is_interface, implementers, inheritance_in, interfaces_in};

verus! {

pub const LIMIT: usize = 5;

pub open spec fn spec_rule_name(rule: u8) -> Seq<char> {
    if rule == 1 {
        "Five lines"@
    } else if rule == 2 {
        "Call or pass, not both"@
    } else if rule == 3 {
        "If only at the start"@
    } else if rule == 4 {
        "Never if-else"@
    } else if rule == 5 {
        "Never switch"@
    } else if rule == 6 {
        "Inherit only from interfaces"@
    } else if rule == 7 {
        "Pure conditions"@
    } else if rule == 8 {
        "No single-implementation interfaces"@
    } else if rule == 9 {
        "Avoid getters/setters"@
    } else {
        "No common affixes"@
    }
}

pub fn rule_name(rule: u8) -> (r: &'static str)
    ensures
        r@ == spec_rule_name(rule),
{
    match rule {
        1 => "Five lines",
        2 => "Call or pass, not both",
        3 => "If only at the start",
        4 => "Never if-else",
        5 => "Never switch",
        6 => "Inherit only from interfaces",
        7 => "Pure conditions",
        8 => "No single-implementation interfaces",
        9 => "Avoid getters/setters",
        _ => "No common affixes",
    }
}

/// A rule violation. A judged finding also carries the probability it was judged with; that
/// number lives beside the finding, where the judgment is made.
#[derive(Debug)]
pub struct Finding {
    pub rule: u8,
    pub path: String,
    pub line: usize,
    pub unit: String,
    pub message: String,
    pub fix: String,
    pub basis: &'static str,
    pub severity: &'static str,
    pub suppressed: Option<String>,
}

pub ghost struct FindingModel {
    pub rule: u8,
    pub path: Seq<char>,
    pub line: usize,
    pub unit: Seq<char>,
    pub message: Seq<char>,
    pub fix: Seq<char>,
    pub basis: Seq<char>,
    pub severity: Seq<char>,
    pub suppressed: Option<Seq<char>>,
}

impl Finding {
    pub open spec fn model(&self) -> FindingModel {
        FindingModel {
            rule: self.rule,
            path: self.path@,
            line: self.line,
            unit: self.unit@,
            message: self.message@,
            fix: self.fix@,
            basis: self.basis@,
            severity: self.severity@,
            suppressed: match self.suppressed {
                Some(s) => Some(s@),
                None => None,
            },
        }
    }
}

pub open spec fn finding_models(fs: Seq<Finding>) -> Seq<FindingModel> {
    fs.map_values(|f: Finding| f.model())
}

/// A finding decided by parsing alone, raised as introduced by the diff.
pub open spec fn spec_mechanical(rule: u8, unit: UnitModel, line: usize, message: Seq<char>, fix: Seq<char>) -> FindingModel {
    FindingModel {
        rule,
        path: unit.path,
        line,
        unit: unit.name,
        message,
        fix,
        basis: "mechanical"@,
        severity: "introduced"@,
        suppressed: None,
    }
}

impl Finding {
    pub fn mechanical(rule: u8, unit: &Unit, line: usize, message: String, fix: String) -> (r: Finding)
        ensures
            r.model() == spec_mechanical(rule, unit.model(), line, message@, fix@),
    {
        Finding {
            rule,
            path: unit.path.clone(),
            line,
            unit: unit.name.clone(),
            message,
            fix,
            basis: "mechanical",
            severity: "introduced",
            suppressed: None,
        }
    }

    /// Raised: neither suppressed as an idiom nor only worth a look.
    pub fn raised(&self) -> (r: bool)
        ensures
            r == (self.suppressed is None && self.severity@ != "worth a look"@),
    {
        self.suppressed.is_none() && !text::str_eq(self.severity, "worth a look")
    }
}

// ---------------------------------------------------------------- walking a function

/// The first named child of a node, comments included: what `Node::named_child(0)` gives.
pub open spec fn first_named(p: ParsedFile, i: int) -> Option<usize> {
    first_named_from(p, i, 0)
}

pub open spec fn first_named_from(p: ParsedFile, i: int, k: int) -> Option<usize>
    decreases p.children(i).len() - k,
{
    if 0 <= k < p.children(i).len() {
        let c = p.children(i)[k];
        if 0 <= c < p.len() && p.nodes@[c as int].named {
            Some(c)
        } else {
            first_named_from(p, i, k + 1)
        }
    } else {
        None
    }
}

/// The number of named children of a node, comments included.
pub open spec fn named_count(p: ParsedFile, i: int) -> nat {
    named_count_from(p, i, 0)
}

pub open spec fn named_count_from(p: ParsedFile, i: int, k: int) -> nat
    decreases p.children(i).len() - k,
{
    if 0 <= k < p.children(i).len() {
        let c = p.children(i)[k];
        (if 0 <= c < p.len() && p.nodes@[c as int].named {
            1nat
        } else {
            0nat
        }) + named_count_from(p, i, k + 1)
    } else {
        0
    }
}

fn first_named_child(p: &ParsedFile, node: usize) -> (r: Option<usize>)
    requires
        p.wf(),
        node < p.len(),
    ensures
        r == first_named(*p, node as int),
        r matches Some(c) ==> c < p.len(),
{
    let mut k: usize = 0;
    while k < p.nodes[node].children.len()
        invariant
            p.wf(),
            node < p.len(),
            k <= p.children(node as int).len(),
            first_named(*p, node as int) == first_named_from(*p, node as int, k as int),
        decreases p.children(node as int).len() - k,
    {
        let c = p.nodes[node].children[k];
        assert(node_wf(p.nodes@, node as int));
        if p.nodes[c].named {
            return Some(c);
        }
        k += 1;
    }
    None
}

fn named_child_count(p: &ParsedFile, node: usize) -> (r: usize)
    requires
        p.wf(),
        node < p.len(),
    ensures
        r == named_count(*p, node as int),
{
    let n = p.nodes[node].children.len();
    let mut count: usize = 0;
    let mut k = n;
    while k > 0
        invariant
            p.wf(),
            node < p.len(),
            n == p.children(node as int).len(),
            k <= n,
            count + k <= n,
            count == named_count_from(*p, node as int, k as int),
        decreases k,
    {
        k -= 1;
        let c = p.nodes[node].children[k];
        assert(node_wf(p.nodes@, node as int));
        if p.nodes[c].named {
            count += 1;
        }
    }
    count
}

/// The node under a function's `body` field.
pub open spec fn body_of(p: ParsedFile, f: int) -> Option<usize> {
    p.spec_child_by_field(f, "body"@)
}

pub open spec fn spec_is_docstring(p: ParsedFile, s: int) -> bool {
    &&& p.kind(s) == "expression_statement"@
    &&& first_named(p, s) matches Some(c) && 0 <= c < p.len() && p.kind(c as int) == "string"@
}

pub(crate) fn is_docstring(p: &ParsedFile, statement: usize) -> (r: bool)
    requires
        p.wf(),
        statement < p.len(),
    ensures
        r == spec_is_docstring(*p, statement as int),
{
    if !p.kind_is(statement, "expression_statement") {
        return false;
    }
    match first_named_child(p, statement) {
        Some(c) => p.kind_is(c, "string"),
        None => false,
    }
}

/// The top-level statements of a function body, without a leading Python docstring.
pub open spec fn spec_body_statements(p: ParsedFile, f: int) -> Seq<usize> {
    match body_of(p, f) {
        None => seq![],
        Some(b) => {
            let st = p.spec_named_children(b as int);
            if p.lang == Lang::Python && st.len() > 0 && spec_is_docstring(p, st[0] as int) {
                st.drop_first()
            } else {
                st
            }
        },
    }
}

pub(crate) fn body_statements(p: &ParsedFile, function: usize) -> (r: Vec<usize>)
    requires
        p.wf(),
        function < p.len(),
    ensures
        r@ == spec_body_statements(*p, function as int),
        forall|k: int| 0 <= k < r@.len() ==> #[trigger] r@[k] < p.len(),
{
    let body = match p.child_by_field_name(function, "body") {
        Some(b) => b,
        None => return Vec::new(),
    };
    let mut statements = p.named_children(body);
    if p.lang == Lang::Python && statements.len() > 0 && is_docstring(p, statements[0]) {
        statements.remove(0);
        assert(statements@ =~= p.spec_named_children(body as int).drop_first());
    }
    statements
}

// ---------------------------------------------------------------- rule 1

/// Does a node count toward the five-statement budget? A statement counts unless it is the
/// declaration inside a C# `local_declaration_statement`, or part of a `for` header.
pub open spec fn spec_counts_as_statement(p: ParsedFile, n: int) -> bool {
    &&& spec_is_statement(p.kind(n))
    &&& !(p.nodes@[n].parent matches Some(q) && p.kind(q as int) == "local_declaration_statement"@)
    &&& !(p.nodes@[n].parent matches Some(q) && starts_with(p.kind(q as int), "for_"@) && (
    body_of(p, q as int) matches Some(b) && b != n))
}

fn counts_as_statement(p: &ParsedFile, node: usize) -> (r: bool)
    requires
        p.wf(),
        node < p.len(),
    ensures
        r == spec_counts_as_statement(*p, node as int),
{
    if !lang::is_statement(p.nodes[node].kind.as_str()) {
        return false;
    }
    assert(node_wf(p.nodes@, node as int));
    match p.nodes[node].parent {
        Some(q) => {
            if p.kind_is(q, "local_declaration_statement") {
                return false;
            }
            let kind = text::chars_of(p.nodes[q].kind.as_str());
            if text::begins(&kind, "for_") {
                match p.child_by_field_name(q, "body") {
                    Some(b) => b == node,
                    None => true,
                }
            } else {
                true
            }
        },
        None => true,
    }
}

/// How many of `nodes` count as statements, leaving out `skip`.
pub open spec fn count_statements(p: ParsedFile, nodes: Seq<usize>, skip: Option<usize>) -> nat
    decreases nodes.len(),
{
    if nodes.len() == 0 {
        0
    } else {
        let n = nodes.last();
        count_statements(p, nodes.drop_last(), skip) + (if spec_counts_as_statement(p, n as int)
            && Some(n) != skip {
            1nat
        } else {
            0nat
        })
    }
}

/// Does a block end in something that is not a statement: a Rust tail expression?
pub open spec fn ends_in_value(p: ParsedFile, b: int) -> bool {
    let nc = p.spec_named_children(b);
    nc.len() > 0 && !spec_is_statement(p.kind(nc.last() as int))
}

/// How many of `nodes` are blocks that end in a value.
pub open spec fn count_valued_blocks(p: ParsedFile, nodes: Seq<usize>) -> nat
    decreases nodes.len(),
{
    if nodes.len() == 0 {
        0
    } else {
        let n = nodes.last();
        count_valued_blocks(p, nodes.drop_last()) + (if p.kind(n as int) == "block"@ && ends_in_value(
            p,
            n as int,
        ) {
            1nat
        } else {
            0nat
        })
    }
}

/// Statements, not lines: one call wrapped over six lines is one statement. A body that is a
/// single expression is one statement; a Rust block's tail expression counts as one.
pub open spec fn spec_statement_count(p: ParsedFile, f: int) -> nat {
    match body_of(p, f) {
        None => 0,
        Some(b) => if !has_part(p.kind(b as int), "block"@) && p.kind(b as int) != "compound_statement"@ {
            1
        } else {
            let nc = p.spec_named_children(b as int);
            let doc = if p.lang == Lang::Python && nc.len() > 0 && spec_is_docstring(p, nc[0] as int) {
                Some(nc[0])
            } else {
                None
            };
            let nodes = p.spec_within(b as int);
            let base = count_statements(p, nodes, doc);
            if p.lang == Lang::Rust {
                base + (if ends_in_value(p, b as int) {
                    1nat
                } else {
                    0nat
                }) + count_valued_blocks(p, nodes)
            } else {
                base
            }
        },
    }
}

fn ends_in_value_of(p: &ParsedFile, block: usize) -> (r: bool)
    requires
        p.wf(),
        block < p.len(),
    ensures
        r == ends_in_value(*p, block as int),
{
    let nc = p.named_children(block);
    nc.len() > 0 && !lang::is_statement(p.nodes[nc[nc.len() - 1]].kind.as_str())
}

/// `n` as a `usize`, or `usize::MAX` when it does not fit: a count that no source file reaches.
pub open spec fn capped(n: nat) -> usize {
    if n <= usize::MAX {
        n as usize
    } else {
        usize::MAX
    }
}

pub fn statement_count(function: usize, parsed: &ParsedFile) -> (r: usize)
    requires
        parsed.wf(),
        function < parsed.len(),
    ensures
        r == capped(spec_statement_count(*parsed, function as int)),
{
    let p = parsed;
    let body = match p.child_by_field_name(function, "body") {
        Some(b) => b,
        None => return 0,
    };
    let kind = text::chars_of(p.nodes[body].kind.as_str());
    if !crate::tree::contains_str(&kind, "block") && !p.kind_is(body, "compound_statement") {
        return 1;  // an arrow function or lambda whose body is a single expression
    }
    let nc = p.named_children(body);
    let doc = if p.lang == Lang::Python && nc.len() > 0 && is_docstring(p, nc[0]) {
        Some(nc[0])
    } else {
        None
    };
    let nodes = p.descendants(body);
    let mut count: usize = 0;
    let mut blocks: usize = 0;
    let mut i: usize = 0;
    assert(nodes@.take(0) =~= seq![]);
    while i < nodes.len()
        invariant
            p.wf(),
            forall|k: int| 0 <= k < nodes@.len() ==> #[trigger] nodes@[k] < p.len(),
            i <= nodes.len(),
            count == count_statements(*p, nodes@.take(i as int), doc),
            blocks == count_valued_blocks(*p, nodes@.take(i as int)),
            count <= i,
            blocks <= i,
        decreases nodes.len() - i,
    {
        let n = nodes[i];
        assert(nodes@.take(i + 1).drop_last() =~= nodes@.take(i as int));
        assert(nodes@.take(i + 1).last() == n);
        if counts_as_statement(p, n) && Some(n) != doc {
            count += 1;
        }
        if p.kind_is(n, "block") && ends_in_value_of(p, n) {
            blocks += 1;
        }
        i += 1;
    }
    assert(nodes@.take(nodes.len() as int) =~= nodes@);
    if p.lang == Lang::Rust {
        // `a + b` as the last line of a block is Rust's return: a statement in all but grammar.
        let own: usize = if ends_in_value_of(p, body) { 1 } else { 0 };
        count.saturating_add(own).saturating_add(blocks)
    } else {
        count
    }
}


pub open spec fn spec_line(p: ParsedFile, n: int) -> usize {
    (p.nodes@[n].start_row + 1) as usize
}

pub open spec fn row_span(p: ParsedFile, s: int) -> int {
    p.nodes@[s].end_row - p.nodes@[s].start_row
}

/// The statement that spans the most rows; of equally long ones, the last. Single-row
/// statements do not count.
pub open spec fn largest(p: ParsedFile, ss: Seq<usize>) -> Option<usize>
    decreases ss.len(),
{
    if ss.len() == 0 {
        None
    } else {
        let prev = largest(p, ss.drop_last());
        let s = ss.last();
        if 0 <= s < p.len() && p.nodes@[s as int].end_row > p.nodes@[s as int].start_row {
            match prev {
                Some(b) => if row_span(p, s as int) >= row_span(p, b as int) {
                    Some(s)
                } else {
                    prev
                },
                None => Some(s),
            }
        } else {
            prev
        }
    }
}

/// The first word of a node kind: `if` of `if_statement`.
pub open spec fn kind_prefix(kind: Seq<char>) -> Seq<char> {
    kind.take(find_char(kind, '_') as int)
}

pub open spec fn size_word(count: usize) -> Seq<char> {
    if count <= LIMIT + 2 {
        "slightly over"@
    } else if count <= 15 {
        "well over"@
    } else {
        "a god-method"@
    }
}

pub open spec fn rule_1_fix(p: ParsedFile, f: int) -> Seq<char> {
    match largest(p, spec_body_statements(p, f)) {
        Some(s) => "extract the `"@ + kind_prefix(p.kind(s as int)) + "` block at line "@ + decimal(
            spec_line(p, s as int) as nat,
        ) + " into its own method"@,
        None => "extract the longest cohesive run of statements into its own method"@,
    }
}

/// Rule 1: a method over five statements, unless the diff did not make an already-long method
/// longer. A method that was already over budget and grew is `grown`.
pub open spec fn spec_rule_1(u: UnitModel, p: ParsedFile, f: int, base: Option<usize>) -> Seq<FindingModel> {
    let count = capped(spec_statement_count(p, f));
    if count <= LIMIT || (base matches Some(b) && count <= b) {
        seq![]
    } else {
        let grown = match base {
            Some(b) => if b > LIMIT {
                Some(b)
            } else {
                None
            },
            None => None,
        };
        let message = "`"@ + u.name + "` has "@ + decimal(count as nat) + " statements ("@ + size_word(
            count,
        ) + "; budget "@ + decimal(LIMIT as nat) + ")"@ + match grown {
            Some(b) => ", up from "@ + decimal(b as nat),
            None => seq![],
        };
        seq![
            FindingModel {
                severity: if grown is Some {
                    "grown"@
                } else {
                    "introduced"@
                },
                ..spec_mechanical(1, u, u.start, message, rule_1_fix(p, f))
            },
        ]
    }
}

fn largest_block(function: usize, p: &ParsedFile) -> (r: Option<(Vec<char>, usize)>)
    requires
        p.wf(),
        function < p.len(),
    ensures
        r matches Some((kind, at)) ==> largest(*p, spec_body_statements(*p, function as int)) matches Some(s)
            && kind@ == kind_prefix(p.kind(s as int)) && at == spec_line(*p, s as int),
        r is None ==> largest(*p, spec_body_statements(*p, function as int)) is None,
{
    let ss = body_statements(p, function);
    let mut best: Option<usize> = None;
    let mut i: usize = 0;
    assert(ss@.take(0) =~= seq![]);
    while i < ss.len()
        invariant
            p.wf(),
            forall|k: int| 0 <= k < ss@.len() ==> #[trigger] ss@[k] < p.len(),
            i <= ss.len(),
            best == largest(*p, ss@.take(i as int)),
            best matches Some(b) ==> b < p.len(),
        decreases ss.len() - i,
    {
        let s = ss[i];
        assert(ss@.take(i + 1).drop_last() =~= ss@.take(i as int));
        assert(ss@.take(i + 1).last() == s);
        let n = &p.nodes[s];
        if n.end_row > n.start_row {
            best = match best {
                Some(b) => {
                    let m = &p.nodes[b];
                    if m.end_row < m.start_row || n.end_row - n.start_row >= m.end_row - m.start_row {
                        Some(s)
                    } else {
                        Some(b)
                    }
                },
                None => Some(s),
            };
        }
        i += 1;
    }
    assert(ss@.take(ss.len() as int) =~= ss@);
    match best {
        Some(b) => {
            let kind = text::chars_of(p.nodes[b].kind.as_str());
            Some((text::before_char(&kind, '_'), p.line(b)))
        },
        None => None,
    }
}

pub fn rule_1(unit: &Unit, function: usize, parsed: &ParsedFile, base_count: Option<usize>) -> (r: Vec<Finding>)
    requires
        parsed.wf(),
        function < parsed.len(),
    ensures
        finding_models(r@) == spec_rule_1(unit.model(), *parsed, function as int, base_count),
{
    let count = statement_count(function, parsed);
    let over_base = match base_count {
        Some(base) => count <= base,
        None => false,
    };
    if count <= LIMIT || over_base {
        // within budget, or the diff did not make an already-long method longer
        return Vec::new();
    }
    let grown = match base_count {
        Some(b) => if b > LIMIT { Some(b) } else { None },
        None => None,
    };
    let size = if count <= LIMIT + 2 {
        "slightly over"
    } else if count <= 15 {
        "well over"
    } else {
        "a god-method"
    };
    assert(size@ == size_word(count));
    let mut message: Vec<char> = Vec::new();
    text::push_str(&mut message, "`");
    text::push_string(&mut message, &unit.name);
    text::push_str(&mut message, "` has ");
    text::push_decimal(&mut message, count);
    text::push_str(&mut message, " statements (");
    text::push_str(&mut message, size);
    text::push_str(&mut message, "; budget ");
    text::push_decimal(&mut message, LIMIT);
    text::push_str(&mut message, ")");
    let ghost head = message@;
    if let Some(b) = grown {
        text::push_str(&mut message, ", up from ");
        text::push_decimal(&mut message, b);
    }
    assert(message@ =~= head + match grown {
        Some(b) => ", up from "@ + decimal(b as nat),
        None => seq![],
    });
    let mut fix: Vec<char> = Vec::new();
    match largest_block(function, parsed) {
        Some((kind, at)) => {
            text::push_str(&mut fix, "extract the `");
            text::append(&mut fix, &kind);
            text::push_str(&mut fix, "` block at line ");
            text::push_decimal(&mut fix, at);
            text::push_str(&mut fix, " into its own method");
        },
        None => text::push_str(&mut fix, "extract the longest cohesive run of statements into its own method"),
    }
    assert(fix@ == rule_1_fix(*parsed, function as int));
    let mut finding = Finding::mechanical(
        1,
        unit,
        unit.start,
        text::string_of(message.as_slice()),
        text::string_of(fix.as_slice()),
    );
    finding.severity = if grown.is_some() { "grown" } else { "introduced" };
    let mut out: Vec<Finding> = Vec::new();
    out.push(finding);
    assert(finding_models(out@) =~= spec_rule_1(unit.model(), *parsed, function as int, base_count));
    out
}

// ---------------------------------------------------------------- rule 3 and 4

/// An `if` that continues the conditional above it: an `else if`.
pub open spec fn spec_is_else_if(p: ParsedFile, n: int) -> bool {
    p.nodes@[n].parent matches Some(q) && (p.kind(q as int) == "else_clause"@ || (spec_is_if(
        p.kind(q as int),
    ) && p.spec_child_by_field(q as int, "alternative"@) == Some(n as usize)))
}

/// The `if` nodes of `ns` that start their own conditional.
pub open spec fn own_ifs_of(p: ParsedFile, ns: Seq<usize>) -> Seq<usize>
    decreases ns.len(),
{
    if ns.len() == 0 {
        seq![]
    } else {
        let n = ns.last();
        let rest = own_ifs_of(p, ns.drop_last());
        if spec_is_if(p.kind(n as int)) && !spec_is_else_if(p, n as int) {
            rest.push(n)
        } else {
            rest
        }
    }
}

/// `if` nodes that start their own conditional: an `else if` belongs to the `if` above it.
pub open spec fn spec_own_ifs(p: ParsedFile, f: int) -> Seq<usize> {
    own_ifs_of(p, p.spec_within(f))
}

fn is_else_if(p: &ParsedFile, node: usize) -> (r: bool)
    requires
        p.wf(),
        node < p.len(),
    ensures
        r == spec_is_else_if(*p, node as int),
{
    assert(node_wf(p.nodes@, node as int));
    match p.nodes[node].parent {
        Some(q) => p.kind_is(q, "else_clause") || (lang::is_if(p.nodes[q].kind.as_str())
            && p.child_by_field_name(q, "alternative") == Some(node)),
        None => false,
    }
}

fn own_ifs(function: usize, p: &ParsedFile) -> (r: Vec<usize>)
    requires
        p.wf(),
        function < p.len(),
    ensures
        r@ == spec_own_ifs(*p, function as int),
        forall|k: int| 0 <= k < r@.len() ==> #[trigger] r@[k] < p.len(),
{
    let ns = p.descendants(function);
    let mut out: Vec<usize> = Vec::new();
    let mut i: usize = 0;
    assert(ns@.take(0) =~= seq![]);
    while i < ns.len()
        invariant
            p.wf(),
            ns@ == p.spec_within(function as int),
            forall|k: int| 0 <= k < ns@.len() ==> #[trigger] ns@[k] < p.len(),
            forall|k: int| 0 <= k < out@.len() ==> #[trigger] out@[k] < p.len(),
            i <= ns.len(),
            out@ == own_ifs_of(*p, ns@.take(i as int)),
        decreases ns.len() - i,
    {
        let n = ns[i];
        assert(ns@.take(i + 1).drop_last() =~= ns@.take(i as int));
        assert(ns@.take(i + 1).last() == n);
        if lang::is_if(p.nodes[n].kind.as_str()) && !is_else_if(p, n) {
            out.push(n);
        }
        i += 1;
    }
    assert(ns@.take(ns.len() as int) =~= ns@);
    out
}

/// Does the `if` at `n` open the body, as its first statement?
pub open spec fn leads_body(p: ParsedFile, body: Seq<usize>, n: int) -> bool {
    body.len() > 0 && (body[0] == n || (p.nodes@[body[0] as int].start_byte == p.nodes@[n].start_byte
        && named_count(p, body[0] as int) == 1))
}

pub open spec fn rule_3_finding(u: UnitModel, p: ParsedFile, body: Seq<usize>, n: int) -> Option<FindingModel> {
    let first = leads_body(p, body, n);
    if first && body.len() == 1 {
        None
    } else {
        let what = if first {
            "is followed by more statements at the same level"@
        } else {
            "is not the method's first statement"@
        };
        let at = decimal(spec_line(p, n) as nat);
        Some(
            spec_mechanical(
                3,
                u,
                spec_line(p, n),
                "the `if` at line "@ + at + " in `"@ + u.name + "` "@ + what,
                "extract the `if` at line "@ + at
                    + " and its block into its own method, so it starts that method"@,
            ),
        )
    }
}

pub open spec fn rule_3_of(u: UnitModel, p: ParsedFile, body: Seq<usize>, ifs: Seq<usize>) -> Seq<FindingModel>
    decreases ifs.len(),
{
    if ifs.len() == 0 {
        seq![]
    } else {
        let n = ifs.last();
        let rest = rule_3_of(u, p, body, ifs.drop_last());
        if u.added_lines.contains(spec_line(p, n as int)) {
            match rule_3_finding(u, p, body, n as int) {
                Some(f) => rest.push(f),
                None => rest,
            }
        } else {
            rest
        }
    }
}

/// Rule 3: an `if` the diff added that is not alone at the start of its method.
pub open spec fn spec_rule_3(u: UnitModel, p: ParsedFile, f: int) -> Seq<FindingModel> {
    rule_3_of(u, p, spec_body_statements(p, f), spec_own_ifs(p, f))
}

pub fn rule_3(unit: &Unit, function: usize, parsed: &ParsedFile) -> (r: Vec<Finding>)
    requires
        parsed.wf(),
        function < parsed.len(),
    ensures
        finding_models(r@) == spec_rule_3(unit.model(), *parsed, function as int),
{
    let p = parsed;
    let body = body_statements(p, function);
    let ifs = own_ifs(function, p);
    let mut out: Vec<Finding> = Vec::new();
    let mut i: usize = 0;
    assert(ifs@.take(0) =~= seq![]);
    assert(finding_models(out@) =~= seq![]);
    while i < ifs.len()
        invariant
            p.wf(),
            body@ == spec_body_statements(*p, function as int),
            forall|k: int| 0 <= k < body@.len() ==> #[trigger] body@[k] < p.len(),
            ifs@ == spec_own_ifs(*p, function as int),
            forall|k: int| 0 <= k < ifs@.len() ==> #[trigger] ifs@[k] < p.len(),
            i <= ifs.len(),
            finding_models(out@) == rule_3_of(unit.model(), *p, body@, ifs@.take(i as int)),
        decreases ifs.len() - i,
    {
        let node = ifs[i];
        assert(ifs@.take(i + 1).drop_last() =~= ifs@.take(i as int));
        assert(ifs@.take(i + 1).last() == node);
        let ghost before = out@;
        let line = p.line(node);
        if unit.added(line) {
            // The `if` may be wrapped: `expression_statement` in Rust, or be the statement itself.
            let first = body.len() > 0 && (body[0] == node || (p.nodes[body[0]].start_byte
                == p.nodes[node].start_byte && named_child_count(p, body[0]) == 1));
            if !(first && body.len() == 1) {
                let what = if first {
                    "is followed by more statements at the same level"
                } else {
                    "is not the method's first statement"
                };
                let mut message: Vec<char> = Vec::new();
                text::push_str(&mut message, "the `if` at line ");
                text::push_decimal(&mut message, line);
                text::push_str(&mut message, " in `");
                text::push_string(&mut message, &unit.name);
                text::push_str(&mut message, "` ");
                text::push_str(&mut message, what);
                let mut fix: Vec<char> = Vec::new();
                text::push_str(&mut fix, "extract the `if` at line ");
                text::push_decimal(&mut fix, line);
                text::push_str(&mut fix, " and its block into its own method, so it starts that method");
                let finding = Finding::mechanical(
                    3,
                    unit,
                    line,
                    text::string_of(message.as_slice()),
                    text::string_of(fix.as_slice()),
                );
                out.push(finding);
                assert(finding_models(out@) =~= finding_models(before).push(finding.model()));
            }
        }
        i += 1;
    }
    assert(ifs@.take(ifs.len() as int) =~= ifs@);
    out
}

/// A child that is an `else`: an `else_clause`, an `elif_clause` or the keyword itself.
pub open spec fn else_child_from(p: ParsedFile, n: int, k: int) -> bool
    decreases p.children(n).len() - k,
{
    if 0 <= k < p.children(n).len() {
        let c = p.children(n)[k] as int;
        (0 <= c < p.len() && (p.kind(c) == "else_clause"@ || p.kind(c) == "elif_clause"@ || p.kind(c)
            == "else"@)) || else_child_from(p, n, k + 1)
    } else {
        false
    }
}

pub open spec fn has_else(p: ParsedFile, n: int) -> bool {
    p.spec_child_by_field(n, "alternative"@) is Some || else_child_from(p, n, 0)
}

pub open spec fn rule_4_of(u: UnitModel, p: ParsedFile, ifs: Seq<usize>) -> Seq<usize>
    decreases ifs.len(),
{
    if ifs.len() == 0 {
        seq![]
    } else {
        let n = ifs.last();
        let rest = rule_4_of(u, p, ifs.drop_last());
        if has_else(p, n as int) && u.added_lines.contains(spec_line(p, n as int)) {
            rest.push(spec_line(p, n as int))
        } else {
            rest
        }
    }
}

/// Lines of the if/else constructs the diff added.
pub open spec fn spec_rule_4_candidates(u: UnitModel, p: ParsedFile, f: int) -> Seq<usize> {
    rule_4_of(u, p, spec_own_ifs(p, f))
}

fn has_else_of(p: &ParsedFile, node: usize) -> (r: bool)
    requires
        p.wf(),
        node < p.len(),
    ensures
        r == has_else(*p, node as int),
{
    if p.child_by_field_name(node, "alternative").is_some() {
        return true;
    }
    let mut k: usize = 0;
    while k < p.nodes[node].children.len()
        invariant
            p.wf(),
            node < p.len(),
            k <= p.children(node as int).len(),
            else_child_from(*p, node as int, 0) == else_child_from(*p, node as int, k as int),
        decreases p.children(node as int).len() - k,
    {
        let c = p.nodes[node].children[k];
        assert(node_wf(p.nodes@, node as int));
        if p.kind_is(c, "else_clause") || p.kind_is(c, "elif_clause") || p.kind_is(c, "else") {
            return true;
        }
        k += 1;
    }
    false
}

/// Lines of if/else constructs the diff added. Whether both branches are the method's own
/// domain logic is a question for judgment.
pub fn rule_4_candidates(unit: &Unit, function: usize, parsed: &ParsedFile) -> (r: Vec<usize>)
    requires
        parsed.wf(),
        function < parsed.len(),
    ensures
        r@ == spec_rule_4_candidates(unit.model(), *parsed, function as int),
{
    let p = parsed;
    let ifs = own_ifs(function, p);
    let mut out: Vec<usize> = Vec::new();
    let mut i: usize = 0;
    assert(ifs@.take(0) =~= seq![]);
    while i < ifs.len()
        invariant
            p.wf(),
            forall|k: int| 0 <= k < ifs@.len() ==> #[trigger] ifs@[k] < p.len(),
            i <= ifs.len(),
            out@ == rule_4_of(unit.model(), *p, ifs@.take(i as int)),
        decreases ifs.len() - i,
    {
        let node = ifs[i];
        assert(ifs@.take(i + 1).drop_last() =~= ifs@.take(i as int));
        assert(ifs@.take(i + 1).last() == node);
        if has_else_of(p, node) {
            let line = p.line(node);
            if unit.added(line) {
                out.push(line);
            }
        }
        i += 1;
    }
    assert(ifs@.take(ifs.len() as int) =~= ifs@);
    out
}

// ---------------------------------------------------------------- rule 5

/// An arm that catches everything left: a `default`, or a `_` pattern.
pub open spec fn spec_is_catch_all(p: ParsedFile, arm: int) -> bool {
    let text = trim_start(p.spec_text(arm));
    let pattern = match p.spec_child_by_field(arm, "pattern"@) {
        Some(q) => Some(trim(p.spec_text(q as int))),
        None => None,
    };
    ||| p.kind(arm) == "switch_default"@
    ||| p.kind(arm) == "default_case"@
    ||| p.kind(arm) == "default_statement"@
    ||| starts_with(text, "default"@)
    ||| starts_with(text, "case _:"@)
    ||| starts_with(text, "case _ "@)
    ||| pattern == Some("_"@)
}

fn is_catch_all(arm: usize, p: &ParsedFile) -> (r: bool)
    requires
        p.wf(),
        arm < p.len(),
    ensures
        r == spec_is_catch_all(*p, arm as int),
{
    let whole = p.text_chars(arm);
    let text = text::trimmed_start(&whole);
    let pattern = match p.child_by_field_name(arm, "pattern") {
        Some(q) => {
            let t = p.text_chars(q);
            Some(text::trimmed(&t))
        },
        None => None,
    };
    let underscore = match &pattern {
        Some(t) => text::is(t, "_"),
        None => false,
    };
    p.kind_is(arm, "switch_default") || p.kind_is(arm, "default_case") || p.kind_is(
        arm,
        "default_statement",
    ) || text::begins(&text, "default") || text::begins(&text, "case _:") || text::begins(
        &text,
        "case _ ",
    ) || underscore
}

/// Is a node a block whose statements are the arm's own?
pub open spec fn is_block_kind(kind: Seq<char>) -> bool {
    has_part(kind, "block"@) || kind == "compound_statement"@
}

/// The statements of an arm: its children, with a block's children in place of the block.
pub open spec fn arm_items(p: ParsedFile, cs: Seq<usize>) -> Seq<usize>
    decreases cs.len(),
{
    if cs.len() == 0 {
        seq![]
    } else {
        let c = cs.last();
        arm_items(p, cs.drop_last()) + if 0 <= c < p.len() && is_block_kind(p.kind(c as int)) {
            p.spec_named_children(c as int)
        } else {
            seq![c]
        }
    }
}

/// The last statement of an arm, leaving out everything that is neither a statement nor a
/// return.
pub open spec fn last_statement(p: ParsedFile, items: Seq<usize>) -> Option<usize>
    decreases items.len(),
{
    if items.len() == 0 {
        None
    } else {
        let n = items.last();
        if spec_is_statement(p.kind(n as int)) || spec_ends_the_arm(p.kind(n as int)) {
            Some(n)
        } else {
            last_statement(p, items.drop_last())
        }
    }
}

/// An arm whose last statement is not a return or a throw. An arm that is a value
/// (`case A -> value`, `Tier::Pro => 900`) returns by construction; an arm with no statements
/// is a label grouped with the arm below it.
pub open spec fn spec_arm_does_not_return(p: ParsedFile, arm: int) -> bool {
    if p.kind(arm) == "switch_rule"@ || p.kind(arm) == "switch_expression_arm"@ || p.kind(arm)
        == "match_arm"@ {
        false
    } else {
        match last_statement(p, arm_items(p, p.spec_named_children(arm))) {
            Some(n) => !spec_ends_the_arm(p.kind(n as int)),
            None => false,
        }
    }
}

fn arm_does_not_return(arm: usize, p: &ParsedFile) -> (r: bool)
    requires
        p.wf(),
        arm < p.len(),
    ensures
        r == spec_arm_does_not_return(*p, arm as int),
{
    if p.kind_is(arm, "switch_rule") || p.kind_is(arm, "switch_expression_arm") || p.kind_is(
        arm,
        "match_arm",
    ) {
        return false;
    }
    let cs = p.named_children(arm);
    let mut items: Vec<usize> = Vec::new();
    let mut i: usize = 0;
    assert(cs@.take(0) =~= seq![]);
    while i < cs.len()
        invariant
            p.wf(),
            forall|k: int| 0 <= k < cs@.len() ==> #[trigger] cs@[k] < p.len(),
            forall|k: int| 0 <= k < items@.len() ==> #[trigger] items@[k] < p.len(),
            i <= cs.len(),
            items@ == arm_items(*p, cs@.take(i as int)),
        decreases cs.len() - i,
    {
        let c = cs[i];
        assert(cs@.take(i + 1).drop_last() =~= cs@.take(i as int));
        assert(cs@.take(i + 1).last() == c);
        let kind = text::chars_of(p.nodes[c].kind.as_str());
        let ghost before = items@;
        if crate::tree::contains_str(&kind, "block") || p.kind_is(c, "compound_statement") {
            let inner = p.named_children(c);
            let mut j: usize = 0;
            while j < inner.len()
                invariant
                    p.wf(),
                    forall|k: int| 0 <= k < inner@.len() ==> #[trigger] inner@[k] < p.len(),
                    forall|k: int| 0 <= k < items@.len() ==> #[trigger] items@[k] < p.len(),
                    j <= inner.len(),
                    items@ == before + inner@.take(j as int),
                decreases inner.len() - j,
            {
                items.push(inner[j]);
                j += 1;
                assert(items@ =~= before + inner@.take(j as int));
            }
            assert(inner@.take(inner.len() as int) =~= inner@);
        } else {
            items.push(c);
        }
        i += 1;
    }
    assert(cs@.take(cs.len() as int) =~= cs@);
    assert(items@.take(items.len() as int) =~= items@);
    let mut k = items.len();
    while k > 0
        invariant
            p.wf(),
            forall|j: int| 0 <= j < items@.len() ==> #[trigger] items@[j] < p.len(),
            k <= items.len(),
            arm < p.len(),
            !(p.kind(arm as int) == "switch_rule"@ || p.kind(arm as int) == "switch_expression_arm"@
                || p.kind(arm as int) == "match_arm"@),
            items@ == arm_items(*p, p.spec_named_children(arm as int)),
            last_statement(*p, items@) == last_statement(*p, items@.take(k as int)),
        decreases k,
    {
        let n = items[k - 1];
        assert(items@.take(k as int).last() == n);
        assert(items@.take(k as int).drop_last() =~= items@.take(k - 1));
        let kind = p.nodes[n].kind.as_str();
        if lang::is_statement(kind) || lang::ends_the_arm(kind) {
            assert(last_statement(*p, items@.take(k as int)) == Some(n));
            return !lang::ends_the_arm(kind);
        }
        k -= 1;
    }
    false
}

/// The arms of a switch: its descendants that are arms with no nearer switch between.
pub open spec fn arms_of(p: ParsedFile, s: usize, ns: Seq<usize>) -> Seq<usize>
    decreases ns.len(),
{
    if ns.len() == 0 {
        seq![]
    } else {
        let n = ns.last();
        let rest = arms_of(p, s, ns.drop_last());
        if spec_is_arm(p.kind(n as int)) && p.spec_nearest_switch(n as int) == Some(s) {
            rest.push(n)
        } else {
            rest
        }
    }
}

pub open spec fn any_catch_all(p: ParsedFile, arms: Seq<usize>) -> bool {
    exists|k: int| 0 <= k < arms.len() && spec_is_catch_all(p, #[trigger] arms[k] as int)
}

pub open spec fn count_open(p: ParsedFile, arms: Seq<usize>) -> nat
    decreases arms.len(),
{
    if arms.len() == 0 {
        0
    } else {
        count_open(p, arms.drop_last()) + if spec_arm_does_not_return(p, arms.last() as int) {
            1nat
        } else {
            0nat
        }
    }
}

/// What a switch is called in its language: the first word of its text.
pub open spec fn switch_word(p: ParsedFile, s: int) -> Seq<char> {
    let t = p.spec_text(s);
    t.take(text::alphanumeric_len(t) as int)
}

/// The rule 5 finding of one switch: a catch-all arm, or else arms that do not return.
pub open spec fn rule_5_finding(u: UnitModel, p: ParsedFile, s: usize) -> Option<FindingModel> {
    let arms = arms_of(p, s, p.spec_within(s as int));
    let word = switch_word(p, s as int);
    let at = decimal(spec_line(p, s as int) as nat);
    if any_catch_all(p, arms) {
        Some(
            spec_mechanical(
                5,
                u,
                spec_line(p, s as int),
                "the `"@ + word + "` at line "@ + at + " has a catch-all arm"@,
                "list every case explicitly so a new variant fails loudly, or replace with polymorphism"@,
            ),
        )
    } else if count_open(p, arms) > 0 {
        Some(
            spec_mechanical(
                5,
                u,
                spec_line(p, s as int),
                decimal(capped(count_open(p, arms)) as nat) + " arm(s) of the `"@ + word + "` at line "@ + at
                    + " do not return"@,
                "make every arm return; move any work after the switch into the arms or a new method"@,
            ),
        )
    } else {
        None
    }
}

pub open spec fn rule_5_of(u: UnitModel, p: ParsedFile, ns: Seq<usize>) -> Seq<FindingModel>
    decreases ns.len(),
{
    if ns.len() == 0 {
        seq![]
    } else {
        let n = ns.last();
        let rest = rule_5_of(u, p, ns.drop_last());
        if spec_is_switch(p.kind(n as int)) && u.added_lines.contains(spec_line(p, n as int)) {
            match rule_5_finding(u, p, n) {
                Some(f) => rest.push(f),
                None => rest,
            }
        } else {
            rest
        }
    }
}

/// Rule 5: each switch the diff added that has a catch-all arm or an arm that does not return.
pub open spec fn spec_rule_5(u: UnitModel, p: ParsedFile, f: int) -> Seq<FindingModel> {
    rule_5_of(u, p, p.spec_within(f))
}

fn switch_finding(unit: &Unit, s: usize, p: &ParsedFile) -> (r: Option<Finding>)
    requires
        p.wf(),
        s < p.len(),
    ensures
        r matches Some(f) ==> rule_5_finding(unit.model(), *p, s) == Some(f.model()),
        r is None ==> rule_5_finding(unit.model(), *p, s) is None,
{
    let ns = p.descendants(s);
    let mut arms: Vec<usize> = Vec::new();
    let mut i: usize = 0;
    assert(ns@.take(0) =~= seq![]);
    while i < ns.len()
        invariant
            p.wf(),
            s < p.len(),
            forall|k: int| 0 <= k < ns@.len() ==> #[trigger] ns@[k] < p.len(),
            forall|k: int| 0 <= k < arms@.len() ==> #[trigger] arms@[k] < p.len(),
            i <= ns.len(),
            arms@ == arms_of(*p, s, ns@.take(i as int)),
        decreases ns.len() - i,
    {
        let n = ns[i];
        assert(ns@.take(i + 1).drop_last() =~= ns@.take(i as int));
        assert(ns@.take(i + 1).last() == n);
        if lang::is_arm(p.nodes[n].kind.as_str()) && p.nearest_switch(n) == Some(s) {
            arms.push(n);
        }
        i += 1;
    }
    assert(ns@.take(ns.len() as int) =~= ns@);
    let text = p.text_chars(s);
    let word = text::leading_word(&text);
    let line = p.line(s);
    let mut catch_all = false;
    let mut open: usize = 0;
    let mut k: usize = 0;
    assert(arms@.take(0) =~= seq![]);
    while k < arms.len()
        invariant
            p.wf(),
            forall|j: int| 0 <= j < arms@.len() ==> #[trigger] arms@[j] < p.len(),
            k <= arms.len(),
            catch_all == any_catch_all(*p, arms@.take(k as int)),
            open == count_open(*p, arms@.take(k as int)),
            open <= k,
        decreases arms.len() - k,
    {
        let a = arms[k];
        assert(arms@.take(k + 1).drop_last() =~= arms@.take(k as int));
        assert(arms@.take(k + 1).last() == a);
        if is_catch_all(a, p) {
            catch_all = true;
            assert(arms@.take(k + 1)[k as int] == a);
        } else if catch_all {
            proof {
                let w = choose|j: int|
                    0 <= j < k && spec_is_catch_all(*p, #[trigger] arms@.take(k as int)[j] as int);
                assert(arms@.take(k + 1)[w] == arms@.take(k as int)[w]);
            }
        } else {
            assert forall|j: int| 0 <= j < k + 1 implies !spec_is_catch_all(*p, #[trigger] arms@.take(k + 1)[j] as int) by {
                if j < k {
                    assert(arms@.take(k + 1)[j] == arms@.take(k as int)[j]);
                }
            }
        }
        if arm_does_not_return(a, p) {
            open += 1;
        }
        k += 1;
    }
    assert(arms@.take(arms.len() as int) =~= arms@);
    if catch_all {
        let mut message: Vec<char> = Vec::new();
        text::push_str(&mut message, "the `");
        text::append(&mut message, &word);
        text::push_str(&mut message, "` at line ");
        text::push_decimal(&mut message, line);
        text::push_str(&mut message, " has a catch-all arm");
        let fix = "list every case explicitly so a new variant fails loudly, or replace with polymorphism";
        Some(Finding::mechanical(5, unit, line, text::string_of(message.as_slice()), fix.to_owned()))
    } else if open > 0 {
        let mut message: Vec<char> = Vec::new();
        text::push_decimal(&mut message, open);
        text::push_str(&mut message, " arm(s) of the `");
        text::append(&mut message, &word);
        text::push_str(&mut message, "` at line ");
        text::push_decimal(&mut message, line);
        text::push_str(&mut message, " do not return");
        let fix = "make every arm return; move any work after the switch into the arms or a new method";
        Some(Finding::mechanical(5, unit, line, text::string_of(message.as_slice()), fix.to_owned()))
    } else {
        None
    }
}

pub fn rule_5(unit: &Unit, function: usize, parsed: &ParsedFile) -> (r: Vec<Finding>)
    requires
        parsed.wf(),
        function < parsed.len(),
    ensures
        finding_models(r@) == spec_rule_5(unit.model(), *parsed, function as int),
{
    let p = parsed;
    let ns = p.descendants(function);
    let mut out: Vec<Finding> = Vec::new();
    let mut i: usize = 0;
    assert(ns@.take(0) =~= seq![]);
    assert(finding_models(out@) =~= seq![]);
    while i < ns.len()
        invariant
            p.wf(),
            ns@ == p.spec_within(function as int),
            forall|k: int| 0 <= k < ns@.len() ==> #[trigger] ns@[k] < p.len(),
            i <= ns.len(),
            finding_models(out@) == rule_5_of(unit.model(), *p, ns@.take(i as int)),
        decreases ns.len() - i,
    {
        let n = ns[i];
        assert(ns@.take(i + 1).drop_last() =~= ns@.take(i as int));
        assert(ns@.take(i + 1).last() == n);
        let ghost before = out@;
        if lang::is_switch(p.nodes[n].kind.as_str()) && unit.added(p.line(n)) {
            if let Some(f) = switch_finding(unit, n, p) {
                out.push(f);
                assert(finding_models(out@) =~= finding_models(before).push(f.model()));
            }
        }
        i += 1;
    }
    assert(ns@.take(ns.len() as int) =~= ns@);
    out
}
} // verus!
