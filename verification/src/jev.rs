//! The judgment half: typed yes/no questions, one atomic question per rule.
//!
//! A question (a "noul") is answered with a probability from 0 to 1. Questions in one request
//! are evaluated in isolation, so every rule is its own question and the answers are combined
//! in code, never in one "review this method" prompt.
//!
//! Only questions whose structural precondition holds in the ADDED lines are asked: a method
//! whose diff adds no `else` is never asked about if-else. Sending the questions and reading
//! the answers is the caller's work; what is asked, and under which keys, is decided here.

use crate::pattern::{self, regex_is_match};
use crate::text::{self, decimal};
use crate::units::{spec_added_text, Unit, UnitModel};
use vstd::prelude::*;

verus! {

/// A yes/no question: what to judge, and what counts as yes and as no.
pub struct Noul {
    pub instructions: &'static str,
    pub yes: &'static str,
    pub no: &'static str,
}

pub ghost struct NoulModel {
    pub instructions: Seq<char>,
    pub yes: Seq<char>,
    pub no: Seq<char>,
}

impl Noul {
    pub open spec fn model(&self) -> NoulModel {
        NoulModel { instructions: self.instructions@, yes: self.yes@, no: self.no@ }
    }
}

pub open spec fn noul(instructions: Seq<char>, yes: Seq<char>, no: Seq<char>) -> NoulModel {
    NoulModel { instructions, yes, no }
}

/// The question each key asks; any key but the rule keys and `affix` asks whether the
/// method's shape is a language or framework idiom.
pub open spec fn spec_question(key: Seq<char>) -> NoulModel {
    if key == "r2"@ {
        noul(
            "Does `method` mix two levels of abstraction: it orchestrates calls on collaborator objects AND ALSO does inline low-level work on raw values (arithmetic, string building, index manipulation)?"@,
            "Both are present in the same body: calls such as this.x.y() / self.x.y() alongside inline arithmetic or string assembly"@,
            "The method only orchestrates calls, or only computes on the data it was given"@,
        )
    } else if key == "r3"@ {
        noul(
            "Does `method` contain an `if` that is not the very first statement of the method, or is there code after an if/else block at the same nesting level?"@,
            "An if is preceded by other statements, sits inside a loop after other work, or is followed by more statements"@,
            "There is no if, or the if is the first statement and nothing follows its block"@,
        )
    } else if key == "r4"@ {
        noul(
            "Does `method` contain an if/else (or else-if chain) in which BOTH branches are the project's own domain logic?"@,
            "Both branches implement business behaviour that could be two implementations of one interface"@,
            "There is no else; or the branch tests a foreign or library type, null/None, an error value, or a primitive the project does not control; or it is a guard clause that returns early"@,
        )
    } else if key == "r5"@ {
        noul(
            "Does `method` contain a switch / match / when / case that has a catch-all arm (default, else, _) or an arm that falls through, breaks, or otherwise does not return?"@,
            "A catch-all arm exists, or at least one arm does not return"@,
            "There is no switch-like construct; or it is exhaustive with no catch-all and every arm returns"@,
        )
    } else if key == "r7"@ {
        noul(
            "Does the boolean condition of any if or while in `method` have a side effect?"@,
            "The condition itself assigns a variable, performs I/O, logs, mutates state, advances an iterator or stream, or calls something that writes or throws"@,
            "Conditions only read values and call pure queries"@,
        )
    } else if key == "r9"@ {
        noul(
            "Is `method` a getter or setter that exposes an object's internal field so callers can branch on it or mutate it?"@,
            "It returns or assigns a private field of an object that has behaviour, inviting logic to live in the caller"@,
            "It is not an accessor; or it belongs to a plain data carrier (DTO, record, struct, dataclass, schema type, ORM-mapped entity) that has no behaviour to push data into"@,
        )
    } else if key == "affix"@ {
        noul(
            "Do the identifiers in `names` describe parts of ONE concept that should be its own type?"@,
            "They share a prefix or suffix because they belong together, e.g. a range, a coordinate, an address, a money amount"@,
            "They merely share a common word (id, name, count, list) and are otherwise unrelated"@,
        )
    } else {
        noul(
            "Is the shape of `method` dictated by the language or a framework rather than chosen by the author?"@,
            "A generated or promoted constructor of a data carrier; a framework entry point (controller action, resolver, handler, lifecycle hook, main); a test fixture hook (setUp, beforeEach, @BeforeAll); an ORM or serialization mapping"@,
            "Ordinary application or domain code whose structure the author is free to change"@,
        )
    }
}

/// The question a key asks.
pub fn question(key: &str) -> (r: Noul)
    ensures
        r.model() == spec_question(key@),
{
    if text::str_eq(key, "r2") {
        Noul {
            instructions: "Does `method` mix two levels of abstraction: it orchestrates calls on collaborator objects AND ALSO does inline low-level work on raw values (arithmetic, string building, index manipulation)?",
            yes: "Both are present in the same body: calls such as this.x.y() / self.x.y() alongside inline arithmetic or string assembly",
            no: "The method only orchestrates calls, or only computes on the data it was given",
        }
    } else if text::str_eq(key, "r3") {
        Noul {
            instructions: "Does `method` contain an `if` that is not the very first statement of the method, or is there code after an if/else block at the same nesting level?",
            yes: "An if is preceded by other statements, sits inside a loop after other work, or is followed by more statements",
            no: "There is no if, or the if is the first statement and nothing follows its block",
        }
    } else if text::str_eq(key, "r4") {
        Noul {
            instructions: "Does `method` contain an if/else (or else-if chain) in which BOTH branches are the project's own domain logic?",
            yes: "Both branches implement business behaviour that could be two implementations of one interface",
            no: "There is no else; or the branch tests a foreign or library type, null/None, an error value, or a primitive the project does not control; or it is a guard clause that returns early",
        }
    } else if text::str_eq(key, "r5") {
        Noul {
            instructions: "Does `method` contain a switch / match / when / case that has a catch-all arm (default, else, _) or an arm that falls through, breaks, or otherwise does not return?",
            yes: "A catch-all arm exists, or at least one arm does not return",
            no: "There is no switch-like construct; or it is exhaustive with no catch-all and every arm returns",
        }
    } else if text::str_eq(key, "r7") {
        Noul {
            instructions: "Does the boolean condition of any if or while in `method` have a side effect?",
            yes: "The condition itself assigns a variable, performs I/O, logs, mutates state, advances an iterator or stream, or calls something that writes or throws",
            no: "Conditions only read values and call pure queries",
        }
    } else if text::str_eq(key, "r9") {
        Noul {
            instructions: "Is `method` a getter or setter that exposes an object's internal field so callers can branch on it or mutate it?",
            yes: "It returns or assigns a private field of an object that has behaviour, inviting logic to live in the caller",
            no: "It is not an accessor; or it belongs to a plain data carrier (DTO, record, struct, dataclass, schema type, ORM-mapped entity) that has no behaviour to push data into",
        }
    } else if text::str_eq(key, "affix") {
        Noul {
            instructions: "Do the identifiers in `names` describe parts of ONE concept that should be its own type?",
            yes: "They share a prefix or suffix because they belong together, e.g. a range, a coordinate, an address, a money amount",
            no: "They merely share a common word (id, name, count, list) and are otherwise unrelated",
        }
    } else {
        Noul {
            instructions: "Is the shape of `method` dictated by the language or a framework rather than chosen by the author?",
            yes: "A generated or promoted constructor of a data carrier; a framework entry point (controller action, resolver, handler, lifecycle hook, main); a test fixture hook (setUp, beforeEach, @BeforeAll); an ORM or serialization mapping",
            no: "Ordinary application or domain code whose structure the author is free to change",
        }
    }
}

/// The keys of the questions asked about a method, in the order a key-sorted map lists them.
pub open spec fn sorted_question_keys() -> Seq<Seq<char>> {
    seq!["idiom"@, "r2"@, "r3"@, "r4"@, "r5"@, "r7"@, "r9"@]
}

pub const IF_WORD: &'static str = r"\bif\b";

pub const ELSE_WORD: &'static str = r"\b(else|elif|elsif)\b";

pub const SWITCH_WORD: &'static str = r"\b(switch|match|when|case)\b";

pub const CONDITION_WORD: &'static str = r"\b(if|while|elif)\b";

pub const ACCESSOR_SHAPE: &'static str = r"(?m)\b(get|set|is|has)[A-Z_]\w*\s*\(|@property|\bget\s*[;{]|\bset\s*[;{(]|=>\s*this\.|return\s+(this|self)[.>-]+\w+\s*;?\s*$";

/// The structural precondition of a question: a pattern the added lines must match for it to
/// be worth asking. Questions without one are always asked.
pub open spec fn spec_precondition(key: Seq<char>) -> Option<Seq<char>> {
    if key == "r3"@ {
        Some(IF_WORD@)
    } else if key == "r4"@ {
        Some(ELSE_WORD@)
    } else if key == "r5"@ {
        Some(SWITCH_WORD@)
    } else if key == "r7"@ {
        Some(CONDITION_WORD@)
    } else if key == "r9"@ {
        Some(ACCESSOR_SHAPE@)
    } else {
        None
    }
}

fn precondition(key: &str) -> (r: Option<&'static str>)
    ensures
        r matches Some(p) ==> spec_precondition(key@) == Some(p@),
        r is None ==> spec_precondition(key@) is None,
{
    if text::str_eq(key, "r3") {
        Some(IF_WORD)
    } else if text::str_eq(key, "r4") {
        Some(ELSE_WORD)
    } else if text::str_eq(key, "r5") {
        Some(SWITCH_WORD)
    } else if text::str_eq(key, "r7") {
        Some(CONDITION_WORD)
    } else if text::str_eq(key, "r9") {
        Some(ACCESSOR_SHAPE)
    } else {
        None
    }
}

/// A question is worth asking when no mechanical check decided it and its construct is in the
/// added lines.
pub open spec fn worth_asking(key: Seq<char>, skip: Seq<Seq<char>>, added: Seq<char>) -> bool {
    &&& !skip.contains(key)
    &&& match spec_precondition(key) {
        Some(p) => regex_is_match(p, added),
        None => true,
    }
}

pub open spec fn picked_keys(keys: Seq<Seq<char>>, skip: Seq<Seq<char>>, added: Seq<char>) -> Seq<Seq<char>>
    decreases keys.len(),
{
    if keys.len() == 0 {
        seq![]
    } else {
        let rest = picked_keys(keys.drop_last(), skip, added);
        if worth_asking(keys.last(), skip, added) {
            rest.push(keys.last())
        } else {
            rest
        }
    }
}

/// The keys of the questions to ask about a method; none when only the idiom question would be
/// left, as there is then nothing to exempt.
pub open spec fn spec_questions_for(u: UnitModel, skip: Seq<Seq<char>>) -> Seq<Seq<char>> {
    let picked = picked_keys(sorted_question_keys(), skip, spec_added_text(u));
    if forall|k: int| 0 <= k < picked.len() ==> #[trigger] picked[k] == "idiom"@ {
        seq![]
    } else {
        picked
    }
}

pub open spec fn str_views(ss: Seq<&str>) -> Seq<Seq<char>> {
    ss.map_values(|s: &str| s@)
}

fn skipped(key: &str, skip: &[&str]) -> (r: bool)
    ensures
        r == str_views(skip@).contains(key@),
{
    let mut i: usize = 0;
    while i < skip.len()
        invariant
            i <= skip@.len(),
            forall|j: int| 0 <= j < i ==> #[trigger] skip@[j]@ != key@,
        decreases skip.len() - i,
    {
        if text::str_eq(skip[i], key) {
            assert(str_views(skip@)[i as int] == key@);
            return true;
        }
        i += 1;
    }
    assert forall|j: int| 0 <= j < str_views(skip@).len() implies str_views(skip@)[j] != key@ by {
        assert(str_views(skip@)[j] == skip@[j]@);
    }
    false
}

/// The keys of the questions worth asking about a unit: every rule question not already
/// decided mechanically (`skip`) whose construct occurs in the added lines, plus the idiom
/// question; nothing at all when only the idiom question would be asked.
pub fn questions_for(unit: &Unit, skip: &[&str]) -> (r: Vec<String>)
    ensures
        r.deep_view() == spec_questions_for(unit.model(), str_views(skip@)),
{
    let added = unit.added_text();
    let keys: [&str; 7] = ["idiom", "r2", "r3", "r4", "r5", "r7", "r9"];
    let ghost ks = sorted_question_keys();
    assert(str_views(keys@) =~= ks);
    let ghost sk = str_views(skip@);
    let mut picked: Vec<String> = Vec::new();
    let mut only_idiom = true;
    let mut i: usize = 0;
    assert(ks.take(0) =~= seq![]);
    assert(picked.deep_view() =~= seq![]);
    while i < 7
        invariant
            str_views(keys@) == ks,
            keys@.len() == 7,
            sk == str_views(skip@),
            added@ == spec_added_text(unit.model()),
            i <= 7,
            picked.deep_view() == picked_keys(ks.take(i as int), sk, added@),
            only_idiom == forall|k: int| 0 <= k < picked.deep_view().len() ==> #[trigger] picked.deep_view()[k] == "idiom"@,
        decreases 7 - i,
    {
        let key = keys[i];
        assert(ks[i as int] == key@);
        assert(ks.take(i + 1).drop_last() =~= ks.take(i as int));
        assert(ks.take(i + 1).last() == key@);
        let wanted = !skipped(key, skip) && match precondition(key) {
            Some(p) => pattern::is_match(p, added.as_str()),
            None => true,
        };
        if wanted {
            let ghost before = picked.deep_view();
            let k = key.to_owned();
            picked.push(k);
            assert(picked.deep_view() =~= before.push(key@));
            let ghost now = picked.deep_view();
            if !text::str_eq(key, "idiom") {
                only_idiom = false;
                assert(now[before.len() as int] != "idiom"@);
            } else {
                assert forall|k: int| 0 <= k < before.len() implies #[trigger] now[k] == before[k] by {}
                proof {
                    if !only_idiom {
                        let k = choose|k: int| 0 <= k < before.len() && before[k] != "idiom"@;
                        assert(now[k] != "idiom"@);
                    }
                }
            }
        }
        i += 1;
    }
    assert(ks.take(7) =~= ks);
    if only_idiom {
        Vec::new()
    } else {
        picked
    }
}

/// A changed method as the judge sees it: its source, the keys of the questions asked about
/// it, and the groups of names whose shared affix it is asked about.
pub struct Item {
    pub language: String,
    pub name: String,
    pub source: String,
    pub questions: Vec<String>,
    pub affixes: Vec<Vec<String>>,
}

/// The key under which a method's `n`-th affix group is asked about.
pub open spec fn affix_key(n: nat) -> Seq<char> {
    "affix"@ + decimal(n)
}

pub fn affix_key_of(n: usize) -> (r: String)
    ensures
        r@ == affix_key(n as nat),
{
    let mut k: Vec<char> = Vec::new();
    text::push_str(&mut k, "affix");
    text::push_decimal(&mut k, n);
    text::string_of(k.as_slice())
}

} // verus!
