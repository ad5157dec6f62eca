//! The languages compiled into the library, and the grammar node kinds each rule looks for.
//!
//! The rules are about structure, so one generic description covers every grammar:
//! what a function is, what an `if` is, what a switch is, what counts as a statement.

use crate::syntax;
use crate::text::{self, ascii_lower, ends_with};
use vstd::prelude::*;

verus! {

#[derive(Debug, Clone, Copy, PartialEq, Eq, Structural)]
pub enum Lang {
    Python,
    JavaScript,
    TypeScript,
    Tsx,
    Java,
    Go,
    Php,
    Rust,
    C,
    Cpp,
    CSharp,
}

/// The text after the last `c` in `s`, or all of `s` when there is none: what
/// `s.rsplit(c).next()` yields.
pub open spec fn after_last(s: Seq<char>, c: char) -> Seq<char>
    decreases s.len(),
{
    if s.len() == 0 {
        s
    } else if s.last() == c {
        seq![]
    } else {
        after_last(s.drop_last(), c).push(s.last())
    }
}

/// `s` with every ASCII capital made lower case.
pub open spec fn lower(s: Seq<char>) -> Seq<char> {
    s.map_values(|c: char| ascii_lower(c))
}

/// The language a (lower-cased) file extension names.
pub open spec fn lang_of_extension(ext: Seq<char>) -> Option<Lang> {
    if ext == "py"@ {
        Some(Lang::Python)
    } else if ext == "js"@ || ext == "jsx"@ || ext == "mjs"@ || ext == "cjs"@ {
        Some(Lang::JavaScript)
    } else if ext == "ts"@ || ext == "mts"@ || ext == "cts"@ {
        Some(Lang::TypeScript)
    } else if ext == "tsx"@ {
        Some(Lang::Tsx)
    } else if ext == "java"@ {
        Some(Lang::Java)
    } else if ext == "go"@ {
        Some(Lang::Go)
    } else if ext == "php"@ {
        Some(Lang::Php)
    } else if ext == "rs"@ {
        Some(Lang::Rust)
    } else if ext == "c"@ || ext == "h"@ {
        Some(Lang::C)
    } else if ext == "cc"@ || ext == "cpp"@ || ext == "cxx"@ || ext == "hpp"@ || ext == "hh"@ {
        Some(Lang::Cpp)
    } else if ext == "cs"@ {
        Some(Lang::CSharp)
    } else {
        None
    }
}

/// The language of a path, by its extension in any ASCII casing.
pub open spec fn lang_of_path(path: Seq<char>) -> Option<Lang> {
    lang_of_extension(lower(after_last(path, '.')))
}

/// The name of a file's language, with a few names for languages that are not parsed.
pub open spec fn language_name_of_path(path: Seq<char>) -> Seq<char> {
    match lang_of_path(path) {
        Some(lang) => lang.spec_name(),
        None => {
            let ext = after_last(path, '.');
            if ext == "kt"@ || ext == "kts"@ {
                "kotlin"@
            } else if ext == "swift"@ {
                "swift"@
            } else if ext == "rb"@ {
                "ruby"@
            } else if ext == "scala"@ {
                "scala"@
            } else if ext == "dart"@ {
                "dart"@
            } else {
                "unknown"@
            }
        },
    }
}

/// The text after the last `c` in `v`.
fn after_last_of(v: &Vec<char>, c: char) -> (r: Vec<char>)
    ensures
        r@ == after_last(v@, c),
{
    let mut i = v.len();
    assert(v@.take(i as int) == v@ && v@.skip(i as int) =~= seq![]);
    while i > 0 && v[i - 1] != c
        invariant
            i <= v.len(),
            after_last(v@, c) == after_last(v@.take(i as int), c) + v@.skip(i as int),
        decreases i,
    {
        proof {
            let t = v@.take(i as int);
            assert(t.drop_last() == v@.take(i - 1));
            assert(t.last() == v@[i - 1]);
            assert(v@.skip(i - 1) == seq![v@[i - 1]] + v@.skip(i as int));
        }
        i -= 1;
    }
    proof {
        let t = v@.take(i as int);
        if i > 0 {
            assert(t.last() == v@[i - 1]);
        }
        assert(after_last(t, c) =~= seq![]);
    }
    let r = text::slice(v, i, v.len());
    assert(r@ =~= v@.skip(i as int));
    r
}

/// `v` with every ASCII capital made lower case.
fn lowered(v: &Vec<char>) -> (r: Vec<char>)
    ensures
        r@ == lower(v@),
{
    let mut out: Vec<char> = Vec::new();
    let mut i: usize = 0;
    while i < v.len()
        invariant
            i <= v.len(),
            out@ =~= lower(v@.take(i as int)),
        decreases v.len() - i,
    {
        let c = v[i];
        let l = if 'A' <= c && c <= 'Z' {
            let b = (c as u8) + 32;
            b as char
        } else {
            c
        };
        out.push(l);
        i += 1;
        assert(lower(v@.take(i as int)) =~= lower(v@.take(i - 1)).push(ascii_lower(v@[i - 1])));
    }
    assert(v@.take(v.len() as int) == v@);
    out
}

impl Lang {
    pub open spec fn spec_name(self) -> Seq<char> {
        match self {
            Lang::Python => "python"@,
            Lang::JavaScript => "javascript"@,
            Lang::TypeScript | Lang::Tsx => "typescript"@,
            Lang::Java => "java"@,
            Lang::Go => "go"@,
            Lang::Php => "php"@,
            Lang::Rust => "rust"@,
            Lang::C => "c"@,
            Lang::Cpp => "cpp"@,
            Lang::CSharp => "csharp"@,
        }
    }

    /// The language of a path, by its extension; `None` for a language without a parser.
    pub fn from_path(path: &str) -> (r: Option<Lang>)
        ensures
            r == lang_of_path(path@),
    {
        let chars = text::chars_of(path);
        let ext = lowered(&after_last_of(&chars, '.'));
        if text::is(&ext, "py") {
            Some(Lang::Python)
        } else if text::is(&ext, "js") || text::is(&ext, "jsx") || text::is(&ext, "mjs")
            || text::is(&ext, "cjs") {
            Some(Lang::JavaScript)
        } else if text::is(&ext, "ts") || text::is(&ext, "mts") || text::is(&ext, "cts") {
            Some(Lang::TypeScript)
        } else if text::is(&ext, "tsx") {
            Some(Lang::Tsx)
        } else if text::is(&ext, "java") {
            Some(Lang::Java)
        } else if text::is(&ext, "go") {
            Some(Lang::Go)
        } else if text::is(&ext, "php") {
            Some(Lang::Php)
        } else if text::is(&ext, "rs") {
            Some(Lang::Rust)
        } else if text::is(&ext, "c") || text::is(&ext, "h") {
            Some(Lang::C)
        } else if text::is(&ext, "cc") || text::is(&ext, "cpp") || text::is(&ext, "cxx")
            || text::is(&ext, "hpp") || text::is(&ext, "hh") {
            Some(Lang::Cpp)
        } else if text::is(&ext, "cs") {
            Some(Lang::CSharp)
        } else {
            None
        }
    }

    /// A name for extensions we cannot parse, so a judgment still knows what it is reading.
    pub fn name_for_path(path: &str) -> (r: String)
        ensures
            r@ == language_name_of_path(path@),
    {
        match Lang::from_path(path) {
            Some(lang) => lang.name().to_owned(),
            None => {
                let chars = text::chars_of(path);
                let ext = after_last_of(&chars, '.');
                let name = if text::is(&ext, "kt") || text::is(&ext, "kts") {
                    "kotlin"
                } else if text::is(&ext, "swift") {
                    "swift"
                } else if text::is(&ext, "rb") {
                    "ruby"
                } else if text::is(&ext, "scala") {
                    "scala"
                } else if text::is(&ext, "dart") {
                    "dart"
                } else {
                    "unknown"
                };
                name.to_owned()
            },
        }
    }

    pub fn name(self) -> (r: &'static str)
        ensures
            r@ == self.spec_name(),
    {
        match self {
            Lang::Python => "python",
            Lang::JavaScript => "javascript",
            Lang::TypeScript | Lang::Tsx => "typescript",
            Lang::Java => "java",
            Lang::Go => "go",
            Lang::Php => "php",
            Lang::Rust => "rust",
            Lang::C => "c",
            Lang::Cpp => "cpp",
            Lang::CSharp => "csharp",
        }
    }

    /// The tree-sitter grammar of the language: parsing any text with it gives what that
    /// language's grammar makes of the text.
    pub fn grammar(self) -> (r: tree_sitter::Language)
        ensures
            forall|source: Seq<char>| #[trigger] syntax::grammar_syntax(r, source) == crate::tree::spec_syntax(self, source),
    {
        match self {
            Lang::Python => syntax::python_grammar(),
            Lang::JavaScript => syntax::javascript_grammar(),
            Lang::TypeScript => syntax::typescript_grammar(),
            Lang::Tsx => syntax::tsx_grammar(),
            Lang::Java => syntax::java_grammar(),
            Lang::Go => syntax::go_grammar(),
            Lang::Php => syntax::php_grammar(),
            Lang::Rust => syntax::rust_grammar(),
            Lang::C => syntax::c_grammar(),
            Lang::Cpp => syntax::cpp_grammar(),
            Lang::CSharp => syntax::csharp_grammar(),
        }
    }
}

pub const SUPPORTED: &'static str = "Python, JavaScript, TypeScript, Java, Go, PHP, Rust, C, C++, C#";

pub open spec fn spec_is_function(kind: Seq<char>) -> bool {
    ||| kind == "function_definition"@
    ||| kind == "function_declaration"@
    ||| kind == "generator_function_declaration"@
    ||| kind == "function_expression"@
    ||| kind == "arrow_function"@
    ||| kind == "method_definition"@
    ||| kind == "method_declaration"@
    ||| kind == "constructor_declaration"@
    ||| kind == "func_literal"@
    ||| kind == "function_item"@
    ||| kind == "local_function_statement"@
}

pub fn is_function(kind: &str) -> (r: bool)
    ensures
        r == spec_is_function(kind@),
{
    let k = text::chars_of(kind);
    text::is(&k, "function_definition") || text::is(&k, "function_declaration") || text::is(
        &k,
        "generator_function_declaration",
    ) || text::is(&k, "function_expression") || text::is(&k, "arrow_function") || text::is(
        &k,
        "method_definition",
    ) || text::is(&k, "method_declaration") || text::is(&k, "constructor_declaration")
        || text::is(&k, "func_literal") || text::is(&k, "function_item") || text::is(
        &k,
        "local_function_statement",
    )
}

pub open spec fn spec_is_if(kind: Seq<char>) -> bool {
    kind == "if_statement"@ || kind == "if_expression"@
}

pub fn is_if(kind: &str) -> (r: bool)
    ensures
        r == spec_is_if(kind@),
{
    let k = text::chars_of(kind);
    text::is(&k, "if_statement") || text::is(&k, "if_expression")
}

/// Switch-like constructs in every supported grammar.
pub open spec fn spec_is_switch(kind: Seq<char>) -> bool {
    ||| kind == "switch_statement"@
    ||| kind == "match_statement"@
    ||| kind == "expression_switch_statement"@
    ||| kind == "type_switch_statement"@
    ||| kind == "match_expression"@
    ||| kind == "switch_expression"@
}

pub fn is_switch(kind: &str) -> (r: bool)
    ensures
        r == spec_is_switch(kind@),
{
    let k = text::chars_of(kind);
    text::is(&k, "switch_statement") || text::is(&k, "match_statement") || text::is(
        &k,
        "expression_switch_statement",
    ) || text::is(&k, "type_switch_statement") || text::is(&k, "match_expression") || text::is(
        &k,
        "switch_expression",
    )
}

/// The arms of a switch: `case_clause` in Python, `switch_case` in JavaScript, `match_arm` in
/// Rust, `switch_section` in C#, and so on.
pub open spec fn spec_is_arm(kind: Seq<char>) -> bool {
    ||| kind == "case_clause"@
    ||| kind == "switch_case"@
    ||| kind == "switch_default"@
    ||| kind == "switch_block_statement_group"@
    ||| kind == "switch_rule"@
    ||| kind == "expression_case"@
    ||| kind == "type_case"@
    ||| kind == "default_case"@
    ||| kind == "match_arm"@
    ||| kind == "case_statement"@
    ||| kind == "default_statement"@
    ||| kind == "switch_section"@
    ||| kind == "switch_expression_arm"@
}

pub fn is_arm(kind: &str) -> (r: bool)
    ensures
        r == spec_is_arm(kind@),
{
    let k = text::chars_of(kind);
    text::is(&k, "case_clause") || text::is(&k, "switch_case") || text::is(&k, "switch_default")
        || text::is(&k, "switch_block_statement_group") || text::is(&k, "switch_rule") || text::is(
        &k,
        "expression_case",
    ) || text::is(&k, "type_case") || text::is(&k, "default_case") || text::is(&k, "match_arm")
        || text::is(&k, "case_statement") || text::is(&k, "default_statement") || text::is(
        &k,
        "switch_section",
    ) || text::is(&k, "switch_expression_arm")
}

/// Kinds shaped like a statement that do not count: containers, and nested definitions that
/// are their own unit of review.
pub open spec fn spec_is_excluded_statement(kind: Seq<char>) -> bool {
    ||| kind == "compound_statement"@
    ||| kind == "empty_statement"@
    ||| kind == "labeled_statement"@
    ||| kind == "case_statement"@
    ||| kind == "default_statement"@
    ||| kind == "function_declaration"@
    ||| kind == "generator_function_declaration"@
    ||| kind == "method_declaration"@
    ||| kind == "constructor_declaration"@
    ||| kind == "class_declaration"@
    ||| kind == "parameter_declaration"@
    ||| kind == "variadic_parameter_declaration"@
    ||| kind == "optional_parameter_declaration"@
    ||| kind == "field_declaration"@
    ||| kind == "local_function_statement"@
}

/// A node that counts toward rule 1's budget.
pub open spec fn spec_is_statement(kind: Seq<char>) -> bool {
    let shaped = ends_with(kind, "_statement"@) || ends_with(kind, "_declaration"@) || kind
        == "declaration"@;
    shaped && !spec_is_excluded_statement(kind)
}

pub fn is_statement(kind: &str) -> (r: bool)
    ensures
        r == spec_is_statement(kind@),
{
    let k = text::chars_of(kind);
    let shaped = text::finishes(&k, "_statement") || text::finishes(&k, "_declaration")
        || text::is(&k, "declaration");
    let excluded = text::is(&k, "compound_statement") || text::is(&k, "empty_statement")
        || text::is(&k, "labeled_statement") || text::is(&k, "case_statement") || text::is(
        &k,
        "default_statement",
    ) || text::is(&k, "function_declaration") || text::is(&k, "generator_function_declaration")
        || text::is(&k, "method_declaration") || text::is(
        &k,
        "constructor_declaration",
    ) || text::is(&k, "class_declaration") || text::is(&k, "parameter_declaration") || text::is(
        &k,
        "variadic_parameter_declaration",
    ) || text::is(&k, "optional_parameter_declaration") || text::is(&k, "field_declaration")
        || text::is(&k, "local_function_statement");
    shaped && !excluded
}

pub open spec fn spec_ends_the_arm(kind: Seq<char>) -> bool {
    ||| kind == "return_statement"@
    ||| kind == "throw_statement"@
    ||| kind == "raise_statement"@
    ||| kind == "return_expression"@
}

pub fn ends_the_arm(kind: &str) -> (r: bool)
    ensures
        r == spec_ends_the_arm(kind@),
{
    let k = text::chars_of(kind);
    text::is(&k, "return_statement") || text::is(&k, "throw_statement") || text::is(
        &k,
        "raise_statement",
    ) || text::is(&k, "return_expression")
}

} // verus!
