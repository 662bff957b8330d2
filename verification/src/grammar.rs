//! The grammar registry: which languages are known, under which file
//! extension and settings name, and which kinds of node are their import
//! statements, class definitions, function definitions and calls.

use crate::imports::{child_by_field_name, child_under};
use crate::syntax::{lemma_view, SyntaxNode, SyntaxTree};
use crate::text::{opt_text, same_text};
use vstd::prelude::*;

verus! {

/// A language whose syntax trees can be indexed.
#[derive(Debug, Clone, Copy, PartialEq, Eq, Structural)]
pub enum Grammar {
    Rust,
    Python,
    JavaScript,
}

/// The grammar registered for a file extension.
pub open spec fn grammar_of_extension(extension: Seq<char>) -> Option<Grammar> {
    if extension == "rs"@ {
        Some(Grammar::Rust)
    } else if extension == "py"@ {
        Some(Grammar::Python)
    } else if extension == "js"@ {
        Some(Grammar::JavaScript)
    } else {
        None
    }
}

/// The name under which the settings hold a language.
pub open spec fn settings_name(language: Grammar) -> Seq<char> {
    match language {
        Grammar::Rust => "rust"@,
        Grammar::Python => "python"@,
        Grammar::JavaScript => "javascript"@,
    }
}

/// Whether a node of kind `kind` is an import statement of the language.
pub open spec fn import_kind(kind: Seq<char>, language: Grammar) -> bool {
    match language {
        Grammar::Python => kind == "import_statement"@ || kind == "import_from_statement"@,
        Grammar::Rust => kind == "use_declaration"@,
        Grammar::JavaScript => kind == "import_statement"@,
    }
}

/// Whether a node of kind `kind` is a class definition of the language.
pub open spec fn class_kind(kind: Seq<char>, language: Grammar) -> bool {
    match language {
        Grammar::Python => kind == "class_definition"@,
        Grammar::Rust => false,
        Grammar::JavaScript => false,
    }
}

/// Whether a node of kind `kind` is a function definition of the language.
pub open spec fn function_kind(kind: Seq<char>, language: Grammar) -> bool {
    match language {
        Grammar::Rust => kind == "function_item"@,
        Grammar::Python => kind == "function_definition"@,
        Grammar::JavaScript => kind == "function_declaration"@,
    }
}

/// Whether a node of kind `kind` is a call of the language.
pub open spec fn call_kind(kind: Seq<char>, language: Grammar) -> bool {
    match language {
        Grammar::Rust => kind == "call_expression"@,
        Grammar::Python => kind == "call"@,
        Grammar::JavaScript => kind == "call_expression"@,
    }
}

/// The text of the first child of `node` under the field `field`.
pub open spec fn field_text(node: SyntaxTree, field: Seq<char>) -> Option<Seq<char>> {
    match child_under(node, field) {
        Some(child) => Some(child.text),
        None => None,
    }
}

/// The name of the function that `node` defines: the text under its field
/// `name`.
pub open spec fn function_name_of(node: SyntaxTree) -> Option<Seq<char>> {
    field_text(node, "name"@)
}

/// What the call `node` calls: the text under its field `function`.
pub open spec fn callee_of(node: SyntaxTree) -> Option<Seq<char>> {
    field_text(node, "function"@)
}

/// The grammar registered for a file extension, if there is one.
pub fn grammar_for_extension(extension: &str) -> (r: Option<Grammar>)
    ensures
        r == grammar_of_extension(extension@),
{
    if same_text(extension, "rs") {
        Some(Grammar::Rust)
    } else if same_text(extension, "py") {
        Some(Grammar::Python)
    } else if same_text(extension, "js") {
        Some(Grammar::JavaScript)
    } else {
        None
    }
}

/// The name under which the settings hold `language`.
pub fn language_name(language: Grammar) -> (name: &'static str)
    ensures
        name@ == settings_name(language),
{
    match language {
        Grammar::Rust => "rust",
        Grammar::Python => "python",
        Grammar::JavaScript => "javascript",
    }
}

/// Whether a node of kind `kind` is an import statement of `language`.
pub fn is_import_statement(kind: &str, language: Grammar) -> (r: bool)
    ensures
        r == import_kind(kind@, language),
{
    match language {
        Grammar::Python => same_text(kind, "import_statement") || same_text(
            kind,
            "import_from_statement",
        ),
        Grammar::Rust => same_text(kind, "use_declaration"),
        Grammar::JavaScript => same_text(kind, "import_statement"),
    }
}

/// Whether a node of kind `kind` is a class definition of `language`.
pub fn is_class_definition(kind: &str, language: Grammar) -> (r: bool)
    ensures
        r == class_kind(kind@, language),
{
    match language {
        Grammar::Python => same_text(kind, "class_definition"),
        Grammar::Rust => false,
        Grammar::JavaScript => false,
    }
}

/// Whether a node of kind `kind` is a function definition of `language`.
pub fn is_function_node(kind: &str, language: Grammar) -> (r: bool)
    ensures
        r == function_kind(kind@, language),
{
    match language {
        Grammar::Rust => same_text(kind, "function_item"),
        Grammar::Python => same_text(kind, "function_definition"),
        Grammar::JavaScript => same_text(kind, "function_declaration"),
    }
}

/// Whether a node of kind `kind` is a call of `language`.
pub fn is_call_expression(kind: &str, language: Grammar) -> (r: bool)
    ensures
        r == call_kind(kind@, language),
{
    match language {
        Grammar::Rust => same_text(kind, "call_expression"),
        Grammar::Python => same_text(kind, "call"),
        Grammar::JavaScript => same_text(kind, "call_expression"),
    }
}

/// The text of the first child of `node` under the field `field`.
pub fn text_under(node: &SyntaxNode, field: &str) -> (r: Option<String>)
    ensures
        opt_text(r) == field_text(node@, field@),
{
    match child_by_field_name(node, field) {
        Some(child) => {
            proof {
                lemma_view(child);
            }
            Some(child.text.clone())
        },
        None => None,
    }
}

/// The name of the function that `node` defines, where the node names one.
pub fn get_function_name(node: &SyntaxNode, language: Grammar) -> (r: Option<String>)
    ensures
        opt_text(r) == function_name_of(node@),
{
    text_under(node, "name")
}

/// What the call `node` calls, as the source spells it.
pub fn get_call_expression_name(node: &SyntaxNode, language: Grammar) -> (r: Option<String>)
    ensures
        opt_text(r) == callee_of(node@),
{
    text_under(node, "function")
}

} // verus!
