//! Choosing a tree-sitter grammar and parsing source text with it.
use vstd::prelude::*;
use crate::text::{owned, push_str, str_equal};
use crate::types::AppError;

verus! {

#[verifier::external_type_specification]
#[verifier::external_body]
pub struct ExLanguage(tree_sitter::Language);

#[verifier::external_type_specification]
#[verifier::external_body]
pub struct ExTree(tree_sitter::Tree);

/// The grammars the search can parse with.
#[derive(Clone, Copy, Debug, PartialEq, Eq, Structural)]
pub enum Grammar {
    Rust,
    Python,
    JavaScript,
    Tsx,
    Go,
    C,
    Cpp,
}

/// The grammar a language name selects: `rust`, `python`, `js`, `ts` (the TSX
/// grammar, which also reads plain TypeScript), `go`, `c` and `cpp`.
pub open spec fn grammar_named(name: Seq<char>) -> Option<Grammar> {
    if name == "rust"@ {
        Some(Grammar::Rust)
    } else if name == "python"@ {
        Some(Grammar::Python)
    } else if name == "js"@ {
        Some(Grammar::JavaScript)
    } else if name == "ts"@ {
        Some(Grammar::Tsx)
    } else if name == "go"@ {
        Some(Grammar::Go)
    } else if name == "c"@ {
        Some(Grammar::C)
    } else if name == "cpp"@ {
        Some(Grammar::Cpp)
    } else {
        None
    }
}

/// The message for a language name that selects no grammar.
pub open spec fn unsupported_grammar_message(name: Seq<char>) -> Seq<char> {
    "Language '"@ + name + "' is not supported. Supported: rust, python, js, ts, go, c, cpp"@
}

/// The grammar that a language name selects.
pub fn get_grammar(lang: &str) -> (r: Result<Grammar, AppError>)
    ensures
        match grammar_named(lang@) {
            Some(g) => r == Ok::<Grammar, AppError>(g),
            None => r matches Err(AppError::LanguageNotSupported(m)) && m@ == unsupported_grammar_message(lang@),
        },
{
    if str_equal(lang, "rust") {
        Ok(Grammar::Rust)
    } else if str_equal(lang, "python") {
        Ok(Grammar::Python)
    } else if str_equal(lang, "js") {
        Ok(Grammar::JavaScript)
    } else if str_equal(lang, "ts") {
        Ok(Grammar::Tsx)
    } else if str_equal(lang, "go") {
        Ok(Grammar::Go)
    } else if str_equal(lang, "c") {
        Ok(Grammar::C)
    } else if str_equal(lang, "cpp") {
        Ok(Grammar::Cpp)
    } else {
        let mut m = owned("Language '");
        push_str(&mut m, lang);
        push_str(&mut m, "' is not supported. Supported: rust, python, js, ts, go, c, cpp");
        Err(AppError::LanguageNotSupported(m))
    }
}

/// A tree-sitter language together with the grammar it is the language of.
/// Built only by the grammar functions below, each of which tags the language
/// that its grammar crate hands out.
#[derive(Debug)]
pub struct TsLanguage {
    pub(crate) grammar: Grammar,
    pub(crate) language: tree_sitter::Language,
}

impl TsLanguage {
    /// The grammar this is the language of.
    pub closed spec fn grammar(&self) -> Grammar {
        self.grammar
    }

    /// The grammar this is the language of.
    pub fn grammar_of(&self) -> (g: Grammar)
        ensures
            g == self.grammar(),
    {
        self.grammar
    }

    /// The tree-sitter language itself.
    pub closed spec fn language_spec(&self) -> tree_sitter::Language {
        self.language
    }

    /// The tree-sitter language itself.
    pub fn language(&self) -> (l: &tree_sitter::Language)
        ensures
            *l == self.language_spec(),
    {
        &self.language
    }
}

/// `tree_sitter_rust::language()`, tagged as the Rust grammar.
#[verifier::external_body]
fn rust_grammar() -> (r: TsLanguage)
    ensures
        r.grammar() == Grammar::Rust,
{
    TsLanguage { grammar: Grammar::Rust, language: tree_sitter_rust::language() }
}

/// `tree_sitter_python::language()`, tagged as the Python grammar.
#[verifier::external_body]
fn python_grammar() -> (r: TsLanguage)
    ensures
        r.grammar() == Grammar::Python,
{
    TsLanguage { grammar: Grammar::Python, language: tree_sitter_python::language() }
}

/// `tree_sitter_javascript::language()`, tagged as the JavaScript grammar.
#[verifier::external_body]
fn javascript_grammar() -> (r: TsLanguage)
    ensures
        r.grammar() == Grammar::JavaScript,
{
    TsLanguage { grammar: Grammar::JavaScript, language: tree_sitter_javascript::language() }
}

/// `tree_sitter_typescript::language_tsx()`, tagged as the TSX grammar.
#[verifier::external_body]
fn tsx_grammar() -> (r: TsLanguage)
    ensures
        r.grammar() == Grammar::Tsx,
{
    TsLanguage { grammar: Grammar::Tsx, language: tree_sitter_typescript::language_tsx() }
}

/// `tree_sitter_go::language()`, tagged as the Go grammar.
#[verifier::external_body]
fn go_grammar() -> (r: TsLanguage)
    ensures
        r.grammar() == Grammar::Go,
{
    TsLanguage { grammar: Grammar::Go, language: tree_sitter_go::language() }
}

/// `tree_sitter_c::language()`, tagged as the C grammar.
#[verifier::external_body]
fn c_grammar() -> (r: TsLanguage)
    ensures
        r.grammar() == Grammar::C,
{
    TsLanguage { grammar: Grammar::C, language: tree_sitter_c::language() }
}

/// `tree_sitter_cpp::language()`, tagged as the C++ grammar.
#[verifier::external_body]
fn cpp_grammar() -> (r: TsLanguage)
    ensures
        r.grammar() == Grammar::Cpp,
{
    TsLanguage { grammar: Grammar::Cpp, language: tree_sitter_cpp::language() }
}

/// The tree-sitter language of a grammar.
pub fn grammar_language(g: Grammar) -> (r: TsLanguage)
    ensures
        r.grammar() == g,
{
    match g {
        Grammar::Rust => rust_grammar(),
        Grammar::Python => python_grammar(),
        Grammar::JavaScript => javascript_grammar(),
        Grammar::Tsx => tsx_grammar(),
        Grammar::Go => go_grammar(),
        Grammar::C => c_grammar(),
        Grammar::Cpp => cpp_grammar(),
    }
}

/// The tree-sitter language for a language name.
pub fn get_language(lang: &str) -> (r: Result<TsLanguage, AppError>)
    ensures
        match grammar_named(lang@) {
            Some(g) => r matches Ok(l) && l.grammar() == g,
            None => r matches Err(AppError::LanguageNotSupported(m)) && m@ == unsupported_grammar_message(lang@),
        },
{
    match get_grammar(lang) {
        Ok(g) => Ok(grammar_language(g)),
        Err(e) => Err(e),
    }
}

/// A source text together with its syntax tree and the grammar it was parsed
/// with. Built only by `parse_text`, from the text it parses.
#[derive(Debug)]
pub struct ParsedSource {
    pub(crate) grammar: Grammar,
    pub(crate) text: String,
    pub(crate) tree: tree_sitter::Tree,
}

impl ParsedSource {
    /// The grammar the text was parsed with.
    pub closed spec fn grammar(&self) -> Grammar {
        self.grammar
    }

    /// The parsed text.
    pub closed spec fn source(&self) -> Seq<char> {
        self.text@
    }

    /// The syntax tree, as a value.
    pub closed spec fn tree_spec(&self) -> tree_sitter::Tree {
        self.tree
    }

    /// The parsed text.
    pub fn text(&self) -> (t: &String)
        ensures
            t@ == self.source(),
    {
        &self.text
    }

    /// The syntax tree.
    pub fn tree(&self) -> (t: &tree_sitter::Tree)
        ensures
            *t == self.tree_spec(),
    {
        &self.tree
    }
}

/// Whether tree-sitter accepts a grammar's language (`Parser::set_language`
/// refuses a language whose ABI version the library does not support).
pub uninterp spec fn grammar_loads(g: Grammar) -> bool;

/// Why a text could not be parsed.
pub enum ParseFailure {
    GrammarRefused,
    NoTree,
}

/// Parses a whole text with a fresh parser (`Parser::new`, then
/// `Parser::set_language` and `Parser::parse` with no earlier tree) and keeps
/// the tree with the text and its grammar. Trusted: setting the language
/// fails exactly when the grammar does not load; a fresh parser with its
/// language set, no timeout and no cancellation flag always gives a tree.
#[verifier::external_body]
fn parse_text(language: &TsLanguage, text: String) -> (r: Result<ParsedSource, ParseFailure>)
    ensures
        r is Ok <==> grammar_loads(language.grammar()),
        r matches Ok(p) ==> p.grammar() == language.grammar() && p.source() == text@,
        r matches Err(e) ==> e is GrammarRefused,
{
    let mut parser = tree_sitter::Parser::new();
    if parser.set_language(&language.language).is_err() {
        return Err(ParseFailure::GrammarRefused);
    }
    match parser.parse(&text, None) {
        Some(tree) => Ok(ParsedSource { grammar: language.grammar, text, tree }),
        None => Err(ParseFailure::NoTree),
    }
}

pub open spec fn empty_source_message(path: Seq<char>) -> Seq<char> {
    "File is empty and contains no parseable content: "@ + path
}

pub open spec fn grammar_mismatch_message() -> Seq<char> {
    "failed to set language on parser: grammar/library version mismatch"@
}

/// Parses the text of the file `path`. An empty text is refused; a text in a
/// grammar that loads is parsed, syntax errors and all, and comes back with its
/// tree and grammar; with a grammar that does not load, the parse fails.
pub fn parse_source(path: &str, source: String, language: &TsLanguage) -> (r: Result<ParsedSource, AppError>)
    ensures
        source@.len() == 0 ==> (r matches Err(AppError::ParseError(m)) && m@ == empty_source_message(path@)),
        source@.len() > 0 && grammar_loads(language.grammar()) ==> (r matches Ok(p) && p.grammar()
            == language.grammar() && p.source() == source@),
        source@.len() > 0 && !grammar_loads(language.grammar()) ==> (r matches Err(AppError::ParseError(m))
            && m@ == grammar_mismatch_message()),
{
    if source.as_str().is_empty() {
        let mut m = owned("File is empty and contains no parseable content: ");
        push_str(&mut m, path);
        return Err(AppError::ParseError(m));
    }
    match parse_text(language, source) {
        Ok(parsed) => Ok(parsed),
        Err(ParseFailure::GrammarRefused) => {
            Err(AppError::ParseError(owned("failed to set language on parser: grammar/library version mismatch")))
        },
        Err(ParseFailure::NoTree) => {
            let mut m = owned("Tree-sitter returned no parse tree for: ");
            push_str(&mut m, path);
            push_str(&mut m, ". This may indicate a grammar/library version mismatch.");
            Err(AppError::ParseError(m))
        },
    }
}

} // verus!
