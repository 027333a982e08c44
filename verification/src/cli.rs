//! The command line's decisions: which language a name selects, whether the
//! inputs can be searched, which files belong to a language, and how a file
//! that could not be searched is reported.
use vstd::prelude::*;
use crate::text::{blank, is_blank, owned, push_str, str_equal};
use crate::types::Lang;

verus! {

/// The language a `--lang` value selects.
pub open spec fn lang_named(name: Seq<char>) -> Option<Lang> {
    if name == "rust"@ {
        Some(Lang::Rust)
    } else if name == "python"@ {
        Some(Lang::Python)
    } else if name == "js"@ {
        Some(Lang::JavaScript)
    } else if name == "ts"@ {
        Some(Lang::TypeScript)
    } else if name == "go"@ {
        Some(Lang::Go)
    } else {
        None
    }
}

pub open spec fn unsupported_lang_message(name: Seq<char>) -> Seq<char> {
    "unsupported language '"@ + name + "'; supported: rust, python, js, ts, go"@
}

/// The language a `--lang` value selects, or the message for one it does not.
pub fn resolve_lang(lang_str: &str) -> (r: Result<Lang, String>)
    ensures
        match lang_named(lang_str@) {
            Some(l) => r == Ok::<Lang, String>(l),
            None => r matches Err(m) && m@ == unsupported_lang_message(lang_str@),
        },
{
    if str_equal(lang_str, "rust") {
        Ok(Lang::Rust)
    } else if str_equal(lang_str, "python") {
        Ok(Lang::Python)
    } else if str_equal(lang_str, "js") {
        Ok(Lang::JavaScript)
    } else if str_equal(lang_str, "ts") {
        Ok(Lang::TypeScript)
    } else if str_equal(lang_str, "go") {
        Ok(Lang::Go)
    } else {
        let mut m = owned("unsupported language '");
        push_str(&mut m, lang_str);
        push_str(&mut m, "'; supported: rust, python, js, ts, go");
        Err(m)
    }
}

/// How `{:?}` prints a string: quoted, with escapes.
pub uninterp spec fn debug_text(s: Seq<char>) -> Seq<char>;

/// `format!("{:?}", s)` for a string. Trusted: the text depends on `s` alone.
#[verifier::external_body]
fn debug_str(s: &str) -> (r: String)
    ensures
        r@ == debug_text(s@),
{
    format!("{:?}", s)
}

/// Why the search inputs cannot be used, checked in this order: the query
/// must not be blank, and the path must exist and be a directory.
pub open spec fn inputs_problem(query: Seq<char>, path: Seq<char>, exists: bool, is_dir: bool) -> Option<Seq<char>> {
    if blank(query) {
        Some("query must not be empty: "@ + debug_text(query))
    } else if !exists {
        Some("path does not exist: "@ + path)
    } else if !is_dir {
        Some("path is not a directory: "@ + path)
    } else {
        None
    }
}

/// Checks the search inputs, given what the file system says of the path
/// (`path` is how the path prints).
pub fn validate_inputs(query: &str, path: &str, path_exists: bool, path_is_dir: bool) -> (r: Result<(), String>)
    ensures
        match inputs_problem(query@, path@, path_exists, path_is_dir) {
            Some(m) => r matches Err(e) && e@ == m,
            None => r is Ok,
        },
{
    if is_blank(query) {
        let mut m = owned("query must not be empty: ");
        let d = debug_str(query);
        push_str(&mut m, d.as_str());
        return Err(m);
    }
    if !path_exists {
        let mut m = owned("path does not exist: ");
        push_str(&mut m, path);
        return Err(m);
    }
    if !path_is_dir {
        let mut m = owned("path is not a directory: ");
        push_str(&mut m, path);
        return Err(m);
    }
    Ok(())
}

// ---------------------------------------------------------------------------
// Which files a language covers
// ---------------------------------------------------------------------------

/// The last component of a path: what follows its last `/`.
pub open spec fn last_component(p: Seq<char>) -> Seq<char>
    decreases p.len(),
{
    if p.len() == 0 {
        p
    } else if p.last() == '/' {
        seq![]
    } else {
        last_component(p.drop_last()).push(p.last())
    }
}

/// What follows the last `.` of a name, when that dot is not the name's
/// first character.
pub open spec fn dot_extension(name: Seq<char>) -> Option<Seq<char>>
    decreases name.len(),
{
    if name.len() == 0 {
        None
    } else if name.last() == '.' {
        if name.len() == 1 { None } else { Some(seq![]) }
    } else {
        match dot_extension(name.drop_last()) {
            Some(e) => Some(e.push(name.last())),
            None => None,
        }
    }
}

/// The extension of a file name (`Path::extension`): what follows its last `.`,
/// when that dot is not the name's first character and the name is not `..`.
pub open spec fn extension_of(name: Seq<char>) -> Option<Seq<char>> {
    if name.len() == 2 && name[0] == '.' && name[1] == '.' {
        None
    } else {
        dot_extension(name)
    }
}

/// The file extensions that belong to a language.
pub open spec fn lang_extension(l: Lang, ext: Seq<char>) -> bool {
    match l {
        Lang::Rust => ext == "rs"@,
        Lang::Python => ext == "py"@ || ext == "pyi"@,
        Lang::JavaScript => ext == "js"@ || ext == "mjs"@ || ext == "cjs"@,
        Lang::TypeScript => ext == "ts"@ || ext == "tsx"@ || ext == "mts"@ || ext == "cts"@,
        Lang::Go => ext == "go"@,
    }
}

/// Whether a file belongs to the language.
pub open spec fn is_lang_file(path: Seq<char>, l: Lang) -> bool {
    match extension_of(last_component(path)) {
        Some(e) => lang_extension(l, e),
        None => false,
    }
}

/// The language whose extensions begin with the two characters `c0`, `c1`.
spec fn extension_owner(c0: char, c1: char) -> Lang {
    if c0 == 'r' {
        Lang::Rust
    } else if c0 == 'p' {
        Lang::Python
    } else if c0 == 'g' {
        Lang::Go
    } else if c0 == 'j' || c1 == 'j' {
        Lang::JavaScript
    } else {
        Lang::TypeScript
    }
}

proof fn lemma_extension_owner(l: Lang, e: Seq<char>)
    requires
        lang_extension(l, e),
    ensures
        e.len() >= 2,
        extension_owner(e[0], e[1]) == l,
{
    reveal_strlit("rs");
    reveal_strlit("py");
    reveal_strlit("pyi");
    reveal_strlit("js");
    reveal_strlit("mjs");
    reveal_strlit("cjs");
    reveal_strlit("ts");
    reveal_strlit("tsx");
    reveal_strlit("mts");
    reveal_strlit("cts");
    reveal_strlit("go");
}

/// A file belongs to at most one language, so the results of searches in two
/// languages never come from the same file.
pub proof fn lemma_language_files_disjoint(path: Seq<char>, a: Lang, b: Lang)
    requires
        is_lang_file(path, a),
        is_lang_file(path, b),
    ensures
        a == b,
{
    let e = extension_of(last_component(path))->Some_0;
    lemma_extension_owner(a, e);
    lemma_extension_owner(b, e);
}

fn last_component_exec(p: &Vec<char>) -> (r: Vec<char>)
    ensures
        r@ == last_component(p@),
{
    let mut r: Vec<char> = Vec::new();
    let mut i: usize = 0;
    while i < p.len()
        invariant
            i <= p.len(),
            r@ == last_component(p@.take(i as int)),
        decreases p.len() - i,
    {
        assert(p@.take(i + 1).drop_last() =~= p@.take(i as int));
        assert(p@.take(i + 1).last() == p@[i as int]);
        if p[i] == '/' {
            r = Vec::new();
        } else {
            r.push(p[i]);
        }
        i += 1;
    }
    assert(p@.take(p.len() as int) =~= p@);
    r
}

proof fn lemma_extension_dot_free(name: Seq<char>, k: int)
    requires
        0 <= k < name.len(),
        forall|j: int| k < j < name.len() ==> name[j] != '.',
        name[k] == '.',
        k > 0,
    ensures
        dot_extension(name) == Some(name.subrange(k + 1, name.len() as int)),
    decreases name.len(),
{
    if k + 1 < name.len() {
        lemma_extension_dot_free(name.drop_last(), k);
        assert(name.drop_last().subrange(k + 1, name.len() - 1).push(name.last()) =~= name.subrange(
            k + 1,
            name.len() as int,
        ));
    } else {
        assert(name.subrange(k + 1, name.len() as int) =~= Seq::<char>::empty());
    }
}

proof fn lemma_extension_none(name: Seq<char>)
    requires
        forall|j: int| 0 < j < name.len() ==> name[j] != '.',
    ensures
        dot_extension(name) is None,
    decreases name.len(),
{
    if name.len() > 0 {
        lemma_extension_none(name.drop_last());
    }
}

/// The extension of a file name is what follows its last dot: for a name made
/// of a non-empty stem, a dot and a text without dots, it is that text (the
/// name `..` aside, which has none).
pub proof fn lemma_extension_after_last_dot(stem: Seq<char>, ext: Seq<char>)
    requires
        stem.len() > 0,
        forall|j: int| 0 <= j < ext.len() ==> #[trigger] ext[j] != '.',
        !(stem == seq!['.'] && ext.len() == 0),
    ensures
        extension_of(stem + seq!['.'] + ext) == Some(ext),
{
    let name = stem + seq!['.'] + ext;
    let k = stem.len() as int;
    assert(name[k] == '.');
    assert forall|j: int| k < j < name.len() implies name[j] != '.' by {
        assert(name[j] == ext[j - k - 1]);
    }
    lemma_extension_dot_free(name, k);
    assert(name.subrange(k + 1, name.len() as int) =~= ext);
    if name.len() == 2 && name[0] == '.' && name[1] == '.' {
        assert(stem =~= seq!['.']);
    }
}

proof fn lemma_last_component_tail(dir: Seq<char>, name: Seq<char>)
    requires
        forall|j: int| 0 <= j < name.len() ==> #[trigger] name[j] != '/',
    ensures
        last_component(dir + seq!['/'] + name) == name,
    decreases name.len(),
{
    let p = dir + seq!['/'] + name;
    if name.len() == 0 {
        assert(p.last() == '/');
    } else {
        assert(p.last() == name.last());
        assert(p.drop_last() =~= dir + seq!['/'] + name.drop_last());
        lemma_last_component_tail(dir, name.drop_last());
        assert(name.drop_last().push(name.last()) =~= name);
    }
}

proof fn lemma_last_component_whole(name: Seq<char>)
    requires
        forall|j: int| 0 <= j < name.len() ==> #[trigger] name[j] != '/',
    ensures
        last_component(name) == name,
    decreases name.len(),
{
    if name.len() > 0 {
        assert(name.last() == name[name.len() - 1]);
        lemma_last_component_whole(name.drop_last());
        assert(name.drop_last().push(name.last()) =~= name);
    }
}

/// A file belongs to a language exactly when the text after the last dot of
/// its name is one of the language's extensions, whether the name stands alone
/// or after a directory (so `index.d.ts` and `jquery.min.js` are kept by their
/// last extension).
pub proof fn lemma_language_file_by_last_dot(dir: Seq<char>, stem: Seq<char>, ext: Seq<char>, l: Lang)
    requires
        stem.len() > 0,
        forall|j: int| 0 <= j < stem.len() ==> #[trigger] stem[j] != '/',
        forall|j: int| 0 <= j < ext.len() ==> #[trigger] ext[j] != '.' && ext[j] != '/',
        !(stem == seq!['.'] && ext.len() == 0),
    ensures
        is_lang_file(stem + seq!['.'] + ext, l) == lang_extension(l, ext),
        is_lang_file(dir + seq!['/'] + stem + seq!['.'] + ext, l) == lang_extension(l, ext),
{
    let name = stem + seq!['.'] + ext;
    assert forall|j: int| 0 <= j < name.len() implies #[trigger] name[j] != '/' by {
        if j < stem.len() {
            assert(name[j] == stem[j]);
        } else if j > stem.len() {
            assert(name[j] == ext[j - stem.len() - 1]);
        }
    }
    assert forall|j: int| 0 <= j < ext.len() implies #[trigger] ext[j] != '.' by {}
    lemma_extension_after_last_dot(stem, ext);
    lemma_last_component_whole(name);
    lemma_last_component_tail(dir, name);
    assert(dir + seq!['/'] + stem + seq!['.'] + ext =~= dir + seq!['/'] + name);
}

/// The extension of a file name.
pub fn extension(name: &Vec<char>) -> (r: Option<Vec<char>>)
    ensures
        match extension_of(name@) {
            Some(e) => r is Some && r->0@ == e,
            None => r is None,
        },
{
    if name.len() == 2 && name[0] == '.' && name[1] == '.' {
        return None;
    }
    let mut k: usize = name.len();
    while k > 0 && name[k - 1] != '.'
        invariant
            k <= name.len(),
            forall|j: int| k <= j < name.len() ==> name@[j] != '.',
        decreases k,
    {
        k -= 1;
    }
    if k <= 1 {
        proof {
            if k == 1 {
                assert forall|j: int| 0 < j < name@.len() implies name@[j] != '.' by {}
            }
            lemma_extension_none(name@);
        }
        return None;
    }
    let mut e: Vec<char> = Vec::new();
    let mut q: usize = k;
    while q < name.len()
        invariant
            k <= q <= name.len(),
            e@ == name@.subrange(k as int, q as int),
        decreases name.len() - q,
    {
        e.push(name[q]);
        assert(name@.subrange(k as int, q + 1) =~= name@.subrange(k as int, q as int).push(name@[q as int]));
        q += 1;
    }
    proof {
        lemma_extension_dot_free(name@, k - 1);
    }
    Some(e)
}

fn is_one_of(e: &Vec<char>, a: &str, b: &str, c: &str, d: &str) -> (r: bool)
    ensures
        r == (e@ == a@ || e@ == b@ || e@ == c@ || e@ == d@),
{
    let ea = crate::text::chars_of(a);
    let eb = crate::text::chars_of(b);
    let ec = crate::text::chars_of(c);
    let ed = crate::text::chars_of(d);
    crate::text::chars_equal(e, &ea) || crate::text::chars_equal(e, &eb) || crate::text::chars_equal(e, &ec)
        || crate::text::chars_equal(e, &ed)
}

/// Whether a file belongs to the language, by its extension.
pub fn is_language_file(path: &str, lang: Lang) -> (r: bool)
    ensures
        r == is_lang_file(path@, lang),
{
    let chars = crate::text::chars_of(path);
    let name = last_component_exec(&chars);
    match extension(&name) {
        None => false,
        Some(e) => match lang {
            Lang::Rust => is_one_of(&e, "rs", "rs", "rs", "rs"),
            Lang::Python => is_one_of(&e, "py", "pyi", "pyi", "pyi"),
            Lang::JavaScript => is_one_of(&e, "js", "mjs", "cjs", "cjs"),
            Lang::TypeScript => is_one_of(&e, "ts", "tsx", "mts", "cts"),
            Lang::Go => is_one_of(&e, "go", "go", "go", "go"),
        },
    }
}

// ---------------------------------------------------------------------------
// Files that could not be searched
// ---------------------------------------------------------------------------

/// Why a file was skipped.
pub enum FileError {
    WalkerAccess { path: Option<String>, message: String },
    ReadFailure { path: String, message: String },
    ParseFailure { path: String, message: String },
}

/// The warning line for a skipped file.
pub open spec fn file_error_text(e: FileError) -> Seq<char> {
    match e {
        FileError::WalkerAccess { path, message } => "warning: [walker] "@ + (match path {
            Some(p) => p@,
            None => "<path unknown>"@,
        }) + ": "@ + message@,
        FileError::ReadFailure { path, message } => "warning: [read] "@ + path@ + ": "@ + message@,
        FileError::ParseFailure { path, message } => "warning: [parse] "@ + path@ + ": "@ + message@,
    }
}

/// The warning line for a skipped file.
pub fn format_file_error(error: &FileError) -> (r: String)
    ensures
        r@ == file_error_text(*error),
{
    match error {
        FileError::WalkerAccess { path, message } => {
            let mut m = owned("warning: [walker] ");
            match path {
                Some(p) => push_str(&mut m, p.as_str()),
                None => push_str(&mut m, "<path unknown>"),
            }
            push_str(&mut m, ": ");
            push_str(&mut m, message.as_str());
            m
        },
        FileError::ReadFailure { path, message } => {
            let mut m = owned("warning: [read] ");
            push_str(&mut m, path.as_str());
            push_str(&mut m, ": ");
            push_str(&mut m, message.as_str());
            m
        },
        FileError::ParseFailure { path, message } => {
            let mut m = owned("warning: [parse] ");
            push_str(&mut m, path.as_str());
            push_str(&mut m, ": ");
            push_str(&mut m, message.as_str());
            m
        },
    }
}

} // verus!
