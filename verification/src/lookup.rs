//! Looking a symbol up in the structural index: which question the index is
//! asked next, and how its rows become the ordered answer.
use vstd::prelude::*;
use crate::mcp::McpConfig;
use crate::order::{
    chars_lt, compare_chars, lemma_chars_lt_irreflexive, lemma_chars_lt_total, lemma_chars_lt_transitive, Rel,
};
use crate::text::{chars_of, owned, push_signed, push_str, signed_decimal};
use crate::types::AppError;

verus! {

/// A symbol recorded in the index.
pub struct SymbolRow {
    pub file_id: i64,
    pub kind: String,
    pub name: String,
    pub start_line: usize,
    pub start_col: usize,
    pub end_line: usize,
    pub end_col: usize,
    pub signature: Option<String>,
}

/// A file recorded in the index.
pub struct FileRow {
    pub id: i64,
    pub path: String,
}

/// One symbol of a lookup's answer, with the path of its file.
pub struct LookupSymbolItem {
    pub file_path: String,
    pub kind: String,
    pub name: String,
    pub start_line: usize,
    pub start_col: usize,
    pub end_line: usize,
    pub end_col: usize,
    pub signature: Option<String>,
}

/// The answer item for a symbol found in a file.
pub open spec fn item_of(symbol: SymbolRow, file: FileRow) -> LookupSymbolItem {
    LookupSymbolItem {
        file_path: file.path,
        kind: symbol.kind,
        name: symbol.name,
        start_line: symbol.start_line,
        start_col: symbol.start_col,
        end_line: symbol.end_line,
        end_col: symbol.end_col,
        signature: symbol.signature,
    }
}

/// The order of an answer: by file path, then line, column and name.
pub open spec fn item_lt(a: LookupSymbolItem, b: LookupSymbolItem) -> bool {
    if a.file_path@ != b.file_path@ {
        chars_lt(a.file_path@, b.file_path@)
    } else if a.start_line != b.start_line {
        a.start_line < b.start_line
    } else if a.start_col != b.start_col {
        a.start_col < b.start_col
    } else {
        chars_lt(a.name@, b.name@)
    }
}

/// `s` with `e` placed after every element that does not come after `e`: one
/// step of a stable sort.
pub open spec fn insert_item(s: Seq<LookupSymbolItem>, e: LookupSymbolItem) -> Seq<LookupSymbolItem>
    decreases s.len(),
{
    if s.len() == 0 {
        seq![e]
    } else if !item_lt(e, s[0]) {
        seq![s[0]] + insert_item(s.drop_first(), e)
    } else {
        seq![e] + s
    }
}

/// The items stably sorted by `item_lt` (`sort_by`).
pub open spec fn sort_items(s: Seq<LookupSymbolItem>) -> Seq<LookupSymbolItem>
    decreases s.len(),
{
    if s.len() == 0 {
        seq![]
    } else {
        insert_item(sort_items(s.drop_last()), s.last())
    }
}

/// The first symbol whose file the index did not find.
pub open spec fn first_missing(rows: Seq<(SymbolRow, Option<FileRow>)>) -> Option<int>
    decreases rows.len(),
{
    if rows.len() == 0 {
        None
    } else if rows[0].1 is None {
        Some(0)
    } else {
        match first_missing(rows.drop_first()) {
            Some(k) => Some(k + 1),
            None => None,
        }
    }
}

/// The answer items of symbols whose files were all found, in order.
pub open spec fn items_of(rows: Seq<(SymbolRow, Option<FileRow>)>) -> Seq<LookupSymbolItem> {
    rows.map_values(|p: (SymbolRow, Option<FileRow>)| item_of(p.0, p.1->Some_0))
}

/// The error for a symbol whose file row is missing.
pub open spec fn missing_file_message(file_id: i64) -> Seq<char> {
    "missing file row for file_id "@ + signed_decimal(file_id as int)
}

/// What a lookup answers once each symbol's file has been looked up.
pub open spec fn answer_spec(rows: Seq<(SymbolRow, Option<FileRow>)>) -> Result<Seq<LookupSymbolItem>, Seq<char>> {
    match first_missing(rows) {
        Some(k) => Err(missing_file_message(rows[k].0.file_id)),
        None => Ok(sort_items(items_of(rows))),
    }
}

proof fn lemma_first_missing(rows: Seq<(SymbolRow, Option<FileRow>)>, k: int)
    requires
        0 <= k <= rows.len(),
        forall|j: int| 0 <= j < k ==> (#[trigger] rows[j]).1 is Some,
        k < rows.len() ==> rows[k].1 is None,
    ensures
        first_missing(rows) == (if k < rows.len() { Some(k) } else { None::<int> }),
    decreases k,
{
    if k > 0 {
        let t = rows.drop_first();
        assert(rows[0].1 is Some);
        assert forall|j: int| 0 <= j < k - 1 implies (#[trigger] t[j]).1 is Some by {
            assert(t[j] == rows[j + 1]);
        }
        if k < rows.len() {
            assert(t[k - 1] == rows[k]);
        }
        lemma_first_missing(t, k - 1);
    }
}

proof fn lemma_insert_item_at(s: Seq<LookupSymbolItem>, e: LookupSymbolItem, p: int)
    requires
        0 <= p <= s.len(),
        forall|q: int| 0 <= q < p ==> !item_lt(e, #[trigger] s[q]),
        p < s.len() ==> item_lt(e, s[p]),
    ensures
        insert_item(s, e) == s.insert(p, e),
    decreases p,
{
    if p == 0 {
        if s.len() > 0 {
            assert(seq![e] + s =~= s.insert(0, e));
        } else {
            assert(seq![e] =~= s.insert(0, e));
        }
    } else {
        let t = s.drop_first();
        assert forall|q: int| 0 <= q < p - 1 implies !item_lt(e, #[trigger] t[q]) by {
            assert(t[q] == s[q + 1]);
        }
        lemma_insert_item_at(t, e, p - 1);
        assert(seq![s[0]] + t.insert(p - 1, e) =~= s.insert(p, e));
    }
}

fn text_order(a: &String, b: &String) -> (r: Rel)
    ensures
        r == Rel::Less <==> chars_lt(a@, b@),
        r == Rel::Equal <==> a@ == b@,
{
    let va = chars_of(a.as_str());
    let vb = chars_of(b.as_str());
    let r = compare_chars(&va, &vb);
    proof {
        lemma_chars_lt_total(a@, b@);
        lemma_chars_lt_irreflexive(a@);
    }
    r
}

/// Whether `a` comes before `b` in an answer.
fn item_less(a: &LookupSymbolItem, b: &LookupSymbolItem) -> (r: bool)
    ensures
        r == item_lt(*a, *b),
{
    match text_order(&a.file_path, &b.file_path) {
        Rel::Less => return true,
        Rel::Greater => return false,
        Rel::Equal => {},
    }
    if a.start_line != b.start_line {
        return a.start_line < b.start_line;
    }
    if a.start_col != b.start_col {
        return a.start_col < b.start_col;
    }
    text_order(&a.name, &b.name) == Rel::Less
}

/// The items stably sorted by file path, line, column and name.
pub fn sort_lookup_items(items: Vec<LookupSymbolItem>) -> (r: Vec<LookupSymbolItem>)
    ensures
        r@ == sort_items(items@),
{
    let ghost all = items@;
    let mut rest = items;
    let mut r: Vec<LookupSymbolItem> = Vec::new();
    let ghost mut taken: Seq<LookupSymbolItem> = seq![];
    while rest.len() > 0
        invariant
            taken + rest@ == all,
            r@ == sort_items(taken),
        decreases rest.len(),
    {
        let ghost before = rest@;
        let e = rest.remove(0);
        let mut p: usize = 0;
        while p < r.len() && !item_less(&e, &r[p])
            invariant
                p <= r.len(),
                forall|q: int| 0 <= q < p ==> !item_lt(e, #[trigger] r@[q]),
            decreases r.len() - p,
        {
            p += 1;
        }
        proof {
            lemma_insert_item_at(r@, e, p as int);
            let t2 = taken.push(e);
            assert(t2.drop_last() =~= taken);
            assert(t2 + rest@ =~= taken + before) by {
                assert(before[0] == e);
                assert(rest@ =~= before.drop_first());
            }
            taken = t2;
        }
        r.insert(p, e);
    }
    assert(taken =~= all);
    r
}

proof fn lemma_item_lt_transitive(a: LookupSymbolItem, b: LookupSymbolItem, c: LookupSymbolItem)
    requires
        item_lt(a, b),
        item_lt(b, c),
    ensures
        item_lt(a, c),
{
    lemma_chars_lt_total(a.file_path@, b.file_path@);
    lemma_chars_lt_total(b.file_path@, c.file_path@);
    lemma_chars_lt_total(a.file_path@, c.file_path@);
    lemma_chars_lt_irreflexive(a.file_path@);
    if chars_lt(a.file_path@, b.file_path@) && chars_lt(b.file_path@, c.file_path@) {
        lemma_chars_lt_transitive(a.file_path@, b.file_path@, c.file_path@);
    }
    if chars_lt(a.name@, b.name@) && chars_lt(b.name@, c.name@) {
        lemma_chars_lt_transitive(a.name@, b.name@, c.name@);
    }
}

proof fn lemma_item_lt_irreflexive(a: LookupSymbolItem)
    ensures
        !item_lt(a, a),
{
    lemma_chars_lt_irreflexive(a.name@);
}

proof fn lemma_singleton_multiset(e: LookupSymbolItem)
    ensures
        seq![e].to_multiset() == vstd::multiset::Multiset::<LookupSymbolItem>::empty().insert(e),
{
    let z = Seq::<LookupSymbolItem>::empty();
    z.to_multiset_ensures();
    assert(seq![e] =~= z.push(e));
    assert(z.to_multiset() =~= vstd::multiset::Multiset::<LookupSymbolItem>::empty());
}

/// Every element of `s` with `e` inserted is `e` or an element of `s`, and
/// inserting into an ordered sequence keeps it ordered.
proof fn lemma_insert_item_ordered(s: Seq<LookupSymbolItem>, e: LookupSymbolItem)
    requires
        forall|i: int, j: int| 0 <= i < j < s.len() ==> !item_lt(#[trigger] s[j], #[trigger] s[i]),
    ensures
        insert_item(s, e).to_multiset() == s.to_multiset().insert(e),
        forall|i: int, j: int|
            0 <= i < j < insert_item(s, e).len() ==> !item_lt(#[trigger] insert_item(s, e)[j], #[trigger] insert_item(s, e)[i]),
    decreases s.len(),
{
    broadcast use vstd::seq_lib::lemma_multiset_commutative;
    let r = insert_item(s, e);
    if s.len() == 0 {
        lemma_singleton_multiset(e);
        assert(s.to_multiset() =~= vstd::multiset::Multiset::<LookupSymbolItem>::empty()) by {
            assert(s =~= Seq::<LookupSymbolItem>::empty());
            s.to_multiset_ensures();
        }
    } else if !item_lt(e, s[0]) {
        let t = s.drop_first();
        assert forall|i: int, j: int| 0 <= i < j < t.len() implies !item_lt(#[trigger] t[j], #[trigger] t[i]) by {
            assert(t[i] == s[i + 1] && t[j] == s[j + 1]);
        }
        lemma_insert_item_ordered(t, e);
        let rt = insert_item(t, e);
        assert(s =~= seq![s[0]] + t);
        assert(r == seq![s[0]] + rt);
        lemma_singleton_multiset(s[0]);
        assert(r.to_multiset() =~= s.to_multiset().insert(e));
        assert forall|j: int| 1 <= j < r.len() implies !item_lt(#[trigger] r[j], s[0]) by {
            assert(r[j] == rt[j - 1]);
            rt.to_multiset_ensures();
            t.to_multiset_ensures();
            assert(rt.contains(rt[j - 1]));
            assert(rt.to_multiset().count(rt[j - 1]) > 0);
            if rt[j - 1] != e {
                assert(t.to_multiset().count(rt[j - 1]) > 0);
                assert(t.contains(rt[j - 1]));
                let k = choose|k: int| 0 <= k < t.len() && t[k] == rt[j - 1];
                assert(s[k + 1] == t[k]);
            }
        }
        assert forall|i: int, j: int| 0 <= i < j < r.len() implies !item_lt(#[trigger] r[j], #[trigger] r[i]) by {
            if i > 0 {
                assert(r[i] == rt[i - 1] && r[j] == rt[j - 1]);
            }
        }
    } else {
        assert(r == seq![e] + s);
        lemma_singleton_multiset(e);
        assert(r.to_multiset() =~= s.to_multiset().insert(e));
        assert forall|i: int, j: int| 0 <= i < j < r.len() implies !item_lt(#[trigger] r[j], #[trigger] r[i]) by {
            if i == 0 {
                assert(r[j] == s[j - 1]);
                if j - 1 > 0 {
                    assert(!item_lt(s[j - 1], s[0]));
                }
                if item_lt(r[j], e) {
                    lemma_item_lt_transitive(r[j], e, s[0]);
                    lemma_item_lt_irreflexive(s[0]);
                }
            } else {
                assert(r[i] == s[i - 1] && r[j] == s[j - 1]);
            }
        }
    }
}

/// A lookup's answer is ordered: no item comes before one that it should
/// follow by file path, line, column and name; and it holds exactly the
/// items it was formed from.
pub proof fn lemma_sort_items_ordered(s: Seq<LookupSymbolItem>)
    ensures
        forall|i: int, j: int|
            0 <= i < j < sort_items(s).len() ==> !item_lt(#[trigger] sort_items(s)[j], #[trigger] sort_items(s)[i]),
        sort_items(s).to_multiset() == s.to_multiset(),
    decreases s.len(),
{
    if s.len() == 0 {
        assert(sort_items(s) =~= s);
    } else {
        lemma_sort_items_ordered(s.drop_last());
        lemma_insert_item_ordered(sort_items(s.drop_last()), s.last());
        s.drop_last().to_multiset_ensures();
        assert(s.drop_last().push(s.last()) =~= s);
    }
}

/// The answer of a lookup once each symbol's file has been looked up: an
/// error for the first symbol without its file, else the items in order.
pub fn lookup_answer(rows: Vec<(SymbolRow, Option<FileRow>)>) -> (r: Result<Vec<LookupSymbolItem>, AppError>)
    ensures
        match answer_spec(rows@) {
            Ok(items) => r matches Ok(v) && v@ == items,
            Err(m) => r matches Err(AppError::DbError(e)) && e@ == m,
        },
{
    let ghost all = rows@;
    let mut rest = rows;
    let mut items: Vec<LookupSymbolItem> = Vec::new();
    let ghost mut k: int = 0;
    while rest.len() > 0
        invariant
            0 <= k <= all.len(),
            all == rows@,
            rest@ == all.skip(k),
            forall|j: int| 0 <= j < k ==> (#[trigger] all[j]).1 is Some,
            items@ == items_of(all.take(k)),
        decreases rest.len(),
    {
        let ghost before = rest@;
        let pair = rest.remove(0);
        assert(pair == all[k]);
        let (symbol, file) = pair;
        match file {
            None => {
                proof {
                    lemma_first_missing(all, k);
                }
                let mut m = owned("missing file row for file_id ");
                push_signed(&mut m, symbol.file_id);
                return Err(AppError::DbError(m));
            },
            Some(f) => {
                let item = LookupSymbolItem {
                    file_path: f.path,
                    kind: symbol.kind,
                    name: symbol.name,
                    start_line: symbol.start_line,
                    start_col: symbol.start_col,
                    end_line: symbol.end_line,
                    end_col: symbol.end_col,
                    signature: symbol.signature,
                };
                items.push(item);
                proof {
                    assert(items_of(all.take(k + 1)) =~= items_of(all.take(k)).push(item_of(all[k].0, all[k].1->Some_0)));
                    assert(rest@ =~= all.skip(k + 1));
                    k = k + 1;
                }
            },
        }
    }
    proof {
        assert(all.take(k) =~= all);
        lemma_first_missing(all, k);
    }
    Ok(sort_lookup_items(items))
}

// ---------------------------------------------------------------------------
// The steps of a lookup
// ---------------------------------------------------------------------------

/// What the index has answered so far.
pub enum LookupEvent {
    /// The lookup begins; whether the index file exists.
    Started { index_exists: bool },
    /// The symbols whose name is the one looked up.
    ExactMatches(Vec<SymbolRow>),
    /// The symbols whose name contains the one looked up.
    ContainingMatches(Vec<SymbolRow>),
    /// Each symbol of the answer with its file, if the index has it.
    FilesFound(Vec<(SymbolRow, Option<FileRow>)>),
    /// The index could not be read.
    IndexFailed(AppError),
}

/// What the lookup asks of the index next, or its answer.
pub enum LookupAction {
    FindExact(String),
    FindContaining(String),
    FindFiles(Vec<SymbolRow>),
    Answer(Result<Vec<LookupSymbolItem>, AppError>),
}

/// The error when the server has no index.
pub open spec fn missing_index_message(db_path: Seq<char>, root_path: Seq<char>) -> Seq<char> {
    "no structural index found at "@ + db_path + "\n  hint: run doora --persist "@ + root_path + " first"@
}

/// The next step of looking up `name`: with no index there is nothing to
/// look in; symbols named exactly come first, and only when there are none
/// are those whose name contains it taken; every symbol's file is then looked
/// up, and the answer is formed.
pub fn lookup_step(config: &McpConfig, name: &str, event: LookupEvent) -> (a: LookupAction)
    ensures
        match event {
            LookupEvent::Started { index_exists } => if index_exists {
                a matches LookupAction::FindExact(n) && n@ == name@
            } else {
                a matches LookupAction::Answer(Err(AppError::DbError(m))) && m@ == missing_index_message(
                    config.db_path@,
                    config.root_path@,
                )
            },
            LookupEvent::ExactMatches(v) => if v@.len() == 0 {
                a matches LookupAction::FindContaining(n) && n@ == name@
            } else {
                a == LookupAction::FindFiles(v)
            },
            LookupEvent::ContainingMatches(v) => a == LookupAction::FindFiles(v),
            LookupEvent::FilesFound(rows) => a matches LookupAction::Answer(r) && match answer_spec(rows@) {
                Ok(items) => r matches Ok(v) && v@ == items,
                Err(m) => r matches Err(AppError::DbError(e)) && e@ == m,
            },
            LookupEvent::IndexFailed(e) => a == LookupAction::Answer(Err(e)),
        },
{
    match event {
        LookupEvent::Started { index_exists } => {
            if index_exists {
                LookupAction::FindExact(owned(name))
            } else {
                let mut m = owned("no structural index found at ");
                push_str(&mut m, config.db_path.as_str());
                push_str(&mut m, "\n  hint: run doora --persist ");
                push_str(&mut m, config.root_path.as_str());
                push_str(&mut m, " first");
                LookupAction::Answer(Err(AppError::DbError(m)))
            }
        },
        LookupEvent::ExactMatches(v) => {
            if v.len() == 0 {
                LookupAction::FindContaining(owned(name))
            } else {
                LookupAction::FindFiles(v)
            }
        },
        LookupEvent::ContainingMatches(v) => LookupAction::FindFiles(v),
        LookupEvent::FilesFound(rows) => LookupAction::Answer(lookup_answer(rows)),
        LookupEvent::IndexFailed(e) => LookupAction::Answer(Err(e)),
    }
}

} // verus!
