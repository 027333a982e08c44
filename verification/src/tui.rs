//! The state of the interactive search screen and how events change it.
//!
//! The terminal loop itself lives outside the library: it turns key presses,
//! timer ticks and search results into `AppEvent`s, hands each to
//! `handle_event`, and runs the `SearchCommand` that comes back.
use vstd::prelude::*;
use crate::order::{
    Component, Rel, compare_components, covered_by, parts_lt, part_views, path_components,
    path_parts, same_path, sort_and_dedup, sorted_unique_of, lemma_parts_lt_irreflexive,
    lemma_parts_lt_total, lemma_parts_lt_transitive,
};
use crate::text::{blank, is_blank, string_push};
use crate::types::{MatchResult, duplicate_all};

verus! {

/// One file of the result tree and how many results it holds.
pub struct FileTreeEntry {
    pub path: String,
    pub match_count: usize,
}

/// Everything the search screen shows and remembers.
pub struct AppState {
    pub query_input: String,
    pub submitted_query: Option<String>,
    pub results: Vec<MatchResult>,
    pub selected_index: usize,
    pub file_tree: Vec<FileTreeEntry>,
    pub selected_file_index: usize,
    pub scroll_offset: usize,
    pub ast_scroll_offset: usize,
    pub search_running: bool,
    pub error_message: Option<String>,
    pub should_quit: bool,
    pub frame_count: u64,
}

/// The keys the screen reacts to.
#[derive(Clone, Copy, Debug, PartialEq, Eq, Structural)]
pub enum KeyCode {
    Char(char),
    Esc,
    Down,
    Up,
    PageDown,
    PageUp,
    Backspace,
    Enter,
    Other,
}

/// What can happen to the screen.
pub enum AppEvent {
    Keystroke(KeyCode),
    Tick,
    SearchResult(Vec<MatchResult>),
    SearchComplete,
    SearchError(String),
}

/// What the screen asks the search worker to do.
pub enum SearchCommand {
    Run(String),
    Cancel,
}

// ---------------------------------------------------------------------------
// The file tree
// ---------------------------------------------------------------------------

/// How many of `results` lie in the file `p`.
pub open spec fn path_count(results: Seq<MatchResult>, p: Seq<char>) -> nat
    decreases results.len(),
{
    if results.len() == 0 {
        0
    } else {
        path_count(results.drop_last(), p) + if same_path(results.last().file_path@, p) {
            1nat
        } else {
            0nat
        }
    }
}

/// `results[i]` is the first result in its file.
pub open spec fn first_in_file(results: Seq<MatchResult>, i: int) -> bool {
    forall|j: int| 0 <= j < i ==> !same_path(#[trigger] results[j].file_path@, results[i].file_path@)
}

/// Some result, the first in its file, has the path `p` as written.
pub open spec fn path_of_first(results: Seq<MatchResult>, p: Seq<char>) -> bool {
    exists|i: int| 0 <= i < results.len() && results[i].file_path@ == p && first_in_file(results, i)
}

/// Some entry of the tree is for the file of `p`.
pub open spec fn tree_has(tree: Seq<FileTreeEntry>, p: Seq<char>) -> bool {
    exists|k: int| 0 <= k < tree.len() && same_path(tree[k].path@, p)
}

/// `tree` is the file tree of `results`: one entry per file (named as the first
/// result in that file writes it), sorted by path, each with the number of
/// results in its file.
pub open spec fn file_tree_of(results: Seq<MatchResult>, tree: Seq<FileTreeEntry>) -> bool {
    &&& tree_sorted(tree)
    &&& forall|k: int| 0 <= k < tree.len() ==> path_of_first(results, (#[trigger] tree[k]).path@)
    &&& forall|i: int| 0 <= i < results.len() ==> tree_has(tree, (#[trigger] results[i]).file_path@)
    &&& forall|k: int|
        0 <= k < tree.len() ==> (#[trigger] tree[k]).match_count == path_count(results, tree[k].path@)
}

proof fn lemma_path_count_bound(results: Seq<MatchResult>, p: Seq<char>)
    ensures
        path_count(results, p) <= results.len(),
    decreases results.len(),
{
    if results.len() > 0 {
        lemma_path_count_bound(results.drop_last(), p);
    }
}

proof fn lemma_path_count_zero(results: Seq<MatchResult>, p: Seq<char>)
    requires
        forall|j: int| 0 <= j < results.len() ==> !same_path(#[trigger] results[j].file_path@, p),
    ensures
        path_count(results, p) == 0,
    decreases results.len(),
{
    if results.len() > 0 {
        assert(!same_path(results[results.len() - 1].file_path@, p));
        lemma_path_count_zero(results.drop_last(), p);
    }
}

proof fn lemma_first_extends(prefix: Seq<MatchResult>, r: MatchResult, p: Seq<char>)
    requires
        path_of_first(prefix, p),
    ensures
        path_of_first(prefix.push(r), p),
{
    let next = prefix.push(r);
    let w = choose|w: int| 0 <= w < prefix.len() && prefix[w].file_path@ == p && first_in_file(prefix, w);
    assert(next[w] == prefix[w]);
    assert forall|q: int| 0 <= q < w implies !same_path(#[trigger] next[q].file_path@, next[w].file_path@) by {
        assert(next[q] == prefix[q]);
    }
    assert(0 <= w < next.len() && next[w].file_path@ == p && first_in_file(next, w));
}

/// The entries' paths are strictly ascending.
pub open spec fn tree_sorted(tree: Seq<FileTreeEntry>) -> bool {
    forall|a: int, b: int|
        0 <= a < b < tree.len() ==> parts_lt(
            path_parts((#[trigger] tree[a]).path@),
            path_parts((#[trigger] tree[b]).path@),
        )
}

proof fn lemma_tree_bump(
    prefix: Seq<MatchResult>,
    r: MatchResult,
    old_tree: Seq<FileTreeEntry>,
    tree: Seq<FileTreeEntry>,
    j: int,
)
    requires
        file_tree_of(prefix, old_tree),
        0 <= j < old_tree.len(),
        path_parts(old_tree[j].path@) == path_parts(r.file_path@),
        tree.len() == old_tree.len(),
        forall|a: int| 0 <= a < tree.len() && a != j ==> tree[a] == old_tree[a],
        tree[j].path@ == old_tree[j].path@,
        tree[j].match_count == old_tree[j].match_count + 1,
    ensures
        file_tree_of(prefix.push(r), tree),
{
    let next = prefix.push(r);
    assert(next.drop_last() =~= prefix);
    assert forall|a: int, b: int| 0 <= a < b < tree.len() implies parts_lt(
        path_parts((#[trigger] tree[a]).path@),
        path_parts((#[trigger] tree[b]).path@),
    ) by {
        assert(tree[a].path@ == old_tree[a].path@);
        assert(tree[b].path@ == old_tree[b].path@);
    }
    lemma_bump_first(prefix, r, old_tree, tree, j);
    lemma_bump_has(prefix, r, old_tree, tree, j);
    lemma_bump_counts(prefix, r, old_tree, tree, j);
}

proof fn lemma_bump_first(
    prefix: Seq<MatchResult>,
    r: MatchResult,
    old_tree: Seq<FileTreeEntry>,
    tree: Seq<FileTreeEntry>,
    j: int,
)
    requires
        forall|k: int| 0 <= k < old_tree.len() ==> path_of_first(prefix, (#[trigger] old_tree[k]).path@),
        0 <= j < old_tree.len(),
        tree.len() == old_tree.len(),
        forall|a: int| 0 <= a < tree.len() && a != j ==> tree[a] == old_tree[a],
        tree[j].path@ == old_tree[j].path@,
    ensures
        forall|k: int| 0 <= k < tree.len() ==> path_of_first(prefix.push(r), (#[trigger] tree[k]).path@),
{
    assert forall|k: int| 0 <= k < tree.len() implies path_of_first(prefix.push(r), (#[trigger] tree[k]).path@) by {
        assert(tree[k].path@ == old_tree[k].path@);
        lemma_first_extends(prefix, r, old_tree[k].path@);
    }
}

proof fn lemma_bump_has(
    prefix: Seq<MatchResult>,
    r: MatchResult,
    old_tree: Seq<FileTreeEntry>,
    tree: Seq<FileTreeEntry>,
    j: int,
)
    requires
        forall|i: int| 0 <= i < prefix.len() ==> tree_has(old_tree, (#[trigger] prefix[i]).file_path@),
        0 <= j < old_tree.len(),
        path_parts(old_tree[j].path@) == path_parts(r.file_path@),
        tree.len() == old_tree.len(),
        forall|a: int| 0 <= a < tree.len() && a != j ==> tree[a] == old_tree[a],
        tree[j].path@ == old_tree[j].path@,
    ensures
        forall|i: int| 0 <= i < prefix.len() + 1 ==> tree_has(tree, (#[trigger] prefix.push(r)[i]).file_path@),
{
    let next = prefix.push(r);
    assert forall|q: int| 0 <= q < next.len() implies tree_has(tree, (#[trigger] next[q]).file_path@) by {
        if q < prefix.len() {
            assert(next[q] == prefix[q]);
            assert(tree_has(old_tree, prefix[q].file_path@));
            let k = choose|k: int| 0 <= k < old_tree.len() && same_path(old_tree[k].path@, prefix[q].file_path@);
            assert(tree[k].path@ == old_tree[k].path@);
        } else {
            assert(same_path(tree[j].path@, next[q].file_path@));
        }
    }
}

proof fn lemma_bump_counts(
    prefix: Seq<MatchResult>,
    r: MatchResult,
    old_tree: Seq<FileTreeEntry>,
    tree: Seq<FileTreeEntry>,
    j: int,
)
    requires
        tree_sorted(old_tree),
        forall|k: int|
            0 <= k < old_tree.len() ==> (#[trigger] old_tree[k]).match_count == path_count(prefix, old_tree[k].path@),
        0 <= j < old_tree.len(),
        path_parts(old_tree[j].path@) == path_parts(r.file_path@),
        tree.len() == old_tree.len(),
        forall|a: int| 0 <= a < tree.len() && a != j ==> tree[a] == old_tree[a],
        tree[j].path@ == old_tree[j].path@,
        tree[j].match_count == old_tree[j].match_count + 1,
    ensures
        forall|k: int| 0 <= k < tree.len() ==> (#[trigger] tree[k]).match_count == path_count(prefix.push(r), tree[k].path@),
{
    let next = prefix.push(r);
    let pr = path_parts(r.file_path@);
    assert(next.drop_last() =~= prefix);
    assert(next.last() == r);
    lemma_parts_lt_irreflexive(pr);
    assert forall|k: int| 0 <= k < tree.len() implies (#[trigger] tree[k]).match_count == path_count(next, tree[k].path@) by {
        if k != j {
            assert(tree[k] == old_tree[k]);
            if same_path(r.file_path@, old_tree[k].path@) {
                if k < j {
                    assert(parts_lt(path_parts(old_tree[k].path@), path_parts(old_tree[j].path@)));
                } else {
                    assert(parts_lt(path_parts(old_tree[j].path@), path_parts(old_tree[k].path@)));
                }
            }
        }
    }
}

proof fn lemma_tree_insert(
    prefix: Seq<MatchResult>,
    r: MatchResult,
    old_tree: Seq<FileTreeEntry>,
    j: int,
    entry: FileTreeEntry,
)
    requires
        file_tree_of(prefix, old_tree),
        0 <= j <= old_tree.len(),
        forall|a: int| 0 <= a < j ==> parts_lt(path_parts((#[trigger] old_tree[a]).path@), path_parts(r.file_path@)),
        j < old_tree.len() ==> parts_lt(path_parts(r.file_path@), path_parts(old_tree[j].path@)),
        entry.path@ == r.file_path@,
        entry.match_count == 1,
    ensures
        file_tree_of(prefix.push(r), old_tree.insert(j, entry)),
{
    let next = prefix.push(r);
    let tree = old_tree.insert(j, entry);
    assert(next.drop_last() =~= prefix);
    assert(next.last() == r);
    lemma_new_file(prefix, r, old_tree, j);
    lemma_insert_sorted(r, old_tree, j, entry);
    lemma_insert_first(prefix, r, old_tree, j, entry);
    lemma_insert_has(prefix, r, old_tree, j, entry);
    lemma_insert_counts(prefix, r, old_tree, j, entry);
}

proof fn lemma_new_file(prefix: Seq<MatchResult>, r: MatchResult, old_tree: Seq<FileTreeEntry>, j: int)
    requires
        tree_sorted(old_tree),
        forall|i: int| 0 <= i < prefix.len() ==> tree_has(old_tree, (#[trigger] prefix[i]).file_path@),
        0 <= j <= old_tree.len(),
        forall|a: int| 0 <= a < j ==> parts_lt(path_parts((#[trigger] old_tree[a]).path@), path_parts(r.file_path@)),
        j < old_tree.len() ==> parts_lt(path_parts(r.file_path@), path_parts(old_tree[j].path@)),
    ensures
        forall|q: int| 0 <= q < prefix.len() ==> !same_path(#[trigger] prefix[q].file_path@, r.file_path@),
        path_count(prefix, r.file_path@) == 0,
{
    let pr = path_parts(r.file_path@);
    lemma_parts_lt_irreflexive(pr);
    assert forall|q: int| 0 <= q < prefix.len() implies !same_path(#[trigger] prefix[q].file_path@, r.file_path@) by {
        if same_path(prefix[q].file_path@, r.file_path@) {
            assert(tree_has(old_tree, prefix[q].file_path@));
            let k = choose|k: int| 0 <= k < old_tree.len() && same_path(old_tree[k].path@, prefix[q].file_path@);
            assert(path_parts(old_tree[k].path@) == pr);
            if k > j {
                assert(parts_lt(path_parts(old_tree[j].path@), path_parts(old_tree[k].path@)));
                lemma_parts_lt_transitive(pr, path_parts(old_tree[j].path@), pr);
            }
        }
    }
    lemma_path_count_zero(prefix, r.file_path@);
}

proof fn lemma_insert_sorted(r: MatchResult, old_tree: Seq<FileTreeEntry>, j: int, entry: FileTreeEntry)
    requires
        tree_sorted(old_tree),
        0 <= j <= old_tree.len(),
        forall|a: int| 0 <= a < j ==> parts_lt(path_parts((#[trigger] old_tree[a]).path@), path_parts(r.file_path@)),
        j < old_tree.len() ==> parts_lt(path_parts(r.file_path@), path_parts(old_tree[j].path@)),
        entry.path@ == r.file_path@,
    ensures
        tree_sorted(old_tree.insert(j, entry)),
{
    let tree = old_tree.insert(j, entry);
    let pr = path_parts(r.file_path@);
    assert forall|a: int, b: int| 0 <= a < b < tree.len() implies parts_lt(
        path_parts((#[trigger] tree[a]).path@),
        path_parts((#[trigger] tree[b]).path@),
    ) by {
        if a == j {
            if b - 1 > j {
                assert(parts_lt(path_parts(old_tree[j].path@), path_parts(old_tree[b - 1].path@)));
                lemma_parts_lt_transitive(pr, path_parts(old_tree[j].path@), path_parts(old_tree[b - 1].path@));
            }
            assert(tree[b] == old_tree[b - 1]);
        } else if b == j {
            assert(tree[a] == old_tree[a]);
        } else {
            let a0 = if a < j { a } else { a - 1 };
            let b0 = if b < j { b } else { b - 1 };
            assert(tree[a] == old_tree[a0]);
            assert(tree[b] == old_tree[b0]);
        }
    }
}

proof fn lemma_insert_first(
    prefix: Seq<MatchResult>,
    r: MatchResult,
    old_tree: Seq<FileTreeEntry>,
    j: int,
    entry: FileTreeEntry,
)
    requires
        forall|k: int| 0 <= k < old_tree.len() ==> path_of_first(prefix, (#[trigger] old_tree[k]).path@),
        forall|q: int| 0 <= q < prefix.len() ==> !same_path(#[trigger] prefix[q].file_path@, r.file_path@),
        0 <= j <= old_tree.len(),
        entry.path@ == r.file_path@,
    ensures
        forall|k: int| 0 <= k < old_tree.len() + 1 ==> path_of_first(prefix.push(r), (#[trigger] old_tree.insert(j, entry)[k]).path@),
{
    let next = prefix.push(r);
    let tree = old_tree.insert(j, entry);
    assert forall|k: int| 0 <= k < tree.len() implies path_of_first(next, (#[trigger] tree[k]).path@) by {
        if k == j {
            let i = prefix.len() as int;
            assert(next[i] == r);
            assert forall|q: int| 0 <= q < i implies !same_path(#[trigger] next[q].file_path@, next[i].file_path@) by {
                assert(next[q] == prefix[q]);
            }
            assert(0 <= i < next.len() && next[i].file_path@ == tree[k].path@ && first_in_file(next, i));
        } else {
            let k0 = if k < j { k } else { k - 1 };
            assert(tree[k] == old_tree[k0]);
            lemma_first_extends(prefix, r, old_tree[k0].path@);
        }
    }
}

proof fn lemma_insert_has(
    prefix: Seq<MatchResult>,
    r: MatchResult,
    old_tree: Seq<FileTreeEntry>,
    j: int,
    entry: FileTreeEntry,
)
    requires
        forall|i: int| 0 <= i < prefix.len() ==> tree_has(old_tree, (#[trigger] prefix[i]).file_path@),
        0 <= j <= old_tree.len(),
        entry.path@ == r.file_path@,
    ensures
        forall|i: int| 0 <= i < prefix.len() + 1 ==> tree_has(old_tree.insert(j, entry), (#[trigger] prefix.push(r)[i]).file_path@),
{
    let next = prefix.push(r);
    let tree = old_tree.insert(j, entry);
    assert forall|q: int| 0 <= q < next.len() implies tree_has(tree, (#[trigger] next[q]).file_path@) by {
        if q < prefix.len() {
            assert(next[q] == prefix[q]);
            assert(tree_has(old_tree, prefix[q].file_path@));
            let k = choose|k: int| 0 <= k < old_tree.len() && same_path(old_tree[k].path@, prefix[q].file_path@);
            if k < j {
                assert(tree[k] == old_tree[k]);
            } else {
                assert(tree[k + 1] == old_tree[k]);
            }
        } else {
            assert(tree[j].path@ == next[q].file_path@);
        }
    }
}

proof fn lemma_insert_counts(
    prefix: Seq<MatchResult>,
    r: MatchResult,
    old_tree: Seq<FileTreeEntry>,
    j: int,
    entry: FileTreeEntry,
)
    requires
        tree_sorted(old_tree),
        forall|k: int|
            0 <= k < old_tree.len() ==> (#[trigger] old_tree[k]).match_count == path_count(prefix, old_tree[k].path@),
        path_count(prefix, r.file_path@) == 0,
        0 <= j <= old_tree.len(),
        forall|a: int| 0 <= a < j ==> parts_lt(path_parts((#[trigger] old_tree[a]).path@), path_parts(r.file_path@)),
        j < old_tree.len() ==> parts_lt(path_parts(r.file_path@), path_parts(old_tree[j].path@)),
        entry.path@ == r.file_path@,
        entry.match_count == 1,
    ensures
        forall|k: int| 0 <= k < old_tree.len() + 1 ==> (#[trigger] old_tree.insert(j, entry)[k]).match_count
            == path_count(prefix.push(r), old_tree.insert(j, entry)[k].path@),
{
    let next = prefix.push(r);
    let tree = old_tree.insert(j, entry);
    let pr = path_parts(r.file_path@);
    assert(next.drop_last() =~= prefix);
    assert(next.last() == r);
    lemma_parts_lt_irreflexive(pr);
    assert forall|k: int| 0 <= k < tree.len() implies (#[trigger] tree[k]).match_count == path_count(next, tree[k].path@) by {
        if k != j {
            let k0 = if k < j { k } else { k - 1 };
            assert(tree[k] == old_tree[k0]);
            if same_path(r.file_path@, old_tree[k0].path@) {
                if k0 < j {
                    assert(parts_lt(path_parts(old_tree[k0].path@), pr));
                } else if k0 > j {
                    assert(parts_lt(path_parts(old_tree[j].path@), path_parts(old_tree[k0].path@)));
                    lemma_parts_lt_transitive(pr, path_parts(old_tree[j].path@), pr);
                }
            }
        }
    }
}

/// Where the file of `kr` stands in the tree: the first entry not before it,
/// and whether that entry is its file.
fn tree_slot(keys: &Vec<Vec<Component>>, Ghost(tree): Ghost<Seq<FileTreeEntry>>, kr: &Vec<Component>) -> (r: (usize, bool))
    requires
        keys.len() == tree.len(),
        forall|a: int| 0 <= a < tree.len() ==> part_views(#[trigger] keys@[a]@) == path_parts(tree[a].path@),
    ensures
        r.0 <= tree.len(),
        forall|a: int| 0 <= a < r.0 ==> parts_lt(path_parts((#[trigger] tree[a]).path@), part_views(kr@)),
        r.1 ==> r.0 < tree.len() && path_parts(tree[r.0 as int].path@) == part_views(kr@),
        !r.1 && r.0 < tree.len() ==> parts_lt(part_views(kr@), path_parts(tree[r.0 as int].path@)),
{
    let mut j: usize = 0;
    while j < keys.len()
        invariant
            keys.len() == tree.len(),
            forall|a: int| 0 <= a < tree.len() ==> part_views(#[trigger] keys@[a]@) == path_parts(tree[a].path@),
            j <= tree.len(),
            forall|a: int| 0 <= a < j ==> parts_lt(path_parts((#[trigger] tree[a]).path@), part_views(kr@)),
        decreases tree.len() - j,
    {
        let c = compare_components(&keys[j], kr);
        if c == Rel::Equal {
            return (j, true);
        } else if c == Rel::Greater {
            return (j, false);
        }
        j += 1;
    }
    (j, false)
}

/// Counts `r` into the entry `j` of the tree, the entry of its file.
#[verifier::spinoff_prover]
fn bump_entry(tree: &mut Vec<FileTreeEntry>, j: usize, Ghost(prefix): Ghost<Seq<MatchResult>>, r: &MatchResult)
    requires
        file_tree_of(prefix, old(tree)@),
        prefix.len() < usize::MAX,
        j < old(tree).len(),
        path_parts(old(tree)@[j as int].path@) == path_parts(r.file_path@),
    ensures
        file_tree_of(prefix.push(*r), final(tree)@),
        final(tree).len() == old(tree).len(),
        forall|a: int| 0 <= a < final(tree).len() ==> (#[trigger] final(tree)@[a]).path@ == old(tree)@[a].path@,
{
    let ghost old_tree = tree@;
    proof {
        lemma_path_count_bound(prefix, tree@[j as int].path@);
    }
    let count = tree[j].match_count + 1;
    let path = tree[j].path.clone();
    tree.set(j, FileTreeEntry { path, match_count: count });
    proof {
        lemma_tree_bump(prefix, *r, old_tree, tree@, j as int);
    }
}

/// Adds an entry for the file of `r`, which the tree does not hold, at `j`.
#[verifier::spinoff_prover]
fn insert_entry(
    tree: &mut Vec<FileTreeEntry>,
    keys: &mut Vec<Vec<Component>>,
    j: usize,
    kr: Vec<Component>,
    Ghost(prefix): Ghost<Seq<MatchResult>>,
    r: &MatchResult,
)
    requires
        old(keys).len() == old(tree).len(),
        forall|a: int|
            0 <= a < old(tree).len() ==> part_views(#[trigger] old(keys)@[a]@) == path_parts(old(tree)@[a].path@),
        part_views(kr@) == path_parts(r.file_path@),
        file_tree_of(prefix, old(tree)@),
        j <= old(tree).len(),
        forall|a: int| 0 <= a < j ==> parts_lt(path_parts((#[trigger] old(tree)@[a]).path@), path_parts(r.file_path@)),
        j < old(tree).len() ==> parts_lt(path_parts(r.file_path@), path_parts(old(tree)@[j as int].path@)),
    ensures
        final(keys).len() == final(tree).len(),
        forall|a: int|
            0 <= a < final(tree).len() ==> part_views(#[trigger] final(keys)@[a]@) == path_parts(final(tree)@[a].path@),
        file_tree_of(prefix.push(*r), final(tree)@),
{
    let ghost old_tree = tree@;
    let ghost old_keys = keys@;
    let entry = FileTreeEntry { path: r.file_path.clone(), match_count: 1 };
    proof {
        lemma_tree_insert(prefix, *r, old_tree, j as int, entry);
    }
    let ghost kv = kr;
    tree.insert(j, entry);
    keys.insert(j, kr);
    proof {
        lemma_keys_insert(old_keys, old_tree, j as int, kv, entry);
    }
}

proof fn lemma_keys_insert(
    keys: Seq<Vec<Component>>,
    tree: Seq<FileTreeEntry>,
    j: int,
    k: Vec<Component>,
    entry: FileTreeEntry,
)
    requires
        keys.len() == tree.len(),
        0 <= j <= tree.len(),
        forall|a: int| 0 <= a < tree.len() ==> part_views(#[trigger] keys[a]@) == path_parts(tree[a].path@),
        part_views(k@) == path_parts(entry.path@),
    ensures
        forall|a: int|
            0 <= a < tree.len() + 1 ==> part_views(#[trigger] keys.insert(j, k)[a]@) == path_parts(
                tree.insert(j, entry)[a].path@,
            ),
{
    assert forall|a: int| 0 <= a < tree.len() + 1 implies part_views(#[trigger] keys.insert(j, k)[a]@) == path_parts(
        tree.insert(j, entry)[a].path@,
    ) by {
        if a < j {
            assert(keys.insert(j, k)[a] == keys[a] && tree.insert(j, entry)[a] == tree[a]);
        } else if a > j {
            assert(keys.insert(j, k)[a] == keys[a - 1] && tree.insert(j, entry)[a] == tree[a - 1]);
        }
    }
}

/// Counts `r` into the tree of the results before it.
fn add_to_tree(
    tree: &mut Vec<FileTreeEntry>,
    keys: &mut Vec<Vec<Component>>,
    Ghost(prefix): Ghost<Seq<MatchResult>>,
    r: &MatchResult,
)
    requires
        old(keys).len() == old(tree).len(),
        forall|a: int|
            0 <= a < old(tree).len() ==> part_views(#[trigger] old(keys)@[a]@) == path_parts(old(tree)@[a].path@),
        file_tree_of(prefix, old(tree)@),
        prefix.len() < usize::MAX,
    ensures
        final(keys).len() == final(tree).len(),
        forall|a: int|
            0 <= a < final(tree).len() ==> part_views(#[trigger] final(keys)@[a]@) == path_parts(final(tree)@[a].path@),
        file_tree_of(prefix.push(*r), final(tree)@),
{
    let kr = path_components(r.file_path.as_str());
    let (j, found) = tree_slot(keys, Ghost(tree@), &kr);
    if found {
        bump_entry(tree, j, Ghost(prefix), r);
    } else {
        insert_entry(tree, keys, j, kr, Ghost(prefix), r);
    }
}

fn rebuild_tree(results: &Vec<MatchResult>) -> (tree: Vec<FileTreeEntry>)
    ensures
        file_tree_of(results@, tree@),
{
    let mut tree: Vec<FileTreeEntry> = Vec::new();
    let mut keys: Vec<Vec<Component>> = Vec::new();
    let mut i: usize = 0;
    proof {
        lemma_path_count_bound(Seq::<MatchResult>::empty(), Seq::<char>::empty());
        assert(results@.take(0) =~= Seq::<MatchResult>::empty());
    }
    while i < results.len()
        invariant
            i <= results.len(),
            keys.len() == tree.len(),
            forall|a: int| 0 <= a < tree.len() ==> part_views(#[trigger] keys@[a]@) == path_parts(tree@[a].path@),
            file_tree_of(results@.take(i as int), tree@),
        decreases results.len() - i,
    {
        add_to_tree(&mut tree, &mut keys, Ghost(results@.take(i as int)), &results[i]);
        assert(results@.take(i + 1) =~= results@.take(i as int).push(results@[i as int]));
        i += 1;
    }
    assert(results@.take(results.len() as int) =~= results@);
    tree
}

// ---------------------------------------------------------------------------
// Results shown for the selected file
// ---------------------------------------------------------------------------

/// The results `results[start..=end]`, where `start` and `end` are the first and
/// last results in the file `p`.
pub open spec fn file_block(results: Seq<MatchResult>, p: Seq<char>, start: int, end: int) -> bool {
    &&& 0 <= start <= end < results.len()
    &&& same_path(results[start].file_path@, p)
    &&& same_path(results[end].file_path@, p)
    &&& forall|j: int| 0 <= j < start ==> !same_path(#[trigger] results[j].file_path@, p)
    &&& forall|j: int| end < j < results.len() ==> !same_path(#[trigger] results[j].file_path@, p)
}

/// The empty slice.
fn empty_slice(v: &Vec<MatchResult>) -> (r: &[MatchResult])
    ensures
        r@ == Seq::<MatchResult>::empty(),
{
    vstd::slice::slice_subrange(v.as_slice(), 0, 0)
}

impl AppState {
    /// The screen before anything happened.
    pub fn new() -> (s: AppState)
        ensures
            s.query_input@ == Seq::<char>::empty(),
            s.submitted_query is None,
            s.results@ == Seq::<MatchResult>::empty(),
            s.selected_index == 0,
            s.file_tree@ == Seq::<FileTreeEntry>::empty(),
            s.selected_file_index == 0,
            s.scroll_offset == 0,
            s.ast_scroll_offset == 0,
            !s.search_running,
            s.error_message is None,
            !s.should_quit,
            s.frame_count == 0,
    {
        AppState {
            query_input: String::new(),
            submitted_query: None,
            results: Vec::new(),
            selected_index: 0,
            file_tree: Vec::new(),
            selected_file_index: 0,
            scroll_offset: 0,
            ast_scroll_offset: 0,
            search_running: false,
            error_message: None,
            should_quit: false,
            frame_count: 0,
        }
    }

    /// Adds results: all results are sorted with duplicates dropped, the file
    /// tree is rebuilt, and the selections are moved back into range.
    pub fn append_results(&mut self, new_results: Vec<MatchResult>)
        ensures
            appended(*old(self), new_results@, *final(self)),
    {
        let mut all = duplicate_all(&self.results);
        let mut i: usize = 0;
        let ghost start = all@;
        while i < new_results.len()
            invariant
                i <= new_results.len(),
                all@ == start + new_results@.take(i as int),
            decreases new_results.len() - i,
        {
            all.push(new_results[i].duplicate());
            assert(new_results@.take(i + 1) =~= new_results@.take(i as int).push(new_results@[i as int]));
            i += 1;
        }
        assert(new_results@.take(new_results.len() as int) =~= new_results@);
        self.results = sort_and_dedup(&all);
        self.rebuild_file_tree();
        if !self.results.is_empty() {
            if self.selected_index >= self.results.len() {
                self.selected_index = self.results.len() - 1;
            }
        } else {
            self.selected_index = 0;
            self.selected_file_index = 0;
        }
        if self.selected_file_index >= self.file_tree.len() && !self.file_tree.is_empty() {
            self.selected_file_index = self.file_tree.len() - 1;
        }
    }

    /// Drops every result and resets both selections.
    pub fn clear_results(&mut self)
        ensures
            cleared(*old(self), *final(self)),
    {
        self.results.clear();
        self.file_tree.clear();
        self.selected_index = 0;
        self.selected_file_index = 0;
    }

    /// Rebuilds the file tree from the results.
    pub fn rebuild_file_tree(&mut self)
        ensures
            file_tree_of(final(self).results@, final(self).file_tree@),
            *final(self) == (AppState { file_tree: final(self).file_tree, ..*old(self) }),
    {
        self.file_tree = rebuild_tree(&self.results);
    }

    /// Selects the next file, wrapping to the first.
    pub fn select_next(&mut self)
        requires
            old(self).file_tree.len() > 0 ==> old(self).selected_file_index < usize::MAX,
        ensures
            *final(self) == selected_next(*old(self)),
    {
        if self.file_tree.is_empty() {
            return;
        }
        self.selected_file_index = (self.selected_file_index + 1) % self.file_tree.len();
        self.scroll_offset = 0;
    }

    /// Selects the previous file, wrapping to the last.
    pub fn select_prev(&mut self)
        ensures
            *final(self) == selected_prev(*old(self)),
    {
        if self.file_tree.is_empty() {
            return;
        }
        if self.selected_file_index == 0 {
            self.selected_file_index = self.file_tree.len() - 1;
        } else {
            self.selected_file_index -= 1;
        }
        self.scroll_offset = 0;
    }

    /// Scrolls one line down, stopping at the largest offset.
    pub fn scroll_down(&mut self)
        ensures
            *final(self) == (AppState {
                scroll_offset: if old(self).scroll_offset == usize::MAX {
                    usize::MAX
                } else {
                    (old(self).scroll_offset + 1) as usize
                },
                ..*old(self)
            }),
    {
        self.scroll_offset = self.scroll_offset.saturating_add(1);
    }

    /// Scrolls one line up, stopping at the top.
    pub fn scroll_up(&mut self)
        ensures
            *final(self) == (AppState {
                scroll_offset: if old(self).scroll_offset == 0 {
                    0
                } else {
                    (old(self).scroll_offset - 1) as usize
                },
                ..*old(self)
            }),
    {
        self.scroll_offset = self.scroll_offset.saturating_sub(1);
    }

    /// The results in the selected file: from the first to the last result in
    /// that file; nothing when no file is selected or none of the results is in it.
    pub fn results_for_selected_file(&self) -> (r: &[MatchResult])
        ensures
            (self.file_tree@.len() == 0 || self.selected_file_index >= self.file_tree@.len())
                ==> r@.len() == 0,
            self.selected_file_index < self.file_tree@.len() ==> {
                let p = self.file_tree@[self.selected_file_index as int].path@;
                ||| (r@.len() == 0 && forall|j: int|
                    0 <= j < self.results@.len() ==> !same_path(#[trigger] self.results@[j].file_path@, p))
                ||| exists|start: int, end: int|
                    file_block(self.results@, p, start, end) && r@ == self.results@.subrange(start, end + 1)
            },
    {
        if self.file_tree.is_empty() {
            return empty_slice(&self.results);
        }
        if self.selected_file_index >= self.file_tree.len() {
            return empty_slice(&self.results);
        }
        let path = &self.file_tree[self.selected_file_index].path;
        let ghost p = path@;
        let kp = path_components(path.as_str());
        let mut start: usize = 0;
        let mut found = false;
        while start < self.results.len()
            invariant
                part_views(kp@) == path_parts(p),
                start <= self.results.len(),
                forall|j: int| 0 <= j < start ==> !same_path(#[trigger] self.results@[j].file_path@, p),
                found ==> start < self.results.len() && same_path(self.results@[start as int].file_path@, p),
            ensures
                start <= self.results.len(),
                forall|j: int| 0 <= j < start ==> !same_path(#[trigger] self.results@[j].file_path@, p),
                found ==> start < self.results.len() && same_path(self.results@[start as int].file_path@, p),
                !found ==> start == self.results.len(),
            decreases self.results.len() - start,
        {
            let kr = path_components(self.results[start].file_path.as_str());
            if compare_components(&kr, &kp) == Rel::Equal {
                found = true;
                break;
            }
            proof {
                lemma_parts_lt_irreflexive(path_parts(p));
            }
            start += 1;
        }
        if !found {
            return empty_slice(&self.results);
        }
        let mut end: usize = self.results.len() - 1;
        while end > start
            invariant
                part_views(kp@) == path_parts(p),
                start <= end < self.results.len(),
                same_path(self.results@[start as int].file_path@, p),
                forall|j: int| end < j < self.results.len() ==> !same_path(#[trigger] self.results@[j].file_path@, p),
            ensures
                start <= end < self.results.len(),
                same_path(self.results@[end as int].file_path@, p),
                forall|j: int| end < j < self.results.len() ==> !same_path(#[trigger] self.results@[j].file_path@, p),
            decreases end - start,
        {
            let kr = path_components(self.results[end].file_path.as_str());
            if compare_components(&kr, &kp) == Rel::Equal {
                break;
            }
            proof {
                lemma_parts_lt_irreflexive(path_parts(p));
            }
            end -= 1;
        }
        let r = vstd::slice::slice_subrange(self.results.as_slice(), start, end + 1);
        assert(file_block(self.results@, p, start as int, end as int));
        r
    }
}

/// Removes the last character of a `String` (`String::pop`).
/// Trusted: the string loses its last character, if it has one, and that
/// character comes back.
#[verifier::external_body]
fn string_pop(s: &mut String) -> (r: Option<char>)
    ensures
        old(s)@.len() == 0 ==> r is None && final(s)@ == old(s)@,
        old(s)@.len() > 0 ==> r == Some(old(s)@.last()) && final(s)@ == old(s)@.drop_last(),
{
    s.pop()
}

/// Whether the event is a key that selects the next file.
pub open spec fn selects_next(e: AppEvent) -> bool {
    e matches AppEvent::Keystroke(k) && (k == KeyCode::Down || k == KeyCode::Char('j'))
}

/// The scroll offset after `n` steps down, stopping at the largest offset.
pub open spec fn scrolled_down(off: usize, n: nat) -> usize {
    if off + n > usize::MAX { usize::MAX } else { (off + n) as usize }
}

/// The scroll offset after `n` steps up, stopping at the top.
pub open spec fn scrolled_up(off: usize, n: nat) -> usize {
    if off < n { 0 } else { (off - n) as usize }
}

/// What `handle_event` does: the state `t` that follows `s` on event `e`, and
/// the command `cmd` sent to the search worker.
pub open spec fn event_effect(s: AppState, e: AppEvent, t: AppState, cmd: Option<SearchCommand>) -> bool {
    match e {
        AppEvent::Keystroke(code) => match code {
            KeyCode::Char('q') | KeyCode::Esc => t == (AppState { should_quit: true, ..s }) && cmd is None,
            KeyCode::Down | KeyCode::Char('j') => t == selected_next(s) && cmd is None,
            KeyCode::Up | KeyCode::Char('k') => t == selected_prev(s) && cmd is None,
            KeyCode::PageDown => t == (AppState { scroll_offset: scrolled_down(s.scroll_offset, 10), ..s })
                && cmd is None,
            KeyCode::PageUp => t == (AppState { scroll_offset: scrolled_up(s.scroll_offset, 10), ..s })
                && cmd is None,
            KeyCode::Char(c) => {
                &&& t.query_input@ == s.query_input@.push(c)
                &&& t == (AppState { query_input: t.query_input, error_message: None, ..s })
                &&& cmd is None
            },
            KeyCode::Backspace => {
                &&& t.query_input@ == (if s.query_input@.len() > 0 {
                    s.query_input@.drop_last()
                } else {
                    s.query_input@
                })
                &&& t == (AppState { query_input: t.query_input, ..s })
                &&& cmd is None
            },
            KeyCode::Enter => if blank(s.query_input@) {
                t == s && cmd is None
            } else {
                &&& cleared(
                    AppState { submitted_query: Some(s.query_input), search_running: true, ..s },
                    t,
                )
                &&& cmd == Some(SearchCommand::Run(s.query_input))
            },
            KeyCode::Other => t == s && cmd is None,
        },
        AppEvent::Tick => t == s && cmd is None,
        AppEvent::SearchResult(results) => appended(s, results@, t) && cmd is None,
        AppEvent::SearchComplete => t == (AppState { search_running: false, ..s }) && cmd is None,
        AppEvent::SearchError(msg) => t == (AppState {
            error_message: Some(msg),
            search_running: false,
            ..s
        }) && cmd is None,
    }
}

/// Applies one event to the screen state and says what the search worker must do.
pub fn handle_event(state: &mut AppState, event: &AppEvent) -> (cmd: Option<SearchCommand>)
    requires
        selects_next(*event) && old(state).file_tree.len() > 0 ==> old(state).selected_file_index
            < usize::MAX,
    ensures
        event_effect(*old(state), *event, *final(state), cmd),
{
    match event {
        AppEvent::Keystroke(key) => match key {
            KeyCode::Char('q') | KeyCode::Esc => {
                state.should_quit = true;
                None
            },
            KeyCode::Down => {
                state.select_next();
                None
            },
            KeyCode::Char('j') => {
                state.select_next();
                None
            },
            KeyCode::Up => {
                state.select_prev();
                None
            },
            KeyCode::Char('k') => {
                state.select_prev();
                None
            },
            KeyCode::PageDown => {
                let mut n: usize = 0;
                let ghost start = *state;
                while n < 10
                    invariant
                        n <= 10,
                        *state == (AppState { scroll_offset: scrolled_down(start.scroll_offset, n as nat), ..start }),
                    decreases 10 - n,
                {
                    state.scroll_down();
                    n += 1;
                }
                None
            },
            KeyCode::PageUp => {
                let mut n: usize = 0;
                let ghost start = *state;
                while n < 10
                    invariant
                        n <= 10,
                        *state == (AppState { scroll_offset: scrolled_up(start.scroll_offset, n as nat), ..start }),
                    decreases 10 - n,
                {
                    state.scroll_up();
                    n += 1;
                }
                None
            },
            KeyCode::Char(c) => {
                string_push(&mut state.query_input, *c);
                state.error_message = None;
                None
            },
            KeyCode::Backspace => {
                string_pop(&mut state.query_input);
                None
            },
            KeyCode::Enter => {
                if !is_blank(state.query_input.as_str()) {
                    state.submitted_query = Some(state.query_input.clone());
                    state.search_running = true;
                    state.clear_results();
                    Some(SearchCommand::Run(state.query_input.clone()))
                } else {
                    None
                }
            },
            KeyCode::Other => None,
        },
        AppEvent::Tick => None,
        AppEvent::SearchResult(results) => {
            state.append_results(duplicate_all(results));
            None
        },
        AppEvent::SearchComplete => {
            state.search_running = false;
            None
        },
        AppEvent::SearchError(msg) => {
            state.error_message = Some(msg.clone());
            state.search_running = false;
            None
        },
    }
}

/// The frame counter after one more frame, wrapping at the top.
pub open spec fn next_frame(n: u64) -> u64 {
    if n == u64::MAX {
        0
    } else {
        (n + 1) as u64
    }
}

/// One turn of the screen's event loop: the event is handled and, unless it
/// ends the session, one more frame is counted. Gives the command for the
/// search worker, if any, and whether the loop goes on.
pub fn run_loop_step(state: &mut AppState, event: &AppEvent) -> (r: (Option<SearchCommand>, bool))
    requires
        selects_next(*event) && old(state).file_tree.len() > 0 ==> old(state).selected_file_index
            < usize::MAX,
    ensures
        event_effect(*old(state), *event, AppState { frame_count: old(state).frame_count, ..*final(state) }, r.0),
        r.1 == !final(state).should_quit,
        final(state).frame_count == (if r.1 {
            next_frame(old(state).frame_count)
        } else {
            old(state).frame_count
        }),
{
    let cmd = handle_event(state, event);
    if state.should_quit {
        return (cmd, false);
    }
    state.frame_count = if state.frame_count == u64::MAX {
        0
    } else {
        state.frame_count + 1
    };
    (cmd, true)
}

/// What the search worker reports for a command: a run reports an empty
/// batch of results and then its completion; a cancel reports nothing.
pub fn worker_reply(cmd: &SearchCommand) -> (events: Vec<AppEvent>)
    ensures
        match cmd {
            SearchCommand::Run(_) => {
                &&& events@.len() == 2
                &&& events@[0] matches AppEvent::SearchResult(v) && v@.len() == 0
                &&& events@[1] is SearchComplete
            },
            SearchCommand::Cancel => events@.len() == 0,
        },
{
    let mut events: Vec<AppEvent> = Vec::new();
    match cmd {
        SearchCommand::Run(_) => {
            events.push(AppEvent::SearchResult(Vec::new()));
            events.push(AppEvent::SearchComplete);
        },
        SearchCommand::Cancel => {},
    }
    events
}

/// `s` after `append_results(new)`.
pub open spec fn appended(s: AppState, new: Seq<MatchResult>, t: AppState) -> bool {
    &&& sorted_unique_of(s.results@ + new, t.results@)
    &&& file_tree_of(t.results@, t.file_tree@)
    &&& t.selected_index == (if t.results@.len() == 0 {
        0
    } else if s.selected_index >= t.results@.len() {
        (t.results@.len() - 1) as usize
    } else {
        s.selected_index
    })
    &&& t.selected_file_index == ({
        let f = if t.results@.len() == 0 { 0 } else { s.selected_file_index };
        if f >= t.file_tree@.len() && t.file_tree@.len() > 0 {
            (t.file_tree@.len() - 1) as usize
        } else {
            f
        }
    })
    &&& t == (AppState {
        results: t.results,
        file_tree: t.file_tree,
        selected_index: t.selected_index,
        selected_file_index: t.selected_file_index,
        ..s
    })
}

/// `s` after `clear_results()`.
pub open spec fn cleared(s: AppState, t: AppState) -> bool {
    &&& t.results@ == Seq::<MatchResult>::empty()
    &&& t.file_tree@ == Seq::<FileTreeEntry>::empty()
    &&& t == (AppState { results: t.results, file_tree: t.file_tree, selected_index: 0, selected_file_index: 0, ..s })
}

/// `s` after `select_next()`.
pub open spec fn selected_next(s: AppState) -> AppState {
    if s.file_tree@.len() == 0 {
        s
    } else {
        AppState {
            selected_file_index: ((s.selected_file_index + 1) % (s.file_tree@.len() as int)) as usize,
            scroll_offset: 0,
            ..s
        }
    }
}

/// `s` after `select_prev()`.
pub open spec fn selected_prev(s: AppState) -> AppState {
    if s.file_tree@.len() == 0 {
        s
    } else {
        AppState {
            selected_file_index: if s.selected_file_index == 0 {
                (s.file_tree@.len() - 1) as usize
            } else {
                (s.selected_file_index - 1) as usize
            },
            scroll_offset: 0,
            ..s
        }
    }
}

/// Moving to the next file and back again returns to the file that was
/// selected, and so does moving back and then forward; either way the view is
/// scrolled to the top.
pub proof fn lemma_select_next_prev_inverse(s: AppState)
    requires
        0 < s.file_tree@.len() <= usize::MAX,
        s.selected_file_index < s.file_tree@.len(),
    ensures
        selected_prev(selected_next(s)) == (AppState { scroll_offset: 0, ..s }),
        selected_next(selected_prev(s)) == (AppState { scroll_offset: 0, ..s }),
{
    let n = s.file_tree@.len() as int;
    let i = s.selected_file_index as int;
    let goal = AppState { scroll_offset: 0, ..s };
    let fwd = selected_next(s);
    if i + 1 < n {
        assert((i + 1) % n == i + 1) by (nonlinear_arith)
            requires 0 <= i + 1 < n;
        assert(fwd.selected_file_index == i + 1);
    } else {
        assert((i + 1) % n == 0) by (nonlinear_arith)
            requires i + 1 == n, n > 0;
        assert(fwd.selected_file_index == 0);
    }
    assert(selected_prev(fwd) == goal);
    let back = selected_prev(s);
    if i == 0 {
        assert(back.selected_file_index == n - 1);
        assert((n - 1 + 1) % n == 0) by (nonlinear_arith)
            requires n > 0;
    } else {
        assert(back.selected_file_index == i - 1);
        assert((i - 1 + 1) % n == i) by (nonlinear_arith)
            requires 0 < i < n;
    }
    assert(selected_next(back) == goal);
}

/// Once results have arrived, both selections point at existing entries: the
/// selected result is a result and the selected file a file of the tree.
pub proof fn lemma_append_keeps_selection_in_range(s: AppState, new: Seq<MatchResult>, t: AppState)
    requires
        appended(s, new, t),
    ensures
        t.results@.len() > 0 ==> t.selected_index < t.results@.len(),
        t.results@.len() == 0 ==> t.selected_index == 0,
        t.file_tree@.len() > 0 ==> t.selected_file_index < t.file_tree@.len(),
{
}

/// Submitting a query that is not blank empties the screen, whatever it held:
/// no results, no files, both selections back at the top, and the search for
/// exactly the typed query starts.
pub proof fn lemma_submit_clears_screen(s: AppState, t: AppState, cmd: Option<SearchCommand>)
    requires
        event_effect(s, AppEvent::Keystroke(KeyCode::Enter), t, cmd),
        !blank(s.query_input@),
    ensures
        t.results@.len() == 0,
        t.file_tree@.len() == 0,
        t.selected_index == 0,
        t.selected_file_index == 0,
        t.search_running,
        t.submitted_query == Some(s.query_input),
        t.query_input == s.query_input,
        cmd == Some(SearchCommand::Run(s.query_input)),
{
}

/// The results a new search brings in replace those of the search before: after
/// a query is submitted, the first results to arrive are all the screen shows
/// (sorted, without duplicates), and the file tree is built from them alone.
pub proof fn lemma_new_search_starts_empty(
    s: AppState,
    t: AppState,
    cmd: Option<SearchCommand>,
    results: Vec<MatchResult>,
    u: AppState,
    reply: Option<SearchCommand>,
)
    requires
        event_effect(s, AppEvent::Keystroke(KeyCode::Enter), t, cmd),
        !blank(s.query_input@),
        event_effect(t, AppEvent::SearchResult(results), u, reply),
    ensures
        sorted_unique_of(results@, u.results@),
        file_tree_of(u.results@, u.file_tree@),
        u.submitted_query == Some(s.query_input),
{
    assert(t.results@ + results@ =~= results@);
}

} // verus!
