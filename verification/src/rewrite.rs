//! Turning matches into text edits and applying edits to source text.
use vstd::prelude::*;
use vstd::utf8::*;
use crate::template::{Captures, RewriteTemplate, template_output};
use crate::text::{push_decimal, push_str, str_equal, decimal, owned};
use crate::order::{Component, Rel, compare_components, lemma_parts_lt_irreflexive, part_views, path_components, path_parts, same_path};
use crate::types::MatchResult;

verus! {

/// One replacement of the bytes `start_byte..end_byte` of a file by `new_text`.
#[derive(Clone, Debug, PartialEq, Eq)]
pub struct RewriteEdit {
    pub file_path: String,
    pub start_byte: usize,
    pub end_byte: usize,
    pub new_text: String,
}

/// What an edit says, as plain values.
pub struct EditView {
    pub path: Seq<char>,
    pub start: usize,
    pub end: usize,
    pub text: Seq<char>,
}

impl View for RewriteEdit {
    type V = EditView;

    open spec fn view(&self) -> EditView {
        EditView {
            path: self.file_path@,
            start: self.start_byte,
            end: self.end_byte,
            text: self.new_text@,
        }
    }
}

pub open spec fn edit_views(s: Seq<RewriteEdit>) -> Seq<EditView> {
    s.map_values(|e: RewriteEdit| e@)
}

impl RewriteEdit {
    /// A field-by-field copy.
    pub fn duplicate(&self) -> (r: RewriteEdit)
        ensures
            r == *self,
    {
        RewriteEdit {
            file_path: self.file_path.clone(),
            start_byte: self.start_byte,
            end_byte: self.end_byte,
            new_text: self.new_text.clone(),
        }
    }
}

// ---------------------------------------------------------------------------
// From matches to edits
// ---------------------------------------------------------------------------

/// The captures of one result: its capture name bound to its matched text.
pub open spec fn single_capture(r: MatchResult) -> Map<Seq<char>, Seq<char>> {
    Map::<Seq<char>, Seq<char>>::empty().insert(r.capture_name@, r.matched_text@)
}

/// Whether rewriting a result changes anything: a result is left alone only
/// when the template, with nothing substituted into it, is its matched text.
pub open spec fn rewrite_changes(raw: Seq<char>, matched: Seq<char>, rewritten: Seq<char>) -> bool {
    rewritten != matched || rewritten != raw
}

/// The edits for `results`: one per result that rewriting changes, in the
/// order of the results.
pub open spec fn expected_edits(results: Seq<MatchResult>, raw: Seq<char>) -> Seq<EditView>
    decreases results.len(),
{
    if results.len() == 0 {
        seq![]
    } else {
        let prev = expected_edits(results.drop_last(), raw);
        let r = results.last();
        let t = template_output(raw, single_capture(r));
        if rewrite_changes(raw, r.matched_text@, t) {
            prev.push(EditView { path: r.file_path@, start: r.start_byte, end: r.end_byte, text: t })
        } else {
            prev
        }
    }
}

/// Rewrites each result's matched text through the template (with the result's
/// own capture as the only capture) and keeps an edit for each result that
/// the rewrite changes: where the rewritten text differs from the matched
/// text, or a capture was substituted into the template.
pub fn compute_edits(results: &[MatchResult], template: &RewriteTemplate) -> (edits: Vec<RewriteEdit>)
    ensures
        edit_views(edits@) == expected_edits(results@, template.raw@),
{
    let mut edits: Vec<RewriteEdit> = Vec::new();
    let mut i: usize = 0;
    while i < results.len()
        invariant
            i <= results.len(),
            edit_views(edits@) == expected_edits(results@.take(i as int), template.raw@),
        decreases results.len() - i,
    {
        let r = &results[i];
        let mut map = Captures::new();
        map.insert(r.capture_name.as_str(), r.matched_text.as_str());
        assert(map@ =~= single_capture(*r));
        let new_text = template.apply(&map);
        assert(results@.take(i + 1).drop_last() =~= results@.take(i as int));
        assert(results@.take(i + 1).last() == *r);
        if !str_equal(new_text.as_str(), r.matched_text.as_str()) || !str_equal(
            new_text.as_str(),
            template.raw.as_str(),
        ) {
            let ghost before = edits@;
            let e = RewriteEdit {
                file_path: r.file_path.clone(),
                start_byte: r.start_byte,
                end_byte: r.end_byte,
                new_text,
            };
            edits.push(e);
            assert(edit_views(edits@) =~= edit_views(before).push(e@));
        }
        i += 1;
    }
    assert(results@.take(results.len() as int) =~= results@);
    edits
}

// ---------------------------------------------------------------------------
// Applying edits to a source text
// ---------------------------------------------------------------------------

/// `s` with `e` placed after every element whose start is at most `e`'s:
/// one step of a stable sort by ascending start.
pub open spec fn insert_ascending(s: Seq<EditView>, e: EditView) -> Seq<EditView>
    decreases s.len(),
{
    if s.len() == 0 {
        seq![e]
    } else if s[0].start <= e.start {
        seq![s[0]] + insert_ascending(s.drop_first(), e)
    } else {
        seq![e] + s
    }
}

/// `s` with `e` placed after every element whose start is at least `e`'s:
/// one step of a stable sort by descending start.
pub open spec fn insert_descending(s: Seq<EditView>, e: EditView) -> Seq<EditView>
    decreases s.len(),
{
    if s.len() == 0 {
        seq![e]
    } else if s[0].start >= e.start {
        seq![s[0]] + insert_descending(s.drop_first(), e)
    } else {
        seq![e] + s
    }
}

/// The edits stably sorted by ascending start (`sort_by_key(|e| e.start_byte)`).
pub open spec fn sort_ascending(s: Seq<EditView>) -> Seq<EditView>
    decreases s.len(),
{
    if s.len() == 0 {
        seq![]
    } else {
        insert_ascending(sort_ascending(s.drop_last()), s.last())
    }
}

/// The edits stably sorted by descending start.
pub open spec fn sort_descending(s: Seq<EditView>) -> Seq<EditView>
    decreases s.len(),
{
    if s.len() == 0 {
        seq![]
    } else {
        insert_descending(sort_descending(s.drop_last()), s.last())
    }
}

/// The first `i` (from `from` on) at which edit `i` ends after edit `i + 1` starts.
pub open spec fn first_overlap(s: Seq<EditView>, from: int) -> Option<int>
    decreases s.len() - from,
{
    if from < 0 || from + 1 >= s.len() {
        None
    } else if s[from].end > s[from + 1].start {
        Some(from)
    } else {
        first_overlap(s, from + 1)
    }
}

/// `buf` with the bytes `start..end` replaced by `text`.
pub open spec fn splice(buf: Seq<u8>, start: int, end: int, text: Seq<u8>) -> Seq<u8> {
    buf.take(start) + text + buf.skip(end)
}

/// Applies the edits one after the other, each to the text the previous ones
/// left; stops at the first edit whose range does not fit the current text.
pub open spec fn apply_in_order(buf: Seq<u8>, edits: Seq<EditView>) -> Result<Seq<u8>, EditView>
    decreases edits.len(),
{
    if edits.len() == 0 {
        Ok(buf)
    } else {
        let e = edits[0];
        if e.end > buf.len() || e.start > e.end {
            Err(e)
        } else {
            apply_in_order(splice(buf, e.start as int, e.end as int, encode_utf8(e.text)), edits.drop_first())
        }
    }
}

pub open spec fn overlap_message(a: EditView, b: EditView) -> Seq<char> {
    "overlapping edits: "@ + decimal(a.start as nat) + "-"@ + decimal(a.end as nat) + " and "@
        + decimal(b.start as nat) + "-"@ + decimal(b.end as nat)
}

pub open spec fn range_message(e: EditView) -> Seq<char> {
    "invalid edit range: "@ + decimal(e.start as nat) + "-"@ + decimal(e.end as nat)
}

/// What applying `edits` to `source` gives: the source itself when there are no
/// edits; an error naming the first overlapping pair in start order; otherwise
/// the edits applied from the last start to the first, an error naming the first
/// one whose range does not fit, or an error when the bytes are not UTF-8.
pub open spec fn edits_outcome(source: Seq<char>, edits: Seq<EditView>) -> Result<Seq<char>, Seq<char>> {
    if edits.len() == 0 {
        Ok(source)
    } else {
        let asc = sort_ascending(edits);
        match first_overlap(asc, 0) {
            Some(i) => Err(overlap_message(asc[i], asc[i + 1])),
            None => match apply_in_order(encode_utf8(source), sort_descending(edits)) {
                Err(e) => Err(range_message(e)),
                Ok(b) => if valid_utf8(b) {
                    Ok(decode_utf8(b))
                } else {
                    Err("resulting text is not valid UTF-8"@)
                },
            },
        }
    }
}

/// Decodes UTF-8 bytes (`String::from_utf8`). Trusted: it succeeds exactly on
/// valid UTF-8, and then holds the decoded characters.
#[verifier::external_body]
fn string_from_utf8(bytes: Vec<u8>) -> (r: Option<String>)
    ensures
        match r {
            Some(s) => valid_utf8(bytes@) && s@ == decode_utf8(bytes@),
            None => !valid_utf8(bytes@),
        },
{
    String::from_utf8(bytes).ok()
}

proof fn lemma_insert_ascending_at(s: Seq<EditView>, e: EditView, p: int)
    requires
        0 <= p <= s.len(),
        forall|q: int| 0 <= q < p ==> #[trigger] s[q].start <= e.start,
        p < s.len() ==> s[p].start > e.start,
    ensures
        insert_ascending(s, e) == s.insert(p, e),
    decreases p,
{
    if p == 0 {
        if s.len() > 0 {
            assert(seq![e] + s =~= s.insert(0, e));
        } else {
            assert(seq![e] =~= s.insert(0, e));
        }
    } else {
        let t = s.drop_first();
        assert forall|q: int| 0 <= q < p - 1 implies #[trigger] t[q].start <= e.start by {
            assert(t[q] == s[q + 1]);
        }
        lemma_insert_ascending_at(t, e, p - 1);
        assert(seq![s[0]] + t.insert(p - 1, e) =~= s.insert(p, e));
    }
}

proof fn lemma_insert_descending_at(s: Seq<EditView>, e: EditView, p: int)
    requires
        0 <= p <= s.len(),
        forall|q: int| 0 <= q < p ==> #[trigger] s[q].start >= e.start,
        p < s.len() ==> s[p].start < e.start,
    ensures
        insert_descending(s, e) == s.insert(p, e),
    decreases p,
{
    if p == 0 {
        if s.len() > 0 {
            assert(seq![e] + s =~= s.insert(0, e));
        } else {
            assert(seq![e] =~= s.insert(0, e));
        }
    } else {
        let t = s.drop_first();
        assert forall|q: int| 0 <= q < p - 1 implies #[trigger] t[q].start >= e.start by {
            assert(t[q] == s[q + 1]);
        }
        lemma_insert_descending_at(t, e, p - 1);
        assert(seq![s[0]] + t.insert(p - 1, e) =~= s.insert(p, e));
    }
}

/// Whether an edit starting at `placed` stays ahead of a new one starting at `new`.
fn stays_ahead(placed: usize, new: usize, descending: bool) -> (r: bool)
    ensures
        r == (if descending { placed >= new } else { placed <= new }),
{
    if descending {
        placed >= new
    } else {
        placed <= new
    }
}

/// The edits stably sorted by start, ascending or descending.
fn sorted_edits(edits: &[RewriteEdit], descending: bool) -> (r: Vec<RewriteEdit>)
    ensures
        edit_views(r@) == (if descending {
            sort_descending(edit_views(edits@))
        } else {
            sort_ascending(edit_views(edits@))
        }),
{
    let ghost all = edit_views(edits@);
    let mut r: Vec<RewriteEdit> = Vec::new();
    let mut i: usize = 0;
    while i < edits.len()
        invariant
            i <= edits.len(),
            all == edit_views(edits@),
            edit_views(r@) == (if descending {
                sort_descending(all.take(i as int))
            } else {
                sort_ascending(all.take(i as int))
            }),
        decreases edits.len() - i,
    {
        let e = &edits[i];
        let ghost rv = edit_views(r@);
        let mut p: usize = 0;
        while p < r.len() && stays_ahead(r[p].start_byte, e.start_byte, descending)
            invariant
                p <= r.len(),
                rv == edit_views(r@),
                forall|q: int|
                    0 <= q < p ==> (if descending {
                        #[trigger] rv[q].start >= e.start_byte
                    } else {
                        rv[q].start <= e.start_byte
                    }),
            decreases r.len() - p,
        {
            p += 1;
        }
        proof {
            if descending {
                lemma_insert_descending_at(rv, e@, p as int);
            } else {
                lemma_insert_ascending_at(rv, e@, p as int);
            }
            assert(all.take(i + 1).drop_last() =~= all.take(i as int));
            assert(all.take(i + 1).last() == e@);
        }
        r.insert(p, e.duplicate());
        assert(edit_views(r@) =~= rv.insert(p as int, e@));
        i += 1;
    }
    assert(all.take(edits.len() as int) =~= all);
    r
}

fn splice_bytes(buf: &Vec<u8>, start: usize, end: usize, text: &[u8]) -> (r: Vec<u8>)
    requires
        start <= end <= buf.len(),
    ensures
        r@ == splice(buf@, start as int, end as int, text@),
{
    let mut r: Vec<u8> = Vec::new();
    let mut i: usize = 0;
    while i < start
        invariant
            i <= start <= end <= buf.len(),
            r@ == buf@.take(i as int),
        decreases start - i,
    {
        r.push(buf[i]);
        assert(buf@.take(i + 1) =~= buf@.take(i as int).push(buf@[i as int]));
        i += 1;
    }
    let mut j: usize = 0;
    while j < text.len()
        invariant
            j <= text.len(),
            r@ == buf@.take(start as int) + text@.take(j as int),
        decreases text.len() - j,
    {
        r.push(text[j]);
        assert(text@.take(j + 1) =~= text@.take(j as int).push(text@[j as int]));
        j += 1;
    }
    assert(text@.take(text.len() as int) =~= text@);
    let mut k: usize = end;
    while k < buf.len()
        invariant
            end <= k <= buf.len(),
            r@ == buf@.take(start as int) + text@ + buf@.subrange(end as int, k as int),
        decreases buf.len() - k,
    {
        r.push(buf[k]);
        assert(buf@.subrange(end as int, k + 1) =~= buf@.subrange(end as int, k as int).push(buf@[k as int]));
        k += 1;
    }
    assert(buf@.subrange(end as int, buf.len() as int) =~= buf@.skip(end as int));
    r
}

fn push_edit_range(s: &mut String, e: &RewriteEdit)
    ensures
        final(s)@ == old(s)@ + decimal(e.start_byte as nat) + "-"@ + decimal(e.end_byte as nat),
{
    push_decimal(s, e.start_byte);
    push_str(s, "-");
    push_decimal(s, e.end_byte);
}

/// Applies edits to a source text. Edits are checked for overlap in order of
/// their start, then applied from the last start to the first, so that each
/// edit's byte offsets still refer to the text it was computed against.
pub fn apply_edits_to_source(source: &str, edits: &[RewriteEdit]) -> (r: Result<String, String>)
    ensures
        match r {
            Ok(s) => edits_outcome(source@, edit_views(edits@)) == Ok::<Seq<char>, Seq<char>>(s@),
            Err(m) => edits_outcome(source@, edit_views(edits@)) == Err::<Seq<char>, Seq<char>>(m@),
        },
{
    if edits.len() == 0 {
        return Ok(owned(source));
    }
    let by_start = sorted_edits(edits, false);
    let ghost asc = edit_views(by_start@);
    let mut w: usize = 0;
    while by_start.len() > 1 && w < by_start.len() - 1
        invariant
            asc == edit_views(by_start@),
            asc == sort_ascending(edit_views(edits@)),
            edits.len() > 0,
            w <= by_start.len(),
            first_overlap(asc, 0) == first_overlap(asc, w as int),
        decreases by_start.len() - w,
    {
        if by_start[w].end_byte > by_start[w + 1].start_byte {
            assert(asc[w as int] == by_start@[w as int]@);
            assert(asc[w + 1] == by_start@[w + 1]@);
            assert(first_overlap(asc, w as int) == Some(w as int));
            let mut msg = owned("overlapping edits: ");
            push_edit_range(&mut msg, &by_start[w]);
            push_str(&mut msg, " and ");
            push_edit_range(&mut msg, &by_start[w + 1]);
            assert(msg@ == overlap_message(asc[w as int], asc[w + 1]));
            assert(edit_views(edits@).len() > 0);
            assert(edits_outcome(source@, edit_views(edits@)) == Err::<Seq<char>, Seq<char>>(msg@));
            return Err(msg);
        }
        assert(asc[w as int] == by_start@[w as int]@);
        assert(asc[w + 1] == by_start@[w + 1]@);
        w += 1;
    }
    assert(first_overlap(asc, w as int) is None);
    let by_desc = sorted_edits(edits, true);
    let ghost desc = edit_views(by_desc@);
    let mut buffer: Vec<u8> = Vec::new();
    let src_bytes = source.as_bytes();
    let mut b: usize = 0;
    while b < src_bytes.len()
        invariant
            b <= src_bytes.len(),
            buffer@ == src_bytes@.take(b as int),
        decreases src_bytes.len() - b,
    {
        buffer.push(src_bytes[b]);
        assert(src_bytes@.take(b + 1) =~= src_bytes@.take(b as int).push(src_bytes@[b as int]));
        b += 1;
    }
    assert(src_bytes@.take(src_bytes.len() as int) =~= src_bytes@);
    let mut k: usize = 0;
    assert(desc.skip(0) =~= desc);
    while k < by_desc.len()
        invariant
            k <= by_desc.len(),
            desc == edit_views(by_desc@),
            desc == sort_descending(edit_views(edits@)),
            edits.len() > 0,
            first_overlap(sort_ascending(edit_views(edits@)), 0) is None,
            apply_in_order(encode_utf8(source@), desc) == apply_in_order(buffer@, desc.skip(k as int)),
        decreases by_desc.len() - k,
    {
        let e = &by_desc[k];
        let ghost rest = desc.skip(k as int);
        assert(rest[0] == e@);
        assert(rest.drop_first() =~= desc.skip(k + 1));
        if e.end_byte > buffer.len() || e.start_byte > e.end_byte {
            assert(apply_in_order(buffer@, rest) == Err::<Seq<u8>, EditView>(e@));
            let mut msg = owned("invalid edit range: ");
            push_edit_range(&mut msg, e);
            return Err(msg);
        }
        let text = e.new_text.as_str().as_bytes();
        buffer = splice_bytes(&buffer, e.start_byte, e.end_byte, text);
        k += 1;
    }
    assert(desc.skip(by_desc.len() as int) =~= Seq::<EditView>::empty());
    match string_from_utf8(buffer) {
        Some(s) => Ok(s),
        None => Err(owned("resulting text is not valid UTF-8")),
    }
}

// ---------------------------------------------------------------------------
// Edits replace their own ranges of the original
// ---------------------------------------------------------------------------

/// `buf` with the range of each edit of `asc` (listed by ascending start)
/// replaced by the edit's text, every range taken in `buf` itself.
pub open spec fn replace_ranges(buf: Seq<u8>, asc: Seq<EditView>) -> Seq<u8>
    decreases asc.len(),
{
    if asc.len() == 0 {
        buf
    } else {
        let e = asc.last();
        replace_ranges(buf.take(e.start as int), asc.drop_last()) + encode_utf8(e.text) + buf.skip(
            e.end as int,
        )
    }
}

/// Edits listed by start that start at distinct offsets, each ending no later
/// than the next one starts, and the last one ending within `len` bytes.
pub open spec fn well_spaced(asc: Seq<EditView>, len: int) -> bool {
    &&& forall|i: int| 0 <= i < asc.len() ==> (#[trigger] asc[i]).start <= asc[i].end
    &&& forall|i: int|
        0 <= i < asc.len() - 1 ==> (#[trigger] asc[i]).end <= asc[i + 1].start && asc[i].start
            < asc[i + 1].start
    &&& asc.len() > 0 ==> asc.last().end <= len
}

proof fn lemma_well_spaced_init(asc: Seq<EditView>, len: int)
    requires
        asc.len() > 0,
        well_spaced(asc, len),
    ensures
        well_spaced(asc.drop_last(), asc.last().start as int),
{
    let init = asc.drop_last();
    assert forall|i: int| 0 <= i < init.len() implies (#[trigger] init[i]).start <= init[i].end by {
        assert(init[i] == asc[i]);
    }
    assert forall|i: int| 0 <= i < init.len() - 1 implies (#[trigger] init[i]).end <= init[i + 1].start
        && init[i].start < init[i + 1].start by {
        assert(init[i] == asc[i]);
        assert(init[i + 1] == asc[i + 1]);
    }
    if init.len() > 0 {
        assert(asc[asc.len() - 2].end <= asc[asc.len() - 1].start);
    }
}

/// Applying a chain of edits from the last to the first never looks past the
/// edited prefix: whatever follows it is carried along unchanged.
proof fn lemma_back_to_front(buf: Seq<u8>, asc: Seq<EditView>, tail: Seq<u8>)
    requires
        well_spaced(asc, buf.len() as int),
    ensures
        apply_in_order(buf + tail, asc.reverse()) == Ok::<Seq<u8>, EditView>(replace_ranges(buf, asc) + tail),
    decreases asc.len(),
{
    if asc.len() == 0 {
        assert(asc.reverse() =~= Seq::<EditView>::empty());
    } else {
        let e = asc.last();
        let init = asc.drop_last();
        let t = encode_utf8(e.text);
        let x = buf.take(e.start as int);
        let rest_tail = t + buf.skip(e.end as int) + tail;
        assert(asc.reverse()[0] == e);
        assert(asc.reverse().drop_first() =~= init.reverse());
        assert(e.start <= e.end);
        assert(splice(buf + tail, e.start as int, e.end as int, t) =~= x + rest_tail);
        lemma_well_spaced_init(asc, buf.len() as int);
        lemma_back_to_front(x, init, rest_tail);
        assert(replace_ranges(x, init) + rest_tail =~= replace_ranges(buf, asc) + tail);
    }
}

/// The index at which `insert_ascending` places `e`: the first element that
/// starts after `e`.
pub open spec fn first_after(s: Seq<EditView>, e: EditView) -> int
    decreases s.len(),
{
    if s.len() == 0 {
        0
    } else if s[0].start > e.start {
        0
    } else {
        1 + first_after(s.drop_first(), e)
    }
}

proof fn lemma_first_after(s: Seq<EditView>, e: EditView)
    ensures
        0 <= first_after(s, e) <= s.len(),
        forall|q: int| 0 <= q < first_after(s, e) ==> #[trigger] s[q].start <= e.start,
        first_after(s, e) < s.len() ==> s[first_after(s, e)].start > e.start,
    decreases s.len(),
{
    if s.len() > 0 && s[0].start <= e.start {
        lemma_first_after(s.drop_first(), e);
        assert forall|q: int| 0 <= q < first_after(s, e) implies #[trigger] s[q].start <= e.start by {
            if q > 0 {
                assert(s[q] == s.drop_first()[q - 1]);
            }
        }
    }
}

pub open spec fn strictly_ascending(s: Seq<EditView>) -> bool {
    forall|i: int, j: int| 0 <= i < j < s.len() ==> (#[trigger] s[i]).start < (#[trigger] s[j]).start
}

/// With distinct starts, sorting descending gives the ascending order reversed.
proof fn lemma_descending_is_reverse(edits: Seq<EditView>)
    requires
        strictly_ascending(sort_ascending(edits)),
    ensures
        sort_descending(edits) == sort_ascending(edits).reverse(),
    decreases edits.len(),
{
    if edits.len() > 0 {
        let x = edits.last();
        let s = sort_ascending(edits.drop_last());
        let n = s.len();
        lemma_first_after(s, x);
        let p = first_after(s, x);
        lemma_insert_ascending_at(s, x, p);
        let full = s.insert(p, x);
        assert(full == sort_ascending(edits));
        assert forall|i: int, j: int| 0 <= i < j < s.len() implies (#[trigger] s[i]).start < (
        #[trigger] s[j]).start by {
            let i2 = if i < p { i } else { i + 1 };
            let j2 = if j < p { j } else { j + 1 };
            assert(full[i2] == s[i] && full[j2] == s[j]);
        }
        lemma_descending_is_reverse(edits.drop_last());
        let r = s.reverse();
        assert forall|q: int| 0 <= q < n - p implies #[trigger] r[q].start >= x.start by {
            assert(r[q] == s[n - 1 - q]);
            assert(full[n - q] == s[n - 1 - q]);
            assert(full[p] == x);
        }
        if n - p < n {
            assert(r[n - p] == s[p - 1]);
            assert(full[p - 1] == s[p - 1]);
            assert(full[p] == x);
        }
        lemma_insert_descending_at(r, x, n - p);
        assert(r.insert(n - p, x) =~= full.reverse());
    }
}

proof fn lemma_insert_multiset(t: Seq<EditView>, p: int, e: EditView)
    requires
        0 <= p <= t.len(),
    ensures
        t.insert(p, e).to_multiset() == t.to_multiset().insert(e),
{
    let u = t.insert(p, e);
    u.to_multiset_ensures();
    assert(u.remove(p) =~= t);
    assert(u[p] == e);
    assert(u.contains(e));
    assert(u.to_multiset() =~= t.to_multiset().insert(e));
}

/// Sorting by start keeps the edits, and puts them in ascending order of start.
proof fn lemma_sort_ascending_sorted(s: Seq<EditView>)
    ensures
        sort_ascending(s).to_multiset() == s.to_multiset(),
        forall|i: int, j: int|
            0 <= i < j < sort_ascending(s).len() ==> (#[trigger] sort_ascending(s)[i]).start <= (
            #[trigger] sort_ascending(s)[j]).start,
    decreases s.len(),
{
    if s.len() == 0 {
        assert(sort_ascending(s) =~= s);
    } else {
        let t = sort_ascending(s.drop_last());
        let e = s.last();
        lemma_sort_ascending_sorted(s.drop_last());
        lemma_first_after(t, e);
        let p = first_after(t, e);
        lemma_insert_ascending_at(t, e, p);
        let u = t.insert(p, e);
        assert(u == sort_ascending(s));
        lemma_insert_multiset(t, p, e);
        s.drop_last().to_multiset_ensures();
        assert(s.drop_last().push(e) =~= s);
        assert forall|i: int, j: int| 0 <= i < j < u.len() implies (#[trigger] u[i]).start <= (#[trigger] u[j]).start by {
            if j < p {
                assert(u[i] == t[i] && u[j] == t[j]);
            } else if j == p {
                assert(u[i] == t[i]);
            } else if i < p {
                assert(u[i] == t[i] && u[j] == t[j - 1]);
                if p < t.len() {
                    assert(t[p].start <= t[j - 1].start);
                }
            } else if i == p {
                assert(u[j] == t[j - 1]);
                assert(t[p].start > e.start);
                assert(t[p].start <= t[j - 1].start);
            } else {
                assert(u[i] == t[i - 1] && u[j] == t[j - 1]);
            }
        }
    }
}

/// Two sequences ordered by start that hold the same edits are equal when one
/// of them has no two edits with one start.
proof fn lemma_sorted_same_edits(s1: Seq<EditView>, s2: Seq<EditView>)
    requires
        strictly_ascending(s1),
        forall|i: int, j: int| 0 <= i < j < s2.len() ==> (#[trigger] s2[i]).start <= (#[trigger] s2[j]).start,
        s1.to_multiset() == s2.to_multiset(),
    ensures
        s1 == s2,
    decreases s1.len(),
{
    s1.to_multiset_ensures();
    s2.to_multiset_ensures();
    if s1.len() == 0 {
        assert(s2.len() == 0);
        assert(s1 =~= s2);
    } else {
        assert(s2.len() > 0);
        assert(s1.contains(s1[0]));
        assert(s2.to_multiset().count(s1[0]) > 0);
        assert(s2.contains(s1[0]));
        let m = choose|m: int| 0 <= m < s2.len() && s2[m] == s1[0];
        assert(s2.contains(s2[0]));
        assert(s1.to_multiset().count(s2[0]) > 0);
        assert(s1.contains(s2[0]));
        let k = choose|k: int| 0 <= k < s1.len() && s1[k] == s2[0];
        if m > 0 {
            assert(s2[0].start <= s2[m].start);
        }
        if k > 0 {
            assert(s1[0].start < s1[k].start);
        }
        assert(k == 0);
        assert(s1[0] == s2[0]);
        let t1 = s1.drop_first();
        let t2 = s2.drop_first();
        assert(s1.remove(0) =~= t1);
        assert(s2.remove(0) =~= t2);
        assert(t1.to_multiset() == t2.to_multiset());
        assert forall|i: int, j: int| 0 <= i < j < t1.len() implies (#[trigger] t1[i]).start < (#[trigger] t1[j]).start by {
            assert(t1[i] == s1[i + 1] && t1[j] == s1[j + 1]);
        }
        assert forall|i: int, j: int| 0 <= i < j < t2.len() implies (#[trigger] t2[i]).start <= (#[trigger] t2[j]).start by {
            assert(t2[i] == s2[i + 1] && t2[j] == s2[j + 1]);
        }
        lemma_sorted_same_edits(t1, t2);
        assert(s1 =~= s2) by {
            assert forall|i: int| 0 <= i < s1.len() implies s1[i] == s2[i] by {
                if i > 0 {
                    assert(s1[i] == t1[i - 1] && s2[i] == t2[i - 1]);
                }
            }
        }
    }
}

proof fn lemma_sort_ascending_strict(s: Seq<EditView>)
    requires
        forall|i: int, j: int| 0 <= i < j < s.len() ==> (#[trigger] s[i]).start != (#[trigger] s[j]).start,
    ensures
        strictly_ascending(sort_ascending(s)),
    decreases s.len(),
{
    if s.len() > 0 {
        let d = s.drop_last();
        let e = s.last();
        assert forall|i: int, j: int| 0 <= i < j < d.len() implies (#[trigger] d[i]).start != (#[trigger] d[j]).start by {
            assert(d[i] == s[i] && d[j] == s[j]);
        }
        lemma_sort_ascending_strict(d);
        lemma_sort_ascending_sorted(d);
        let t = sort_ascending(d);
        t.to_multiset_ensures();
        d.to_multiset_ensures();
        assert forall|q: int| 0 <= q < t.len() implies (#[trigger] t[q]).start != e.start by {
            assert(t.contains(t[q]));
            assert(d.to_multiset().count(t[q]) > 0);
            assert(d.contains(t[q]));
            let k = choose|k: int| 0 <= k < d.len() && d[k] == t[q];
            assert(s[k] == d[k]);
            assert(s[s.len() - 1] == e);
        }
        lemma_first_after(t, e);
        let p = first_after(t, e);
        lemma_insert_ascending_at(t, e, p);
        let u = t.insert(p, e);
        assert(u == sort_ascending(s));
        assert forall|i: int, j: int| 0 <= i < j < u.len() implies (#[trigger] u[i]).start < (#[trigger] u[j]).start by {
            if j < p {
                assert(u[i] == t[i] && u[j] == t[j]);
            } else if j == p {
                assert(u[i] == t[i]);
            } else if i < p {
                assert(u[i] == t[i] && u[j] == t[j - 1]);
            } else if i == p {
                assert(u[j] == t[j - 1]);
                if j - 1 > p {
                    assert(t[p].start < t[j - 1].start);
                }
            } else {
                assert(u[i] == t[i - 1] && u[j] == t[j - 1]);
            }
        }
    }
}

/// The order in which edits are listed does not matter when no two of them
/// start at the same offset: the same edits listed in any other order give the
/// same outcome, text or error, so `apply_edits_to_source` answers the same
/// for both lists.
pub proof fn lemma_edit_order_irrelevant(source: Seq<char>, a: Seq<EditView>, b: Seq<EditView>)
    requires
        forall|i: int, j: int| 0 <= i < j < a.len() ==> (#[trigger] a[i]).start != (#[trigger] a[j]).start,
        a.to_multiset() == b.to_multiset(),
    ensures
        edits_outcome(source, a) == edits_outcome(source, b),
{
    a.to_multiset_ensures();
    b.to_multiset_ensures();
    lemma_sort_ascending_strict(a);
    lemma_sort_ascending_sorted(a);
    lemma_sort_ascending_sorted(b);
    lemma_sorted_same_edits(sort_ascending(a), sort_ascending(b));
    if a.len() > 0 {
        lemma_descending_is_reverse(a);
        lemma_descending_is_reverse(b);
    }
}

/// Edits that, taken by their start, start at distinct offsets, do not overlap
/// and lie within the source replace exactly their own ranges of the original
/// text: applying them from the last to the first gives the same bytes as
/// cutting the original at every edited range.
pub proof fn lemma_edits_replace_their_ranges(source: Seq<char>, edits: Seq<EditView>)
    requires
        edits.len() > 0,
        well_spaced(sort_ascending(edits), encode_utf8(source).len() as int),
    ensures
        ({
            let r = replace_ranges(encode_utf8(source), sort_ascending(edits));
            edits_outcome(source, edits) == if valid_utf8(r) {
                Ok::<Seq<char>, Seq<char>>(decode_utf8(r))
            } else {
                Err::<Seq<char>, Seq<char>>("resulting text is not valid UTF-8"@)
            }
        }),
{
    let asc = sort_ascending(edits);
    let src = encode_utf8(source);
    assert forall|i: int, j: int| 0 <= i < j < asc.len() implies (#[trigger] asc[i]).start < (
    #[trigger] asc[j]).start by {
        lemma_ascending_chain(asc, src.len() as int, i, j);
    }
    lemma_no_overlap(asc, src.len() as int, 0);
    lemma_descending_is_reverse(edits);
    lemma_back_to_front(src, asc, Seq::<u8>::empty());
    assert(src + Seq::<u8>::empty() =~= src);
    assert(replace_ranges(src, asc) + Seq::<u8>::empty() =~= replace_ranges(src, asc));
}

proof fn lemma_ascending_chain(asc: Seq<EditView>, len: int, i: int, j: int)
    requires
        well_spaced(asc, len),
        0 <= i < j < asc.len(),
    ensures
        asc[i].start < asc[j].start,
    decreases j - i,
{
    assert(asc[j - 1].start < asc[j].start);
    if j - 1 > i {
        lemma_ascending_chain(asc, len, i, j - 1);
    }
}

proof fn lemma_no_overlap(asc: Seq<EditView>, len: int, from: int)
    requires
        well_spaced(asc, len),
        0 <= from,
    ensures
        first_overlap(asc, from) is None,
    decreases asc.len() - from,
{
    if from + 1 < asc.len() {
        assert(asc[from].end <= asc[from + 1].start);
        lemma_no_overlap(asc, len, from + 1);
    }
}

// ---------------------------------------------------------------------------
// Edits by file
// ---------------------------------------------------------------------------

/// The first group whose file is the file `p` (paths compared as paths).
pub open spec fn group_of(groups: Seq<(Seq<char>, Seq<EditView>)>, p: Seq<char>) -> Option<int>
    decreases groups.len(),
{
    if groups.len() == 0 {
        None
    } else if same_path(groups[0].0, p) {
        Some(0)
    } else {
        match group_of(groups.drop_first(), p) {
            Some(k) => Some(k + 1),
            None => None,
        }
    }
}

/// Edits grouped by file: one group per file, in the order in which files
/// first appear, named by the path of the file's first edit and holding the
/// file's edits in their order.
pub open spec fn edit_groups(s: Seq<EditView>) -> Seq<(Seq<char>, Seq<EditView>)>
    decreases s.len(),
{
    if s.len() == 0 {
        seq![]
    } else {
        let g = edit_groups(s.drop_last());
        let e = s.last();
        match group_of(g, e.path) {
            Some(k) => g.update(k, (g[k].0, g[k].1.push(e))),
            None => g.push((e.path, seq![e])),
        }
    }
}

/// A list of groups as plain values.
pub open spec fn group_views(r: Seq<(String, Vec<RewriteEdit>)>) -> Seq<(Seq<char>, Seq<EditView>)> {
    r.map_values(|g: (String, Vec<RewriteEdit>)| (g.0@, edit_views(g.1@)))
}

proof fn lemma_group_of(groups: Seq<(Seq<char>, Seq<EditView>)>, p: Seq<char>, k: int)
    requires
        0 <= k <= groups.len(),
        forall|j: int| 0 <= j < k ==> !same_path(#[trigger] groups[j].0, p),
        k < groups.len() ==> same_path(groups[k].0, p),
    ensures
        group_of(groups, p) == (if k < groups.len() { Some(k) } else { None::<int> }),
    decreases k,
{
    if k > 0 {
        let t = groups.drop_first();
        assert(!same_path(groups[0].0, p));
        assert forall|j: int| 0 <= j < k - 1 implies !same_path(#[trigger] t[j].0, p) by {
            assert(t[j] == groups[j + 1]);
        }
        if k < groups.len() {
            assert(t[k - 1] == groups[k]);
        }
        lemma_group_of(t, p, k - 1);
    }
}

/// Whether two paths name the same file.
fn same_file(a: &str, kb: &Vec<Component>) -> (r: bool)
    ensures
        r == (path_parts(a@) == part_views(kb@)),
{
    let ka = path_components(a);
    let c = compare_components(&ka, kb);
    proof {
        lemma_parts_lt_irreflexive(path_parts(a@));
    }
    c == Rel::Equal
}

/// Groups edits by the file they edit (`HashMap` entries by path): one group
/// per file, in the order in which files first appear, each holding that
/// file's edits in their order.
pub fn group_edits_by_file(edits: &[RewriteEdit]) -> (r: Vec<(String, Vec<RewriteEdit>)>)
    ensures
        group_views(r@) == edit_groups(edit_views(edits@)),
{
    let mut r: Vec<(String, Vec<RewriteEdit>)> = Vec::new();
    let mut i: usize = 0;
    while i < edits.len()
        invariant
            i <= edits.len(),
            group_views(r@) == edit_groups(edit_views(edits@).take(i as int)),
        decreases edits.len() - i,
    {
        let e = &edits[i];
        let ke = path_components(e.file_path.as_str());
        let ghost g = group_views(r@);
        let mut k: usize = 0;
        while k < r.len() && !same_file(r[k].0.as_str(), &ke)
            invariant
                k <= r.len(),
                g == group_views(r@),
                part_views(ke@) == path_parts(e.file_path@),
                forall|j: int| 0 <= j < k ==> !same_path(#[trigger] g[j].0, e.file_path@),
            decreases r.len() - k,
        {
            assert(g[k as int].0 == r@[k as int].0@);
            k += 1;
        }
        proof {
            if k < r.len() {
                assert(g[k as int].0 == r@[k as int].0@);
            }
            lemma_group_of(g, e.file_path@, k as int);
            assert(edit_views(edits@).take(i + 1).drop_last() =~= edit_views(edits@).take(i as int));
            assert(edit_views(edits@).take(i + 1).last() == e@);
        }
        if k < r.len() {
            let ghost before = r@;
            let mut pair = r.remove(k);
            let ghost old_pair = pair;
            pair.1.push(e.duplicate());
            assert(edit_views(pair.1@) =~= edit_views(old_pair.1@).push(e@));
            r.insert(k, pair);
            assert(r@ =~= before.update(k as int, pair));
            assert(group_views(r@) =~= g.update(k as int, (g[k as int].0, g[k as int].1.push(e@))));
        } else {
            let mut one: Vec<RewriteEdit> = Vec::new();
            one.push(e.duplicate());
            r.push((e.file_path.clone(), one));
            assert(edit_views(one@) =~= seq![e@]);
            assert(group_views(r@) =~= g.push((e@.path, seq![e@])));
        }
        i += 1;
    }
    assert(edit_views(edits@).take(edits.len() as int) =~= edit_views(edits@));
    r
}

// ---------------------------------------------------------------------------
// Diffs
// ---------------------------------------------------------------------------

/// The unified diff that `similar` renders (Myers algorithm, `context` lines of
/// context, the given file headers) for two texts.
pub uninterp spec fn unified_diff_text(
    old: Seq<char>,
    new: Seq<char>,
    context: usize,
    old_header: Seq<char>,
    new_header: Seq<char>,
) -> Seq<char>;

/// The two header lines of a unified diff.
pub open spec fn diff_header(old_header: Seq<char>, new_header: Seq<char>) -> Seq<char> {
    "--- "@ + old_header + "\n+++ "@ + new_header + "\n"@
}

/// `similar::udiff::unified_diff` with the Myers algorithm, the algorithm that
/// `TextDiff::from_lines` uses. Trusted: the text depends on its arguments
/// alone; it is empty when the texts are equal, and otherwise (there is then
/// at least one hunk) it begins with the two header lines.
#[verifier::external_body]
fn unified_diff(old: &str, new: &str, context: usize, old_header: &str, new_header: &str) -> (r: String)
    ensures
        r@ == unified_diff_text(old@, new@, context, old_header@, new_header@),
        old@ == new@ ==> r@.len() == 0,
        old@ != new@ ==> r@.len() >= diff_header(old_header@, new_header@).len() && r@.take(
            diff_header(old_header@, new_header@).len() as int,
        ) == diff_header(old_header@, new_header@),
{
    similar::udiff::unified_diff(similar::Algorithm::Myers, old, new, context, Some((old_header, new_header)))
}

/// The unified diff between two versions of the file `path`, with three lines
/// of context and `a/` and `b/` headers; empty exactly when nothing changed,
/// and otherwise beginning with the two header lines.
pub fn generate_diff(original: &str, rewritten: &str, path: &str) -> (r: String)
    ensures
        original@ == rewritten@ ==> r@ == Seq::<char>::empty(),
        original@ != rewritten@ ==> r@ == unified_diff_text(
            original@,
            rewritten@,
            3,
            "a/"@ + path@,
            "b/"@ + path@,
        ),
        original@ != rewritten@ ==> r@.len() > 0 && r@.take(diff_header("a/"@ + path@, "b/"@ + path@).len() as int)
            == diff_header("a/"@ + path@, "b/"@ + path@),
{
    if str_equal(original, rewritten) {
        return String::new();
    }
    let mut a = owned("a/");
    push_str(&mut a, path);
    let mut b = owned("b/");
    push_str(&mut b, path);
    proof {
        reveal_strlit("--- ");
    }
    unified_diff(original, rewritten, 3, a.as_str(), b.as_str())
}

} // verus!
