//! Ordering of search results.
//!
//! File paths are ordered and compared the way `std::path::Path` does it: by
//! their components (root, `.`, `..`, named parts), not by their raw text, so
//! `src//a.rs` and `src/./a.rs` name the same file as `src/a.rs`. Names compare
//! by their characters, which orders UTF-8 text exactly as its bytes do.
//! Results compare field by field in declaration order.
use vstd::prelude::*;
use crate::text::chars_of;
use crate::types::MatchResult;

verus! {

/// The outcome of comparing two values.
#[derive(Clone, Copy, Debug, PartialEq, Eq, Structural)]
pub enum Rel {
    Less,
    Equal,
    Greater,
}

// ---------------------------------------------------------------------------
// Character sequences
// ---------------------------------------------------------------------------

/// Lexicographic order on character sequences; a proper prefix comes first.
pub open spec fn chars_lt(a: Seq<char>, b: Seq<char>) -> bool
    decreases a.len(),
{
    if a.len() == 0 {
        b.len() > 0
    } else if b.len() == 0 {
        false
    } else if a[0] != b[0] {
        a[0] < b[0]
    } else {
        chars_lt(a.drop_first(), b.drop_first())
    }
}

pub proof fn lemma_chars_lt_irreflexive(a: Seq<char>)
    ensures
        !chars_lt(a, a),
    decreases a.len(),
{
    if a.len() > 0 {
        lemma_chars_lt_irreflexive(a.drop_first());
    }
}

pub proof fn lemma_chars_lt_transitive(a: Seq<char>, b: Seq<char>, c: Seq<char>)
    requires
        chars_lt(a, b),
        chars_lt(b, c),
    ensures
        chars_lt(a, c),
    decreases a.len(),
{
    if a.len() > 0 && b.len() > 0 && c.len() > 0 && a[0] == b[0] && b[0] == c[0] {
        lemma_chars_lt_transitive(a.drop_first(), b.drop_first(), c.drop_first());
    }
}

pub proof fn lemma_chars_lt_total(a: Seq<char>, b: Seq<char>)
    ensures
        a == b || chars_lt(a, b) || chars_lt(b, a),
        !(chars_lt(a, b) && chars_lt(b, a)),
    decreases a.len(),
{
    if a.len() > 0 && b.len() > 0 && a[0] == b[0] {
        lemma_chars_lt_total(a.drop_first(), b.drop_first());
        if a.drop_first() == b.drop_first() {
            assert(a =~= b) by {
                assert forall|k: int| 0 <= k < a.len() implies a[k] == b[k] by {
                    if k > 0 {
                        assert(a[k] == a.drop_first()[k - 1]);
                        assert(b[k] == b.drop_first()[k - 1]);
                    }
                }
            }
        }
    } else if a.len() == 0 && b.len() == 0 {
        assert(a =~= b);
    }
}

/// With equal first `i` characters, the order is decided by what follows.
proof fn lemma_chars_lt_skip(a: Seq<char>, b: Seq<char>, i: int)
    requires
        0 <= i <= a.len(),
        i <= b.len(),
        a.take(i) == b.take(i),
    ensures
        chars_lt(a, b) == chars_lt(a.skip(i), b.skip(i)),
    decreases i,
{
    if i > 0 {
        assert(a[0] == a.take(i)[0]);
        assert(b[0] == b.take(i)[0]);
        assert(a.drop_first().take(i - 1) =~= a.take(i).drop_first());
        assert(b.drop_first().take(i - 1) =~= b.take(i).drop_first());
        lemma_chars_lt_skip(a.drop_first(), b.drop_first(), i - 1);
        assert(a.drop_first().skip(i - 1) =~= a.skip(i));
        assert(b.drop_first().skip(i - 1) =~= b.skip(i));
    } else {
        assert(a.skip(0) =~= a);
        assert(b.skip(0) =~= b);
    }
}

/// Compares two character sequences.
pub fn compare_chars(a: &Vec<char>, b: &Vec<char>) -> (r: Rel)
    ensures
        r == Rel::Less ==> chars_lt(a@, b@),
        r == Rel::Equal ==> a@ == b@,
        r == Rel::Greater ==> chars_lt(b@, a@),
{
    let mut i: usize = 0;
    while i < a.len() && i < b.len()
        invariant
            i <= a.len(),
            i <= b.len(),
            a@.take(i as int) == b@.take(i as int),
        decreases a.len() - i,
    {
        if a[i] != b[i] {
            proof {
                lemma_chars_lt_skip(a@, b@, i as int);
                lemma_chars_lt_skip(b@, a@, i as int);
                assert(a@.skip(i as int)[0] == a@[i as int]);
                assert(b@.skip(i as int)[0] == b@[i as int]);
            }
            if a[i] < b[i] {
                return Rel::Less;
            } else {
                return Rel::Greater;
            }
        }
        assert(a@.take(i + 1) == a@.take(i as int).push(a@[i as int]));
        assert(b@.take(i + 1) == b@.take(i as int).push(b@[i as int]));
        i += 1;
    }
    proof {
        lemma_chars_lt_skip(a@, b@, i as int);
        lemma_chars_lt_skip(b@, a@, i as int);
    }
    if a.len() == b.len() {
        assert(a@ =~= a@.take(i as int));
        assert(b@ =~= b@.take(i as int));
        Rel::Equal
    } else if i == a.len() {
        Rel::Less
    } else {
        Rel::Greater
    }
}

// ---------------------------------------------------------------------------
// Path components
// ---------------------------------------------------------------------------

/// One component of a path, as `std::path::Component` gives it (no Windows prefixes).
pub enum PathPart {
    Root,
    Current,
    Parent,
    Normal(Seq<char>),
}

/// The pieces of `p` between `/` separators, empty pieces included.
pub open spec fn split_segments(p: Seq<char>) -> Seq<Seq<char>>
    decreases p.len(),
{
    if p.len() == 0 {
        seq![Seq::<char>::empty()]
    } else {
        let prev = split_segments(p.drop_last());
        if p.last() == '/' {
            prev.push(Seq::<char>::empty())
        } else {
            prev.update(prev.len() - 1, prev.last().push(p.last()))
        }
    }
}

pub proof fn lemma_split_segments_nonempty(p: Seq<char>)
    ensures
        split_segments(p).len() >= 1,
    decreases p.len(),
{
    if p.len() > 0 {
        lemma_split_segments_nonempty(p.drop_last());
    }
}

/// The component a piece stands for: empty pieces and `.` stand for none.
pub open spec fn segment_parts(seg: Seq<char>) -> Seq<PathPart> {
    if seg.len() == 0 || seg == seq!['.'] {
        seq![]
    } else if seg == seq!['.', '.'] {
        seq![PathPart::Parent]
    } else {
        seq![PathPart::Normal(seg)]
    }
}

/// The components that a list of pieces stands for.
pub open spec fn body_parts(segs: Seq<Seq<char>>) -> Seq<PathPart>
    decreases segs.len(),
{
    if segs.len() == 0 {
        seq![]
    } else {
        body_parts(segs.drop_last()) + segment_parts(segs.last())
    }
}

/// The components of a path: a leading `/` is the root, a leading `.` piece of a
/// relative path is kept as the current directory, and elsewhere empty pieces and
/// `.` are dropped.
#[verifier::opaque]
pub open spec fn path_parts(p: Seq<char>) -> Seq<PathPart> {
    let segs = split_segments(p);
    if p.len() > 0 && p[0] == '/' {
        seq![PathPart::Root] + body_parts(segs.drop_first())
    } else if segs[0] == seq!['.'] {
        seq![PathPart::Current] + body_parts(segs.drop_first())
    } else {
        body_parts(segs)
    }
}

/// Two paths name the same file when their components agree.
pub open spec fn same_path(a: Seq<char>, b: Seq<char>) -> bool {
    path_parts(a) == path_parts(b)
}

pub open spec fn part_rank(x: PathPart) -> int {
    match x {
        PathPart::Root => 0,
        PathPart::Current => 1,
        PathPart::Parent => 2,
        PathPart::Normal(_) => 3,
    }
}

/// `Component` order: root, then `.`, then `..`, then named parts by name.
pub open spec fn part_lt(x: PathPart, y: PathPart) -> bool {
    ||| part_rank(x) < part_rank(y)
    ||| (x matches PathPart::Normal(s) && y matches PathPart::Normal(t) && chars_lt(s, t))
}

proof fn lemma_part_lt_props(x: PathPart, y: PathPart, z: PathPart)
    ensures
        !part_lt(x, x),
        x == y || part_lt(x, y) || part_lt(y, x),
        !(part_lt(x, y) && part_lt(y, x)),
        part_lt(x, y) && part_lt(y, z) ==> part_lt(x, z),
{
    if let PathPart::Normal(s) = x {
        lemma_chars_lt_irreflexive(s);
        if let PathPart::Normal(t) = y {
            lemma_chars_lt_total(s, t);
            if let PathPart::Normal(u) = z {
                if chars_lt(s, t) && chars_lt(t, u) {
                    lemma_chars_lt_transitive(s, t, u);
                }
            }
        }
    }
}

/// Lexicographic order on component lists.
#[verifier::opaque]
pub open spec fn parts_lt(a: Seq<PathPart>, b: Seq<PathPart>) -> bool
    decreases a.len(),
{
    if a.len() == 0 {
        b.len() > 0
    } else if b.len() == 0 {
        false
    } else if a[0] != b[0] {
        part_lt(a[0], b[0])
    } else {
        parts_lt(a.drop_first(), b.drop_first())
    }
}

pub proof fn lemma_parts_lt_irreflexive(a: Seq<PathPart>)
    ensures
        !parts_lt(a, a),
    decreases a.len(),
{
    reveal(parts_lt);
    if a.len() > 0 {
        lemma_parts_lt_irreflexive(a.drop_first());
    }
}

pub proof fn lemma_parts_lt_transitive(a: Seq<PathPart>, b: Seq<PathPart>, c: Seq<PathPart>)
    requires
        parts_lt(a, b),
        parts_lt(b, c),
    ensures
        parts_lt(a, c),
    decreases a.len(),
{
    reveal(parts_lt);
    if a.len() > 0 && b.len() > 0 && c.len() > 0 {
        lemma_part_lt_props(a[0], b[0], c[0]);
        lemma_part_lt_props(a[0], c[0], b[0]);
        lemma_part_lt_props(b[0], a[0], c[0]);
        lemma_part_lt_props(c[0], a[0], b[0]);
        if a[0] == b[0] && b[0] == c[0] {
            lemma_parts_lt_transitive(a.drop_first(), b.drop_first(), c.drop_first());
        }
    }
}

pub proof fn lemma_parts_lt_total(a: Seq<PathPart>, b: Seq<PathPart>)
    ensures
        a == b || parts_lt(a, b) || parts_lt(b, a),
        !(parts_lt(a, b) && parts_lt(b, a)),
    decreases a.len(),
{
    reveal(parts_lt);
    if a.len() > 0 && b.len() > 0 {
        lemma_part_lt_props(a[0], b[0], b[0]);
        if a[0] == b[0] {
            lemma_parts_lt_total(a.drop_first(), b.drop_first());
            if a.drop_first() == b.drop_first() {
                assert(a =~= b) by {
                    assert forall|k: int| 0 <= k < a.len() implies a[k] == b[k] by {
                        if k > 0 {
                            assert(a[k] == a.drop_first()[k - 1]);
                            assert(b[k] == b.drop_first()[k - 1]);
                        }
                    }
                }
            }
        }
    } else if a.len() == 0 && b.len() == 0 {
        assert(a =~= b);
    }
}

proof fn lemma_parts_lt_skip(a: Seq<PathPart>, b: Seq<PathPart>, i: int)
    requires
        0 <= i <= a.len(),
        i <= b.len(),
        a.take(i) == b.take(i),
    ensures
        parts_lt(a, b) == parts_lt(a.skip(i), b.skip(i)),
    decreases i,
{
    reveal(parts_lt);
    if i > 0 {
        assert(a[0] == a.take(i)[0]);
        assert(b[0] == b.take(i)[0]);
        assert(a.drop_first().take(i - 1) =~= a.take(i).drop_first());
        assert(b.drop_first().take(i - 1) =~= b.take(i).drop_first());
        lemma_parts_lt_skip(a.drop_first(), b.drop_first(), i - 1);
        assert(a.drop_first().skip(i - 1) =~= a.skip(i));
        assert(b.drop_first().skip(i - 1) =~= b.skip(i));
    } else {
        assert(a.skip(0) =~= a);
        assert(b.skip(0) =~= b);
    }
}

/// A path component held by executable code.
pub enum Component {
    Root,
    Current,
    Parent,
    Normal(Vec<char>),
}

impl View for Component {
    type V = PathPart;

    open spec fn view(&self) -> PathPart {
        match self {
            Component::Root => PathPart::Root,
            Component::Current => PathPart::Current,
            Component::Parent => PathPart::Parent,
            Component::Normal(v) => PathPart::Normal(v@),
        }
    }
}

pub open spec fn part_views(s: Seq<Component>) -> Seq<PathPart> {
    s.map_values(|c: Component| c@)
}

pub open spec fn seg_views(s: Seq<Vec<char>>) -> Seq<Seq<char>> {
    s.map_values(|v: Vec<char>| v@)
}

fn split_segments_exec(p: &Vec<char>) -> (segs: Vec<Vec<char>>)
    ensures
        seg_views(segs@) == split_segments(p@),
{
    let mut done: Vec<Vec<char>> = Vec::new();
    let mut cur: Vec<char> = Vec::new();
    let mut i: usize = 0;
    while i < p.len()
        invariant
            i <= p.len(),
            seg_views(done@).push(cur@) == split_segments(p@.take(i as int)),
        decreases p.len() - i,
    {
        let c = p[i];
        let ghost before = seg_views(done@).push(cur@);
        assert(p@.take(i + 1).drop_last() =~= p@.take(i as int));
        assert(p@.take(i + 1).last() == c);
        if c == '/' {
            let finished = cur;
            done.push(finished);
            cur = Vec::new();
            assert(seg_views(done@) =~= before);
        } else {
            cur.push(c);
            assert(seg_views(done@).push(cur@) =~= before.update(before.len() - 1, before.last().push(c)));
        }
        i += 1;
    }
    assert(p@.take(p.len() as int) =~= p@);
    done.push(cur);
    assert(seg_views(done@) =~= split_segments(p@));
    done
}

fn segment_component(seg: &Vec<char>, out: &mut Vec<Component>)
    ensures
        part_views(final(out)@) == part_views(old(out)@) + segment_parts(seg@),
{
    let ghost before = part_views(out@);
    if seg.len() == 0 || (seg.len() == 1 && seg[0] == '.') {
        assert(seg.len() == 1 ==> seg@ =~= seq!['.']);
        assert(part_views(out@) =~= before + segment_parts(seg@));
    } else if seg.len() == 2 && seg[0] == '.' && seg[1] == '.' {
        assert(seg@ =~= seq!['.', '.']);
        out.push(Component::Parent);
        assert(part_views(out@) =~= before + segment_parts(seg@));
    } else {
        assert(seg@ != seq!['.']);
        assert(seg@ != seq!['.', '.']);
        let copy = seg.clone();
        out.push(Component::Normal(copy));
        assert(part_views(out@) =~= before + segment_parts(seg@));
    }
}

/// The components of a path.
pub fn path_components(p: &str) -> (r: Vec<Component>)
    ensures
        part_views(r@) == path_parts(p@),
{
    reveal(path_parts);
    let chars = chars_of(p);
    let segs = split_segments_exec(&chars);
    proof {
        lemma_split_segments_nonempty(p@);
    }
    let mut out: Vec<Component> = Vec::new();
    let mut start: usize = 0;
    if chars.len() > 0 && chars[0] == '/' {
        out.push(Component::Root);
        start = 1;
    } else if segs[0].len() == 1 && segs[0][0] == '.' {
        assert(segs@[0]@ =~= seq!['.']);
        out.push(Component::Current);
        start = 1;
    } else {
        assert(segs@[0]@ != seq!['.']);
    }
    let ghost head = part_views(out@);
    assert(seg_views(segs@).subrange(start as int, start as int) =~= Seq::<Seq<char>>::empty());
    let mut i: usize = start;
    while i < segs.len()
        invariant
            start <= i <= segs.len(),
            seg_views(segs@) == split_segments(p@),
            part_views(out@) == head + body_parts(seg_views(segs@).subrange(start as int, i as int)),
        decreases segs.len() - i,
    {
        segment_component(&segs[i], &mut out);
        let ghost sv = seg_views(segs@);
        assert(sv.subrange(start as int, i + 1).drop_last() =~= sv.subrange(start as int, i as int));
        assert(sv.subrange(start as int, i + 1).last() == segs@[i as int]@);
        assert(head + body_parts(sv.subrange(start as int, i as int)) + segment_parts(segs@[i as int]@)
            =~= head + (body_parts(sv.subrange(start as int, i as int)) + segment_parts(segs@[i as int]@)));
        i += 1;
    }
    let ghost sv = seg_views(segs@);
    if start == 1 {
        assert(sv.subrange(1, sv.len() as int) =~= sv.drop_first());
    } else {
        assert(sv.subrange(0, sv.len() as int) =~= sv);
        assert(head =~= Seq::<PathPart>::empty());
        assert(head + body_parts(sv) =~= body_parts(sv));
    }
    out
}

fn components_equal_at(a: &Component, b: &Component) -> (r: Rel)
    ensures
        r == Rel::Less ==> part_lt(a@, b@),
        r == Rel::Equal ==> a@ == b@,
        r == Rel::Greater ==> part_lt(b@, a@),
{
    match (a, b) {
        (Component::Normal(s), Component::Normal(t)) => compare_chars(s, t),
        _ => {
            let ra: u8 = match a {
                Component::Root => 0,
                Component::Current => 1,
                Component::Parent => 2,
                Component::Normal(_) => 3,
            };
            let rb: u8 = match b {
                Component::Root => 0,
                Component::Current => 1,
                Component::Parent => 2,
                Component::Normal(_) => 3,
            };
            if ra < rb {
                Rel::Less
            } else if ra == rb {
                Rel::Equal
            } else {
                Rel::Greater
            }
        },
    }
}

/// Compares two component lists.
pub fn compare_components(a: &Vec<Component>, b: &Vec<Component>) -> (r: Rel)
    ensures
        r == Rel::Less ==> parts_lt(part_views(a@), part_views(b@)),
        r == Rel::Equal ==> part_views(a@) == part_views(b@),
        r == Rel::Greater ==> parts_lt(part_views(b@), part_views(a@)),
{
    reveal(parts_lt);
    let ghost pa = part_views(a@);
    let ghost pb = part_views(b@);
    let mut i: usize = 0;
    while i < a.len() && i < b.len()
        invariant
            i <= a.len(),
            i <= b.len(),
            pa == part_views(a@),
            pb == part_views(b@),
            pa.take(i as int) == pb.take(i as int),
        decreases a.len() - i,
    {
        let c = components_equal_at(&a[i], &b[i]);
        if c != Rel::Equal {
            proof {
                reveal(parts_lt);
                lemma_parts_lt_skip(pa, pb, i as int);
                lemma_parts_lt_skip(pb, pa, i as int);
                assert(pa.skip(i as int)[0] == pa[i as int]);
                assert(pb.skip(i as int)[0] == pb[i as int]);
                lemma_part_lt_props(pa[i as int], pb[i as int], pb[i as int]);
            }
            return c;
        }
        assert(pa.take(i + 1) == pa.take(i as int).push(pa[i as int]));
        assert(pb.take(i + 1) == pb.take(i as int).push(pb[i as int]));
        i += 1;
    }
    proof {
        lemma_parts_lt_skip(pa, pb, i as int);
        lemma_parts_lt_skip(pb, pa, i as int);
    }
    if a.len() == b.len() {
        assert(pa =~= pa.take(i as int));
        assert(pb =~= pb.take(i as int));
        Rel::Equal
    } else if i == a.len() {
        Rel::Less
    } else {
        Rel::Greater
    }
}

// ---------------------------------------------------------------------------
// Results
// ---------------------------------------------------------------------------

/// Strict order on results: path components first, then the numeric
/// positions, the capture name, the matched text and the byte range.
#[verifier::opaque]
pub open spec fn match_lt(a: MatchResult, b: MatchResult) -> bool {
    let pa = path_parts(a.file_path@);
    let pb = path_parts(b.file_path@);
    if pa != pb {
        parts_lt(pa, pb)
    } else if a.start_line != b.start_line {
        a.start_line < b.start_line
    } else if a.start_col != b.start_col {
        a.start_col < b.start_col
    } else if a.end_line != b.end_line {
        a.end_line < b.end_line
    } else if a.end_col != b.end_col {
        a.end_col < b.end_col
    } else if a.capture_name@ != b.capture_name@ {
        chars_lt(a.capture_name@, b.capture_name@)
    } else if a.matched_text@ != b.matched_text@ {
        chars_lt(a.matched_text@, b.matched_text@)
    } else if a.start_byte != b.start_byte {
        a.start_byte < b.start_byte
    } else {
        a.end_byte < b.end_byte
    }
}

/// Two results are duplicates when they agree on every field, paths compared
/// as paths.
#[verifier::opaque]
pub open spec fn match_equiv(a: MatchResult, b: MatchResult) -> bool {
    &&& same_path(a.file_path@, b.file_path@)
    &&& a.start_line == b.start_line
    &&& a.start_col == b.start_col
    &&& a.end_line == b.end_line
    &&& a.end_col == b.end_col
    &&& a.capture_name@ == b.capture_name@
    &&& a.matched_text@ == b.matched_text@
    &&& a.start_byte == b.start_byte
    &&& a.end_byte == b.end_byte
}

/// `match_lt` is a strict order that is total up to `match_equiv`, and
/// `match_equiv` is an equivalence that `match_lt` respects.
pub proof fn lemma_match_order(a: MatchResult, b: MatchResult, c: MatchResult)
    ensures
        !match_lt(a, a),
        match_equiv(a, a),
        match_lt(a, b) || match_lt(b, a) || match_equiv(a, b),
        match_lt(a, b) ==> !match_lt(b, a) && !match_equiv(a, b),
        match_equiv(a, b) ==> match_equiv(b, a),
        match_equiv(a, b) && match_equiv(b, c) ==> match_equiv(a, c),
        match_lt(a, b) && match_lt(b, c) ==> match_lt(a, c),
        match_equiv(a, b) && match_lt(b, c) ==> match_lt(a, c),
        match_lt(a, b) && match_equiv(b, c) ==> match_lt(a, c),
{
    reveal(match_lt);
    reveal(match_equiv);
    let pa = path_parts(a.file_path@);
    let pb = path_parts(b.file_path@);
    let pc = path_parts(c.file_path@);
    lemma_parts_lt_irreflexive(pa);
    lemma_parts_lt_total(pa, pb);
    lemma_parts_lt_total(pb, pc);
    lemma_parts_lt_total(pa, pc);
    if parts_lt(pa, pb) && parts_lt(pb, pc) {
        lemma_parts_lt_transitive(pa, pb, pc);
    }
    lemma_chars_lt_irreflexive(a.capture_name@);
    lemma_chars_lt_irreflexive(a.matched_text@);
    lemma_chars_lt_total(a.capture_name@, b.capture_name@);
    lemma_chars_lt_total(a.matched_text@, b.matched_text@);
    lemma_chars_lt_total(b.capture_name@, c.capture_name@);
    lemma_chars_lt_total(b.matched_text@, c.matched_text@);
    if chars_lt(a.capture_name@, b.capture_name@) && chars_lt(b.capture_name@, c.capture_name@) {
        lemma_chars_lt_transitive(a.capture_name@, b.capture_name@, c.capture_name@);
    }
    if chars_lt(a.matched_text@, b.matched_text@) && chars_lt(b.matched_text@, c.matched_text@) {
        lemma_chars_lt_transitive(a.matched_text@, b.matched_text@, c.matched_text@);
    }
}

/// What a comparison of two results needs of each, computed once.
pub struct MatchKey {
    pub parts: Vec<Component>,
    pub name: Vec<char>,
    pub text: Vec<char>,
}

pub open spec fn key_of_spec(k: MatchKey, m: MatchResult) -> bool {
    &&& part_views(k.parts@) == path_parts(m.file_path@)
    &&& k.name@ == m.capture_name@
    &&& k.text@ == m.matched_text@
}

/// The comparison key of a result.
pub fn match_key(m: &MatchResult) -> (k: MatchKey)
    ensures
        key_of_spec(k, *m),
{
    MatchKey {
        parts: path_components(m.file_path.as_str()),
        name: chars_of(m.capture_name.as_str()),
        text: chars_of(m.matched_text.as_str()),
    }
}

fn compare_usize(a: usize, b: usize) -> (r: Rel)
    ensures
        r == Rel::Less <==> a < b,
        r == Rel::Equal <==> a == b,
        r == Rel::Greater <==> a > b,
{
    if a < b {
        Rel::Less
    } else if a == b {
        Rel::Equal
    } else {
        Rel::Greater
    }
}

/// Compares two results, given their keys.
pub fn compare_keyed(ka: &MatchKey, a: &MatchResult, kb: &MatchKey, b: &MatchResult) -> (r: Rel)
    requires
        key_of_spec(*ka, *a),
        key_of_spec(*kb, *b),
    ensures
        r == Rel::Less ==> match_lt(*a, *b),
        r == Rel::Equal ==> match_equiv(*a, *b),
        r == Rel::Greater ==> match_lt(*b, *a),
{
    reveal(match_lt);
    reveal(match_equiv);
    let c = compare_components(&ka.parts, &kb.parts);
    if c != Rel::Equal {
        proof {
            lemma_parts_lt_irreflexive(path_parts(a.file_path@));
            lemma_parts_lt_irreflexive(path_parts(b.file_path@));
        }
        return c;
    }
    let c = compare_usize(a.start_line, b.start_line);
    if c != Rel::Equal {
        return c;
    }
    let c = compare_usize(a.start_col, b.start_col);
    if c != Rel::Equal {
        return c;
    }
    let c = compare_usize(a.end_line, b.end_line);
    if c != Rel::Equal {
        return c;
    }
    let c = compare_usize(a.end_col, b.end_col);
    if c != Rel::Equal {
        return c;
    }
    let c = compare_chars(&ka.name, &kb.name);
    if c != Rel::Equal {
        proof {
            lemma_chars_lt_irreflexive(a.capture_name@);
        }
        return c;
    }
    let c = compare_chars(&ka.text, &kb.text);
    if c != Rel::Equal {
        proof {
            lemma_chars_lt_irreflexive(a.matched_text@);
        }
        return c;
    }
    let c = compare_usize(a.start_byte, b.start_byte);
    if c != Rel::Equal {
        return c;
    }
    compare_usize(a.end_byte, b.end_byte)
}

/// Compares two results.
pub fn compare_matches(a: &MatchResult, b: &MatchResult) -> (r: Rel)
    ensures
        r == Rel::Less ==> match_lt(*a, *b),
        r == Rel::Equal ==> match_equiv(*a, *b),
        r == Rel::Greater ==> match_lt(*b, *a),
{
    let ka = match_key(a);
    let kb = match_key(b);
    compare_keyed(&ka, a, &kb, b)
}

// ---------------------------------------------------------------------------
// Sorting with duplicates removed
// ---------------------------------------------------------------------------

/// `v[i]` is the first of the results in `v` that duplicate it.
pub open spec fn first_of_class(v: Seq<MatchResult>, i: int) -> bool {
    forall|j: int| 0 <= j < i ==> !match_equiv(#[trigger] v[j], v[i])
}

pub open spec fn strictly_sorted(r: Seq<MatchResult>) -> bool {
    forall|i: int, j: int| 0 <= i < j < r.len() ==> match_lt(#[trigger] r[i], #[trigger] r[j])
}

/// `r` is what sorting `v` (stably) and then dropping adjacent duplicates gives:
/// it is strictly ascending, it holds for each group of duplicates in `v` the
/// first member of the group, and nothing else.
pub open spec fn sorted_unique_of(v: Seq<MatchResult>, r: Seq<MatchResult>) -> bool {
    &&& strictly_sorted(r)
    &&& forall|k: int| 0 <= k < r.len() ==> represented_in(v, #[trigger] r[k])
    &&& forall|i: int| 0 <= i < v.len() ==> covered_by(r, #[trigger] v[i])
}

/// `x` is in `v` as the first of its group of duplicates.
pub open spec fn represented_in(v: Seq<MatchResult>, x: MatchResult) -> bool {
    exists|i: int| 0 <= i < v.len() && x == v[i] && first_of_class(v, i)
}

/// Some result in `r` duplicates `x`.
pub open spec fn covered_by(r: Seq<MatchResult>, x: MatchResult) -> bool {
    exists|k: int| 0 <= k < r.len() && match_equiv(r[k], x)
}

/// Sorts results and removes duplicates, keeping the first of each group
/// (`sort()` followed by `dedup()`).
pub fn sort_and_dedup(v: &Vec<MatchResult>) -> (r: Vec<MatchResult>)
    ensures
        sorted_unique_of(v@, r@),
{
    let mut out: Vec<MatchResult> = Vec::new();
    let mut keys: Vec<MatchKey> = Vec::new();
    let ghost mut src: Seq<int> = Seq::empty();
    let mut i: usize = 0;
    while i < v.len()
        invariant
            i <= v.len(),
            keys.len() == out.len(),
            src.len() == out.len(),
            forall|a: int| 0 <= a < out.len() ==> key_of_spec(#[trigger] keys@[a], out@[a]),
            strictly_sorted(out@),
            forall|a: int|
                0 <= a < out.len() ==> 0 <= #[trigger] src[a] < i && out@[a] == v@[src[a]]
                    && first_of_class(v@, src[a]),
            forall|j: int| 0 <= j < i ==> covered_by(out@, #[trigger] v@[j]),
        decreases v.len() - i,
    {
        let x = &v[i];
        let kx = match_key(x);
        let mut j: usize = 0;
        let mut stop: Rel = Rel::Greater;
        while j < out.len()
            invariant
                i < v.len(),
                *x == v@[i as int],
                key_of_spec(kx, *x),
                keys.len() == out.len(),
                forall|a: int| 0 <= a < out.len() ==> key_of_spec(#[trigger] keys@[a], out@[a]),
                j <= out.len(),
                forall|a: int| 0 <= a < j ==> match_lt(#[trigger] out@[a], *x),
            ensures
                j <= out.len(),
                forall|a: int| 0 <= a < j ==> match_lt(#[trigger] out@[a], *x),
                j < out.len() ==> (stop == Rel::Equal && match_equiv(out@[j as int], *x)) || (
                stop == Rel::Greater && match_lt(*x, out@[j as int])),
            decreases out.len() - j,
        {
            let c = compare_keyed(&keys[j], &out[j], &kx, x);
            if c == Rel::Less {
                j += 1;
            } else {
                stop = c;
                break;
            }
        }
        let ghost old_out = out@;
        if j < out.len() && stop == Rel::Equal {
            assert forall|j0: int| 0 <= j0 < i + 1 implies covered_by(out@, #[trigger] v@[j0]) by {
                if j0 == i {
                    lemma_match_order(out@[j as int], v@[j0], v@[j0]);
                }
            }
        } else {
            proof {
                assert forall|j0: int| 0 <= j0 < i implies !match_equiv(#[trigger] v@[j0], v@[i as int]) by {
                    if match_equiv(v@[j0], v@[i as int]) {
                        assert(covered_by(old_out, v@[j0]));
                        let k = choose|k: int| 0 <= k < old_out.len() && match_equiv(old_out[k], v@[j0]);
                        lemma_match_order(old_out[k], v@[j0], v@[i as int]);
                        lemma_match_order(old_out[k], *x, *x);
                        if k > j {
                            lemma_match_order(*x, old_out[j as int], old_out[k]);
                            lemma_match_order(old_out[k], *x, old_out[j as int]);
                            lemma_match_order(*x, old_out[k], old_out[k]);
                        }
                        if k == j {
                            lemma_match_order(*x, old_out[k], old_out[k]);
                        }
                    }
                }
            }
            out.insert(j, x.duplicate());
            keys.insert(j, kx);
            proof {
                src = src.insert(j as int, i as int);
                assert forall|a: int, b: int| 0 <= a < b < out.len() implies match_lt(
                    #[trigger] out@[a],
                    #[trigger] out@[b],
                ) by {
                    if a == j {
                        if b - 1 > j {
                            lemma_match_order(*x, old_out[j as int], old_out[b - 1]);
                        }
                    } else if b == j {
                    } else {
                        let a0 = if a < j { a } else { a - 1 };
                        let b0 = if b < j { b } else { b - 1 };
                        assert(out@[a] == old_out[a0]);
                        assert(out@[b] == old_out[b0]);
                    }
                }
                assert forall|a: int| 0 <= a < out.len() implies key_of_spec(#[trigger] keys@[a], out@[a]) by {
                }
                assert forall|j0: int| 0 <= j0 < i + 1 implies covered_by(out@, #[trigger] v@[j0]) by {
                    if j0 == i {
                        lemma_match_order(out@[j as int], out@[j as int], out@[j as int]);
                        assert(out@[j as int] == v@[j0]);
                    } else {
                        assert(covered_by(old_out, v@[j0]));
                        let k = choose|k: int| 0 <= k < old_out.len() && match_equiv(old_out[k], v@[j0]);
                        if k < j {
                            assert(out@[k] == old_out[k]);
                        } else {
                            assert(out@[k + 1] == old_out[k]);
                        }
                    }
                }
            }
        }
        i += 1;
    }
    proof {
        assert forall|k: int| 0 <= k < out.len() implies represented_in(v@, #[trigger] out@[k]) by {
            assert(out@[k] == v@[src[k]]);
        }
    }
    out
}

/// Two strictly ascending sequences that hold the same elements are equal.
proof fn lemma_sorted_same_elements(a: Seq<MatchResult>, b: Seq<MatchResult>)
    requires
        strictly_sorted(a),
        strictly_sorted(b),
        forall|k: int| 0 <= k < a.len() ==> #[trigger] b.contains(a[k]),
        forall|i: int| 0 <= i < b.len() ==> #[trigger] a.contains(b[i]),
    ensures
        a == b,
    decreases a.len(),
{
    if a.len() == 0 {
        if b.len() > 0 {
            assert(a.contains(b[0]));
        }
        assert(a =~= b);
    } else {
        assert(b.contains(a[0]));
        let i0 = choose|i: int| 0 <= i < b.len() && b[i] == a[0];
        assert(a.contains(b[0]));
        let k0 = choose|k: int| 0 <= k < a.len() && a[k] == b[0];
        lemma_match_order(a[0], b[0], a[0]);
        if i0 > 0 {
            assert(match_lt(b[0], b[i0]));
            if k0 > 0 {
                assert(match_lt(a[0], a[k0]));
            }
        }
        assert(b[0] == a[0]);
        let a1 = a.drop_first();
        let b1 = b.drop_first();
        assert forall|k: int| 0 <= k < a1.len() implies #[trigger] b1.contains(a1[k]) by {
            assert(a1[k] == a[k + 1]);
            assert(b.contains(a[k + 1]));
            let i = choose|i: int| 0 <= i < b.len() && b[i] == a[k + 1];
            assert(match_lt(a[0], a[k + 1]));
            lemma_match_order(a[0], a[0], a[0]);
            assert(i != 0);
            assert(b1[i - 1] == b[i]);
        }
        assert forall|i: int| 0 <= i < b1.len() implies #[trigger] a1.contains(b1[i]) by {
            assert(b1[i] == b[i + 1]);
            assert(a.contains(b[i + 1]));
            let k = choose|k: int| 0 <= k < a.len() && a[k] == b[i + 1];
            assert(match_lt(b[0], b[i + 1]));
            lemma_match_order(b[0], b[0], b[0]);
            assert(k != 0);
            assert(a1[k - 1] == a[k]);
        }
        assert forall|x: int, y: int| 0 <= x < y < a1.len() implies match_lt(#[trigger] a1[x], #[trigger] a1[y]) by {
            assert(a1[x] == a[x + 1] && a1[y] == a[y + 1]);
        }
        assert forall|x: int, y: int| 0 <= x < y < b1.len() implies match_lt(#[trigger] b1[x], #[trigger] b1[y]) by {
            assert(b1[x] == b[x + 1] && b1[y] == b[y + 1]);
        }
        lemma_sorted_same_elements(a1, b1);
        assert(a =~= b) by {
            assert forall|k: int| 0 <= k < a.len() implies a[k] == b[k] by {
                if k > 0 {
                    assert(a[k] == a1[k - 1]);
                    assert(b[k] == b1[k - 1]);
                }
            }
        }
    }
}

/// In a strictly ascending sequence an element duplicates only itself.
proof fn lemma_sorted_equiv_same_index(r: Seq<MatchResult>, i: int, j: int)
    requires
        strictly_sorted(r),
        0 <= i < r.len(),
        0 <= j < r.len(),
        match_equiv(r[i], r[j]),
    ensures
        i == j,
{
    if i < j {
        assert(match_lt(r[i], r[j]));
        lemma_match_order(r[i], r[j], r[j]);
    } else if j < i {
        assert(match_lt(r[j], r[i]));
        lemma_match_order(r[j], r[i], r[i]);
        lemma_match_order(r[i], r[j], r[j]);
    }
}

proof fn lemma_result_elements_in_input(r: Seq<MatchResult>, r2: Seq<MatchResult>)
    requires
        forall|k: int| 0 <= k < r2.len() ==> represented_in(r, #[trigger] r2[k]),
    ensures
        forall|k: int| 0 <= k < r2.len() ==> #[trigger] r.contains(r2[k]),
{
    assert forall|k: int| 0 <= k < r2.len() implies #[trigger] r.contains(r2[k]) by {
        assert(represented_in(r, r2[k]));
        let i = choose|i: int| 0 <= i < r.len() && r2[k] == r[i] && first_of_class(r, i);
        assert(r[i] == r2[k]);
    }
}

proof fn lemma_input_elements_in_result(r: Seq<MatchResult>, r2: Seq<MatchResult>)
    requires
        strictly_sorted(r),
        forall|k: int| 0 <= k < r2.len() ==> represented_in(r, #[trigger] r2[k]),
        forall|i: int| 0 <= i < r.len() ==> covered_by(r2, #[trigger] r[i]),
    ensures
        forall|i: int| 0 <= i < r.len() ==> #[trigger] r2.contains(r[i]),
{
    assert forall|i: int| 0 <= i < r.len() implies #[trigger] r2.contains(r[i]) by {
        assert(covered_by(r2, r[i]));
        let k = choose|k: int| 0 <= k < r2.len() && match_equiv(r2[k], r[i]);
        assert(represented_in(r, r2[k]));
        let i2 = choose|i2: int| 0 <= i2 < r.len() && r2[k] == r[i2] && first_of_class(r, i2);
        lemma_sorted_equiv_same_index(r, i2, i);
        assert(r2[k] == r[i]);
    }
}

/// Sorting and removing duplicates a second time changes nothing: the result
/// of the second pass is the result of the first.
pub proof fn lemma_sort_and_dedup_idempotent(v: Seq<MatchResult>, r: Seq<MatchResult>, r2: Seq<MatchResult>)
    requires
        sorted_unique_of(v, r),
        sorted_unique_of(r, r2),
    ensures
        r2 == r,
{
    lemma_result_elements_in_input(r, r2);
    lemma_input_elements_in_result(r, r2);
    lemma_sorted_same_elements(r2, r);
}

proof fn lemma_heads_equiv(a: Seq<MatchResult>, b: Seq<MatchResult>)
    requires
        strictly_sorted(a),
        strictly_sorted(b),
        a.len() > 0,
        b.len() > 0,
        covered_by(b, a[0]),
        covered_by(a, b[0]),
    ensures
        match_equiv(a[0], b[0]),
{
    let j0 = choose|j: int| 0 <= j < b.len() && match_equiv(b[j], a[0]);
    let k0 = choose|k: int| 0 <= k < a.len() && match_equiv(a[k], b[0]);
    if j0 > 0 {
        assert(match_lt(b[0], b[j0]));
        lemma_match_order(a[k0], b[0], b[j0]);
        lemma_match_order(a[k0], b[j0], a[0]);
        lemma_match_order(a[0], a[k0], a[0]);
        if k0 > 0 {
            assert(match_lt(a[0], a[k0]));
        }
        assert(false);
    }
    lemma_match_order(b[0], a[0], a[0]);
}

proof fn lemma_tail_covered(a: Seq<MatchResult>, b: Seq<MatchResult>)
    requires
        strictly_sorted(a),
        a.len() > 0,
        b.len() > 0,
        match_equiv(a[0], b[0]),
        forall|k: int| 0 <= k < a.len() ==> covered_by(b, #[trigger] a[k]),
    ensures
        forall|k: int| 0 <= k < a.len() - 1 ==> covered_by(b.drop_first(), #[trigger] a.drop_first()[k]),
{
    let a1 = a.drop_first();
    let b1 = b.drop_first();
    assert forall|k: int| 0 <= k < a1.len() implies covered_by(b1, #[trigger] a1[k]) by {
        assert(a1[k] == a[k + 1]);
        assert(covered_by(b, a[k + 1]));
        let j = choose|j: int| 0 <= j < b.len() && match_equiv(b[j], a[k + 1]);
        assert(match_lt(a[0], a[k + 1]));
        if j == 0 {
            lemma_match_order(a[0], b[0], a[k + 1]);
            lemma_match_order(a[0], a[k + 1], a[0]);
            assert(false);
        }
        assert(b1[j - 1] == b[j]);
    }
}

proof fn lemma_tail_sorted(a: Seq<MatchResult>)
    requires
        strictly_sorted(a),
        a.len() > 0,
    ensures
        strictly_sorted(a.drop_first()),
{
    let a1 = a.drop_first();
    assert forall|x: int, y: int| 0 <= x < y < a1.len() implies match_lt(#[trigger] a1[x], #[trigger] a1[y]) by {
        assert(a1[x] == a[x + 1] && a1[y] == a[y + 1]);
    }
}

/// Two strictly ascending sequences, each of whose elements has a duplicate in
/// the other, agree position by position up to duplicates.
proof fn lemma_sorted_cover_equiv(a: Seq<MatchResult>, b: Seq<MatchResult>)
    requires
        strictly_sorted(a),
        strictly_sorted(b),
        forall|k: int| 0 <= k < a.len() ==> covered_by(b, #[trigger] a[k]),
        forall|i: int| 0 <= i < b.len() ==> covered_by(a, #[trigger] b[i]),
    ensures
        a.len() == b.len(),
        forall|i: int| 0 <= i < a.len() ==> match_equiv(#[trigger] a[i], b[i]),
    decreases a.len(),
{
    if a.len() == 0 {
        if b.len() > 0 {
            assert(covered_by(a, b[0]));
        }
    } else if b.len() == 0 {
        assert(covered_by(b, a[0]));
    } else {
        assert(covered_by(b, a[0]));
        assert(covered_by(a, b[0]));
        lemma_heads_equiv(a, b);
        lemma_match_order(a[0], b[0], a[0]);
        lemma_tail_covered(a, b);
        lemma_tail_covered(b, a);
        lemma_tail_sorted(a);
        lemma_tail_sorted(b);
        let a1 = a.drop_first();
        let b1 = b.drop_first();
        lemma_sorted_cover_equiv(a1, b1);
        assert forall|i: int| 0 <= i < a.len() implies match_equiv(#[trigger] a[i], b[i]) by {
            if i > 0 {
                assert(a[i] == a1[i - 1]);
                assert(b[i] == b1[i - 1]);
            }
        }
    }
}

/// Each result of `r` has a duplicate among the results of `r2` when `r2` is
/// the sorted, duplicate-free form of results that include every input of `r`.
proof fn lemma_results_covered(v: Seq<MatchResult>, r: Seq<MatchResult>, w: Seq<MatchResult>, r2: Seq<MatchResult>)
    requires
        sorted_unique_of(v, r),
        sorted_unique_of(w, r2),
        forall|i: int| 0 <= i < v.len() ==> w.contains(#[trigger] v[i]),
    ensures
        forall|k: int| 0 <= k < r.len() ==> covered_by(r2, #[trigger] r[k]),
{
    assert forall|k: int| 0 <= k < r.len() implies covered_by(r2, #[trigger] r[k]) by {
        assert(represented_in(v, r[k]));
        let i = choose|i: int| 0 <= i < v.len() && r[k] == v[i] && first_of_class(v, i);
        assert(w.contains(v[i]));
        let i2 = choose|i2: int| 0 <= i2 < w.len() && w[i2] == v[i];
        assert(covered_by(r2, w[i2]));
    }
}

/// The results of a search do not depend on the order in which its files were
/// searched: for the same results gathered in two orders, sorting with
/// duplicates removed gives sequences of one length that agree position by
/// position, up to duplicates (paths compared as paths).
pub proof fn lemma_sort_and_dedup_order_free(
    v1: Seq<MatchResult>,
    v2: Seq<MatchResult>,
    r1: Seq<MatchResult>,
    r2: Seq<MatchResult>,
)
    requires
        v1.to_multiset() == v2.to_multiset(),
        sorted_unique_of(v1, r1),
        sorted_unique_of(v2, r2),
    ensures
        r1.len() == r2.len(),
        forall|i: int| 0 <= i < r1.len() ==> match_equiv(#[trigger] r1[i], r2[i]),
{
    v1.to_multiset_ensures();
    v2.to_multiset_ensures();
    assert forall|i: int| 0 <= i < v1.len() implies v2.contains(#[trigger] v1[i]) by {
        assert(v1.contains(v1[i]));
        assert(v1.to_multiset().count(v1[i]) > 0);
    }
    assert forall|i: int| 0 <= i < v2.len() implies v1.contains(#[trigger] v2[i]) by {
        assert(v2.contains(v2[i]));
        assert(v2.to_multiset().count(v2[i]) > 0);
    }
    lemma_results_covered(v1, r1, v2, r2);
    lemma_results_covered(v2, r2, v1, r1);
    lemma_sorted_cover_equiv(r1, r2);
}

} // verus!
