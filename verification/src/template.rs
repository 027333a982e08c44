//! Rewrite templates: text with `@name` placeholders filled in from captures.
use vstd::prelude::*;
use crate::text::{chars_of, chars_equal, string_from_chars};

verus! {

// ---------------------------------------------------------------------------
// Captures: a name-to-text table
// ---------------------------------------------------------------------------

/// The text of the first entry named `k`, if any.
pub open spec fn lookup(entries: Seq<(String, String)>, k: Seq<char>) -> Option<Seq<char>>
    decreases entries.len(),
{
    if entries.len() == 0 {
        None
    } else if entries[0].0@ == k {
        Some(entries[0].1@)
    } else {
        lookup(entries.drop_first(), k)
    }
}

/// Capture names and the text each one matched.
pub struct Captures {
    entries: Vec<(String, String)>,
}

impl View for Captures {
    type V = Map<Seq<char>, Seq<char>>;

    closed spec fn view(&self) -> Map<Seq<char>, Seq<char>> {
        Map::new(
            |k: Seq<char>| lookup(self.entries@, k) is Some,
            |k: Seq<char>| lookup(self.entries@, k).unwrap(),
        )
    }
}

proof fn lemma_lookup_push(e: Seq<(String, String)>, x: (String, String), q: Seq<char>)
    ensures
        lookup(e.push(x), q) == (if lookup(e, q) is Some {
            lookup(e, q)
        } else if x.0@ == q {
            Some(x.1@)
        } else {
            None::<Seq<char>>
        }),
    decreases e.len(),
{
    if e.len() > 0 {
        assert(e.push(x).drop_first() =~= e.drop_first().push(x));
        assert(e.push(x)[0] == e[0]);
        lemma_lookup_push(e.drop_first(), x, q);
        if e[0].0@ == q {
            assert(lookup(e, q) == Some(e[0].1@));
            assert(lookup(e.push(x), q) == Some(e[0].1@));
        } else {
            assert(lookup(e, q) == lookup(e.drop_first(), q));
            assert(lookup(e.push(x), q) == lookup(e.drop_first().push(x), q));
        }
    } else {
        assert(e.push(x)[0] == x);
        assert(e.push(x).drop_first() =~= Seq::<(String, String)>::empty());
        assert(lookup(e, q) is None);
        assert(lookup(Seq::<(String, String)>::empty(), q) is None);
        if x.0@ == q {
            assert(lookup(e.push(x), q) == Some(x.1@));
        } else {
            assert(lookup(e.push(x), q) == lookup(Seq::<(String, String)>::empty(), q));
        }
    }
}

proof fn lemma_lookup_replace(e: Seq<(String, String)>, i: int, x: (String, String), q: Seq<char>)
    requires
        0 <= i < e.len(),
        e[i].0@ == x.0@,
        forall|j: int| 0 <= j < i ==> e[j].0@ != x.0@,
    ensures
        lookup(e.update(i, x), q) == (if q == x.0@ {
            Some(x.1@)
        } else {
            lookup(e, q)
        }),
    decreases e.len(),
{
    if i > 0 {
        assert(e.update(i, x).drop_first() =~= e.drop_first().update(i - 1, x));
        assert(e.update(i, x)[0] == e[0]);
        lemma_lookup_replace(e.drop_first(), i - 1, x, q);
    } else {
        assert(e.update(0, x)[0] == x);
        assert(e.update(0, x).drop_first() =~= e.drop_first());
    }
}

impl Captures {
    /// An empty table.
    pub fn new() -> (c: Captures)
        ensures
            c@ == Map::<Seq<char>, Seq<char>>::empty(),
    {
        let c = Captures { entries: Vec::new() };
        assert(c@ =~= Map::<Seq<char>, Seq<char>>::empty());
        c
    }

    /// Records `value` under `name`, replacing what was there (`HashMap::insert`).
    pub fn insert(&mut self, name: &str, value: &str)
        ensures
            final(self)@ == old(self)@.insert(name@, value@),
    {
        let key = chars_of(name);
        let entry = (string_from_chars(&key), string_from_chars(&chars_of(value)));
        let ghost ent = entry;
        assert(ent.0@ == name@ && ent.1@ == value@);
        let ghost before = self.entries@;
        let mut i: usize = 0;
        while i < self.entries.len()
            invariant
                i <= self.entries.len(),
                self.entries@ == before,
                before == old(self).entries@,
                key@ == name@,
                ent == entry,
                ent.0@ == name@,
                ent.1@ == value@,
                forall|j: int| 0 <= j < i ==> before[j].0@ != name@,
            decreases self.entries.len() - i,
        {
            let cur = &self.entries[i];
            assert(*cur == before[i as int]);
            let k = chars_of(cur.0.as_str());
            assert(k@ == before[i as int].0@);
            if chars_equal(&k, &key) {
                assert(before[i as int].0@ == ent.0@);
                self.entries.set(i, entry);
                assert(self.entries@ == before.update(i as int, ent));
                proof {
                    assert forall|q: Seq<char>| #![auto] true implies lookup(self.entries@, q) == (if q
                        == name@ {
                        Some(value@)
                    } else {
                        lookup(before, q)
                    }) by {
                        lemma_lookup_replace(before, i as int, ent, q);
                    }
                    assert(self@ =~= old(self)@.insert(name@, value@));
                }
                return;
            }
            i += 1;
        }
        self.entries.push(entry);
        assert(self.entries@ == before.push(ent));
        proof {
            assert(lookup(before, name@) is None) by {
                lemma_lookup_absent(before, name@);
            }
            assert forall|q: Seq<char>| #![auto] true implies lookup(self.entries@, q) == (if q
                == name@ {
                Some(value@)
            } else {
                lookup(before, q)
            }) by {
                lemma_lookup_push(before, ent, q);
            }
            assert(self@ =~= old(self)@.insert(name@, value@));
        }
    }

    /// The text recorded under `name`.
    pub fn get(&self, name: &Vec<char>) -> (r: Option<&String>)
        ensures
            match r {
                Some(s) => self@.contains_key(name@) && s@ == self@[name@],
                None => !self@.contains_key(name@),
            },
    {
        let mut i: usize = 0;
        assert(self.entries@.skip(0) =~= self.entries@);
        while i < self.entries.len()
            invariant
                i <= self.entries.len(),
                lookup(self.entries@, name@) == lookup(self.entries@.skip(i as int), name@),
            decreases self.entries.len() - i,
        {
            let k = chars_of(self.entries[i].0.as_str());
            let ghost rest = self.entries@.skip(i as int);
            assert(rest[0] == self.entries@[i as int]);
            assert(rest.drop_first() =~= self.entries@.skip(i + 1));
            if chars_equal(&k, name) {
                return Some(&self.entries[i].1);
            }
            i += 1;
        }
        None
    }
}

proof fn lemma_lookup_absent(e: Seq<(String, String)>, q: Seq<char>)
    requires
        forall|j: int| 0 <= j < e.len() ==> e[j].0@ != q,
    ensures
        lookup(e, q) is None,
    decreases e.len(),
{
    if e.len() > 0 {
        lemma_lookup_absent(e.drop_first(), q);
    }
}

// ---------------------------------------------------------------------------
// Placeholders
// ---------------------------------------------------------------------------

/// Characters that may follow `@` in a placeholder name.
pub open spec fn is_name_char(c: char) -> bool {
    ('a' <= c && c <= 'z') || ('A' <= c && c <= 'Z') || ('0' <= c && c <= '9') || c == '_'
}

fn exec_is_name_char(c: char) -> (r: bool)
    ensures
        r == is_name_char(c),
{
    ('a' <= c && c <= 'z') || ('A' <= c && c <= 'Z') || ('0' <= c && c <= '9') || c == '_'
}

/// The end of the run of name characters that starts at `j`.
pub open spec fn name_end(s: Seq<char>, j: int) -> int
    decreases s.len() - j,
{
    if j >= s.len() || j < 0 {
        j
    } else if is_name_char(s[j]) {
        name_end(s, j + 1)
    } else {
        j
    }
}

pub proof fn lemma_name_end_bounds(s: Seq<char>, j: int)
    requires
        0 <= j <= s.len(),
    ensures
        j <= name_end(s, j) <= s.len(),
        forall|k: int| j <= k < name_end(s, j) ==> is_name_char(#[trigger] s[k]),
    decreases s.len() - j,
{
    if j < s.len() && is_name_char(s[j]) {
        lemma_name_end_bounds(s, j + 1);
    }
}

/// The placeholder names of `s` from position `i` on, in order of appearance:
/// each `@` followed by one or more name characters gives the longest such run.
pub open spec fn names_from(s: Seq<char>, i: int) -> Seq<Seq<char>>
    decreases s.len() - i,
{
    if i < 0 || i >= s.len() {
        seq![]
    } else {
        let e = name_end(s, i + 1);
        proof {
            lemma_name_end_bounds(s, i + 1);
        }
        if s[i] == '@' && e > i + 1 {
            seq![s.subrange(i + 1, e)] + names_from(s, e)
        } else {
            names_from(s, i + 1)
        }
    }
}

/// All placeholder names of a template, in order of appearance.
pub open spec fn template_names(s: Seq<char>) -> Seq<Seq<char>> {
    names_from(s, 0)
}

/// The names of `names` that have `n` characters, in their original order.
pub open spec fn names_of_len(names: Seq<Seq<char>>, n: nat) -> Seq<Seq<char>>
    decreases names.len(),
{
    if names.len() == 0 {
        seq![]
    } else if names.last().len() == n {
        names_of_len(names.drop_last(), n).push(names.last())
    } else {
        names_of_len(names.drop_last(), n)
    }
}

/// `names` sorted stably by length, longest first, for names of at most `top`
/// characters: all names of length `top`, then those of length `top - 1`, and
/// so on, each group in its original order.
pub open spec fn longest_first(names: Seq<Seq<char>>, top: nat) -> Seq<Seq<char>>
    decreases top,
{
    if top == 0 {
        names_of_len(names, 0)
    } else {
        names_of_len(names, top) + longest_first(names, (top - 1) as nat)
    }
}

/// `str::replace`: every non-overlapping occurrence of `pat`, scanning left to
/// right, replaced by `rep`.
pub open spec fn replace_all(hay: Seq<char>, pat: Seq<char>, rep: Seq<char>) -> Seq<char>
    decreases hay.len(),
{
    if pat.len() == 0 || hay.len() < pat.len() {
        hay
    } else if hay.take(pat.len() as int) == pat {
        rep + replace_all(hay.skip(pat.len() as int), pat, rep)
    } else {
        seq![hay[0]] + replace_all(hay.drop_first(), pat, rep)
    }
}

/// Fills in the names one after the other: each captured name has every
/// `@name` of the current text replaced by its capture.
pub open spec fn replace_names(
    text: Seq<char>,
    names: Seq<Seq<char>>,
    caps: Map<Seq<char>, Seq<char>>,
) -> Seq<char>
    decreases names.len(),
{
    if names.len() == 0 {
        text
    } else {
        let n = names[0];
        let next = if caps.contains_key(n) {
            replace_all(text, seq!['@'] + n, caps[n])
        } else {
            text
        };
        replace_names(next, names.drop_first(), caps)
    }
}

/// The text a template yields for the given captures: placeholders are filled
/// in longest name first, so that `@fn` never eats the start of `@fn_name`.
pub open spec fn template_output(raw: Seq<char>, caps: Map<Seq<char>, Seq<char>>) -> Seq<char> {
    replace_names(raw, longest_first(template_names(raw), raw.len()), caps)
}

/// A rewrite template such as `rename_@old`.
pub struct RewriteTemplate {
    pub raw: String,
}

fn template_names_exec(raw: &Vec<char>) -> (names: Vec<Vec<char>>)
    ensures
        names@.map_values(|n: Vec<char>| n@) == template_names(raw@),
{
    let ghost s = raw@;
    let mut names: Vec<Vec<char>> = Vec::new();
    let mut i: usize = 0;
    while i < raw.len()
        invariant
            s == raw@,
            i <= raw.len(),
            names@.map_values(|n: Vec<char>| n@) + names_from(s, i as int) == names_from(s, 0),
        decreases raw.len() - i,
    {
        let ghost before = names@.map_values(|n: Vec<char>| n@);
        proof {
            lemma_name_end_bounds(s, i + 1);
        }
        if raw[i] == '@' {
            let mut j: usize = i + 1;
            while j < raw.len() && exec_is_name_char(raw[j])
                invariant
                    s == raw@,
                    i < raw.len(),
                    i + 1 <= j <= raw.len(),
                    name_end(s, j as int) == name_end(s, i + 1),
                decreases raw.len() - j,
            {
                j += 1;
            }
            assert(j as int == name_end(s, i + 1));
            if j > i + 1 {
                let mut name: Vec<char> = Vec::new();
                let mut k: usize = i + 1;
                while k < j
                    invariant
                        s == raw@,
                        i + 1 <= k <= j <= raw.len(),
                        name@ == s.subrange(i + 1, k as int),
                    decreases j - k,
                {
                    name.push(raw[k]);
                    assert(s.subrange(i + 1, k + 1) =~= s.subrange(i + 1, k as int).push(s[k as int]));
                    k += 1;
                }
                names.push(name);
                proof {
                    assert(names@.map_values(|n: Vec<char>| n@) =~= before.push(s.subrange(i + 1, j as int)));
                    assert(before.push(s.subrange(i + 1, j as int)) + names_from(s, j as int)
                        =~= before + (seq![s.subrange(i + 1, j as int)] + names_from(s, j as int)));
                }
                i = j;
                continue;
            }
        }
        i += 1;
    }
    assert(names_from(s, i as int) =~= Seq::<Seq<char>>::empty());
    assert(names@.map_values(|n: Vec<char>| n@) + Seq::<Seq<char>>::empty()
        =~= names@.map_values(|n: Vec<char>| n@));
    names
}

fn names_with_len(names: &Vec<Vec<char>>, n: usize) -> (r: Vec<Vec<char>>)
    ensures
        r@.map_values(|x: Vec<char>| x@) == names_of_len(names@.map_values(|x: Vec<char>| x@), n as nat),
{
    let ghost all = names@.map_values(|x: Vec<char>| x@);
    let mut r: Vec<Vec<char>> = Vec::new();
    let mut i: usize = 0;
    while i < names.len()
        invariant
            i <= names.len(),
            all == names@.map_values(|x: Vec<char>| x@),
            r@.map_values(|x: Vec<char>| x@) == names_of_len(all.take(i as int), n as nat),
        decreases names.len() - i,
    {
        assert(all.take(i + 1).drop_last() =~= all.take(i as int));
        assert(all.take(i + 1).last() == names@[i as int]@);
        if names[i].len() == n {
            r.push(copy_chars(&names[i]));
            assert(r@.map_values(|x: Vec<char>| x@) =~= names_of_len(all.take(i as int), n as nat).push(
                names@[i as int]@,
            ));
        }
        i += 1;
    }
    assert(all.take(names.len() as int) =~= all);
    r
}

/// A copy of `v`.
pub(crate) fn copy_chars(v: &Vec<char>) -> (r: Vec<char>)
    ensures
        r@ == v@,
{
    let mut r: Vec<char> = Vec::new();
    append_chars(&mut r, v);
    assert(r@ =~= v@);
    r
}

/// Appends the characters of `v` to `out`.
pub(crate) fn append_chars(out: &mut Vec<char>, v: &Vec<char>)
    ensures
        final(out)@ == old(out)@ + v@,
{
    let ghost start = out@;
    let mut q: usize = 0;
    while q < v.len()
        invariant
            q <= v.len(),
            out@ == start + v@.take(q as int),
        decreases v.len() - q,
    {
        out.push(v[q]);
        assert(v@.take(q + 1) == v@.take(q as int).push(v@[q as int]));
        q += 1;
    }
    assert(v@.take(v.len() as int) =~= v@);
}

fn replace_all_exec(hay: &Vec<char>, pat: &Vec<char>, rep: &Vec<char>) -> (r: Vec<char>)
    requires
        pat.len() > 0,
    ensures
        r@ == replace_all(hay@, pat@, rep@),
{
    let ghost h = hay@;
    let ghost p = pat@;
    let mut out: Vec<char> = Vec::new();
    let mut i: usize = 0;
    assert(h.skip(0) =~= h);
    while i < hay.len()
        invariant
            h == hay@,
            p == pat@,
            p.len() > 0,
            i <= hay.len(),
            out@ + replace_all(h.skip(i as int), p, rep@) == replace_all(h, p, rep@),
        decreases hay.len() - i,
    {
        let ghost rest = h.skip(i as int);
        let ghost before = out@;
        let mut matched = pat.len() <= hay.len() - i;
        if matched {
            let mut k: usize = 0;
            while k < pat.len()
                invariant
                    h == hay@,
                    p == pat@,
                    i + pat.len() <= hay.len(),
                    k <= pat.len(),
                    forall|q: int| 0 <= q < k ==> h[i + q] == p[q],
                ensures
                    k <= pat.len(),
                    forall|q: int| 0 <= q < k ==> h[i + q] == p[q],
                    k < pat.len() ==> h[i + k] != p[k as int],
                decreases pat.len() - k,
            {
                if hay[i + k] != pat[k] {
                    break;
                }
                k += 1;
            }
            if k < pat.len() {
                matched = false;
                assert(rest.take(p.len() as int)[k as int] == h[i + k]);
                assert(p[k as int] != h[i + k]);
                assert(rest.take(p.len() as int) != p);
            } else {
                assert forall|q: int| 0 <= q < p.len() implies rest.take(p.len() as int)[q] == p[q] by {
                    assert(h[i + q] == p[q]);
                }
                assert(rest.take(p.len() as int) =~= p);
            }
        }
        if matched {
            append_chars(&mut out, rep);
            assert(rest.skip(p.len() as int) =~= h.skip(i + p.len()));
            assert(out@ + replace_all(h.skip(i + p.len()), p, rep@) =~= before + (rep@ + replace_all(
                rest.skip(p.len() as int),
                p,
                rep@,
            )));
            i = i + pat.len();
        } else {
            out.push(hay[i]);
            assert(rest.drop_first() =~= h.skip(i + 1));
            assert(rest[0] == h[i as int]);
            proof {
                if rest.len() < p.len() {
                    assert(replace_all(rest.drop_first(), p, rep@) == rest.drop_first());
                    assert(rest =~= seq![rest[0]] + rest.drop_first());
                }
            }
            assert(out@ + replace_all(h.skip(i + 1), p, rep@) =~= before + (seq![rest[0]] + replace_all(
                rest.drop_first(),
                p,
                rep@,
            )));
            i += 1;
        }
    }
    assert(h.skip(i as int) =~= Seq::<char>::empty());
    assert(out@ + Seq::<char>::empty() =~= out@);
    out
}

impl RewriteTemplate {
    /// Fills in the template's placeholders from `captures`; placeholders
    /// without a capture stay as they are written.
    pub fn apply(&self, captures: &Captures) -> (r: String)
        ensures
            r@ == template_output(self.raw@, captures@),
    {
        let raw = chars_of(self.raw.as_str());
        let names = template_names_exec(&raw);
        let ghost all = names@.map_values(|x: Vec<char>| x@);
        // names grouped by length, longest group first
        let mut order: Vec<Vec<char>> = Vec::new();
        let mut top: usize = raw.len();
        let ghost target = longest_first(all, raw@.len());
        loop
            invariant_except_break
                order@.map_values(|x: Vec<char>| x@) + longest_first(all, top as nat) == target,
            invariant
                top <= raw.len(),
                all == names@.map_values(|x: Vec<char>| x@),
            ensures
                order@.map_values(|x: Vec<char>| x@) == target,
            decreases top,
        {
            let group = names_with_len(&names, top);
            let ghost before = order@.map_values(|x: Vec<char>| x@);
            let mut g: usize = 0;
            while g < group.len()
                invariant
                    g <= group.len(),
                    order@.map_values(|x: Vec<char>| x@) == before + group@.map_values(|x: Vec<char>| x@).take(g as int),
                decreases group.len() - g,
            {
                let ghost old_order = order@;
                let c = copy_chars(&group[g]);
                order.push(c);
                let ghost gv = group@.map_values(|x: Vec<char>| x@);
                assert(gv[g as int] == c@);
                assert(order@ == old_order.push(c));
                assert(order@.map_values(|x: Vec<char>| x@) =~= old_order.map_values(|x: Vec<char>| x@).push(c@));
                assert(gv.take(g + 1) =~= gv.take(g as int).push(gv[g as int]));
                assert(order@.map_values(|x: Vec<char>| x@) =~= before + gv.take(g as int).push(gv[g as int]));
                g += 1;
            }
            let ghost gv = group@.map_values(|x: Vec<char>| x@);
            assert(gv.take(group.len() as int) =~= gv);
            if top == 0 {
                assert(longest_first(all, 0) == gv);
                assert(order@.map_values(|x: Vec<char>| x@) =~= target);
                break;
            }
            assert(before + longest_first(all, top as nat) =~= (before + gv) + longest_first(all, (top - 1) as nat));
            top -= 1;
        }
        let mut out: Vec<char> = raw.clone();
        let ghost ov = order@.map_values(|x: Vec<char>| x@);
        let mut k: usize = 0;
        assert(ov.skip(0) =~= ov);
        while k < order.len()
            invariant
                k <= order.len(),
                ov == order@.map_values(|x: Vec<char>| x@),
                ov == target,
                raw@ == self.raw@,
                replace_names(out@, ov.skip(k as int), captures@) == template_output(self.raw@, captures@),
            decreases order.len() - k,
        {
            let name = &order[k];
            let ghost rest = ov.skip(k as int);
            assert(rest[0] == name@);
            assert(rest.drop_first() =~= ov.skip(k + 1));
            match captures.get(name) {
                Some(val) => {
                    let mut token: Vec<char> = Vec::new();
                    token.push('@');
                    append_chars(&mut token, name);
                    assert(token@ =~= seq!['@'] + name@);
                    let val_chars = chars_of(val.as_str());
                    out = replace_all_exec(&out, &token, &val_chars);
                },
                None => {},
            }
            k += 1;
        }
        assert(ov.skip(order.len() as int) =~= Seq::<Seq<char>>::empty());
        string_from_chars(&out)
    }
}

proof fn lemma_replace_names_uncaptured(
    text: Seq<char>,
    names: Seq<Seq<char>>,
    caps: Map<Seq<char>, Seq<char>>,
)
    requires
        forall|k: int| 0 <= k < names.len() ==> !caps.contains_key(#[trigger] names[k]),
    ensures
        replace_names(text, names, caps) == text,
    decreases names.len(),
{
    if names.len() > 0 {
        assert(!caps.contains_key(names[0]));
        assert forall|k: int| 0 <= k < names.drop_first().len() implies !caps.contains_key(
            #[trigger] names.drop_first()[k],
        ) by {
            assert(names.drop_first()[k] == names[k + 1]);
        }
        lemma_replace_names_uncaptured(text, names.drop_first(), caps);
    }
}

proof fn lemma_names_of_len_subset(names: Seq<Seq<char>>, n: nat)
    ensures
        forall|k: int| 0 <= k < names_of_len(names, n).len() ==> names.contains(
            #[trigger] names_of_len(names, n)[k],
        ),
    decreases names.len(),
{
    if names.len() > 0 {
        lemma_names_of_len_subset(names.drop_last(), n);
        let r = names_of_len(names, n);
        assert forall|k: int| 0 <= k < r.len() implies names.contains(#[trigger] r[k]) by {
            let p = names_of_len(names.drop_last(), n);
            if k < p.len() {
                assert(r[k] == p[k]);
                assert(names.drop_last().contains(p[k]));
                let j = choose|j: int| 0 <= j < names.drop_last().len() && names.drop_last()[j] == p[k];
                assert(names[j] == p[k]);
            } else {
                assert(r[k] == names.last());
                assert(names[names.len() - 1] == r[k]);
            }
        }
    }
}

proof fn lemma_longest_first_subset(names: Seq<Seq<char>>, top: nat)
    ensures
        forall|k: int| 0 <= k < longest_first(names, top).len() ==> names.contains(
            #[trigger] longest_first(names, top)[k],
        ),
    decreases top,
{
    lemma_names_of_len_subset(names, top);
    if top > 0 {
        lemma_longest_first_subset(names, (top - 1) as nat);
        let g = names_of_len(names, top);
        let rest = longest_first(names, (top - 1) as nat);
        assert forall|k: int| 0 <= k < longest_first(names, top).len() implies names.contains(
            #[trigger] longest_first(names, top)[k],
        ) by {
            if k < g.len() {
                assert(longest_first(names, top)[k] == g[k]);
            } else {
                assert(longest_first(names, top)[k] == rest[k - g.len()]);
            }
        }
    }
}

/// A template none of whose placeholders has a capture comes out exactly as it
/// was written.
pub proof fn lemma_uncaptured_template_unchanged(raw: Seq<char>, caps: Map<Seq<char>, Seq<char>>)
    requires
        forall|k: int|
            0 <= k < template_names(raw).len() ==> !caps.contains_key(#[trigger] template_names(raw)[k]),
    ensures
        template_output(raw, caps) == raw,
{
    let names = template_names(raw);
    let order = longest_first(names, raw.len());
    lemma_longest_first_subset(names, raw.len());
    assert forall|k: int| 0 <= k < order.len() implies !caps.contains_key(#[trigger] order[k]) by {
        assert(names.contains(order[k]));
        let j = choose|j: int| 0 <= j < names.len() && names[j] == order[k];
        assert(!caps.contains_key(names[j]));
    }
    lemma_replace_names_uncaptured(raw, order, caps);
}

proof fn lemma_name_run_to_end(s: Seq<char>, j: int)
    requires
        0 <= j <= s.len(),
        forall|k: int| j <= k < s.len() ==> is_name_char(#[trigger] s[k]),
    ensures
        name_end(s, j) == s.len(),
    decreases s.len() - j,
{
    if j < s.len() {
        lemma_name_run_to_end(s, j + 1);
    }
}

proof fn lemma_shorter_names_absent(n: Seq<char>, t: nat)
    requires
        t < n.len(),
    ensures
        longest_first(seq![n], t) == Seq::<Seq<char>>::empty(),
    decreases t,
{
    let one = seq![n];
    assert(one.last() == n);
    assert(one.drop_last() =~= Seq::<Seq<char>>::empty());
    assert(names_of_len(one.drop_last(), t) == Seq::<Seq<char>>::empty());
    assert(names_of_len(one, t) =~= Seq::<Seq<char>>::empty());
    if t > 0 {
        lemma_shorter_names_absent(n, (t - 1) as nat);
    }
}

proof fn lemma_replace_whole(pat: Seq<char>, rep: Seq<char>)
    requires
        pat.len() > 0,
    ensures
        replace_all(pat, pat, rep) == rep,
{
    assert(pat.take(pat.len() as int) =~= pat);
    let rest = pat.skip(pat.len() as int);
    assert(rest.len() == 0);
    assert(replace_all(rest, pat, rep) == rest);
    assert(rep + rest =~= rep);
}

/// A template that is one placeholder, `@` and a name of ASCII letters,
/// digits and underscores, comes out as the text captured under that name.
pub proof fn lemma_placeholder_filled(name: Seq<char>, value: Seq<char>)
    requires
        name.len() > 0,
        forall|k: int|
            0 <= k < name.len() ==> {
                let c = #[trigger] name[k];
                ('a' <= c && c <= 'z') || ('A' <= c && c <= 'Z') || ('0' <= c && c <= '9') || c == '_'
            },
    ensures
        template_output(seq!['@'] + name, Map::<Seq<char>, Seq<char>>::empty().insert(name, value)) == value,
{
    let raw = seq!['@'] + name;
    let caps = Map::<Seq<char>, Seq<char>>::empty().insert(name, value);
    assert forall|k: int| 1 <= k < raw.len() implies is_name_char(#[trigger] raw[k]) by {
        assert(raw[k] == name[k - 1]);
    }
    lemma_name_run_to_end(raw, 1);
    assert(raw.subrange(1, raw.len() as int) =~= name);
    assert(names_from(raw, raw.len() as int) == Seq::<Seq<char>>::empty());
    assert(names_from(raw, 0) == seq![name] + names_from(raw, raw.len() as int));
    let names = template_names(raw);
    assert(names =~= seq![name]);
    let one = seq![name];
    assert(one.last() == name);
    assert(one.drop_last() =~= Seq::<Seq<char>>::empty());
    assert(names_of_len(one.drop_last(), raw.len()) == Seq::<Seq<char>>::empty());
    assert(names_of_len(one.drop_last(), name.len()) == Seq::<Seq<char>>::empty());
    assert(Seq::<Seq<char>>::empty().push(name) =~= one);
    assert(names_of_len(one, raw.len()) =~= Seq::<Seq<char>>::empty());
    assert(names_of_len(one, name.len()) =~= one);
    lemma_shorter_names_absent(name, (name.len() - 1) as nat);
    assert(longest_first(one, name.len()) =~= one);
    assert(longest_first(one, raw.len()) =~= one);
    lemma_replace_whole(raw, value);
    let next = replace_all(raw, seq!['@'] + name, value);
    assert(one.drop_first() =~= Seq::<Seq<char>>::empty());
    assert(replace_names(raw, one, caps) == replace_names(next, one.drop_first(), caps));
}

} // verus!
