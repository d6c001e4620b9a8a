//! Resolved import lists: put in path order with duplicates removed, as
//! `Vec<PathBuf>::sort` followed by `dedup` leaves them.
//!
//! Paths are compared component by component (as `std::path::Path` orders them on
//! Unix): a leading `/` is a root component, empty and `.` components are skipped
//! (except a `.` that begins a relative path), `..` is a parent component, and the
//! components rank root < `.` < `..` < names, names by their characters. Two paths
//! are the same path when their components are the same (`a//b` and `a/b/` are `a/b`).
//! Each path is encoded as a key of integers whose lexicographic order is that order.
use vstd::prelude::*;

use crate::model::strings_view;
use crate::text::chars_of;

verus! {

/// The `/`-separated segments of `p` (one empty segment for the empty path).
pub open spec fn segments(p: Seq<char>) -> Seq<Seq<char>>
    decreases p.len(),
{
    if p.len() == 0 {
        seq![Seq::empty()]
    } else if p.last() == '/' {
        segments(p.drop_last()).push(Seq::empty())
    } else {
        let s = segments(p.drop_last());
        s.update(s.len() - 1, s.last().push(p.last()))
    }
}

/// Whether `p` begins at the root.
pub open spec fn rooted(p: Seq<char>) -> bool {
    p.len() > 0 && p[0] == '/'
}

/// The key of one segment: nothing for a skipped segment; otherwise a tag (`.` 1,
/// `..` 2, a name 3 followed by its characters) and the terminator -1.
pub open spec fn segment_key(seg: Seq<char>, first: bool, rooted: bool) -> Seq<i64> {
    if seg.len() == 0 {
        Seq::empty()
    } else if seg == seq!['.'] {
        if first && !rooted {
            seq![1i64, -1i64]
        } else {
            Seq::empty()
        }
    } else if seg == seq!['.', '.'] {
        seq![2i64, -1i64]
    } else {
        seq![3i64] + seg.map_values(|c: char| (c as u32) as i64) + seq![-1i64]
    }
}

/// The keys of a list of segments, one after the other.
pub open spec fn segments_key(segs: Seq<Seq<char>>, rooted: bool) -> Seq<i64>
    decreases segs.len(),
{
    if segs.len() == 0 {
        Seq::empty()
    } else {
        segments_key(segs.drop_last(), rooted) + segment_key(segs.last(), segs.len() == 1, rooted)
    }
}

/// The key of a path: the root component (tag 0) if rooted, then its segments.
#[verifier::opaque]
pub open spec fn path_key(p: Seq<char>) -> Seq<i64> {
    (if rooted(p) {
        seq![0i64, -1i64]
    } else {
        Seq::empty()
    }) + segments_key(segments(p), rooted(p))
}

/// The components of one segment: none for an empty segment or a `.` that does not
/// begin a relative path; the segment itself otherwise.
pub open spec fn segment_part(seg: Seq<char>, first: bool, rooted: bool) -> Seq<Seq<char>> {
    if seg.len() == 0 || (seg == seq!['.'] && !(first && !rooted)) {
        Seq::empty()
    } else {
        seq![seg]
    }
}

/// The components of a list of segments, one after the other.
pub open spec fn segments_parts(segs: Seq<Seq<char>>, rooted: bool) -> Seq<Seq<char>>
    decreases segs.len(),
{
    if segs.len() == 0 {
        Seq::empty()
    } else {
        segments_parts(segs.drop_last(), rooted) + segment_part(segs.last(), segs.len() == 1, rooted)
    }
}

/// The components of a path, written out: `/` for the root, `.` for a leading current
/// directory, `..` for a parent, and each name.
pub open spec fn components(p: Seq<char>) -> Seq<Seq<char>> {
    (if rooted(p) {
        seq![seq!['/']]
    } else {
        Seq::empty()
    }) + segments_parts(segments(p), rooted(p))
}

/// The key of one component.
pub open spec fn part_key(t: Seq<char>) -> Seq<i64> {
    if t == seq!['/'] {
        seq![0i64, -1i64]
    } else if t == seq!['.'] {
        seq![1i64, -1i64]
    } else if t == seq!['.', '.'] {
        seq![2i64, -1i64]
    } else {
        seq![3i64] + t.map_values(|c: char| (c as u32) as i64) + seq![-1i64]
    }
}

/// The keys of a list of components, one after the other.
pub open spec fn parts_key(parts: Seq<Seq<char>>) -> Seq<i64>
    decreases parts.len(),
{
    if parts.len() == 0 {
        Seq::empty()
    } else {
        parts_key(parts.drop_last()) + part_key(parts.last())
    }
}

proof fn lemma_segments_unslashed(p: Seq<char>)
    ensures
        segments(p).len() > 0,
        forall|k: int| 0 <= k < segments(p).len() ==> !(#[trigger] segments(p)[k]).contains('/'),
    decreases p.len(),
{
    if p.len() > 0 {
        let s = segments(p.drop_last());
        lemma_segments_unslashed(p.drop_last());
        if p.last() != '/' {
            let t = s.last().push(p.last());
            assert(!s.last().contains('/'));
            assert(!t.contains('/')) by {
                if t.contains('/') {
                    let i = choose|i: int| 0 <= i < t.len() && t[i] == '/';
                    if i < t.len() - 1 {
                        assert(s.last()[i] == '/');
                    }
                }
            }
        } else {
            assert(!Seq::<char>::empty().contains('/'));
        }
    }
}

/// The segments written out again, with a `/` between each two.
pub open spec fn joined(segs: Seq<Seq<char>>) -> Seq<char>
    decreases segs.len(),
{
    if segs.len() == 0 {
        Seq::empty()
    } else if segs.len() == 1 {
        segs[0]
    } else {
        joined(segs.drop_last()) + seq!['/'] + segs.last()
    }
}

/// Splitting at every `/` loses nothing: the segments hold no `/`, and joining them
/// with `/` gives the path back.
pub proof fn lemma_segments_join(p: Seq<char>)
    ensures
        segments(p).len() > 0,
        forall|k: int| 0 <= k < segments(p).len() ==> !(#[trigger] segments(p)[k]).contains('/'),
        joined(segments(p)) == p,
    decreases p.len(),
{
    lemma_segments_unslashed(p);
    if p.len() == 0 {
        assert(joined(seq![Seq::<char>::empty()]) == Seq::<char>::empty());
    } else {
        let q = p.drop_last();
        lemma_segments_join(q);
        let t = segments(q);
        let c = p.last();
        if c == '/' {
            let u = t.push(Seq::<char>::empty());
            assert(u.drop_last() =~= t);
            assert(joined(u) == joined(t) + seq!['/'] + Seq::<char>::empty());
            assert(p =~= q + seq!['/'] + Seq::<char>::empty());
        } else {
            let u = t.update(t.len() - 1, t.last().push(c));
            if t.len() == 1 {
                assert(joined(u) == u[0]);
                assert(joined(t) == t[0]);
                assert(p =~= t[0].push(c));
            } else {
                assert(u.drop_last() =~= t.drop_last());
                assert(joined(u) == joined(t.drop_last()) + seq!['/'] + t.last().push(c));
                assert(joined(t) == joined(t.drop_last()) + seq!['/'] + t.last());
                assert(p =~= q.push(c));
                assert(joined(u) =~= joined(t).push(c));
            }
        }
    }
}

proof fn lemma_parts_key_concat(a: Seq<Seq<char>>, b: Seq<Seq<char>>)
    ensures
        parts_key(a + b) == parts_key(a) + parts_key(b),
    decreases b.len(),
{
    if b.len() == 0 {
        assert(a + b =~= a);
        assert(parts_key(a) + parts_key(b) =~= parts_key(a));
    } else {
        lemma_parts_key_concat(a, b.drop_last());
        assert((a + b).drop_last() =~= a + b.drop_last());
        assert((a + b).last() == b.last());
        assert(parts_key(a + b) =~= parts_key(a) + parts_key(b));
    }
}

proof fn lemma_parts_key_single(t: Seq<char>)
    ensures
        parts_key(seq![t]) == part_key(t),
{
    assert(seq![t].drop_last() =~= Seq::<Seq<char>>::empty());
    assert(seq![t].last() == t);
    assert(parts_key(Seq::<Seq<char>>::empty()) == Seq::<i64>::empty());
    assert(parts_key(seq![t]) == parts_key(seq![t].drop_last()) + part_key(seq![t].last()));
    assert(parts_key(seq![t]) =~= part_key(t));
}

proof fn lemma_segment_key_parts(seg: Seq<char>, first: bool, rooted: bool)
    requires
        !seg.contains('/'),
    ensures
        segment_key(seg, first, rooted) == parts_key(segment_part(seg, first, rooted)),
{
    lemma_parts_key_single(seg);
    if seg == seq!['/'] {
        assert(seg.contains('/')) by {
            assert(seg[0] == '/');
        }
    }
}

proof fn lemma_segments_key_parts(segs: Seq<Seq<char>>, rooted: bool)
    requires
        forall|k: int| 0 <= k < segs.len() ==> !(#[trigger] segs[k]).contains('/'),
    ensures
        segments_key(segs, rooted) == parts_key(segments_parts(segs, rooted)),
    decreases segs.len(),
{
    if segs.len() > 0 {
        lemma_segments_key_parts(segs.drop_last(), rooted);
        assert(!segs[segs.len() - 1].contains('/'));
        lemma_segment_key_parts(segs.last(), segs.len() == 1, rooted);
        lemma_parts_key_concat(
            segments_parts(segs.drop_last(), rooted),
            segment_part(segs.last(), segs.len() == 1, rooted),
        );
    }
}

proof fn lemma_path_key_parts(p: Seq<char>)
    ensures
        path_key(p) == parts_key(components(p)),
{
    reveal(path_key);
    lemma_segments_unslashed(p);
    lemma_segments_key_parts(segments(p), rooted(p));
    let root: Seq<Seq<char>> = if rooted(p) {
        seq![seq!['/']]
    } else {
        Seq::empty()
    };
    lemma_parts_key_concat(root, segments_parts(segments(p), rooted(p)));
    lemma_parts_key_single(seq!['/']);
    assert(parts_key(Seq::<Seq<char>>::empty()) == Seq::<i64>::empty());
}

/// Empty, or ending in the terminator.
spec fn terminated(k: Seq<i64>) -> bool {
    k.len() == 0 || k.last() == -1
}

/// Ends in the terminator, which occurs nowhere before.
spec fn one_block(k: Seq<i64>) -> bool {
    &&& k.len() > 0
    &&& k.last() == -1
    &&& forall|i: int| 0 <= i < k.len() - 1 ==> #[trigger] k[i] >= 0
}

proof fn lemma_part_key_block(t: Seq<char>)
    ensures
        one_block(part_key(t)),
{
    let k = part_key(t);
    if t != seq!['/'] && t != seq!['.'] && t != seq!['.', '.'] {
        assert forall|i: int| 0 <= i < k.len() - 1 implies #[trigger] k[i] >= 0 by {
            if i > 0 {
                assert(k[i] == (t[i - 1] as u32) as i64);
            }
        }
    }
}

proof fn lemma_parts_key_terminated(parts: Seq<Seq<char>>)
    ensures
        terminated(parts_key(parts)),
        parts_key(parts).len() == 0 ==> parts.len() == 0,
{
    if parts.len() > 0 {
        lemma_part_key_block(parts.last());
    }
}

proof fn lemma_split_unique(u: Seq<i64>, p: Seq<i64>, v: Seq<i64>, q: Seq<i64>)
    requires
        terminated(u),
        terminated(v),
        one_block(p),
        one_block(q),
        u + p == v + q,
    ensures
        p == q,
        u == v,
{
    let w = u + p;
    if p.len() < q.len() {
        let i = u.len() - 1;
        assert(w[i] == u.last());
        assert(w[i] == q[i - v.len()]);
        assert(q[i - v.len()] >= 0);
    } else if q.len() < p.len() {
        assert(w.len() == (v + q).len());
        assert(u.len() < v.len());
        let i = v.len() - 1;
        assert((v + q)[i] == v.last());
        assert(0 <= i - u.len() < p.len() - 1);
        assert(w[i] == p[i - u.len()]);
        assert(p[i - u.len()] >= 0);
    } else {
        assert(u =~= w.take(u.len() as int));
        assert(v =~= (v + q).take(v.len() as int));
        assert(p =~= w.skip(u.len() as int));
        assert(q =~= (v + q).skip(v.len() as int));
    }
}

proof fn lemma_part_key_injective(s: Seq<char>, t: Seq<char>)
    requires
        part_key(s) == part_key(t),
    ensures
        s == t,
{
    let ks = part_key(s);
    let kt = part_key(t);
    if ks[0] == 3 {
        assert(s != seq!['/'] && s != seq!['.'] && s != seq!['.', '.']);
        assert(t != seq!['/'] && t != seq!['.'] && t != seq!['.', '.']);
        assert(ks.len() == s.len() + 2);
        assert(kt.len() == t.len() + 2);
        assert(s.len() == t.len());
        assert forall|i: int| 0 <= i < s.len() implies s[i] == t[i] by {
            assert(ks[i + 1] == (s[i] as u32) as i64);
            assert(kt[i + 1] == (t[i] as u32) as i64);
            lemma_char_code_injective(s[i], t[i]);
        }
        assert(s =~= t);
    }
}

proof fn lemma_parts_key_injective(a: Seq<Seq<char>>, b: Seq<Seq<char>>)
    requires
        parts_key(a) == parts_key(b),
    ensures
        a == b,
    decreases a.len(),
{
    lemma_parts_key_terminated(a);
    lemma_parts_key_terminated(b);
    if a.len() == 0 {
        assert(b.len() == 0);
        assert(a =~= b);
    } else {
        lemma_part_key_block(a.last());
        assert(b.len() > 0);
        lemma_part_key_block(b.last());
        lemma_parts_key_terminated(a.drop_last());
        lemma_parts_key_terminated(b.drop_last());
        lemma_split_unique(parts_key(a.drop_last()), part_key(a.last()), parts_key(b.drop_last()), part_key(b.last()));
        lemma_part_key_injective(a.last(), b.last());
        lemma_parts_key_injective(a.drop_last(), b.drop_last());
        assert(a =~= a.drop_last().push(a.last()));
        assert(b =~= b.drop_last().push(b.last()));
    }
}

/// Two paths are the same path exactly when they have the same components: the key
/// of a path loses nothing of its components, so paths that differ in any character
/// of a name, or in their root, `.` or `..` components, are different paths.
pub proof fn lemma_same_path_components(a: Seq<char>, b: Seq<char>)
    ensures
        same_path(a, b) <==> components(a) == components(b),
{
    lemma_path_key_parts(a);
    lemma_path_key_parts(b);
    if same_path(a, b) {
        lemma_parts_key_injective(components(a), components(b));
    }
}

proof fn lemma_char_code_injective(a: char, b: char)
    ensures
        ((a as u32) as i64 == (b as u32) as i64) ==> a == b,
{
}

/// Lexicographic order of keys (a proper prefix comes first).
pub open spec fn key_before(a: Seq<i64>, b: Seq<i64>) -> bool
    decreases a.len(),
{
    if a.len() == 0 {
        b.len() > 0
    } else if b.len() == 0 {
        false
    } else if a[0] < b[0] {
        true
    } else if a[0] > b[0] {
        false
    } else {
        key_before(a.drop_first(), b.drop_first())
    }
}

/// Whether path `a` comes before path `b`.
pub open spec fn path_before(a: Seq<char>, b: Seq<char>) -> bool {
    key_before(path_key(a), path_key(b))
}

/// Whether `a` and `b` name the same path.
pub open spec fn same_path(a: Seq<char>, b: Seq<char>) -> bool {
    path_key(a) == path_key(b)
}

/// The key order is irreflexive.
pub proof fn lemma_key_before_irreflexive(a: Seq<i64>)
    ensures
        !key_before(a, a),
    decreases a.len(),
{
    if a.len() > 0 {
        lemma_key_before_irreflexive(a.drop_first());
    }
}

/// The key order is transitive.
pub proof fn lemma_key_before_transitive(a: Seq<i64>, b: Seq<i64>, c: Seq<i64>)
    requires
        key_before(a, b),
        key_before(b, c),
    ensures
        key_before(a, c),
    decreases a.len(),
{
    if a.len() > 0 && b.len() > 0 && c.len() > 0 && a[0] == b[0] && b[0] == c[0] {
        lemma_key_before_transitive(a.drop_first(), b.drop_first(), c.drop_first());
    }
}

/// Any two different keys are ordered one way or the other.
pub proof fn lemma_key_before_total(a: Seq<i64>, b: Seq<i64>)
    ensures
        a == b || key_before(a, b) || key_before(b, a),
    decreases a.len(),
{
    if a.len() == 0 || b.len() == 0 {
        if a.len() == 0 && b.len() == 0 {
            assert(a =~= b);
        }
    } else if a[0] == b[0] {
        lemma_key_before_total(a.drop_first(), b.drop_first());
        if a.drop_first() == b.drop_first() {
            assert(a =~= seq![a[0]] + a.drop_first());
            assert(b =~= seq![b[0]] + b.drop_first());
        }
    }
}

/// The order of paths is a strict total order on distinct paths.
pub proof fn lemma_path_order(a: Seq<char>, b: Seq<char>, c: Seq<char>)
    ensures
        !path_before(a, a),
        path_before(a, b) && path_before(b, c) ==> path_before(a, c),
        same_path(a, b) || path_before(a, b) || path_before(b, a),
        path_before(a, b) ==> !path_before(b, a),
{
    lemma_key_before_irreflexive(path_key(a));
    lemma_key_before_total(path_key(a), path_key(b));
    if path_before(a, b) && path_before(b, c) {
        lemma_key_before_transitive(path_key(a), path_key(b), path_key(c));
    }
    if path_before(a, b) && path_before(b, a) {
        lemma_key_before_transitive(path_key(a), path_key(b), path_key(a));
    }
}

/// The kind of a component, in the order paths rank them: root, current directory,
/// parent, name.
pub open spec fn part_kind(t: Seq<char>) -> int {
    if t == seq!['/'] {
        0
    } else if t == seq!['.'] {
        1
    } else if t == seq!['.', '.'] {
        2
    } else {
        3
    }
}

/// Character strings in the order of their code points, a proper prefix first.
pub open spec fn chars_before(a: Seq<char>, b: Seq<char>) -> bool
    decreases a.len(),
{
    if a.len() == 0 {
        b.len() > 0
    } else if b.len() == 0 {
        false
    } else if (a[0] as u32) < (b[0] as u32) {
        true
    } else if (a[0] as u32) > (b[0] as u32) {
        false
    } else {
        chars_before(a.drop_first(), b.drop_first())
    }
}

/// Component `s` ranks before component `t`: by kind, and names by their characters.
pub open spec fn part_before(s: Seq<char>, t: Seq<char>) -> bool {
    part_kind(s) < part_kind(t) || (part_kind(s) == 3 && part_kind(t) == 3 && chars_before(s, t))
}

/// Component lists in lexicographic order, a proper prefix first.
pub open spec fn parts_before(a: Seq<Seq<char>>, b: Seq<Seq<char>>) -> bool
    decreases a.len(),
{
    if a.len() == 0 {
        b.len() > 0
    } else if b.len() == 0 {
        false
    } else if a[0] == b[0] {
        parts_before(a.drop_first(), b.drop_first())
    } else {
        part_before(a[0], b[0])
    }
}

proof fn lemma_parts_key_first(a: Seq<Seq<char>>)
    requires
        a.len() > 0,
    ensures
        parts_key(a) == part_key(a[0]) + parts_key(a.drop_first()),
{
    assert(a =~= seq![a[0]] + a.drop_first());
    lemma_parts_key_concat(seq![a[0]], a.drop_first());
    lemma_parts_key_single(a[0]);
}

proof fn lemma_key_before_common(x: Seq<i64>, u: Seq<i64>, v: Seq<i64>)
    ensures
        key_before(x + u, x + v) == key_before(u, v),
    decreases x.len(),
{
    if x.len() > 0 {
        assert((x + u).drop_first() =~= x.drop_first() + u);
        assert((x + v).drop_first() =~= x.drop_first() + v);
        lemma_key_before_common(x.drop_first(), u, v);
    } else {
        assert(x + u =~= u);
        assert(x + v =~= v);
    }
}

proof fn lemma_key_before_blocks(p: Seq<i64>, u: Seq<i64>, q: Seq<i64>, v: Seq<i64>)
    requires
        one_block(p),
        one_block(q),
        p != q,
    ensures
        key_before(p + u, q + v) == key_before(p, q),
    decreases p.len(),
{
    if p[0] == q[0] {
        if p.len() == 1 || q.len() == 1 {
            if p.len() == 1 {
                assert(q[0] == -1);
                assert(q.len() == 1);
            } else {
                assert(p[0] == -1);
                assert(p.len() == 1);
            }
            assert(p =~= q);
        }
        let p1 = p.drop_first();
        let q1 = q.drop_first();
        assert forall|i: int| 0 <= i < p1.len() - 1 implies #[trigger] p1[i] >= 0 by {
            assert(p1[i] == p[i + 1]);
        }
        assert forall|i: int| 0 <= i < q1.len() - 1 implies #[trigger] q1[i] >= 0 by {
            assert(q1[i] == q[i + 1]);
        }
        if p1 == q1 {
            assert(p =~= seq![p[0]] + p1);
            assert(q =~= seq![q[0]] + q1);
        }
        assert((p + u).drop_first() =~= p1 + u);
        assert((q + v).drop_first() =~= q1 + v);
        lemma_key_before_blocks(p1, u, q1, v);
    }
}

proof fn lemma_codes_before(s: Seq<char>, t: Seq<char>)
    ensures
        key_before(
            s.map_values(|c: char| (c as u32) as i64) + seq![-1i64],
            t.map_values(|c: char| (c as u32) as i64) + seq![-1i64],
        ) == chars_before(s, t),
    decreases s.len(),
{
    let ks = s.map_values(|c: char| (c as u32) as i64) + seq![-1i64];
    let kt = t.map_values(|c: char| (c as u32) as i64) + seq![-1i64];
    if s.len() > 0 && t.len() > 0 {
        assert(ks[0] == (s[0] as u32) as i64);
        assert(kt[0] == (t[0] as u32) as i64);
        if s[0] as u32 == t[0] as u32 {
            assert(ks.drop_first() =~= s.drop_first().map_values(|c: char| (c as u32) as i64) + seq![-1i64]);
            assert(kt.drop_first() =~= t.drop_first().map_values(|c: char| (c as u32) as i64) + seq![-1i64]);
            lemma_codes_before(s.drop_first(), t.drop_first());
        }
    } else if s.len() > 0 {
        assert(ks[0] == (s[0] as u32) as i64);
        assert(kt[0] == -1);
    } else if t.len() > 0 {
        assert(ks[0] == -1);
        assert(kt[0] == (t[0] as u32) as i64);
    } else {
        assert(ks =~= kt);
        lemma_key_before_irreflexive(ks);
    }
}

proof fn lemma_part_key_before(s: Seq<char>, t: Seq<char>)
    requires
        s != t,
    ensures
        key_before(part_key(s), part_key(t)) == part_before(s, t),
{
    let ks = part_key(s);
    let kt = part_key(t);
    if part_kind(s) == 3 && part_kind(t) == 3 {
        let cs = s.map_values(|c: char| (c as u32) as i64) + seq![-1i64];
        let ct = t.map_values(|c: char| (c as u32) as i64) + seq![-1i64];
        assert(ks =~= seq![3i64] + cs);
        assert(kt =~= seq![3i64] + ct);
        lemma_key_before_common(seq![3i64], cs, ct);
        lemma_codes_before(s, t);
    } else {
        assert(ks[0] == part_kind(s));
        assert(kt[0] == part_kind(t));
    }
}

proof fn lemma_parts_key_before(a: Seq<Seq<char>>, b: Seq<Seq<char>>)
    ensures
        key_before(parts_key(a), parts_key(b)) == parts_before(a, b),
    decreases a.len(),
{
    lemma_parts_key_terminated(a);
    lemma_parts_key_terminated(b);
    if a.len() > 0 && b.len() > 0 {
        lemma_parts_key_first(a);
        lemma_parts_key_first(b);
        if a[0] == b[0] {
            lemma_key_before_common(part_key(a[0]), parts_key(a.drop_first()), parts_key(b.drop_first()));
            lemma_parts_key_before(a.drop_first(), b.drop_first());
        } else {
            lemma_part_key_block(a[0]);
            lemma_part_key_block(b[0]);
            if part_key(a[0]) == part_key(b[0]) {
                lemma_part_key_injective(a[0], b[0]);
            }
            lemma_key_before_blocks(part_key(a[0]), parts_key(a.drop_first()), part_key(b[0]), parts_key(b.drop_first()));
            lemma_part_key_before(a[0], b[0]);
        }
    } else if a.len() > 0 {
        lemma_parts_key_first(a);
        lemma_part_key_block(a[0]);
    } else if b.len() > 0 {
        lemma_parts_key_first(b);
        lemma_part_key_block(b[0]);
    }
}

/// Paths are ordered component by component, a path that is a proper prefix of
/// another first; components rank root < `.` < `..` < names, and names by the code
/// points of their characters, a proper prefix first.
pub proof fn lemma_path_before_components(a: Seq<char>, b: Seq<char>)
    ensures
        path_before(a, b) == parts_before(components(a), components(b)),
{
    lemma_path_key_parts(a);
    lemma_path_key_parts(b);
    lemma_parts_key_before(components(a), components(b));
}

fn push_segment_key(key: &mut Vec<i64>, v: &Vec<char>, from: usize, to: usize, first: bool, is_rooted: bool)
    requires
        from <= to <= v.len(),
    ensures
        final(key)@ == old(key)@ + segment_key(v@.subrange(from as int, to as int), first, is_rooted),
{
    let ghost seg = v@.subrange(from as int, to as int);
    if to == from {
        assert(old(key)@ + segment_key(seg, first, is_rooted) =~= old(key)@);
        return;
    }
    if to - from == 1 && v[from] == '.' {
        assert(seg =~= seq!['.']);
        if first && !is_rooted {
            key.push(1);
            key.push(-1);
        }
        assert(key@ =~= old(key)@ + segment_key(seg, first, is_rooted));
        return;
    }
    assert(seg != seq!['.']) by {
        if to - from == 1 {
            assert(seg[0] == v@[from as int]);
        } else {
            assert(seg.len() != 1);
        }
    }
    if to - from == 2 && v[from] == '.' && v[from + 1] == '.' {
        assert(seg =~= seq!['.', '.']);
        key.push(2);
        key.push(-1);
        assert(key@ =~= old(key)@ + segment_key(seg, first, is_rooted));
        return;
    }
    assert(seg != seq!['.', '.']) by {
        if to - from == 2 {
            assert(seg[0] == v@[from as int]);
            assert(seg[1] == v@[from + 1]);
        } else {
            assert(seg.len() != 2);
        }
    }
    key.push(3);
    let ghost base = key@;
    let mut i = from;
    while i < to
        invariant
            from <= i <= to <= v.len(),
            key@ == base + v@.subrange(from as int, i as int).map_values(|c: char| (c as u32) as i64),
        decreases to - i,
    {
        let c = v[i];
        key.push((c as u32) as i64);
        i += 1;
        assert(key@ =~= base + v@.subrange(from as int, i as int).map_values(|c: char| (c as u32) as i64));
    }
    key.push(-1);
    assert(key@ =~= old(key)@ + segment_key(seg, first, is_rooted));
}

/// The key of a path.
pub fn path_key_of(path: &str) -> (key: Vec<i64>)
    ensures
        key@ == path_key(path@),
{
    let v = chars_of(path);
    let ghost p = v@;
    let is_rooted = v.len() > 0 && v[0] == '/';
    let mut key: Vec<i64> = Vec::new();
    if is_rooted {
        key.push(0);
        key.push(-1);
    }
    let ghost root = key@;
    let mut start: usize = 0;
    let mut done: usize = 0;
    let mut i: usize = 0;
    assert(p.take(0) =~= Seq::<char>::empty());
    while i < v.len()
        invariant
            p == v@,
            p == path@,
            is_rooted == rooted(p),
            start <= i <= v.len(),
            done <= i,
            done + 1 == segments(p.take(i as int)).len(),
            segments(p.take(i as int)).last() == p.subrange(start as int, i as int),
            key@ == root + segments_key(segments(p.take(i as int)).drop_last(), is_rooted),
        decreases v.len() - i,
    {
        let ghost segs = segments(p.take(i as int));
        assert(p.take(i + 1).drop_last() =~= p.take(i as int));
        assert(p.take(i + 1).last() == v@[i as int]);
        if v[i] == '/' {
            push_segment_key(&mut key, &v, start, i, done == 0, is_rooted);
            proof {
                let nsegs = segments(p.take(i + 1));
                assert(nsegs == segs.push(Seq::<char>::empty()));
                assert(nsegs.drop_last() =~= segs);
                assert(segs =~= segs.drop_last().push(segs.last()));
                assert(segments_key(segs, is_rooted) == segments_key(segs.drop_last(), is_rooted)
                    + segment_key(segs.last(), segs.len() == 1, is_rooted));
                assert(key@ =~= root + segments_key(nsegs.drop_last(), is_rooted));
                assert(nsegs.last() =~= p.subrange(i + 1, i + 1));
            }
            done += 1;
            start = i + 1;
        } else {
            proof {
                let nsegs = segments(p.take(i + 1));
                assert(nsegs == segs.update(segs.len() - 1, segs.last().push(v@[i as int])));
                assert(nsegs.drop_last() =~= segs.drop_last());
                assert(nsegs.last() =~= p.subrange(start as int, i + 1));
            }
        }
        i += 1;
    }
    push_segment_key(&mut key, &v, start, v.len(), done == 0, is_rooted);
    proof {
        reveal(path_key);
        let segs = segments(p.take(v.len() as int));
        assert(p.take(v.len() as int) =~= p);
        assert(segs =~= segs.drop_last().push(segs.last()));
        assert(key@ =~= path_key(p));
    }
    key
}

fn key_before_exec(a: &Vec<i64>, b: &Vec<i64>) -> (r: bool)
    ensures
        r == key_before(a@, b@),
{
    let mut i: usize = 0;
    assert(a@.skip(0) =~= a@);
    assert(b@.skip(0) =~= b@);
    while i < a.len() && i < b.len() && a[i] == b[i]
        invariant
            i <= a.len(),
            i <= b.len(),
            key_before(a@, b@) == key_before(a@.skip(i as int), b@.skip(i as int)),
        decreases a.len() - i,
    {
        assert(a@.skip(i as int).drop_first() =~= a@.skip(i + 1));
        assert(b@.skip(i as int).drop_first() =~= b@.skip(i + 1));
        i += 1;
    }
    if i == a.len() {
        i < b.len()
    } else if i == b.len() {
        false
    } else {
        a[i] < b[i]
    }
}

pub fn same_key(a: &Vec<i64>, b: &Vec<i64>) -> (r: bool)
    ensures
        r == (a@ == b@),
{
    if a.len() != b.len() {
        return false;
    }
    let mut i: usize = 0;
    while i < a.len()
        invariant
            a.len() == b.len(),
            i <= a.len(),
            forall|k: int| 0 <= k < i ==> a@[k] == b@[k],
        decreases a.len() - i,
    {
        if a[i] != b[i] {
            return false;
        }
        i += 1;
    }
    assert(a@ =~= b@);
    true
}

/// Kept paths are in strictly increasing path order.
#[verifier::opaque]
pub open spec fn increasing(kept: Seq<Seq<char>>) -> bool {
    forall|a: int, b: int| 0 <= a < b < kept.len() ==> path_before(#[trigger] kept[a], #[trigger] kept[b])
}

/// Whether one of `kept` names the same path as `x`.
pub open spec fn has_same(kept: Seq<Seq<char>>, x: Seq<char>) -> bool {
    exists|k: int| 0 <= k < kept.len() && same_path(x, #[trigger] kept[k])
}

/// Whether `paths[a]` is the first of `paths` that names its path.
pub open spec fn is_first(paths: Seq<Seq<char>>, a: int) -> bool {
    forall|j: int| 0 <= j < a ==> !same_path(#[trigger] paths[j], paths[a])
}

/// Each of the first `n` paths names the same path as a kept one.
#[verifier::opaque]
pub open spec fn covers(paths: Seq<Seq<char>>, n: int, kept: Seq<Seq<char>>) -> bool {
    forall|a: int| 0 <= a < n ==> #[trigger] has_same(kept, paths[a])
}

/// Each kept path is, among the first `n` paths, the first one that names it.
#[verifier::opaque]
pub open spec fn first_of_kind(paths: Seq<Seq<char>>, n: int, kept: Seq<Seq<char>>) -> bool {
    forall|k: int|
        #![trigger kept[k]]
        0 <= k < kept.len() ==> exists|a: int|
            #![trigger is_first(paths, a)]
            0 <= a < n && kept[k] == paths[a] && is_first(paths, a)
}

proof fn lemma_keep_existing(paths: Seq<Seq<char>>, n: int, kept: Seq<Seq<char>>, pos: int)
    requires
        0 <= n < paths.len(),
        0 <= pos < kept.len(),
        same_path(paths[n], kept[pos]),
        covers(paths, n, kept),
        first_of_kind(paths, n, kept),
    ensures
        covers(paths, n + 1, kept),
        first_of_kind(paths, n + 1, kept),
{
    reveal(covers);
    reveal(first_of_kind);
    assert(has_same(kept, paths[n]));
    assert forall|a: int| 0 <= a < n + 1 implies #[trigger] has_same(kept, paths[a]) by {
    }
    assert forall|k: int| #![trigger kept[k]] 0 <= k < kept.len() implies exists|a: int|
        #![trigger is_first(paths, a)]
        0 <= a < n + 1 && kept[k] == paths[a] && is_first(paths, a) by {
        let a = choose|a: int| #![trigger is_first(paths, a)] 0 <= a < n && kept[k] == paths[a] && is_first(paths, a);
        assert(is_first(paths, a));
    }
}

proof fn lemma_keep_new(paths: Seq<Seq<char>>, n: int, kept: Seq<Seq<char>>, pos: int)
    requires
        0 <= n < paths.len(),
        0 <= pos <= kept.len(),
        forall|k: int| 0 <= k < pos ==> path_before(#[trigger] kept[k], paths[n]),
        pos < kept.len() ==> !path_before(kept[pos], paths[n]) && !same_path(kept[pos], paths[n]),
        increasing(kept),
        covers(paths, n, kept),
        first_of_kind(paths, n, kept),
    ensures
        increasing(kept.insert(pos, paths[n])),
        covers(paths, n + 1, kept.insert(pos, paths[n])),
        first_of_kind(paths, n + 1, kept.insert(pos, paths[n])),
{
    reveal(increasing);
    reveal(covers);
    reveal(first_of_kind);
    let x = paths[n];
    let nk = kept.insert(pos, x);
    if pos < kept.len() {
        lemma_path_order(kept[pos], x, x);
    }
    // the new path is unlike every path kept so far
    assert forall|k: int| 0 <= k < kept.len() implies !same_path(x, #[trigger] kept[k]) by {
        lemma_path_order(x, x, x);
        if k > pos {
            lemma_path_order(x, kept[pos], kept[k]);
        }
    }
    assert forall|a: int, b: int| 0 <= a < b < nk.len() implies path_before(#[trigger] nk[a], #[trigger] nk[b]) by {
        if b < pos {
            assert(nk[a] == kept[a] && nk[b] == kept[b]);
        } else if b == pos {
            assert(nk[a] == kept[a]);
        } else if a > pos {
            assert(nk[a] == kept[a - 1] && nk[b] == kept[b - 1]);
        } else if a == pos {
            assert(nk[b] == kept[b - 1]);
            if b - 1 > pos {
                lemma_path_order(x, kept[pos], kept[b - 1]);
            }
        } else {
            assert(nk[a] == kept[a] && nk[b] == kept[b - 1]);
            lemma_path_order(kept[a], x, kept[pos]);
            if b - 1 > pos {
                lemma_path_order(kept[a], kept[pos], kept[b - 1]);
            }
        }
    }
    assert forall|a: int| 0 <= a < n + 1 implies #[trigger] has_same(nk, paths[a]) by {
        if a == n {
            assert(nk[pos] == x);
            assert(same_path(paths[a], nk[pos]));
        } else {
            assert(has_same(kept, paths[a]));
            let k = choose|k: int| 0 <= k < kept.len() && same_path(paths[a], #[trigger] kept[k]);
            if k < pos {
                assert(nk[k] == kept[k]);
            } else {
                assert(nk[k + 1] == kept[k]);
            }
        }
    }
    assert(is_first(paths, n)) by {
        assert forall|j: int| 0 <= j < n implies !same_path(#[trigger] paths[j], paths[n]) by {
            assert(has_same(kept, paths[j]));
            let m = choose|m: int| 0 <= m < kept.len() && same_path(paths[j], #[trigger] kept[m]);
            assert(!same_path(x, kept[m]));
        }
    }
    assert forall|k: int| #![trigger nk[k]] 0 <= k < nk.len() implies exists|a: int|
        #![trigger is_first(paths, a)]
        0 <= a < n + 1 && nk[k] == paths[a] && is_first(paths, a) by {
        if k == pos {
            assert(nk[k] == paths[n]);
        } else {
            let ko = if k < pos { k } else { k - 1 };
            assert(nk[k] == kept[ko]);
            let a = choose|a: int| #![trigger is_first(paths, a)] 0 <= a < n && kept[ko] == paths[a] && is_first(paths, a);
            assert(is_first(paths, a));
        }
    }
}

/// The distinct paths of `paths` in path order; of paths that name the same path,
/// the first one in `paths` is kept.
pub fn sorted_unique_paths(paths: &Vec<String>) -> (r: Vec<String>)
    ensures
        increasing(strings_view(r@)),
        covers(strings_view(paths@), paths.len() as int, strings_view(r@)),
        first_of_kind(strings_view(paths@), paths.len() as int, strings_view(r@)),
{
    let ghost pv = strings_view(paths@);
    let mut out: Vec<String> = Vec::new();
    let mut keys: Vec<Vec<i64>> = Vec::new();
    let mut i: usize = 0;
    proof {
        reveal(increasing);
        reveal(covers);
        reveal(first_of_kind);
    }
    while i < paths.len()
        invariant
            i <= paths.len(),
            pv == strings_view(paths@),
            keys.len() == out.len(),
            forall|k: int| 0 <= k < keys.len() ==> #[trigger] keys@[k]@ == path_key(out@[k]@),
            increasing(strings_view(out@)),
            covers(pv, i as int, strings_view(out@)),
            first_of_kind(pv, i as int, strings_view(out@)),
        decreases paths.len() - i,
    {
        let ghost ov = strings_view(out@);
        let x = paths[i].clone();
        let kx = path_key_of(x.as_str());
        let mut pos: usize = 0;
        while pos < keys.len() && key_before_exec(&keys[pos], &kx)
            invariant
                pos <= keys.len(),
                keys.len() == out.len(),
                ov == strings_view(out@),
                forall|k: int| 0 <= k < keys.len() ==> #[trigger] keys@[k]@ == path_key(out@[k]@),
                forall|k: int| 0 <= k < pos ==> key_before(#[trigger] keys@[k]@, kx@),
            decreases keys.len() - pos,
        {
            pos += 1;
        }
        assert(x@ == pv[i as int]);
        assert forall|k: int| 0 <= k < pos implies path_before(#[trigger] ov[k], pv[i as int]) by {
            assert(keys@[k]@ == path_key(out@[k]@));
        }
        if pos < keys.len() && same_key(&keys[pos], &kx) {
            proof {
                assert(keys@[pos as int]@ == path_key(out@[pos as int]@));
                assert(same_path(pv[i as int], ov[pos as int]));
                lemma_keep_existing(pv, i as int, ov, pos as int);
            }
        } else {
            proof {
                if pos < keys.len() {
                    assert(keys@[pos as int]@ == path_key(out@[pos as int]@));
                }
                lemma_keep_new(pv, i as int, ov, pos as int);
            }
            let ghost old_keys = keys@;
            let ghost old_out = out@;
            out.insert(pos, x);
            keys.insert(pos, kx);
            proof {
                assert(strings_view(out@) =~= ov.insert(pos as int, pv[i as int]));
                assert forall|k: int| 0 <= k < keys.len() implies #[trigger] keys@[k]@ == path_key(out@[k]@) by {
                    if k < pos {
                        assert(keys@[k] == old_keys[k] && out@[k] == old_out[k]);
                    } else if k > pos {
                        assert(keys@[k] == old_keys[k - 1] && out@[k] == old_out[k - 1]);
                    }
                }
            }
        }
        i += 1;
    }
    out
}

} // verus!
