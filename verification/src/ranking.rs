//! Ordering and selection of dependency entries for the reports.
use vstd::prelude::*;

use crate::model::{copy_entry, copy_strings, DepEntry, DepResult};
use crate::text::{chars_of, same_chars};

verus! {

broadcast use vstd::multiset::group_multiset_axioms;

/// The order in which entries are listed.
#[derive(Debug, Clone, Copy, PartialEq, Eq, Structural)]
pub enum SortKey {
    /// Descending fan-in.
    FanIn,
    /// Descending fan-out.
    FanOut,
    /// Descending fan-out, ties broken by descending fan-in.
    Combined,
}

/// The sort key named by a `--sort-by` value: `fan-in`, `fan-out`, and anything else
/// the combined order.
pub open spec fn sort_key_spec(name: Seq<char>) -> SortKey {
    if name == "fan-in"@ {
        SortKey::FanIn
    } else if name == "fan-out"@ {
        SortKey::FanOut
    } else {
        SortKey::Combined
    }
}

/// Reads a `--sort-by` value.
pub fn sort_key(name: &str) -> (k: SortKey)
    ensures
        k == sort_key_spec(name@),
{
    let v = chars_of(name);
    if same_chars(&v, &chars_of("fan-in")) {
        SortKey::FanIn
    } else if same_chars(&v, &chars_of("fan-out")) {
        SortKey::FanOut
    } else {
        SortKey::Combined
    }
}

/// The rank of an entry under a key, compared lexicographically (higher comes first).
pub open spec fn rank(e: DepEntry, key: SortKey) -> (int, int) {
    match key {
        SortKey::FanIn => (e.fan_in as int, 0),
        SortKey::FanOut => (e.fan_out as int, 0),
        SortKey::Combined => (e.fan_out as int, e.fan_in as int),
    }
}

/// Whether rank `a` is strictly higher than rank `b`.
pub open spec fn rank_above(a: (int, int), b: (int, int)) -> bool {
    a.0 > b.0 || (a.0 == b.0 && a.1 > b.1)
}

/// No entry of `s` ranks strictly higher than an entry before it.
pub open spec fn ranked(s: Seq<DepEntry>, key: SortKey) -> bool {
    forall|i: int, j: int|
        0 <= i < j < s.len() ==> !rank_above(#[trigger] rank(s[j], key), #[trigger] rank(s[i], key))
}

/// The entries of `s` whose rank is `r`, in their order in `s`.
pub open spec fn with_rank(s: Seq<DepEntry>, key: SortKey, r: (int, int)) -> Seq<DepEntry>
    decreases s.len(),
{
    if s.len() == 0 {
        Seq::empty()
    } else if rank(s.last(), key) == r {
        with_rank(s.drop_last(), key, r).push(s.last())
    } else {
        with_rank(s.drop_last(), key, r)
    }
}

proof fn lemma_with_rank_concat(a: Seq<DepEntry>, b: Seq<DepEntry>, key: SortKey, r: (int, int))
    ensures
        with_rank(a + b, key, r) == with_rank(a, key, r) + with_rank(b, key, r),
    decreases b.len(),
{
    if b.len() == 0 {
        assert(a + b =~= a);
        assert(with_rank(a, key, r) + with_rank(b, key, r) =~= with_rank(a, key, r));
    } else {
        lemma_with_rank_concat(a, b.drop_last(), key, r);
        assert((a + b).drop_last() =~= a + b.drop_last());
        assert((a + b).last() == b.last());
        assert(with_rank(a + b, key, r) =~= with_rank(a, key, r) + with_rank(b, key, r));
    }
}

proof fn lemma_with_rank_none(a: Seq<DepEntry>, key: SortKey, r: (int, int))
    requires
        forall|k: int| 0 <= k < a.len() ==> rank(#[trigger] a[k], key) != r,
    ensures
        with_rank(a, key, r) == Seq::<DepEntry>::empty(),
    decreases a.len(),
{
    if a.len() > 0 {
        assert(rank(a[a.len() - 1], key) != r);
        lemma_with_rank_none(a.drop_last(), key, r);
    }
}

proof fn lemma_with_rank_single(x: DepEntry, key: SortKey, r: (int, int))
    ensures
        with_rank(seq![x], key, r) == if rank(x, key) == r {
            seq![x]
        } else {
            Seq::<DepEntry>::empty()
        },
{
    assert(seq![x].drop_last() =~= Seq::<DepEntry>::empty());
    assert(with_rank(Seq::<DepEntry>::empty(), key, r) == Seq::<DepEntry>::empty());
    assert(seq![x].last() == x);
    if rank(x, key) == r {
        assert(Seq::<DepEntry>::empty().push(x) =~= seq![x]);
    }
}

proof fn lemma_with_rank_member(s: Seq<DepEntry>, key: SortKey, r: (int, int), x: DepEntry)
    ensures
        with_rank(s, key, r).contains(x) <==> (s.contains(x) && rank(x, key) == r),
    decreases s.len(),
{
    if s.len() > 0 {
        let t = s.drop_last();
        lemma_with_rank_member(t, key, r, x);
        let w = with_rank(t, key, r);
        if s.contains(x) && rank(x, key) == r {
            let i = choose|i: int| 0 <= i < s.len() && s[i] == x;
            if i < s.len() - 1 {
                assert(t[i] == x);
                let j = choose|j: int| 0 <= j < w.len() && w[j] == x;
                if rank(s.last(), key) == r {
                    assert(w.push(s.last())[j] == x);
                }
            } else if rank(s.last(), key) == r {
                assert(w.push(s.last())[w.len() as int] == x);
            }
        }
        if with_rank(s, key, r).contains(x) {
            let j = choose|j: int| 0 <= j < with_rank(s, key, r).len() && with_rank(s, key, r)[j] == x;
            if rank(s.last(), key) == r && j == w.len() {
                assert(s[s.len() - 1] == x);
            } else {
                assert(w[j] == x);
                let i = choose|i: int| 0 <= i < t.len() && t[i] == x;
                assert(s[i] == x);
            }
        }
    }
}

/// The order of a sort is fully determined: two ranked sequences that list the
/// entries of each rank in the same order are equal. (So sorting an already sorted
/// list, or sorting twice, changes nothing.)
pub proof fn lemma_stable_order_unique(s: Seq<DepEntry>, t: Seq<DepEntry>, key: SortKey)
    requires
        ranked(s, key),
        ranked(t, key),
        forall|r: (int, int)| #[trigger] with_rank(s, key, r) == with_rank(t, key, r),
    ensures
        s == t,
    decreases s.len() + t.len(),
{
    if s.len() == 0 && t.len() == 0 {
        assert(s =~= t);
    } else if s.len() == 0 {
        lemma_with_rank_member(t, key, rank(t.last(), key), t.last());
        lemma_with_rank_member(s, key, rank(t.last(), key), t.last());
        assert(t.contains(t.last()));
        assert(with_rank(s, key, rank(t.last(), key)) == with_rank(t, key, rank(t.last(), key)));
    } else if t.len() == 0 {
        lemma_with_rank_member(s, key, rank(s.last(), key), s.last());
        lemma_with_rank_member(t, key, rank(s.last(), key), s.last());
        assert(s.contains(s.last()));
        assert(with_rank(s, key, rank(s.last(), key)) == with_rank(t, key, rank(s.last(), key)));
    } else {
        let rs = rank(s.last(), key);
        let rt = rank(t.last(), key);
        // the last entries of both have the lowest rank present
        lemma_with_rank_member(s, key, rs, s.last());
        lemma_with_rank_member(t, key, rs, s.last());
        lemma_with_rank_member(s, key, rt, t.last());
        lemma_with_rank_member(t, key, rt, t.last());
        assert(s.contains(s.last()));
        assert(t.contains(t.last()));
        assert(with_rank(s, key, rs) == with_rank(t, key, rs));
        assert(with_rank(s, key, rt) == with_rank(t, key, rt));
        let i = choose|i: int| 0 <= i < t.len() && t[i] == s.last();
        let j = choose|j: int| 0 <= j < s.len() && s[j] == t.last();
        if i < t.len() - 1 {
            assert(!rank_above(rank(t[t.len() - 1], key), rank(t[i], key)));
        }
        if j < s.len() - 1 {
            assert(!rank_above(rank(s[s.len() - 1], key), rank(s[j], key)));
        }
        assert(rs == rt);
        assert(s.last() == with_rank(s, key, rs).last());
        assert(t.last() == with_rank(t, key, rt).last());
        let s2 = s.drop_last();
        let t2 = t.drop_last();
        assert forall|r: (int, int)| #[trigger] with_rank(s2, key, r) == with_rank(t2, key, r) by {
            if r == rs {
                assert(with_rank(s2, key, r) =~= with_rank(s, key, r).drop_last());
                assert(with_rank(t2, key, r) =~= with_rank(t, key, r).drop_last());
            } else {
                assert(with_rank(s, key, r) == with_rank(s2, key, r));
                assert(with_rank(t, key, r) == with_rank(t2, key, r));
            }
        }
        assert forall|a: int, b: int| 0 <= a < b < s2.len() implies !rank_above(
            #[trigger] rank(s2[b], key),
            #[trigger] rank(s2[a], key),
        ) by {
            assert(s2[a] == s[a] && s2[b] == s[b]);
        }
        assert forall|a: int, b: int| 0 <= a < b < t2.len() implies !rank_above(
            #[trigger] rank(t2[b], key),
            #[trigger] rank(t2[a], key),
        ) by {
            assert(t2[a] == t[a] && t2[b] == t[b]);
        }
        lemma_stable_order_unique(s2, t2, key);
        assert(s =~= s2.push(s.last()));
        assert(t =~= t2.push(t.last()));
    }
}

/// Entry `a` may stand before entry `b` under `key`, read off the counts alone:
/// by fan-in, by fan-out, or by fan-out with fan-in breaking ties; all descending.
pub open spec fn may_precede(a: DepEntry, b: DepEntry, key: SortKey) -> bool {
    match key {
        SortKey::FanIn => a.fan_in >= b.fan_in,
        SortKey::FanOut => a.fan_out >= b.fan_out,
        SortKey::Combined => a.fan_out > b.fan_out || (a.fan_out == b.fan_out && a.fan_in >= b.fan_in),
    }
}

/// Every entry of `s` may stand before every later one.
pub open spec fn in_count_order(s: Seq<DepEntry>, key: SortKey) -> bool {
    forall|i: int, j: int| 0 <= i < j < s.len() ==> may_precede(#[trigger] s[i], #[trigger] s[j], key)
}

/// A ranked list is in descending order of the counts the key names: under the
/// combined key, fan-out decides and fan-in only breaks ties.
pub proof fn lemma_ranked_on_counts(s: Seq<DepEntry>, key: SortKey)
    requires
        ranked(s, key),
    ensures
        in_count_order(s, key),
{
    assert forall|i: int, j: int| 0 <= i < j < s.len() implies may_precede(#[trigger] s[i], #[trigger] s[j], key) by {
        assert(!rank_above(rank(s[j], key), rank(s[i], key)));
    }
}

/// Entries `a` and `b` have the same counts that `key` sorts by.
pub open spec fn same_counts(a: DepEntry, b: DepEntry, key: SortKey) -> bool {
    match key {
        SortKey::FanIn => a.fan_in == b.fan_in,
        SortKey::FanOut => a.fan_out == b.fan_out,
        SortKey::Combined => a.fan_out == b.fan_out && a.fan_in == b.fan_in,
    }
}

/// The entries of `s` with the same sorted-by counts as `x`, in their order in `s`.
pub open spec fn count_peers(s: Seq<DepEntry>, x: DepEntry, key: SortKey) -> Seq<DepEntry> {
    s.filter(|e: DepEntry| same_counts(e, x, key))
}

proof fn lemma_with_rank_peers(s: Seq<DepEntry>, x: DepEntry, key: SortKey)
    ensures
        with_rank(s, key, rank(x, key)) == count_peers(s, x, key),
    decreases s.len(),
{
    reveal_with_fuel(Seq::filter, 1);
    if s.len() > 0 {
        lemma_with_rank_peers(s.drop_last(), x, key);
    }
}

/// A stable sort keeps the order of entries with equal counts: for every entry `x`,
/// the entries whose sorted-by counts equal those of `x` come in their original order.
pub proof fn lemma_stable_on_counts(s: Seq<DepEntry>, orig: Seq<DepEntry>, key: SortKey, x: DepEntry)
    requires
        stably_sorted(s, orig, key),
    ensures
        count_peers(s, x, key) == count_peers(orig, x, key),
{
    lemma_with_rank_peers(s, x, key);
    lemma_with_rank_peers(orig, x, key);
    assert(with_rank(s, key, rank(x, key)) == with_rank(orig, key, rank(x, key)));
}

/// Whether `a` ranks strictly higher than `b`, on the counts alone: under the combined
/// key fan-out decides and fan-in breaks ties.
pub proof fn lemma_outranks_on_counts(a: DepEntry, b: DepEntry, key: SortKey)
    ensures
        rank_above(rank(a, key), rank(b, key)) == match key {
            SortKey::FanIn => a.fan_in > b.fan_in,
            SortKey::FanOut => a.fan_out > b.fan_out,
            SortKey::Combined => a.fan_out > b.fan_out || (a.fan_out == b.fan_out && a.fan_in > b.fan_in),
        },
{
}

/// Whether `a` ranks strictly higher than `b`.
pub fn outranks(a: &DepEntry, b: &DepEntry, key: SortKey) -> (r: bool)
    ensures
        r == rank_above(rank(*a, key), rank(*b, key)),
{
    match key {
        SortKey::FanIn => a.fan_in > b.fan_in,
        SortKey::FanOut => a.fan_out > b.fan_out,
        SortKey::Combined => a.fan_out > b.fan_out || (a.fan_out == b.fan_out && a.fan_in > b.fan_in),
    }
}

/// Sorts entries by descending rank, keeping the order of entries of equal rank
/// (a stable sort).
pub fn sort_entries(entries: &mut Vec<DepEntry>, key: SortKey)
    ensures
        ranked(final(entries)@, key),
        forall|r: (int, int)| #[trigger] with_rank(final(entries)@, key, r) == with_rank(old(entries)@, key, r),
        final(entries)@.to_multiset() == old(entries)@.to_multiset(),
        in_count_order(final(entries)@, key),
        forall|x: DepEntry| #[trigger] count_peers(final(entries)@, x, key) == count_peers(old(entries)@, x, key),
{
    let mut input: Vec<DepEntry> = Vec::new();
    std::mem::swap(entries, &mut input);
    let ghost orig = input@;
    assert(orig.skip(orig.len() as int) =~= Seq::<DepEntry>::empty());
    assert(entries@ + input@ =~= orig);
    assert(orig.take(orig.len() as int) =~= orig);
    while input.len() > 0
        invariant
            orig == old(entries)@,
            input@ == orig.take(input.len() as int),
            input.len() <= orig.len(),
            ranked(entries@, key),
            forall|r: (int, int)| #[trigger] with_rank(entries@, key, r) == with_rank(
                orig.skip(input.len() as int),
                key,
                r,
            ),
            (entries@ + input@).to_multiset() == orig.to_multiset(),
        decreases input.len(),
    {
        let ghost m = input.len() as int;
        let ghost rest = input@.drop_last();
        assert(input@ =~= rest.push(input@.last()));
        let x = input.pop().unwrap();
        let mut pos: usize = 0;
        while pos < entries.len() && outranks(&entries[pos], &x, key)
            invariant
                pos <= entries.len(),
                forall|k: int| 0 <= k < pos ==> rank_above(#[trigger] rank(entries@[k], key), rank(x, key)),
            decreases entries.len() - pos,
        {
            pos += 1;
        }
        let ghost before = entries@;
        entries.insert(pos, x);
        proof {
            let a = before.take(pos as int);
            let b = before.skip(pos as int);
            assert(entries@ =~= a + seq![x] + b);
            assert forall|i: int, j: int| 0 <= i < j < entries@.len() implies !rank_above(
                #[trigger] rank(entries@[j], key),
                #[trigger] rank(entries@[i], key),
            ) by {
                if j < pos {
                    assert(entries@[i] == before[i] && entries@[j] == before[j]);
                } else if j == pos {
                    assert(entries@[i] == before[i]);
                } else if i > pos {
                    assert(entries@[i] == before[i - 1] && entries@[j] == before[j - 1]);
                } else if i == pos {
                    assert(entries@[j] == before[j - 1]);
                    assert(!rank_above(rank(before[pos as int], key), rank(x, key)));
                    if j - 1 > pos {
                        assert(!rank_above(rank(before[j - 1], key), rank(before[pos as int], key)));
                    }
                } else {
                    assert(entries@[i] == before[i] && entries@[j] == before[j - 1]);
                }
            }
            assert(orig.skip(m - 1) =~= seq![x] + orig.skip(m));
            assert forall|r: (int, int)| #[trigger] with_rank(entries@, key, r) == with_rank(
                orig.skip(m - 1),
                key,
                r,
            ) by {
                lemma_with_rank_concat(a + seq![x], b, key, r);
                lemma_with_rank_concat(a, seq![x], key, r);
                lemma_with_rank_concat(a, b, key, r);
                lemma_with_rank_concat(seq![x], orig.skip(m), key, r);
                lemma_with_rank_single(x, key, r);
                assert(before =~= a + b);
                if rank(x, key) == r {
                    assert forall|k: int| 0 <= k < a.len() implies rank(#[trigger] a[k], key) != r by {
                        assert(a[k] == before[k]);
                    }
                    lemma_with_rank_none(a, key, r);
                    assert(with_rank(entries@, key, r) =~= seq![x] + with_rank(b, key, r));
                    assert(with_rank(before, key, r) =~= with_rank(b, key, r));
                } else {
                    assert(with_rank(entries@, key, r) =~= with_rank(a, key, r) + with_rank(b, key, r));
                    assert(with_rank(orig.skip(m - 1), key, r) =~= with_rank(orig.skip(m), key, r));
                }
            }
            assert(rest =~= orig.take(m - 1));
            assert(entries@ == before.insert(pos as int, x));
            vstd::seq_lib::to_multiset_insert(before, pos as int, x);
            vstd::seq_lib::to_multiset_build(rest, x);
            assert(entries@.to_multiset() == before.to_multiset().insert(x));
            assert(rest.push(x).to_multiset() == rest.to_multiset().insert(x));
            vstd::seq_lib::lemma_multiset_commutative(before, rest.push(x));
            vstd::seq_lib::lemma_multiset_commutative(entries@, rest);
            assert((before + rest.push(x)).to_multiset() == before.to_multiset().add(rest.push(x).to_multiset()));
            assert((entries@ + rest).to_multiset() == entries@.to_multiset().add(rest.to_multiset()));
            assert((before + rest.push(x)).to_multiset() =~= (entries@ + rest).to_multiset());
        }
    }
    assert(orig.skip(0) =~= orig);
    assert(entries@ + input@ =~= entries@);
    proof {
        lemma_ranked_on_counts(entries@, key);
        assert forall|x: DepEntry| #[trigger] count_peers(entries@, x, key) == count_peers(orig, x, key) by {
            lemma_stable_on_counts(entries@, orig, key, x);
        }
    }
}

/// The entries of `s` that take part in a dependency cycle, in their order in `s`.
pub open spec fn cycle_members(s: Seq<DepEntry>) -> Seq<DepEntry>
    decreases s.len(),
{
    if s.len() == 0 {
        Seq::empty()
    } else if s.last().in_cycle {
        cycle_members(s.drop_last()).push(s.last())
    } else {
        cycle_members(s.drop_last())
    }
}

/// The entries listed by a report: with `cycles_only`, those in a cycle; otherwise the
/// first `top` of them.
pub open spec fn selection(s: Seq<DepEntry>, cycles_only: bool, top: usize) -> Seq<DepEntry> {
    if cycles_only {
        cycle_members(s)
    } else if top < s.len() {
        s.take(top as int)
    } else {
        s
    }
}

/// The cycle members are the entries of `s` that are in a cycle, all of them, in
/// their order in `s`.
pub proof fn lemma_cycle_members_filter(s: Seq<DepEntry>)
    ensures
        cycle_members(s) == s.filter(|e: DepEntry| e.in_cycle),
    decreases s.len(),
{
    reveal_with_fuel(Seq::filter, 1);
    if s.len() > 0 {
        lemma_cycle_members_filter(s.drop_last());
    }
}

/// With `cycles_only`, the listing holds exactly the entries that take part in a cycle.
pub proof fn lemma_cycle_members_exact(s: Seq<DepEntry>, x: DepEntry)
    ensures
        cycle_members(s).contains(x) <==> (s.contains(x) && x.in_cycle),
    decreases s.len(),
{
    if s.len() > 0 {
        let t = s.drop_last();
        lemma_cycle_members_exact(t, x);
        let w = cycle_members(t);
        if s.contains(x) && x.in_cycle {
            let i = choose|i: int| 0 <= i < s.len() && s[i] == x;
            if i < s.len() - 1 {
                assert(t[i] == x);
                let j = choose|j: int| 0 <= j < w.len() && w[j] == x;
                if s.last().in_cycle {
                    assert(w.push(s.last())[j] == x);
                }
            } else {
                assert(w.push(s.last())[w.len() as int] == x);
            }
        }
        if cycle_members(s).contains(x) {
            let j = choose|j: int| 0 <= j < cycle_members(s).len() && cycle_members(s)[j] == x;
            if s.last().in_cycle && j == w.len() {
                assert(s[s.len() - 1] == x);
            } else {
                assert(w[j] == x);
                let i = choose|i: int| 0 <= i < t.len() && t[i] == x;
                assert(s[i] == x);
            }
        }
    }
}

/// Copies of the entries a report lists (see `selection`).
pub fn select_entries(entries: &Vec<DepEntry>, cycles_only: bool, top: usize) -> (r: Vec<DepEntry>)
    ensures
        r@ == selection(entries@, cycles_only, top),
{
    let mut r: Vec<DepEntry> = Vec::new();
    let mut i: usize = 0;
    if cycles_only {
        assert(entries@.take(0) =~= Seq::<DepEntry>::empty());
        while i < entries.len()
            invariant
                i <= entries.len(),
                r@ == cycle_members(entries@.take(i as int)),
            decreases entries.len() - i,
        {
            assert(entries@.take(i + 1).drop_last() =~= entries@.take(i as int));
            if entries[i].in_cycle {
                r.push(copy_entry(&entries[i]));
            }
            i += 1;
        }
        assert(entries@.take(entries.len() as int) =~= entries@);
    } else {
        let n = if top < entries.len() { top } else { entries.len() };
        while i < n
            invariant
                n <= entries.len(),
                i <= n,
                r@ == entries@.take(i as int),
            decreases n - i,
        {
            r.push(copy_entry(&entries[i]));
            i += 1;
            assert(r@ =~= entries@.take(i as int));
        }
        assert(entries@.take(entries.len() as int) =~= entries@);
    }
    r
}

/// The character views of the cycles of a result.
pub open spec fn cycles_view(cycles: Seq<Vec<String>>) -> Seq<Seq<String>> {
    cycles.map_values(|c: Vec<String>| c@)
}

/// The result a report lists: the selected entries (see `selection`) with all the
/// cycles of `result`.
pub fn listing(result: &DepResult, cycles_only: bool, top: usize) -> (r: DepResult)
    ensures
        r.entries@ == selection(result.entries@, cycles_only, top),
        cycles_view(r.cycles@) == cycles_view(result.cycles@),
{
    let entries = select_entries(&result.entries, cycles_only, top);
    let mut cycles: Vec<Vec<String>> = Vec::new();
    let mut i: usize = 0;
    while i < result.cycles.len()
        invariant
            i <= result.cycles.len(),
            cycles_view(cycles@) == cycles_view(result.cycles@.take(i as int)),
        decreases result.cycles.len() - i,
    {
        let c = copy_strings(&result.cycles[i]);
        let ghost before = cycles@;
        cycles.push(c);
        assert(cycles_view(cycles@) =~= cycles_view(before).push(c@));
        assert(cycles_view(result.cycles@.take(i + 1)) =~= cycles_view(result.cycles@.take(i as int)).push(
            result.cycles@[i as int]@,
        ));
        i += 1;
    }
    assert(result.cycles@.take(result.cycles.len() as int) =~= result.cycles@);
    DepResult { entries, cycles }
}

/// How the dependency analysis is written out.
#[derive(Debug, Clone, Copy, PartialEq, Eq, Structural)]
pub enum OutputFormat {
    /// Graphviz DOT.
    Dot,
    /// JSON.
    Json,
    /// A text table.
    Table,
}

/// The output chosen by `--format` and `--json`: `dot` wins over `--json`, and
/// a table is the default.
pub open spec fn output_format_spec(format: Option<Seq<char>>, json: bool) -> OutputFormat {
    if format == Some("dot"@) {
        OutputFormat::Dot
    } else if json {
        OutputFormat::Json
    } else {
        OutputFormat::Table
    }
}

/// Chooses the output from the `--format` and `--json` options.
pub fn output_format(format: Option<&str>, json: bool) -> (r: OutputFormat)
    ensures
        r == output_format_spec(
            match format {
                Some(f) => Some(f@),
                None => None,
            },
            json,
        ),
{
    let is_dot = match format {
        Some(f) => same_chars(&chars_of(f), &chars_of("dot")),
        None => false,
    };
    if is_dot {
        OutputFormat::Dot
    } else if json {
        OutputFormat::Json
    } else {
        OutputFormat::Table
    }
}

/// `s` is `orig` sorted stably by `key`: ranked, with the entries of each rank in
/// their order in `orig` (by `lemma_stable_order_unique` there is one such `s`).
pub open spec fn stably_sorted(s: Seq<DepEntry>, orig: Seq<DepEntry>, key: SortKey) -> bool {
    &&& ranked(s, key)
    &&& forall|r: (int, int)| #[trigger] with_rank(s, key, r) == with_rank(orig, key, r)
}

/// What the dependency command writes out.
#[derive(Debug)]
pub enum DepsOutput {
    /// The DOT export of the whole sorted result.
    Dot { sorted: DepResult },
    /// The JSON of the listed entries with all cycles.
    Json { listed: DepResult },
    /// The table of the listed `entries`, with the cycle summary of the sorted result.
    Table { entries: Vec<DepEntry>, sorted: DepResult },
}

/// Decides the output of the dependency command: sorts the entries by `--sort-by`,
/// keeps those asked for by `--cycles-only` or `--top`, and picks the output format.
pub fn plan_output(
    result: DepResult,
    json: bool,
    cycles_only: bool,
    sort_by: &str,
    top: usize,
    format: Option<&str>,
) -> (r: DepsOutput)
    ensures
        ({
            let key = sort_key_spec(sort_by@);
            let chosen = output_format_spec(
                match format {
                    Some(f) => Some(f@),
                    None => None,
                },
                json,
            );
            match r {
                DepsOutput::Dot { sorted } => chosen == OutputFormat::Dot && stably_sorted(
                    sorted.entries@,
                    result.entries@,
                    key,
                ) && in_count_order(sorted.entries@, key) && sorted.cycles@ == result.cycles@,
                DepsOutput::Json { listed } => chosen == OutputFormat::Json && (exists|s: Seq<DepEntry>|
                    stably_sorted(s, result.entries@, key) && in_count_order(s, key)
                        && #[trigger] selection(s, cycles_only, top)
                        == listed.entries@) && cycles_view(listed.cycles@) == cycles_view(
                    result.cycles@,
                ),
                DepsOutput::Table { entries, sorted } => chosen == OutputFormat::Table
                    && stably_sorted(sorted.entries@, result.entries@, key) && in_count_order(
                    sorted.entries@,
                    key,
                ) && sorted.cycles@
                    == result.cycles@ && entries@ == selection(sorted.entries@, cycles_only, top),
            }
        }),
{
    let mut result = result;
    let ghost orig = result.entries@;
    sort_entries(&mut result.entries, sort_key(sort_by));
    match output_format(format, json) {
        OutputFormat::Dot => DepsOutput::Dot { sorted: result },
        OutputFormat::Json => {
            let listed = listing(&result, cycles_only, top);
            assert(selection(result.entries@, cycles_only, top) == listed.entries@);
            DepsOutput::Json { listed }
        },
        OutputFormat::Table => {
            let l = listing(&result, cycles_only, top);
            DepsOutput::Table { entries: l.entries, sorted: result }
        },
    }
}

} // verus!
