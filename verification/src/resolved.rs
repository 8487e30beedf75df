//! The result view: an ordered mapping from level number to the set of
//! identifiers assigned to that level, read-only once constructed.

use vstd::prelude::*;
use dashmap::DashMap;
use dashmap::DashSet;
use std::sync::Arc;
use crate::store::level_contents;
use crate::store::lvs_get;

verus! {

/// Concatenation holds a value exactly when one of the parts does.
proof fn lemma_concat_contains(a: Seq<u64>, b: Seq<u64>, x: u64)
    ensures
        (a + b).contains(x) <==> a.contains(x) || b.contains(x),
{
    if a.contains(x) {
        let i = choose|i: int| 0 <= i < a.len() && #[trigger] a[i] == x;
        assert((a + b)[i] == x);
    }
    if b.contains(x) {
        let i = choose|i: int| 0 <= i < b.len() && #[trigger] b[i] == x;
        assert((a + b)[a.len() + i] == x);
    }
    if (a + b).contains(x) {
        let i = choose|i: int| 0 <= i < (a + b).len() && #[trigger] (a + b)[i] == x;
        if i < a.len() {
            assert(a[i] == x);
        } else {
            assert(b[i - a.len()] == x);
        }
    }
}

/// Concatenating duplicate-free parts that share no element stays
/// duplicate-free.
proof fn lemma_concat_no_dup(a: Seq<u64>, b: Seq<u64>)
    requires
        a.no_duplicates(),
        b.no_duplicates(),
        forall|x: u64| a.contains(x) ==> !b.contains(x),
    ensures
        (a + b).no_duplicates(),
{
    assert forall|i: int, j: int|
        0 <= i < (a + b).len() && 0 <= j < (a + b).len() && i != j implies (a + b)[i] != (a
        + b)[j] by {
        if i < a.len() && j < a.len() {
        } else if i < a.len() && j >= a.len() {
            assert(a.contains(a[i]));
            assert(b.contains(b[j - a.len()]));
        } else if i >= a.len() && j < a.len() {
            assert(a.contains(a[j]));
            assert(b.contains(b[i - a.len()]));
        }
    }
}

/// A contiguous slice of a duplicate-free sequence is duplicate-free.
proof fn lemma_subrange_no_dup(s: Seq<u64>, a: int, b: int)
    requires
        s.no_duplicates(),
        0 <= a <= b <= s.len(),
    ensures
        s.subrange(a, b).no_duplicates(),
{
    let sub = s.subrange(a, b);
    assert forall|i: int, j: int|
        0 <= i < sub.len() && 0 <= j < sub.len() && i != j implies sub[i] != sub[j] by {
        assert(sub[i] == s[a + i]);
        assert(sub[j] == s[a + j]);
    }
}

/// A subset of a finite set with the same cardinality is that set.
proof fn lemma_subset_equal_len(s1: Set<u64>, s2: Set<u64>)
    requires
        s1.subset_of(s2),
        s2.finite(),
        s1.len() == s2.len(),
    ensures
        s1 == s2,
{
    if exists|x: u64| s2.contains(x) && !s1.contains(x) {
        let x = choose|x: u64| s2.contains(x) && !s1.contains(x);
        assert(s1.subset_of(s2.remove(x)));
        vstd::set_lib::lemma_len_subset(s1, s2.remove(x));
        assert(false);
    }
    assert(s1 =~= s2);
}

/// With pairwise disjoint levels, membership decides the level.
proof fn lemma_level_of_member(m: Map<usize, Set<u64>>, lv: usize, x: u64)
    requires
        m.dom().contains(lv),
        m[lv].contains(x),
        forall|k1: usize, k2: usize|
            k1 != k2 && m.dom().contains(k1) && m.dom().contains(k2) ==> m[k1].disjoint(m[k2]),
    ensures
        level_of(m, x) == lv,
{
    assert(m.dom().contains(lv) && m[lv].contains(x));
    let k0 = level_of(m, x);
    assert(m.dom().contains(k0) && m[k0].contains(x));
    if k0 != lv {
        assert(m[k0].disjoint(m[lv]));
        assert(false);
    }
}

/// A map holds exactly the levels `0 .. n`.
pub open spec fn contiguous_levels(m: Map<usize, Set<u64>>, n: nat) -> bool {
    forall|k: usize| m.dom().contains(k) <==> (k as nat) < n
}

/// The level an identifier was assigned to; meaningful when the levels are
/// pairwise disjoint and some level contains it.
pub open spec fn level_of(m: Map<usize, Set<u64>>, x: u64) -> usize {
    choose|k: usize| m.dom().contains(k) && m[k].contains(x)
}

/// No identifier sits in two levels.
pub open spec fn disjoint_levels(m: Map<usize, Set<u64>>) -> bool {
    forall|k1: usize, k2: usize|
        k1 != k2 && m.dom().contains(k1) && m.dom().contains(k2) ==> m[k1].disjoint(m[k2])
}

/// What the flattened sequence promises: no duplicates, exactly the
/// identifiers of the level map, in nondecreasing level order.
pub open spec fn flattened_view(m: Map<usize, Set<u64>>, flat: Seq<u64>) -> bool {
    &&& flat.no_duplicates()
    &&& forall|x: u64| flat.contains(x) <==> exists|k: usize| #[trigger] m.dom().contains(k)
        && m[k].contains(x)
    &&& forall|i: int, j: int|
        #![trigger flat[i], flat[j]]
        0 <= i < j < flat.len() ==> level_of(m, flat[i]) <= level_of(m, flat[j])
}

/// What the per-level listing promises: one duplicate-free entry per level,
/// in level order, holding exactly that level's identifiers.
pub open spec fn per_level_view(m: Map<usize, Set<u64>>, parts: Seq<Seq<u64>>) -> bool {
    &&& forall|k: usize| m.dom().contains(k) <==> (k as int) < parts.len()
    &&& forall|j: int|
        0 <= j < parts.len() ==> (#[trigger] parts[j]).no_duplicates() && parts[j].to_set()
            == m[j as usize]
}

/// Where level `i` starts in the flattened sequence: the summed sizes of
/// the levels before it.
pub open spec fn level_boundary(parts: Seq<Seq<u64>>, i: int) -> int
    decreases i,
{
    if i <= 0 {
        0
    } else {
        level_boundary(parts, i - 1) + parts[i - 1].len()
    }
}

/// The resolved levels: level number to identifier set, immutable after
/// construction.
#[derive(Debug)]
pub struct ResolvedDeps {
    pub(crate) lvs: DashMap<usize, Arc<DashSet<u64>>>,
}

/// One level of a resolution: its ordinal and its identifiers.
#[derive(Debug, Clone)]
pub struct DepLevel<D> {
    pub level: usize,
    pub deps: D,
}

impl View for ResolvedDeps {
    type V = Map<usize, Set<u64>>;

    closed spec fn view(&self) -> Map<usize, Set<u64>> {
        level_contents(self.lvs)
    }
}

impl Clone for ResolvedDeps {
    /// The copy presents the same levels; the underlying level sets are
    /// shared, not deep-copied.
    fn clone(&self) -> (r: ResolvedDeps)
        ensures
            r@ == self@,
    {
        ResolvedDeps { lvs: crate::store::lvs_clone(&self.lvs) }
    }
}

impl Default for ResolvedDeps {
    /// An empty result: no levels at all.
    fn default() -> (r: ResolvedDeps)
        ensures
            r@ == crate::model::empty_level_map(),
    {
        ResolvedDeps { lvs: crate::store::lvs_new() }
    }
}

impl ResolvedDeps {
    /// Levels are contiguous from 0 and pairwise disjoint; every value a
    /// resolution hands out satisfies this.
    pub open spec fn wf(self) -> bool {
        &&& exists|n: nat| n <= usize::MAX && contiguous_levels(self@, n)
        &&& disjoint_levels(self@)
    }

    pub(crate) fn new(lvs: DashMap<usize, Arc<DashSet<u64>>>) -> (r: ResolvedDeps)
        ensures
            r@ == level_contents(lvs),
    {
        ResolvedDeps { lvs }
    }

    /// The underlying level map, for consumers needing direct lookup by
    /// level number.
    pub fn raw_level(&self) -> (r: &DashMap<usize, Arc<DashSet<u64>>>)
        ensures
            level_contents(*r) == self@,
    {
        &self.lvs
    }

    /// Every identifier of every level, flattened in ascending level order;
    /// the order within one level is unspecified.
    #[verifier::rlimit(100)]
    pub fn sorted_by_level(&self) -> (r: Vec<u64>)
        requires
            self.wf(),
        ensures
            r@.no_duplicates(),
            forall|x: u64| r@.contains(x) <==> exists|k: usize| #[trigger] self@.dom().contains(k)
                && self@[k].contains(x),
            forall|i: int, j: int|
                0 <= i < j < r@.len() ==> level_of(self@, r@[i]) <= level_of(self@, r@[j]),
            flattened_view(self@, r@),
    {
        let ghost n = choose|n: nat| n <= usize::MAX && contiguous_levels(self@, n);
        let mut r: Vec<u64> = Vec::new();
        let mut lv: usize = 0;
        loop
            invariant
                self.wf(),
                n <= usize::MAX,
                contiguous_levels(self@, n),
                lv as nat <= n,
                r@.no_duplicates(),
                forall|x: u64| r@.contains(x) <==> exists|k: usize| k < lv && (
                #[trigger] self@[k]).contains(x) && self@.dom().contains(k),
                forall|i: int| 0 <= i < r@.len() ==> level_of(self@, r@[i]) < lv,
                forall|i: int, j: int|
                    0 <= i < j < r@.len() ==> level_of(self@, r@[i]) <= level_of(self@, r@[j]),
            decreases n - lv,
        {
            match lvs_get(&self.lvs, lv) {
                None => {
                    proof {
                        assert(!((lv as nat) < n));
                        assert forall|x: u64| r@.contains(x) implies exists|k: usize|
                            #[trigger] self@.dom().contains(k) && self@[k].contains(x) by {
                            let k = choose|k: usize|
                                k < lv && (#[trigger] self@[k]).contains(x) && self@.dom().contains(
                                    k,
                                );
                            assert(self@.dom().contains(k) && self@[k].contains(x));
                        };
                        assert forall|x: u64|
                            (exists|k: usize|
                                #[trigger] self@.dom().contains(k) && self@[k].contains(
                                    x,
                                )) implies r@.contains(x) by {
                            let k = choose|k: usize|
                                #[trigger] self@.dom().contains(k) && self@[k].contains(x);
                            assert(k < lv && self@[k].contains(x) && self@.dom().contains(k));
                        };
                    }
                    return r;
                },
                Some(dvec) => {
                    let ghost r0 = r@;
                    let ghost m = self@;
                    proof {
                        assert(m.dom().contains(lv));
                        assert forall|x: u64| m[lv as usize].contains(x) implies level_of(m, x)
                            == lv by {
                            lemma_level_of_member(m, lv, x);
                        };
                        assert forall|x: u64| r0.contains(x) implies !dvec@.contains(x) by {
                            let k = choose|k: usize|
                                k < lv && (#[trigger] m[k]).contains(x) && m.dom().contains(k);
                            assert(m[k].disjoint(m[lv as usize]));
                        };
                        lemma_concat_no_dup(r0, dvec@);
                    }
                    let mut t: usize = 0;
                    while t < dvec.len()
                        invariant
                            t <= dvec.len(),
                            r@ == r0 + dvec@.take(t as int),
                        decreases dvec.len() - t,
                    {
                        r.push(dvec[t]);
                        proof {
                            assert(r@ =~= r0 + dvec@.take(t as int + 1));
                        }
                        t += 1;
                    }
                    proof {
                        assert(dvec@.take(dvec@.len() as int) =~= dvec@);
                        assert(r@ == r0 + dvec@);
                        assert forall|x: u64| r@.contains(x) implies (exists|k: usize|
                            k < lv + 1 && (#[trigger] m[k]).contains(x) && m.dom().contains(
                                k,
                            )) by {
                            lemma_concat_contains(r0, dvec@, x);
                            if r0.contains(x) {
                                let k = choose|k: usize|
                                    k < lv && (#[trigger] m[k]).contains(x) && m.dom().contains(k);
                                assert(k < lv + 1 && m[k].contains(x) && m.dom().contains(k));
                            } else {
                                assert(m[lv as usize].contains(x));
                                assert((lv as usize) < lv + 1 && m[lv as usize].contains(x)
                                    && m.dom().contains(lv as usize));
                            }
                        };
                        assert forall|x: u64|
                            (exists|k: usize|
                                k < lv + 1 && (#[trigger] m[k]).contains(x) && m.dom().contains(
                                    k,
                                )) implies r@.contains(x) by {
                            lemma_concat_contains(r0, dvec@, x);
                            let k = choose|k: usize|
                                k < lv + 1 && (#[trigger] m[k]).contains(x) && m.dom().contains(k);
                            if k < lv {
                                assert(r0.contains(x));
                            } else {
                                assert(dvec@.contains(x));
                            }
                        };
                        assert forall|i: int| 0 <= i < r@.len() implies level_of(m, r@[i]) < lv
                            + 1 by {
                            if i < r0.len() {
                                assert(r@[i] == r0[i]);
                            } else {
                                assert(r@[i] == dvec@[i - r0.len()]);
                                assert(dvec@.contains(dvec@[i - r0.len()]));
                                assert(m[lv as usize].contains(r@[i]));
                            }
                        };
                        assert forall|i: int, j: int| 0 <= i < j < r@.len() implies level_of(
                            m,
                            r@[i],
                        ) <= level_of(m, r@[j]) by {
                            if j < r0.len() {
                            } else if i < r0.len() {
                                assert(level_of(m, r@[i]) < lv);
                                assert(dvec@.contains(dvec@[j - r0.len()]));
                                assert(m[lv as usize].contains(r@[j]));
                                assert(level_of(m, r@[j]) == lv);
                            } else {
                                assert(m[lv as usize].contains(r@[i]));
                                assert(m[lv as usize].contains(r@[j]));
                            }
                        };
                    }
                    lv = lv + 1;
                },
            }
        }
    }

    /// The levels in ascending order: one entry per level, carrying the
    /// level number and its identifiers (each exactly once, in no
    /// particular order). Re-iterating yields the same logical content.
    pub fn iter_level(&self) -> (r: Vec<DepLevel<Vec<u64>>>)
        requires
            self.wf(),
        ensures
            forall|k: usize| self@.dom().contains(k) <==> (k as int) < r@.len(),
            forall|i: int|
                0 <= i < r@.len() ==> (#[trigger] r@[i]).level == i && r@[i].deps@.no_duplicates()
                    && r@[i].deps@.to_set() == self@[i as usize],
            per_level_view(self@, r@.map_values(|l: DepLevel<Vec<u64>>| l.deps@)),
    {
        let ghost n = choose|n: nat| n <= usize::MAX && contiguous_levels(self@, n);
        let mut r: Vec<DepLevel<Vec<u64>>> = Vec::new();
        let mut lv: usize = 0;
        loop
            invariant
                self.wf(),
                n <= usize::MAX,
                contiguous_levels(self@, n),
                lv as nat <= n,
                r@.len() == lv as nat,
                forall|i: int|
                    0 <= i < r@.len() ==> (#[trigger] r@[i]).level == i
                        && r@[i].deps@.no_duplicates() && r@[i].deps@.to_set() == self@[i as usize],
            decreases n - lv,
        {
            match lvs_get(&self.lvs, lv) {
                None => {
                    proof {
                        assert(!((lv as nat) < n));
                    }
                    return r;
                },
                Some(dvec) => {
                    r.push(DepLevel { level: lv, deps: dvec });
                    lv = lv + 1;
                },
            }
        }
    }
}

/// The first `level_boundary(parts, i)` entries of the flattened sequence
/// are exactly the identifiers of the levels below `i`, block by block.
#[verifier::rlimit(100)]
proof fn lemma_prefix_blocks(m: Map<usize, Set<u64>>, flat: Seq<u64>, parts: Seq<Seq<u64>>, i: int)
    requires
        disjoint_levels(m),
        flattened_view(m, flat),
        per_level_view(m, parts),
        parts.len() <= usize::MAX,
        0 <= i <= parts.len(),
    ensures
        0 <= level_boundary(parts, i) <= flat.len(),
        forall|idx: int|
            0 <= idx < level_boundary(parts, i) ==> (level_of(m, #[trigger] flat[idx]) as int) < i,
        forall|idx: int|
            level_boundary(parts, i) <= idx < flat.len() ==> (level_of(m, #[trigger] flat[idx]) as int)
                >= i,
        forall|j: int|
            #![trigger level_boundary(parts, j)]
            0 <= j < i ==> flat.subrange(
                level_boundary(parts, j),
                level_boundary(parts, j + 1),
            ).to_set() == m[j as usize],
    decreases i,
{
    broadcast use vstd::seq_lib::seq_to_set_is_finite;

    if i > 0 {
        lemma_prefix_blocks(m, flat, parts, i - 1);
        let s = level_boundary(parts, i - 1);
        let c = parts[i - 1].len() as int;
        let li = (i - 1) as usize;
        assert(m.dom().contains(li));
        let mi = m[li];
        parts[i - 1].unique_seq_to_set();
        assert(mi.len() == c);
        let rest = flat.subrange(s, flat.len() as int);
        assert forall|x: u64| mi.contains(x) implies rest.to_set().contains(x) by {
            assert(m.dom().contains(li) && m[li].contains(x));
            assert(flat.contains(x));
            let idx = choose|idx: int| 0 <= idx < flat.len() && #[trigger] flat[idx] == x;
            lemma_level_of_member(m, li, x);
            assert(idx >= s);
            assert(rest[idx - s] == x);
            assert(rest.contains(x));
        };
        vstd::set_lib::lemma_len_subset(mi, rest.to_set());
        rest.lemma_cardinality_of_set();
        assert(s + c <= flat.len());
        assert forall|t: int| 0 <= t < c implies (level_of(m, #[trigger] rest[t]) as int) == i
            - 1 by {
            assert(rest[t] == flat[s + t]);
            if (level_of(m, rest[t]) as int) > i - 1 {
                assert forall|x: u64| mi.contains(x) implies rest.take(t).to_set().contains(x) by {
                    assert(m.dom().contains(li) && m[li].contains(x));
                    assert(flat.contains(x));
                    let idx = choose|idx: int| 0 <= idx < flat.len() && #[trigger] flat[idx] == x;
                    lemma_level_of_member(m, li, x);
                    assert(idx >= s);
                    let u = idx - s;
                    assert(rest[u] == x);
                    if u > t {
                        assert(flat[s + t] == rest[t]);
                        assert(level_of(m, flat[s + t]) <= level_of(m, flat[idx]));
                        assert(false);
                    }
                    if u == t {
                        assert(false);
                    }
                    assert(rest.take(t)[u] == x);
                    assert(rest.take(t).contains(x));
                };
                rest.take(t).lemma_cardinality_of_set();
                vstd::set_lib::lemma_len_subset(mi, rest.take(t).to_set());
                assert(false);
            }
        };
        let sub = flat.subrange(s, s + c);
        assert(sub =~= rest.take(c));
        assert forall|x: u64| sub.to_set().contains(x) implies mi.contains(x) by {
            let t = choose|t: int| 0 <= t < sub.len() && #[trigger] sub[t] == x;
            assert(rest[t] == x);
            assert((level_of(m, rest[t]) as int) == i - 1);
            assert(flat[s + t] == x);
            assert(flat.contains(x));
            let k = choose|k: usize| #[trigger] m.dom().contains(k) && m[k].contains(x);
            lemma_level_of_member(m, k, x);
            assert(k == li);
        };
        lemma_subrange_no_dup(flat, s, s + c);
        sub.unique_seq_to_set();
        lemma_subset_equal_len(sub.to_set(), mi);
        assert(sub.to_set() == mi);
        assert(level_boundary(parts, i) == s + c);
        assert forall|idx: int|
            s + c <= idx < flat.len() implies (level_of(m, #[trigger] flat[idx]) as int) >= i by {
            if (level_of(m, flat[idx]) as int) == i - 1 {
                let x = flat[idx];
                assert(flat.contains(x));
                let k = choose|k: usize| #[trigger] m.dom().contains(k) && m[k].contains(x);
                lemma_level_of_member(m, k, x);
                assert(k == li);
                assert(mi.contains(x));
                assert(sub.to_set().contains(x));
                let t = choose|t: int| 0 <= t < sub.len() && #[trigger] sub[t] == x;
                assert(flat[s + t] == x);
                assert(s + t < idx);
                assert(false);
            }
        };
        assert forall|idx: int|
            0 <= idx < level_boundary(parts, i) implies (level_of(m, #[trigger] flat[idx]) as int)
            < i by {
            if idx >= s {
                assert(rest[idx - s] == flat[idx]);
                assert((level_of(m, rest[idx - s]) as int) == i - 1);
            }
        };
        assert forall|j: int| #![trigger level_boundary(parts, j)] 0 <= j < i implies flat.subrange(
            level_boundary(parts, j),
            level_boundary(parts, j + 1),
        ).to_set() == m[j as usize] by {
            if j == i - 1 {
                assert(level_boundary(parts, j) == s);
                assert(level_boundary(parts, j + 1) == s + c);
            }
        };
    }
}

/// Cutting the flattened, level-ordered sequence at the boundaries that the
/// per-level sizes give reconstructs each level's membership exactly, and
/// the blocks use the sequence up completely.
pub proof fn lemma_flat_repartition(m: Map<usize, Set<u64>>, flat: Seq<u64>, parts: Seq<Seq<u64>>)
    requires
        disjoint_levels(m),
        flattened_view(m, flat),
        per_level_view(m, parts),
        parts.len() <= usize::MAX,
    ensures
        level_boundary(parts, parts.len() as int) == flat.len(),
        forall|j: int|
            #![trigger level_boundary(parts, j)]
            0 <= j < parts.len() ==> flat.subrange(
                level_boundary(parts, j),
                level_boundary(parts, j + 1),
            ).to_set() == m[j as usize],
{
    let n = parts.len() as int;
    lemma_prefix_blocks(m, flat, parts, n);
    if level_boundary(parts, n) < flat.len() {
        let x = flat[level_boundary(parts, n)];
        assert(flat.contains(x));
        let k = choose|k: usize| #[trigger] m.dom().contains(k) && m[k].contains(x);
        lemma_level_of_member(m, k, x);
        assert((level_of(m, flat[level_boundary(parts, n)]) as int) >= n);
        assert(false);
    }
}

} // verus!
