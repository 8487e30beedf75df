//! The graph accumulator: ingestion of item batches, and the level
//! resolution that consumes the accumulated graph.

use vstd::prelude::*;
use dashmap::DashMap;
use dashmap::DashSet;
use crate::DepMeta;
use crate::batch_of;
use crate::model::GraphModel;
use crate::model::add_spec;
use crate::model::dep_set_or_empty;
use crate::model::empty_graph;
use crate::model::item_add;
use crate::DepResolveError;
use crate::model::advances;
use crate::model::extend_opt;
use crate::model::levels_rec;
use crate::model::lemma_difference_shrinks;
use crate::model::lemma_levels_rec_fuel;
use crate::model::lemma_next_level_in_pending;
use crate::model::next_level;
use crate::model::others_of;
use crate::model::resolve_spec;
use crate::model::roots_of;
use crate::model::seq_to_level_map;
use crate::resolved::ResolvedDeps;
use crate::store::dep_contents;
use crate::store::deps_get;
use crate::store::deps_contains;
use crate::store::level_contents;
use crate::store::lvs_insert;
use crate::store::lvs_new;
use crate::store::set_is_empty;
use crate::store::set_to_vec;
use crate::store::deps_insert;
use crate::store::deps_new;
use crate::store::set_contents;
use crate::store::set_insert;
use crate::store::set_new;

verus! {

/// The graph accumulator: the set of known identifiers, and the recorded
/// dependency sets keyed by identifier.
#[derive(Debug)]
pub struct DepRes {
    pub(crate) ids: DashSet<u64>,
    pub(crate) deps: DashMap<u64, DashSet<u64>>,
}

impl View for DepRes {
    type V = GraphModel;

    closed spec fn view(&self) -> GraphModel {
        GraphModel { ids: set_contents(self.ids), deps: dep_contents(self.deps) }
    }
}

/// The union of a dependency prefix into the recorded entry, one element at
/// a time, equals the union of the whole prefix at once.
proof fn lemma_take_push_to_set(s: Seq<u64>, j: int)
    requires
        0 <= j < s.len(),
    ensures
        s.take(j + 1).to_set() == s.take(j).to_set().insert(s[j]),
{
    assert forall|x: u64| s.take(j + 1).contains(x) implies s.take(j).contains(x) || x == s[j] by {
        let i = choose|i: int| 0 <= i < j + 1 && #[trigger] s.take(j + 1)[i] == x;
        if i < j {
            assert(s.take(j)[i] == x);
        }
    }
    assert forall|x: u64| s.take(j).contains(x) implies s.take(j + 1).contains(x) by {
        let i = choose|i: int| 0 <= i < j && #[trigger] s.take(j)[i] == x;
        assert(s.take(j + 1)[i] == x);
    }
    assert(s.take(j + 1)[j] == s[j]);
    assert(s.take(j + 1).contains(s[j]));
    assert(s.take(j + 1).to_set() =~= s.take(j).to_set().insert(s[j]));
}

/// Whether the vector holds the value; a plain linear scan.
fn vec_has(v: &Vec<u64>, x: u64) -> (r: bool)
    ensures
        r == v@.contains(x),
{
    let mut k: usize = 0;
    while k < v.len()
        invariant
            k <= v.len(),
            forall|m: int| 0 <= m < k ==> v@[m] != x,
        decreases v.len() - k,
    {
        if v[k] == x {
            return true;
        }
        k += 1;
    }
    false
}

/// Whether the two vectors share an element.
fn any_common(v: &Vec<u64>, w: &Vec<u64>) -> (r: bool)
    ensures
        r == exists|d: u64| v@.contains(d) && #[trigger] w@.contains(d),
{
    let mut k: usize = 0;
    while k < v.len()
        invariant
            k <= v.len(),
            forall|m: int| 0 <= m < k ==> !w@.contains(v@[m]),
        decreases v.len() - k,
    {
        if vec_has(w, v[k]) {
            return true;
        }
        k += 1;
    }
    proof {
        assert forall|d: u64| v@.contains(d) implies !w@.contains(d) by {
            let m = choose|m: int| 0 <= m < v@.len() && #[trigger] v@[m] == d;
        }
    }
    false
}

/// A non-empty finite set has at least one element.
proof fn lemma_nonempty_len(s: Set<u64>)
    requires
        s.finite(),
        !s.is_empty(),
    ensures
        s.len() >= 1,
{
    if s.len() == 0 {
        s.lemma_len0_is_empty();
    }
}

impl Default for DepRes {
    /// The same as `DepRes::new`: an empty accumulator.
    fn default() -> (r: DepRes)
        ensures
            r@ == empty_graph(),
    {
        DepRes::new()
    }
}

impl DepRes {
    /// Creates an empty accumulator.
    pub fn new() -> (r: DepRes)
        ensures
            r@ == empty_graph(),
    {
        let r = DepRes { ids: set_new(), deps: deps_new() };
        proof {
            assert(r@ =~= empty_graph());
        }
        r
    }

    /// Ingests a batch of items: every identifier joins the identifier set,
    /// and each non-empty dependency list is unioned into the entry recorded
    /// for its identifier. Calling this again with the same batch changes
    /// nothing.
    pub fn add<T: DepMeta>(&mut self, items: &Vec<T>)
        ensures
            final(self)@ == add_spec(old(self)@, batch_of(items@)),
    {
        let ghost g0 = self@;
        let ghost b = batch_of(items@);
        let mut i: usize = 0;
        while i < items.len()
            invariant
                i <= items.len(),
                b == batch_of(items@),
                self@ == add_spec(g0, b.take(i as int)),
            decreases items.len() - i,
        {
            let ghost gi = self@;
            let id = items[i].get_id();
            let ds = items[i].get_deps();
            let ghost base = dep_set_or_empty(gi.deps, id);
            proof {
                assert(b[i as int] == (items@[i as int].id_spec(), items@[i as int].deps_spec()));
            }
            if ds.len() > 0 {
                let mut j: usize = 0;
                while j < ds.len()
                    invariant
                        j <= ds.len(),
                        ds@ == items@[i as int].deps_spec(),
                        id == items@[i as int].id_spec(),
                        base == dep_set_or_empty(gi.deps, id),
                        self@.ids == gi.ids,
                        j == 0 ==> self@.deps == gi.deps,
                        j > 0 ==> self@.deps == gi.deps.insert(
                            id,
                            base.union(ds@.take(j as int).to_set()),
                        ),
                    decreases ds.len() - j,
                {
                    let ghost before = self@.deps;
                    let d = ds[j];
                    deps_insert(&mut self.deps, id, d);
                    proof {
                        lemma_take_push_to_set(ds@, j as int);
                        if j == 0 {
                            assert(base.insert(d) =~= base.union(ds@.take(1).to_set()));
                        } else {
                            assert(before.dom().contains(id));
                            assert(before[id] == base.union(ds@.take(j as int).to_set()));
                            assert(base.union(ds@.take(j as int).to_set()).insert(d) =~= base.union(
                                ds@.take(j as int + 1).to_set(),
                            ));
                            assert(self@.deps =~= gi.deps.insert(
                                id,
                                base.union(ds@.take(j as int + 1).to_set()),
                            ));
                        }
                    }
                    j += 1;
                }
                proof {
                    assert(ds@.take(ds@.len() as int) =~= ds@);
                }
            }
            set_insert(&mut self.ids, id);
            proof {
                assert(self@ =~= item_add(gi, id, items@[i as int].deps_spec()));
                assert(b.take(i as int + 1).drop_last() =~= b.take(i as int));
                assert(b.take(i as int + 1).last() == b[i as int]);
                assert(self@ == add_spec(g0, b.take(i as int + 1)));
            }
            i += 1;
        }
        proof {
            assert(b.take(items@.len() as int) =~= b);
        }
    }

    /// Consumes the accumulated graph and produces the level assignment, or
    /// the structural error. The result is exactly what the model's
    /// resolution yields: `IslandsOrCircular` when no progress can be made,
    /// and never `InternalDataError`, since under exclusive access every
    /// identifier counted as having dependencies keeps its entry.
    #[verifier::rlimit(100)]
    pub fn resolve(&mut self) -> (r: Result<ResolvedDeps, DepResolveError>)
        ensures
            final(self)@ == old(self)@,
            resolve_spec(old(self)@) matches Some(lvls) ==> (r matches Ok(rd) && rd@
                == seq_to_level_map(lvls) && rd.wf()),
            resolve_spec(old(self)@) is None ==> (r matches Err(e) && e
                == DepResolveError::IslandsOrCircular),
    {
        broadcast use vstd::seq_lib::seq_to_set_is_finite;

        let ghost g = self@;
        let mut lvs = lvs_new();

        let ids_vec = set_to_vec(&self.ids);
        let total = ids_vec.len();
        proof {
            ids_vec@.unique_seq_to_set();
            assert(total == ids_vec@.len());
        }
        if total == 0 {
            proof {
                assert(g.ids =~= Set::<u64>::empty());
                assert(level_contents(lvs) =~= seq_to_level_map(Seq::<Set<u64>>::empty()));
            }
            let rd = ResolvedDeps::new(lvs);
            proof {
                assert(crate::resolved::contiguous_levels(rd@, 0));
            }
            return Ok(rd);
        }

        let mut lv0 = set_new();
        let mut other = set_new();
        let mut idx: usize = 0;
        while idx < total
            invariant
                idx <= total,
                total == ids_vec@.len(),
                self@ == g,
                ids_vec@.no_duplicates(),
                ids_vec@.to_set() == g.ids,
                set_contents(lv0).finite(),
                set_contents(other).finite(),
                forall|x: u64| set_contents(lv0).contains(x) <==> (ids_vec@.take(
                    idx as int,
                ).to_set().contains(x) && !g.deps.dom().contains(x)),
                forall|x: u64| set_contents(other).contains(x) <==> (ids_vec@.take(
                    idx as int,
                ).to_set().contains(x) && g.deps.dom().contains(x)),
                set_contents(lv0).len() + set_contents(other).len() == idx,
            decreases total - idx,
        {
            let id = ids_vec[idx];
            proof {
                lemma_take_push_to_set(ids_vec@, idx as int);
                assert(!ids_vec@.take(idx as int).contains(id)) by {
                    if ids_vec@.take(idx as int).contains(id) {
                        let m = choose|m: int|
                            0 <= m < idx && #[trigger] ids_vec@.take(idx as int)[m] == id;
                        assert(ids_vec@[m] == ids_vec@[idx as int]);
                    }
                };
            }
            if deps_contains(&self.deps, id) {
                set_insert(&mut other, id);
            } else {
                set_insert(&mut lv0, id);
            }
            idx += 1;
        }
        proof {
            assert(ids_vec@.take(ids_vec@.len() as int) =~= ids_vec@);
            assert(set_contents(lv0) =~= roots_of(g));
            assert(set_contents(other) =~= others_of(g));
            assert(g.ids.len() == ids_vec@.len());
        }

        if set_is_empty(&lv0) {
            proof {
                assert(g.ids.contains(ids_vec@[0]));
                assert(roots_of(g).is_empty());
                assert(resolve_spec(g) is None);
            }
            return Err(DepResolveError::IslandsOrCircular);
        }

        let mut frontier_vec = set_to_vec(&lv0);
        lvs_insert(&mut lvs, 0, lv0);
        let mut pending = other;
        let mut lv: usize = 1;
        let ghost mut built: Seq<Set<u64>> = seq![roots_of(g)];
        proof {
            lemma_nonempty_len(roots_of(g));
            assert(level_contents(lvs) =~= seq_to_level_map(built));
            assert(built.last() == roots_of(g));
            assert(resolve_spec(g) == extend_opt(
                built,
                levels_rec(g.deps, roots_of(g), others_of(g), others_of(g).len()),
            ));
        }
        loop
            invariant
                self@ == g,
                g.ids.finite(),
                g.ids.len() <= usize::MAX,
                1 <= lv,
                lv as nat == built.len(),
                level_contents(lvs) == seq_to_level_map(built),
                frontier_vec@.no_duplicates(),
                frontier_vec@.to_set() == built.last(),
                set_contents(pending).finite(),
                set_contents(pending).subset_of(g.deps.dom()),
                built.len() + set_contents(pending).len() <= g.ids.len(),
                resolve_spec(g) == extend_opt(
                    built,
                    levels_rec(g.deps, built.last(), set_contents(pending), set_contents(
                        pending,
                    ).len()),
                ),
                forall|i: int, j: int|
                    #![trigger built[i], built[j]]
                    0 <= i < j < built.len() ==> built[i].disjoint(built[j]),
                forall|i: int| 0 <= i < built.len() ==> #[trigger] built[i].disjoint(
                    set_contents(pending),
                ),
                forall|i: int| 0 <= i < built.len() ==> (#[trigger] built[i]).finite(),
            decreases set_contents(pending).len(),
        {
            let pending_vec = set_to_vec(&pending);
            let ghost pend = set_contents(pending);
            if pending_vec.len() == 0 {
                proof {
                    assert(pend =~= Set::<u64>::empty());
                    assert(next_level(g.deps, built.last(), pend) =~= Set::<u64>::empty());
                    assert(levels_rec(g.deps, built.last(), pend, pend.len()) == Some(
                        Seq::<Set<u64>>::empty(),
                    ));
                    assert(built + Seq::<Set<u64>>::empty() =~= built);
                    assert(resolve_spec(g) == Some(built));
                }
                let rd = ResolvedDeps::new(lvs);
                proof {
                    assert(crate::resolved::contiguous_levels(rd@, built.len()));
                    assert forall|k1: usize, k2: usize|
                        k1 != k2 && rd@.dom().contains(k1) && rd@.dom().contains(
                            k2,
                        ) implies rd@[k1].disjoint(rd@[k2]) by {
                        assert(rd@[k1] == built[k1 as int]);
                        assert(rd@[k2] == built[k2 as int]);
                    };
                }
                return Ok(rd);
            }
            let mut lvn = set_new();
            let mut new_pending = set_new();
            let ghost fr = built.last();
            let mut k: usize = 0;
            while k < pending_vec.len()
                invariant
                    k <= pending_vec.len(),
                    self@ == g,
                    pend == set_contents(pending),
                    pending_vec@.no_duplicates(),
                    pend == pending_vec@.to_set(),
                    pend.subset_of(g.deps.dom()),
                    frontier_vec@.to_set() == fr,
                    set_contents(lvn).finite(),
                    set_contents(new_pending).finite(),
                    forall|x: u64| set_contents(lvn).contains(x) <==> (pending_vec@.take(
                        k as int,
                    ).to_set().contains(x) && advances(g.deps, fr, x)),
                    forall|x: u64| set_contents(new_pending).contains(x) <==> (pending_vec@.take(
                        k as int,
                    ).to_set().contains(x) && !advances(g.deps, fr, x)),
                decreases pending_vec.len() - k,
            {
                let id = pending_vec[k];
                match deps_get(&self.deps, id) {
                    None => {
                        proof {
                            assert(pending_vec@.contains(id));
                            assert(pend.contains(id));
                            assert(false);
                        }
                        return Err(DepResolveError::InternalDataError);
                    },
                    Some(dvec) => {
                        let hit = any_common(&dvec, &frontier_vec);
                        proof {
                            lemma_take_push_to_set(pending_vec@, k as int);
                            assert(dvec@.to_set() == g.deps[id]);
                            if hit {
                                let d = choose|d: u64|
                                    dvec@.contains(d) && #[trigger] frontier_vec@.contains(d);
                                assert(g.deps[id].contains(d) && fr.contains(d));
                                assert(advances(g.deps, fr, id));
                            } else {
                                if advances(g.deps, fr, id) {
                                    let d = choose|d: u64|
                                        #[trigger] g.deps[id].contains(d) && fr.contains(d);
                                    assert(dvec@.contains(d) && frontier_vec@.contains(d));
                                }
                            }
                        }
                        if hit {
                            set_insert(&mut lvn, id);
                        } else {
                            set_insert(&mut new_pending, id);
                        }
                        k += 1;
                    },
                }
            }
            let ghost cand = next_level(g.deps, fr, pend);
            proof {
                assert(pending_vec@.take(pending_vec@.len() as int) =~= pending_vec@);
                assert(set_contents(lvn) =~= cand);
                assert(set_contents(new_pending) =~= pend.difference(cand));
            }
            if set_is_empty(&lvn) {
                proof {
                    assert(pend.contains(pending_vec@[0]));
                    assert(cand.is_empty());
                    assert(levels_rec(g.deps, fr, pend, pend.len()) is None);
                    assert(resolve_spec(g) is None);
                }
                return Err(DepResolveError::IslandsOrCircular);
            }
            let new_frontier = set_to_vec(&lvn);
            proof {
                lemma_next_level_in_pending(g.deps, fr, pend);
                lemma_difference_shrinks(pend, cand);
                lemma_nonempty_len(cand);
            }
            lvs_insert(&mut lvs, lv, lvn);
            let ghost pendp = pend.difference(cand);
            proof {
                assert(pend.len() >= 1);
                lemma_levels_rec_fuel(g.deps, cand, pendp, (pend.len() - 1) as nat, pendp.len());
                assert(levels_rec(g.deps, fr, pend, pend.len()) == (match levels_rec(
                    g.deps,
                    cand,
                    pendp,
                    pendp.len(),
                ) {
                    Some(rest) => Some(seq![cand] + rest),
                    None => None,
                }));
                assert(seq_to_level_map(built.push(cand)) =~= seq_to_level_map(built).insert(
                    lv,
                    cand,
                ));
                match levels_rec(g.deps, cand, pendp, pendp.len()) {
                    Some(rest) => {
                        assert(built + (seq![cand] + rest) =~= built.push(cand) + rest);
                    },
                    None => {},
                }
                assert(resolve_spec(g) == extend_opt(
                    built.push(cand),
                    levels_rec(g.deps, cand, pendp, pendp.len()),
                ));
                assert forall|i: int| 0 <= i < built.len() implies #[trigger] built[i].disjoint(
                    cand,
                ) by {
                    assert(built[i].disjoint(pend));
                };
                built = built.push(cand);
                assert forall|i: int| 0 <= i < built.len() implies #[trigger] built[i].disjoint(
                    pendp,
                ) by {
                    if i < built.len() - 1 {
                        assert(built[i].disjoint(pend));
                        assert forall|a: u64| built[i].contains(a) implies !pendp.contains(a) by {}
                    } else {
                        assert(built[i] == cand);
                        assert forall|a: u64| cand.contains(a) implies !pendp.contains(a) by {}
                    }
                };
            }
            pending = new_pending;
            frontier_vec = new_frontier;
            lv = lv + 1;
        }
    }
}

} // verus!
