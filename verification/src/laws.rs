//! The properties the resolution guarantees, stated and proved over the
//! model that the executable contracts speak of.

use vstd::prelude::*;
use crate::model::GraphModel;
use crate::model::add_spec;
use crate::model::advances;
use crate::model::dep_set_or_empty;
use crate::model::item_add;
use crate::model::lemma_next_level_in_pending;
use crate::model::levels_rec;
use crate::model::next_level;
use crate::model::others_of;
use crate::model::resolve_spec;
use crate::model::roots_of;

verus! {

/// The union of all level sets of a resolution.
pub open spec fn union_all(s: Seq<Set<u64>>) -> Set<u64>
    decreases s.len(),
{
    if s.len() == 0 {
        Set::empty()
    } else {
        s[0].union(union_all(s.drop_first()))
    }
}

/// What each pass of the leveling guarantees: the produced levels cover the
/// pending set exactly, are pairwise disjoint, and each level's members
/// advance past the level before it.
proof fn lemma_levels_rec_props(
    deps: Map<u64, Set<u64>>,
    frontier: Set<u64>,
    pending: Set<u64>,
    fuel: nat,
    lvls: Seq<Set<u64>>,
)
    requires
        levels_rec(deps, frontier, pending, fuel) == Some(lvls),
    ensures
        union_all(lvls) == pending,
        forall|i: int| 0 <= i < lvls.len() ==> (#[trigger] lvls[i]).subset_of(pending),
        forall|i: int, j: int|
            #![trigger lvls[i], lvls[j]]
            0 <= i < j < lvls.len() ==> lvls[i].disjoint(lvls[j]),
        forall|i: int, x: u64|
            0 <= i < lvls.len() && #[trigger] lvls[i].contains(x) ==> advances(
                deps,
                if i == 0 {
                    frontier
                } else {
                    lvls[i - 1]
                },
                x,
            ),
    decreases fuel,
{
    let cand = next_level(deps, frontier, pending);
    lemma_next_level_in_pending(deps, frontier, pending);
    if cand.is_empty() {
        assert(lvls =~= Seq::<Set<u64>>::empty());
        assert(union_all(lvls) =~= pending);
    } else {
        let pendp = pending.difference(cand);
        match levels_rec(deps, cand, pendp, (fuel - 1) as nat) {
            Some(rest) => {
                lemma_levels_rec_props(deps, cand, pendp, (fuel - 1) as nat, rest);
                assert(lvls == seq![cand] + rest);
                assert(lvls[0] == cand);
                assert(lvls.drop_first() =~= rest);
                assert(union_all(lvls) == cand.union(union_all(rest)));
                assert(cand.union(pendp) =~= pending);
                assert forall|i: int| 0 <= i < lvls.len() implies (#[trigger] lvls[i]).subset_of(
                    pending,
                ) by {
                    if i > 0 {
                        assert(lvls[i] == rest[i - 1]);
                        assert(rest[i - 1].subset_of(pendp));
                        assert forall|a: u64| lvls[i].contains(a) implies pending.contains(a) by {}
                    }
                };
                assert forall|i: int, j: int|
                    #![trigger lvls[i], lvls[j]]
                    0 <= i < j < lvls.len() implies lvls[i].disjoint(lvls[j]) by {
                    if i == 0 {
                        assert(lvls[j] == rest[j - 1]);
                        assert(rest[j - 1].subset_of(pendp));
                        assert forall|a: u64| cand.contains(a) implies !lvls[j].contains(a) by {}
                    } else {
                        assert(lvls[i] == rest[i - 1]);
                        assert(lvls[j] == rest[j - 1]);
                    }
                };
                assert forall|i: int, x: u64|
                    0 <= i < lvls.len() && #[trigger] lvls[i].contains(x) implies advances(
                    deps,
                    if i == 0 {
                        frontier
                    } else {
                        lvls[i - 1]
                    },
                    x,
                ) by {
                    if i == 0 {
                        assert(cand.contains(x));
                    } else if i == 1 {
                        assert(rest[0].contains(x));
                        assert(advances(deps, cand, x));
                        assert(lvls[0] == cand);
                    } else {
                        assert(rest[i - 1].contains(x));
                        assert(advances(deps, rest[i - 2], x));
                        assert(lvls[i - 1] == rest[i - 2]);
                    }
                };
            },
            None => {
                assert(false);
            },
        }
    }
}

/// Every identifier of a resolved graph appears in exactly one level: the
/// level sets cover the identifier set, and no identifier sits in two of
/// them.
pub proof fn lemma_resolution_partition(g: GraphModel, lvls: Seq<Set<u64>>)
    requires
        resolve_spec(g) == Some(lvls),
    ensures
        union_all(lvls) == g.ids,
        forall|i: int, j: int|
            #![trigger lvls[i], lvls[j]]
            0 <= i < j < lvls.len() ==> lvls[i].disjoint(lvls[j]),
{
    if g.ids.is_empty() {
        assert(lvls =~= Seq::<Set<u64>>::empty());
        assert(union_all(lvls) =~= g.ids);
    } else {
        let r = roots_of(g);
        let o = others_of(g);
        match levels_rec(g.deps, r, o, o.len()) {
            Some(rest) => {
                lemma_levels_rec_props(g.deps, r, o, o.len(), rest);
                assert(lvls == seq![r] + rest);
                assert(lvls[0] == r);
                assert(lvls.drop_first() =~= rest);
                assert(union_all(lvls) == r.union(union_all(rest)));
                assert(r.union(o) =~= g.ids);
                assert forall|i: int, j: int|
                    #![trigger lvls[i], lvls[j]]
                    0 <= i < j < lvls.len() implies lvls[i].disjoint(lvls[j]) by {
                    if i == 0 {
                        assert(lvls[j] == rest[j - 1]);
                        assert(rest[j - 1].subset_of(o));
                        assert forall|a: u64| r.contains(a) implies !lvls[j].contains(a) by {}
                    } else {
                        assert(lvls[i] == rest[i - 1]);
                        assert(lvls[j] == rest[j - 1]);
                    }
                };
            },
            None => {
                assert(false);
            },
        }
    }
}

/// Level 0 identifiers have no recorded dependencies, and an identifier in
/// level `L > 0` has at least one recorded dependency in level `L - 1`.
pub proof fn lemma_resolution_edges(g: GraphModel, lvls: Seq<Set<u64>>)
    requires
        resolve_spec(g) == Some(lvls),
    ensures
        lvls.len() > 0 ==> lvls[0] == roots_of(g),
        forall|x: u64| 0 < lvls.len() && (#[trigger] lvls[0].contains(x)) ==> !g.deps.dom().contains(
            x,
        ),
        forall|i: int, x: u64|
            1 <= i < lvls.len() && #[trigger] lvls[i].contains(x) ==> advances(
                g.deps,
                lvls[i - 1],
                x,
            ),
{
    if g.ids.is_empty() {
        assert(lvls =~= Seq::<Set<u64>>::empty());
    } else {
        let r = roots_of(g);
        let o = others_of(g);
        match levels_rec(g.deps, r, o, o.len()) {
            Some(rest) => {
                lemma_levels_rec_props(g.deps, r, o, o.len(), rest);
                assert(lvls == seq![r] + rest);
                assert(lvls[0] == r);
                assert forall|i: int, x: u64|
                    1 <= i < lvls.len() && #[trigger] lvls[i].contains(x) implies advances(
                    g.deps,
                    lvls[i - 1],
                    x,
                ) by {
                    assert(lvls[i] == rest[i - 1]);
                    assert(rest[i - 1].contains(x));
                    if i == 1 {
                        assert(advances(g.deps, r, x));
                    } else {
                        assert(advances(g.deps, rest[i - 2], x));
                        assert(lvls[i - 1] == rest[i - 2]);
                    }
                };
            },
            None => {
                assert(false);
            },
        }
    }
}

/// A batch's item is fully reflected in a graph: its identifier is known
/// and its dependencies are recorded.
spec fn absorbed(g: GraphModel, it: (u64, Seq<u64>)) -> bool {
    &&& g.ids.contains(it.0)
    &&& (it.1.len() == 0 || (g.deps.dom().contains(it.0) && it.1.to_set().subset_of(
        g.deps[it.0],
    )))
}

/// Ingestion only grows a graph: nothing leaves the identifier set, and
/// recorded dependency sets only gain members.
spec fn grows(g1: GraphModel, g2: GraphModel) -> bool {
    &&& g1.ids.subset_of(g2.ids)
    &&& g1.deps.dom().subset_of(g2.deps.dom())
    &&& forall|k: u64| #[trigger] g1.deps.dom().contains(k) ==> g1.deps[k].subset_of(g2.deps[k])
}

proof fn lemma_item_add_grows(g: GraphModel, id: u64, ds: Seq<u64>)
    ensures
        grows(g, item_add(g, id, ds)),
{
    let h = item_add(g, id, ds);
    assert forall|k: u64| #[trigger] g.deps.dom().contains(k) implies g.deps[k].subset_of(
        h.deps[k],
    ) by {
        if ds.len() > 0 && k == id {
            assert(h.deps[k] == dep_set_or_empty(g.deps, id).union(ds.to_set()));
        }
    };
}

proof fn lemma_absorbed_persists(g1: GraphModel, g2: GraphModel, it: (u64, Seq<u64>))
    requires
        absorbed(g1, it),
        grows(g1, g2),
    ensures
        absorbed(g2, it),
{
}

proof fn lemma_add_spec_absorbs(g: GraphModel, items: Seq<(u64, Seq<u64>)>, i: int)
    requires
        0 <= i < items.len(),
    ensures
        absorbed(add_spec(g, items), items[i]),
    decreases items.len(),
{
    let gp = add_spec(g, items.drop_last());
    let it = items.last();
    if i == items.len() - 1 {
        let h = item_add(gp, it.0, it.1);
        if it.1.len() > 0 {
            assert(h.deps[it.0] == dep_set_or_empty(gp.deps, it.0).union(it.1.to_set()));
        }
        assert(absorbed(h, it));
    } else {
        lemma_add_spec_absorbs(g, items.drop_last(), i);
        assert(items.drop_last()[i] == items[i]);
        lemma_item_add_grows(gp, it.0, it.1);
        lemma_absorbed_persists(gp, add_spec(g, items), items[i]);
    }
}

proof fn lemma_add_absorbed_noop(g: GraphModel, items: Seq<(u64, Seq<u64>)>)
    requires
        forall|i: int| 0 <= i < items.len() ==> absorbed(g, #[trigger] items[i]),
    ensures
        add_spec(g, items) == g,
    decreases items.len(),
{
    if items.len() > 0 {
        assert forall|i: int| 0 <= i < items.drop_last().len() implies absorbed(
            g,
            #[trigger] items.drop_last()[i],
        ) by {
            assert(items.drop_last()[i] == items[i]);
        };
        lemma_add_absorbed_noop(g, items.drop_last());
        let it = items.last();
        assert(absorbed(g, it));
        let h = item_add(g, it.0, it.1);
        assert(g.ids.insert(it.0) =~= g.ids);
        if it.1.len() > 0 {
            assert(dep_set_or_empty(g.deps, it.0) == g.deps[it.0]);
            assert(g.deps[it.0].union(it.1.to_set()) =~= g.deps[it.0]);
            assert(g.deps.insert(it.0, g.deps[it.0]) =~= g.deps);
        }
        assert(h =~= g);
    }
}

/// Ingesting the same batch twice yields the same graph as ingesting it
/// once: identifier inserts are idempotent and dependency lists are
/// unioned, not accumulated twice.
pub proof fn lemma_add_idempotent(g: GraphModel, items: Seq<(u64, Seq<u64>)>)
    ensures
        add_spec(add_spec(g, items), items) == add_spec(g, items),
{
    let g1 = add_spec(g, items);
    assert forall|i: int| 0 <= i < items.len() implies absorbed(g1, #[trigger] items[i]) by {
        lemma_add_spec_absorbs(g, items, i);
    };
    lemma_add_absorbed_noop(g1, items);
}

/// The structure of a resolution is determined by the ingested graph alone:
/// two accumulators holding the same identifiers and the same recorded
/// dependency sets resolve to the same level assignment. Enumeration order
/// within a level is outside the model and may differ between runs.
pub proof fn lemma_resolution_deterministic(g1: GraphModel, g2: GraphModel)
    requires
        g1.ids == g2.ids,
        g1.deps == g2.deps,
    ensures
        resolve_spec(g1) == resolve_spec(g2),
{
    assert(g1 == g2);
}

} // verus!
