//! The mathematical model of the engine: what a graph is, what ingestion
//! does to it, and which level each identifier ends up in.

use vstd::prelude::*;

verus! {

/// Model of the accumulated graph: the known identifiers, and the recorded
/// dependency sets (an absent key means no recorded dependencies).
#[verifier::ext_equal]
pub struct GraphModel {
    pub ids: Set<u64>,
    pub deps: Map<u64, Set<u64>>,
}

/// The model of a freshly created accumulator.
pub open spec fn empty_graph() -> GraphModel {
    GraphModel { ids: Set::empty(), deps: Map::empty() }
}

/// A dependency map with nothing recorded.
pub open spec fn empty_dep_map() -> Map<u64, Set<u64>> {
    Map::empty()
}

/// A level map with no levels recorded.
pub open spec fn empty_level_map() -> Map<usize, Set<u64>> {
    Map::empty()
}

/// The identifiers with no recorded dependencies; they form level 0.
pub open spec fn roots_of(g: GraphModel) -> Set<u64> {
    g.ids.filter(|i: u64| !g.deps.dom().contains(i))
}

/// The identifiers with at least one recorded dependency.
pub open spec fn others_of(g: GraphModel) -> Set<u64> {
    g.ids.filter(|i: u64| g.deps.dom().contains(i))
}

/// An identifier may advance past the current frontier when at least one of
/// its recorded dependencies is a member of the frontier.
pub open spec fn advances(deps: Map<u64, Set<u64>>, frontier: Set<u64>, i: u64) -> bool {
    exists|d: u64| #[trigger] deps[i].contains(d) && frontier.contains(d)
}

/// The candidate set for the next level: the pending identifiers with a
/// dependency in the immediately preceding level.
pub open spec fn next_level(deps: Map<u64, Set<u64>>, frontier: Set<u64>, pending: Set<u64>) -> Set<u64> {
    pending.filter(|i: u64| advances(deps, frontier, i))
}

/// The levels above level 0, computed pass by pass: each pass moves the
/// candidate set out of `pending`, or ends with `None` when a non-empty
/// remainder cannot advance. `fuel` bounds the recursion; any value of at
/// least `pending.len()` gives the same result.
pub open spec fn levels_rec(
    deps: Map<u64, Set<u64>>,
    frontier: Set<u64>,
    pending: Set<u64>,
    fuel: nat,
) -> Option<Seq<Set<u64>>>
    decreases fuel,
{
    let cand = next_level(deps, frontier, pending);
    if cand.is_empty() {
        if pending.is_empty() {
            Some(Seq::empty())
        } else {
            None
        }
    } else if fuel == 0 {
        None
    } else {
        match levels_rec(deps, cand, pending.difference(cand), (fuel - 1) as nat) {
            Some(rest) => Some(seq![cand] + rest),
            None => None,
        }
    }
}

/// The whole resolution: `Some` of the level sequence when the graph levels
/// out, `None` when it holds islands or circular references.
pub open spec fn resolve_spec(g: GraphModel) -> Option<Seq<Set<u64>>> {
    if g.ids.is_empty() {
        Some(Seq::empty())
    } else if roots_of(g).is_empty() {
        None
    } else {
        match levels_rec(g.deps, roots_of(g), others_of(g), others_of(g).len()) {
            Some(rest) => Some(seq![roots_of(g)] + rest),
            None => None,
        }
    }
}

/// The dependency set recorded for `id`, or the empty set if none is.
pub open spec fn dep_set_or_empty(deps: Map<u64, Set<u64>>, id: u64) -> Set<u64> {
    if deps.dom().contains(id) {
        deps[id]
    } else {
        Set::empty()
    }
}

/// What ingesting one item does to the graph: its identifier joins the
/// identifier set; a non-empty dependency list is unioned into the entry
/// recorded for the identifier.
pub open spec fn item_add(g: GraphModel, id: u64, ds: Seq<u64>) -> GraphModel {
    GraphModel {
        ids: g.ids.insert(id),
        deps: if ds.len() == 0 {
            g.deps
        } else {
            g.deps.insert(id, dep_set_or_empty(g.deps, id).union(ds.to_set()))
        },
    }
}

/// What ingesting a whole batch does: the items' effects, folded in order.
pub open spec fn add_spec(g: GraphModel, items: Seq<(u64, Seq<u64>)>) -> GraphModel
    decreases items.len(),
{
    if items.len() == 0 {
        g
    } else {
        item_add(add_spec(g, items.drop_last()), items.last().0, items.last().1)
    }
}

/// The level sequence as a map from level number to identifier set.
pub open spec fn seq_to_level_map(s: Seq<Set<u64>>) -> Map<usize, Set<u64>> {
    Map::new(|k: usize| (k as nat) < s.len(), |k: usize| s[k as int])
}

/// A candidate set is a subset of its pending set, and finite when the
/// pending set is.
pub proof fn lemma_next_level_in_pending(deps: Map<u64, Set<u64>>, frontier: Set<u64>, pending: Set<u64>)
    ensures
        next_level(deps, frontier, pending).subset_of(pending),
        pending.finite() ==> next_level(deps, frontier, pending).finite(),
{
    let cand = next_level(deps, frontier, pending);
    assert forall|x: u64| cand.contains(x) implies pending.contains(x) by {}
    if pending.finite() {
        vstd::set_lib::lemma_len_subset(cand, pending);
    }
}

/// Removing a non-empty subset strictly shrinks a finite set.
pub proof fn lemma_difference_shrinks(pending: Set<u64>, cand: Set<u64>)
    requires
        pending.finite(),
        cand.subset_of(pending),
        !cand.is_empty(),
    ensures
        pending.difference(cand).finite(),
        pending.difference(cand).len() < pending.len(),
{
    assert(exists|a: u64| cand.contains(a));
    let e = cand.choose();
    assert(cand.contains(e));
    assert(pending.difference(cand).subset_of(pending.remove(e)));
    vstd::set_lib::lemma_len_subset(pending.difference(cand), pending.remove(e));
}

/// Any fuel of at least `pending.len()` gives the same resolution remainder.
pub proof fn lemma_levels_rec_fuel(
    deps: Map<u64, Set<u64>>,
    frontier: Set<u64>,
    pending: Set<u64>,
    f1: nat,
    f2: nat,
)
    requires
        pending.finite(),
        pending.len() <= f1,
        pending.len() <= f2,
    ensures
        levels_rec(deps, frontier, pending, f1) == levels_rec(deps, frontier, pending, f2),
    decreases f1,
{
    let cand = next_level(deps, frontier, pending);
    if !cand.is_empty() {
        lemma_next_level_in_pending(deps, frontier, pending);
        lemma_difference_shrinks(pending, cand);
        lemma_levels_rec_fuel(deps, cand, pending.difference(cand), (f1 - 1) as nat, (f2 - 1) as nat);
    }
}

/// Prepends the already-recorded levels to a resolution remainder.
pub open spec fn extend_opt(prefix: Seq<Set<u64>>, rest: Option<Seq<Set<u64>>>) -> Option<Seq<Set<u64>>> {
    match rest {
        Some(s) => Some(prefix + s),
        None => None,
    }
}

} // verus!
