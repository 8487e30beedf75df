//! Level-ordered resolution of a dependency graph.
//!
//! Items carrying an identifier and a list of dependency identifiers are
//! accumulated into a graph, which is then partitioned into discrete levels:
//! identifiers with no recorded dependencies occupy level 0, and an
//! identifier joins level `n` as soon as one of its dependencies is a member
//! of level `n - 1`. All identifiers within one level can be processed once
//! the levels below it are complete.

use vstd::prelude::*;

mod model;
mod store;
mod graph;
mod resolved;
mod laws;

pub use model::GraphModel;
pub use model::empty_graph;
pub use model::roots_of;
pub use model::others_of;
pub use model::advances;
pub use model::next_level;
pub use model::levels_rec;
pub use model::resolve_spec;
pub use model::dep_set_or_empty;
pub use model::item_add;
pub use model::add_spec;
pub use model::seq_to_level_map;
pub use model::extend_opt;
pub use store::set_contents;
pub use store::dep_contents;
pub use store::level_contents;
pub use graph::DepRes;
pub use resolved::ResolvedDeps;
pub use resolved::DepLevel;
pub use resolved::contiguous_levels;
pub use resolved::disjoint_levels;
pub use resolved::level_of;
pub use resolved::flattened_view;
pub use resolved::per_level_view;
pub use resolved::level_boundary;
pub use resolved::lemma_flat_repartition;
pub use laws::union_all;
pub use laws::lemma_resolution_partition;
pub use laws::lemma_resolution_edges;
pub use laws::lemma_add_idempotent;
pub use laws::lemma_resolution_deterministic;

verus! {

/// The two ways a resolution can fail; both end the call.
#[derive(Debug, Clone, PartialEq, Eq, Hash, Structural)]
pub enum DepResolveError {
    /// No identifier can be placed in the next level although some remain:
    /// the remainder contains a cycle or depends on identifiers that never
    /// reach any level.
    IslandsOrCircular,
    /// An identifier counted among those with recorded dependencies had no
    /// dependency entry when it was examined.
    InternalDataError,
}

/// What an item must expose to be ingested: its own identifier and the
/// identifiers it depends on.
pub trait DepMeta {
    /// The identifier, at the specification level.
    spec fn id_spec(&self) -> u64;

    /// The dependency list, at the specification level.
    spec fn deps_spec(&self) -> Seq<u64>;

    /// This item's unique identifier.
    fn get_id(&self) -> (r: u64)
        ensures
            r == self.id_spec(),
    ;

    /// The identifiers this item depends on; may be empty, may hold
    /// duplicates.
    fn get_deps(&self) -> (r: &[u64])
        ensures
            r@ == self.deps_spec(),
    ;
}

/// A ready-made item: an identifier plus the identifiers it depends on.
#[derive(Debug, Clone)]
pub struct DepItem {
    pub id: u64,
    pub deps: Vec<u64>,
}

impl DepItem {
    /// Builds an item from its identifier and dependency list.
    pub fn new(id: u64, deps: Vec<u64>) -> (r: DepItem)
        ensures
            r.id == id,
            r.deps@ == deps@,
    {
        DepItem { id, deps }
    }
}

impl DepMeta for DepItem {
    open spec fn id_spec(&self) -> u64 {
        self.id
    }

    open spec fn deps_spec(&self) -> Seq<u64> {
        self.deps@
    }

    fn get_id(&self) -> (r: u64) {
        self.id
    }

    fn get_deps(&self) -> (r: &[u64]) {
        self.deps.as_slice()
    }
}

impl<T: DepMeta> DepMeta for &T {
    open spec fn id_spec(&self) -> u64 {
        (**self).id_spec()
    }

    open spec fn deps_spec(&self) -> Seq<u64> {
        (**self).deps_spec()
    }

    fn get_id(&self) -> (r: u64) {
        (**self).get_id()
    }

    fn get_deps(&self) -> (r: &[u64]) {
        (**self).get_deps()
    }
}

impl<T: DepMeta> DepMeta for Box<T> {
    open spec fn id_spec(&self) -> u64 {
        (**self).id_spec()
    }

    open spec fn deps_spec(&self) -> Seq<u64> {
        (**self).deps_spec()
    }

    fn get_id(&self) -> (r: u64) {
        (**self).get_id()
    }

    fn get_deps(&self) -> (r: &[u64]) {
        (**self).get_deps()
    }
}

impl<T: DepMeta> DepMeta for std::rc::Rc<T> {
    open spec fn id_spec(&self) -> u64 {
        (**self).id_spec()
    }

    open spec fn deps_spec(&self) -> Seq<u64> {
        (**self).deps_spec()
    }

    fn get_id(&self) -> (r: u64) {
        (**self).get_id()
    }

    fn get_deps(&self) -> (r: &[u64]) {
        (**self).get_deps()
    }
}

impl<T: DepMeta> DepMeta for std::sync::Arc<T> {
    open spec fn id_spec(&self) -> u64 {
        (**self).id_spec()
    }

    open spec fn deps_spec(&self) -> Seq<u64> {
        (**self).deps_spec()
    }

    fn get_id(&self) -> (r: u64) {
        (**self).get_id()
    }

    fn get_deps(&self) -> (r: &[u64]) {
        (**self).get_deps()
    }
}

/// The model of a whole batch: each item reduced to its identifier and
/// dependency list.
pub open spec fn batch_of<T: DepMeta>(items: Seq<T>) -> Seq<(u64, Seq<u64>)> {
    items.map_values(|it: T| (it.id_spec(), it.deps_spec()))
}

} // verus!
