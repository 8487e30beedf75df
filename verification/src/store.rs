//! The concurrent containers the engine stores its state in, with the
//! contracts the rest of the crate relies on.

use vstd::prelude::*;
use dashmap::DashMap;
use dashmap::DashSet;
use std::sync::Arc;

verus! {

#[verifier::external_type_specification]
#[verifier::external_body]
#[verifier::reject_recursive_types(K)]
#[verifier::reject_recursive_types(S)]
pub struct ExDashSet<K, S>(DashSet<K, S>);

#[verifier::external_type_specification]
#[verifier::external_body]
#[verifier::reject_recursive_types(K)]
#[verifier::reject_recursive_types(V)]
#[verifier::reject_recursive_types(S)]
pub struct ExDashMap<K, V, S>(DashMap<K, V, S>);

/// The set of identifiers a `DashSet<u64>` holds.
pub uninterp spec fn set_contents(s: DashSet<u64>) -> Set<u64>;

/// The recorded dependency sets a `DashMap<u64, DashSet<u64>>` holds,
/// keyed by the identifier that depends on them.
pub uninterp spec fn dep_contents(m: DashMap<u64, DashSet<u64>>) -> Map<u64, Set<u64>>;

/// The identifier sets a `DashMap<usize, Arc<DashSet<u64>>>` holds,
/// keyed by level number.
pub uninterp spec fn level_contents(m: DashMap<usize, Arc<DashSet<u64>>>) -> Map<usize, Set<u64>>;

/// Relies on dashmap::DashSet::new: a freshly created set is empty.
#[verifier::external_body]
pub(crate) fn set_new() -> (r: DashSet<u64>)
    ensures
        set_contents(r) == Set::<u64>::empty(),
{
    DashSet::new()
}

/// Relies on dashmap::DashSet::insert: the value joins the set and nothing
/// else changes.
#[verifier::external_body]
pub(crate) fn set_insert(s: &mut DashSet<u64>, x: u64)
    ensures
        set_contents(*final(s)) == set_contents(*old(s)).insert(x),
{
    s.insert(x);
}

/// Relies on dashmap::DashSet::is_empty: true exactly when the set holds
/// nothing.
#[verifier::external_body]
pub(crate) fn set_is_empty(s: &DashSet<u64>) -> (r: bool)
    ensures
        r == set_contents(*s).is_empty(),
{
    s.is_empty()
}

/// Relies on dashmap::DashSet::iter: every element is yielded exactly once,
/// in no particular order.
#[verifier::external_body]
pub(crate) fn set_to_vec(s: &DashSet<u64>) -> (r: Vec<u64>)
    ensures
        r@.no_duplicates(),
        r@.to_set() == set_contents(*s),
{
    s.iter().map(|x| *x).collect()
}

/// Relies on dashmap::DashMap::new: a freshly created map is empty.
#[verifier::external_body]
pub(crate) fn deps_new() -> (r: DashMap<u64, DashSet<u64>>)
    ensures
        dep_contents(r) == crate::model::empty_dep_map(),
{
    DashMap::new()
}

/// Relies on dashmap::DashMap::entry, Entry::or_default and
/// DashSet::insert: the dependency joins the set stored under the
/// identifier, which is first created empty if absent.
#[verifier::external_body]
pub(crate) fn deps_insert(m: &mut DashMap<u64, DashSet<u64>>, id: u64, dep: u64)
    ensures
        dep_contents(*final(m)) == dep_contents(*old(m)).insert(
            id,
            (if dep_contents(*old(m)).dom().contains(id) {
                dep_contents(*old(m))[id]
            } else {
                Set::<u64>::empty()
            }).insert(dep),
        ),
{
    m.entry(id).or_default().insert(dep);
}

/// Relies on dashmap::DashMap::contains_key.
#[verifier::external_body]
pub(crate) fn deps_contains(m: &DashMap<u64, DashSet<u64>>, id: u64) -> (r: bool)
    ensures
        r == dep_contents(*m).dom().contains(id),
{
    m.contains_key(&id)
}

/// Relies on dashmap::DashMap::get and DashSet::iter: the dependency set
/// stored under the identifier, if any, is handed out as a vector of its
/// elements, each exactly once, in no particular order.
#[verifier::external_body]
pub(crate) fn deps_get(m: &DashMap<u64, DashSet<u64>>, id: u64) -> (r: Option<Vec<u64>>)
    ensures
        r is Some <==> dep_contents(*m).dom().contains(id),
        r matches Some(v) ==> v@.no_duplicates() && v@.to_set() == dep_contents(*m)[id],
{
    m.get(&id).map(|e| e.iter().map(|x| *x).collect())
}

/// Relies on dashmap::DashMap::new: a freshly created map is empty.
#[verifier::external_body]
pub(crate) fn lvs_new() -> (r: DashMap<usize, Arc<DashSet<u64>>>)
    ensures
        level_contents(r) == crate::model::empty_level_map(),
{
    DashMap::new()
}

/// Relies on dashmap::DashMap::insert and std::sync::Arc::new: the set is
/// stored under the level number, behind a shared read-only handle.
#[verifier::external_body]
pub(crate) fn lvs_insert(m: &mut DashMap<usize, Arc<DashSet<u64>>>, lv: usize, s: DashSet<u64>)
    ensures
        level_contents(*final(m)) == level_contents(*old(m)).insert(lv, set_contents(s)),
{
    m.insert(lv, Arc::new(s));
}

/// Relies on dashmap::DashMap::clone: the copy holds the same entries; the
/// level sets behind the shared handles are not copied.
#[verifier::external_body]
pub(crate) fn lvs_clone(m: &DashMap<usize, Arc<DashSet<u64>>>) -> (r: DashMap<
    usize,
    Arc<DashSet<u64>>,
>)
    ensures
        level_contents(r) == level_contents(*m),
{
    m.clone()
}

/// Relies on dashmap::DashMap::get and DashSet::iter: the identifier set
/// stored under the level number, if any, is handed out as a vector of its
/// elements, each exactly once, in no particular order.
#[verifier::external_body]
pub(crate) fn lvs_get(m: &DashMap<usize, Arc<DashSet<u64>>>, lv: usize) -> (r: Option<Vec<u64>>)
    ensures
        r is Some <==> level_contents(*m).dom().contains(lv),
        r matches Some(v) ==> v@.no_duplicates() && v@.to_set() == level_contents(*m)[lv],
{
    m.get(&lv).map(|e| e.iter().map(|x| *x).collect())
}

} // verus!
