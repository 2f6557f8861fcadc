//! Components: identifiers, layout information and the registry of known components.
use vstd::prelude::*;
use std::collections::HashMap;
use crate::ecs::erased_vec::TypeInfo;

verus! {

broadcast use vstd::std_specs::hash::group_hash_axioms;

/// Identifies a component type.
pub type ComponentId = usize;

/// Data storage for an entity.
pub trait Component {
    fn component_id() -> ComponentId;
}

/// What the storage needs to know of a component type.
#[derive(Copy, Clone, PartialEq, Eq, Structural, Debug)]
pub struct ComponentInfo {
    pub type_info: TypeInfo,
}

impl ComponentInfo {
    /// Layout information of component `T`.
    pub fn new<T: Component>() -> (res: Self)
        ensures
            res.type_info.size as nat == vstd::layout::size_of::<T>(),
            res.type_info.align as nat == vstd::layout::align_of::<T>(),
    {
        ComponentInfo { type_info: TypeInfo::new::<T>() }
    }
}

/// The components known to a world.
pub struct ComponentRegistry {
    components: HashMap<ComponentId, ComponentInfo>,
}

impl ComponentRegistry {
    pub closed spec fn view(&self) -> Map<ComponentId, ComponentInfo> {
        self.components@
    }

    pub fn new() -> (res: Self)
        ensures
            res.view() == Map::<ComponentId, ComponentInfo>::empty(),
    {
        ComponentRegistry { components: HashMap::new() }
    }

    /// Register component `id`, which must not be registered yet.
    pub fn register(&mut self, id: ComponentId, info: ComponentInfo)
        requires
            !old(self).view().contains_key(id),
        ensures
            final(self).view() == old(self).view().insert(id, info),
    {
        self.components.insert(id, info);
    }

    /// Whether component `id` is registered.
    pub fn contains(&self, id: &ComponentId) -> (res: bool)
        ensures
            res == self.view().contains_key(*id),
    {
        self.components.contains_key(id)
    }

    /// Information on component `id`.
    pub fn get(&self, id: &ComponentId) -> (res: Option<&ComponentInfo>)
        ensures
            match res {
                Some(info) => self.view().contains_key(*id) && self.view()[*id] == *info,
                None => !self.view().contains_key(*id),
            },
    {
        self.components.get(id)
    }
}

impl Default for ComponentRegistry {
    fn default() -> (res: Self)
        ensures
            res.view() == Map::<ComponentId, ComponentInfo>::empty(),
    {
        ComponentRegistry::new()
    }
}

/// Registering components one after another keeps each: after registering `a` with
/// `x` and then another id `b` with `y`, looking up `a` gives `x` and `b` gives `y`,
/// and every other id is as before.
pub proof fn lemma_registrations_stay(
    registered: Map<ComponentId, ComponentInfo>,
    a: ComponentId,
    x: ComponentInfo,
    b: ComponentId,
    y: ComponentInfo,
)
    requires
        a != b,
        !registered.contains_key(a),
        !registered.insert(a, x).contains_key(b),
    ensures
        registered.insert(a, x).insert(b, y).contains_key(a),
        registered.insert(a, x).insert(b, y)[a] == x,
        registered.insert(a, x).insert(b, y).contains_key(b),
        registered.insert(a, x).insert(b, y)[b] == y,
        forall|c: ComponentId| c != a && c != b ==>
            (#[trigger] registered.insert(a, x).insert(b, y).contains_key(c)) == registered.contains_key(c)
            && (registered.contains_key(c) ==> registered.insert(a, x).insert(b, y)[c] == registered[c]),
{
}

} // verus!
