//! Systems: identifiers, descriptions, the registry that orders them and the executors.
//! A system's code and its run conditions are closures held by the caller, keyed by the
//! node id that the registry gives each system and system set.
pub mod graph;
pub mod schedule;
pub mod registry;
pub mod executor;

use vstd::prelude::*;
use crate::text::same_text;

verus! {

/// The name of a system or of a system set.
#[derive(PartialEq, Eq, Hash, Debug, Copy, Clone)]
pub struct SystemId(&'static str);

impl View for SystemId {
    type V = Seq<char>;

    closed spec fn view(&self) -> Seq<char> {
        self.0@
    }
}

impl SystemId {
    /// The name.
    pub fn name(&self) -> (res: &'static str)
        ensures
            res@ == self@,
    {
        self.0
    }

    /// Whether both ids have the same name.
    pub fn same_as(&self, other: &SystemId) -> (res: bool)
        ensures
            res == (self@ == other@),
    {
        same_text(self.0, other.0)
    }
}

/// Something that names a system or a system set.
pub trait IntoSystemId {
    fn system_id(&self) -> SystemId;
}

impl IntoSystemId for &'static str {
    fn system_id(&self) -> (res: SystemId)
        ensures
            res@ == (*self)@,
    {
        SystemId(*self)
    }
}

/// `ids` with `id` added unless an id of the same name is there already.
pub open spec fn with_id(ids: Seq<SystemId>, id: SystemId) -> Seq<SystemId> {
    if exists|i: int| 0 <= i < ids.len() && ids[i]@ == id@ {
        ids
    } else {
        ids.push(id)
    }
}

/// Adds `id` to `ids` unless an id of the same name is there already, as inserting
/// into a set of names does.
fn insert_id(ids: &mut Vec<SystemId>, id: SystemId)
    ensures
        final(ids)@ == with_id(old(ids)@, id),
{
    let mut i: usize = 0;
    while i < ids.len()
        invariant
            ids@ == old(ids)@,
            i <= ids.len(),
            forall|j: int| 0 <= j < i ==> ids@[j]@ != id@,
        decreases ids.len() - i,
    {
        if ids[i].same_as(&id) {
            return;
        }
        i = i + 1;
    }
    ids.push(id);
}

/// Describes a system: its name, the sets it belongs to and the systems or sets it
/// must run before and after. The system's code stays with the caller.
pub struct SystemDesc {
    pub id: Option<SystemId>,
    pub parent_sets: Vec<SystemId>,
    pub before: Vec<SystemId>,
    pub after: Vec<SystemId>,
}

impl SystemDesc {
    /// A description with no name, no set and no ordering.
    pub fn new() -> (res: Self)
        ensures
            res.id is None,
            res.parent_sets@ == Seq::<SystemId>::empty(),
            res.before@ == Seq::<SystemId>::empty(),
            res.after@ == Seq::<SystemId>::empty(),
    {
        SystemDesc { id: None, parent_sets: Vec::new(), before: Vec::new(), after: Vec::new() }
    }

    /// Names the system.
    pub fn id(self, id: SystemId) -> (res: Self)
        ensures
            res.id == Some(id),
            res.parent_sets@ == self.parent_sets@,
            res.before@ == self.before@,
            res.after@ == self.after@,
    {
        let mut desc = self;
        desc.id = Some(id);
        desc
    }

    /// Places the system in the set `set` (once per name).
    pub fn in_set(self, set: SystemId) -> (res: Self)
        ensures
            res.id == self.id,
            res.parent_sets@ == with_id(self.parent_sets@, set),
            res.before@ == self.before@,
            res.after@ == self.after@,
    {
        let mut desc = self;
        insert_id(&mut desc.parent_sets, set);
        desc
    }

    /// Makes the system run before `id`.
    pub fn before(self, id: SystemId) -> (res: Self)
        ensures
            res.id == self.id,
            res.parent_sets@ == self.parent_sets@,
            res.before@ == self.before@.push(id),
            res.after@ == self.after@,
    {
        let mut desc = self;
        desc.before.push(id);
        desc
    }

    /// Makes the system run after `id`.
    pub fn after(self, id: SystemId) -> (res: Self)
        ensures
            res.id == self.id,
            res.parent_sets@ == self.parent_sets@,
            res.before@ == self.before@,
            res.after@ == self.after@.push(id),
    {
        let mut desc = self;
        desc.after.push(id);
        desc
    }
}

/// Describes a system set: its name, its parent sets and the systems or sets it must
/// run before and after. A set without a parent is the root of a schedule.
pub struct SystemSetDesc {
    pub id: SystemId,
    pub parent_sets: Vec<SystemId>,
    pub before: Vec<SystemId>,
    pub after: Vec<SystemId>,
}

impl SystemSetDesc {
    /// A set named `id`, with no parent and no ordering.
    pub fn new(id: SystemId) -> (res: Self)
        ensures
            res.id == id,
            res.parent_sets@ == Seq::<SystemId>::empty(),
            res.before@ == Seq::<SystemId>::empty(),
            res.after@ == Seq::<SystemId>::empty(),
    {
        SystemSetDesc { id, parent_sets: Vec::new(), before: Vec::new(), after: Vec::new() }
    }
}

/// Something that describes a system set; a name describes a set with nothing else.
pub trait IntoSystemSetDesc: Sized {
    fn system_set(self) -> SystemSetDesc;

    fn in_set(self, set: SystemId) -> SystemSetDesc;

    fn before(self, id: SystemId) -> SystemSetDesc;

    fn after(self, id: SystemId) -> SystemSetDesc;
}

impl IntoSystemSetDesc for SystemSetDesc {
    fn system_set(self) -> (res: SystemSetDesc)
        ensures
            res == self,
    {
        self
    }

    fn in_set(self, set: SystemId) -> (res: SystemSetDesc)
        ensures
            res.id == self.id,
            res.parent_sets@ == with_id(self.parent_sets@, set),
            res.before@ == self.before@,
            res.after@ == self.after@,
    {
        let mut desc = self;
        insert_id(&mut desc.parent_sets, set);
        desc
    }

    fn before(self, id: SystemId) -> (res: SystemSetDesc)
        ensures
            res.id == self.id,
            res.parent_sets@ == self.parent_sets@,
            res.before@ == self.before@.push(id),
            res.after@ == self.after@,
    {
        let mut desc = self;
        desc.before.push(id);
        desc
    }

    fn after(self, id: SystemId) -> (res: SystemSetDesc)
        ensures
            res.id == self.id,
            res.parent_sets@ == self.parent_sets@,
            res.before@ == self.before@,
            res.after@ == self.after@.push(id),
    {
        let mut desc = self;
        desc.after.push(id);
        desc
    }
}

impl IntoSystemSetDesc for SystemId {
    fn system_set(self) -> (res: SystemSetDesc)
        ensures
            res.id == self,
            res.parent_sets@ == Seq::<SystemId>::empty(),
            res.before@ == Seq::<SystemId>::empty(),
            res.after@ == Seq::<SystemId>::empty(),
    {
        SystemSetDesc::new(self)
    }

    fn in_set(self, set: SystemId) -> (res: SystemSetDesc)
        ensures
            res.id == self,
            res.parent_sets@ == seq![set],
            res.before@ == Seq::<SystemId>::empty(),
            res.after@ == Seq::<SystemId>::empty(),
    {
        SystemSetDesc::new(self).in_set(set)
    }

    fn before(self, id: SystemId) -> (res: SystemSetDesc)
        ensures
            res.id == self,
            res.parent_sets@ == Seq::<SystemId>::empty(),
            res.before@ == seq![id],
            res.after@ == Seq::<SystemId>::empty(),
    {
        SystemSetDesc::new(self).before(id)
    }

    fn after(self, id: SystemId) -> (res: SystemSetDesc)
        ensures
            res.id == self,
            res.parent_sets@ == Seq::<SystemId>::empty(),
            res.before@ == Seq::<SystemId>::empty(),
            res.after@ == seq![id],
    {
        SystemSetDesc::new(self).after(id)
    }
}

} // verus!
