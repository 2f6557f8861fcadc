//! Render passes and their builder. A pass declares the textures it reads and writes;
//! its code stays with the caller, keyed by the pass's position in the graph.
use vstd::prelude::*;
use crate::render_graph::registry::{ResourceHandle, FrameGraphTextureDesc, desc_fits};
use crate::render_graph::FrameGraph;

verus! {

/// Whether a pass renders or computes.
#[derive(Copy, Clone, PartialEq, Eq, Debug)]
pub enum RenderPassType {
    Graphics,
    Compute,
}

/// A declared render pass. `C` is the type of clear values.
pub struct RenderPass<C> {
    pub name: String,
    pub ty: RenderPassType,
    pub reads: Vec<ResourceHandle>,
    pub writes: Vec<ResourceHandle>,
    pub writes_clear_color: Vec<Option<C>>,
    pub depth_stencil_input: Option<ResourceHandle>,
    pub depth_stencil_output: Option<ResourceHandle>,
    pub depth_stencil_clear_value: Option<C>,
}

/// Every handle of the lists names one of `len` resources.
pub open spec fn handles_below(handles: Seq<ResourceHandle>, len: nat) -> bool {
    forall|k: int| 0 <= k < handles.len() ==> (#[trigger] handles[k]).0 < len
}

/// An optional handle names one of `len` resources.
pub open spec fn handle_below(handle: Option<ResourceHandle>, len: nat) -> bool {
    handle matches Some(h) ==> h.0 < len
}

impl<C> RenderPass<C> {
    /// The pass's handles name resources of a graph of `len` resources, one clear value
    /// slot per write, and a depth-stencil target always comes with its clear value.
    pub open spec fn wf(&self, len: nat) -> bool {
        &&& handles_below(self.reads@, len)
        &&& handles_below(self.writes@, len)
        &&& self.writes_clear_color@.len() == self.writes@.len()
        &&& self.depth_stencil_input is None
        &&& handle_below(self.depth_stencil_output, len)
        &&& (self.depth_stencil_input is Some || self.depth_stencil_output is Some) ==> self.depth_stencil_clear_value is Some
    }

    /// The pass's name.
    pub fn name(&self) -> (res: &str)
        ensures
            res@ == self.name@,
    {
        self.name.as_str()
    }
}

/// Collects what a pass reads and writes while it is set up.
pub struct RenderPassBuilder<C> {
    pub reads: Vec<ResourceHandle>,
    pub writes: Vec<ResourceHandle>,
    pub writes_clear_color: Vec<Option<C>>,
    pub depth_stencil_input: Option<ResourceHandle>,
    pub depth_stencil_output: Option<ResourceHandle>,
    pub depth_stencil_clear_value: Option<C>,
}

/// `s` with its first `x` moved to the end, if it holds `x`.
pub open spec fn moved_to_end(s: Seq<ResourceHandle>, x: ResourceHandle) -> Seq<ResourceHandle> {
    if s.contains(x) {
        let i = choose|i: int| 0 <= i < s.len() && s[i] == x && forall|j: int| 0 <= j < i ==> s[j] != x;
        s.remove(i).push(x)
    } else {
        s
    }
}

impl<C: Copy> RenderPassBuilder<C> {
    /// The same shape rules as a pass, for a graph of `len` resources.
    pub open spec fn wf(&self, len: nat) -> bool {
        &&& handles_below(self.reads@, len)
        &&& handles_below(self.writes@, len)
        &&& self.writes_clear_color@.len() == self.writes@.len()
        &&& self.depth_stencil_input is None
        &&& handle_below(self.depth_stencil_output, len)
        &&& (self.depth_stencil_input is Some || self.depth_stencil_output is Some) ==> self.depth_stencil_clear_value is Some
    }

    /// A builder with nothing declared.
    pub fn new() -> (res: Self)
        ensures
            res.reads@.len() == 0,
            res.writes@.len() == 0,
            res.writes_clear_color@.len() == 0,
            res.depth_stencil_input is None,
            res.depth_stencil_output is None,
            res.depth_stencil_clear_value is None,
    {
        RenderPassBuilder {
            reads: Vec::new(),
            writes: Vec::new(),
            writes_clear_color: Vec::new(),
            depth_stencil_input: None,
            depth_stencil_output: None,
            depth_stencil_clear_value: None,
        }
    }

    /// Adds a texture named `name` to `graph`.
    pub fn create_texture(&mut self, graph: &mut FrameGraph<C>, name: &str, desc: FrameGraphTextureDesc) -> (res: ResourceHandle)
        requires
            old(graph).wf(),
            !old(graph).resource_registry.has_name(name@),
            desc_fits(desc),
            old(self).wf(old(graph).resource_registry.resources_view().len()),
        ensures
            final(graph).wf(),
            *final(self) == *old(self),
            final(self).wf(final(graph).resource_registry.resources_view().len()),
            res.0 == old(graph).resource_registry.resources_view().len(),
            final(graph).passes@ == old(graph).passes@,
            final(graph).resource_registry.resources_view().subrange(0, res.0 as int) == old(graph).resource_registry.resources_view(),
            final(graph).resource_registry.resources_view().len() == res.0 + 1,
            final(graph).resource_registry.resources_view()[res.0 as int].name@ == name@,
    {
        let res = graph.create_texture(name, desc);
        res
    }

    /// Declares a read of `resource`; a write of it declared before moves to the end of
    /// the writes. Returns `resource`.
    pub fn read(&mut self, resource: ResourceHandle) -> (res: ResourceHandle)
        ensures
            res == resource,
            final(self).reads@ == old(self).reads@.push(resource),
            final(self).writes@ == moved_to_end(old(self).writes@, resource),
            final(self).writes_clear_color@ == old(self).writes_clear_color@,
            final(self).depth_stencil_input == old(self).depth_stencil_input,
            final(self).depth_stencil_output == old(self).depth_stencil_output,
            final(self).depth_stencil_clear_value == old(self).depth_stencil_clear_value,
    {
        let mut i: usize = 0;
        while i < self.writes.len()
            invariant
                i <= self.writes.len(),
                self.writes@ == old(self).writes@,
                self.reads@ == old(self).reads@,
                self.writes_clear_color@ == old(self).writes_clear_color@,
                self.depth_stencil_input == old(self).depth_stencil_input,
                self.depth_stencil_output == old(self).depth_stencil_output,
                self.depth_stencil_clear_value == old(self).depth_stencil_clear_value,
                forall|j: int| 0 <= j < i ==> self.writes@[j] != resource,
            decreases self.writes.len() - i,
        {
            if self.writes[i] == resource {
                let ghost s = self.writes@;
                let removed = self.writes.remove(i);
                self.writes.push(removed);
                proof {
                    assert(s.contains(resource));
                    let k = choose|k: int| 0 <= k < s.len() && s[k] == resource && forall|j: int| 0 <= j < k ==> s[j] != resource;
                    assert(k == i) by {
                        if k < i {
                            assert(s[k] != resource);
                        }
                        if k > i {
                            assert(s[i as int] == resource);
                        }
                    }
                }
                self.reads.push(resource);
                return resource;
            }
            i = i + 1;
        }
        assert(!old(self).writes@.contains(resource));
        self.reads.push(resource);
        resource
    }

    /// Declares a write of `resource`. A resource read before is written through a new
    /// proxy, whose handle is returned; otherwise `resource` is returned.
    pub fn write(&mut self, graph: &mut FrameGraph<C>, resource: ResourceHandle) -> (res: ResourceHandle)
        requires
            old(graph).wf(),
            resource.0 < old(graph).resource_registry.resources_view().len(),
        ensures
            final(graph).wf(),
            final(graph).passes@ == old(graph).passes@,
            old(self).reads@.contains(resource) ==> {
                &&& res.0 == old(graph).resource_registry.resources_view().len()
                &&& final(graph).resource_registry.resources_view().len() == res.0 + 1
                &&& final(graph).resource_registry.resources_view().subrange(0, res.0 as int) == old(graph).resource_registry.resources_view()
                &&& final(graph).resource_registry.resources_view()[res.0 as int].data == crate::render_graph::registry::ResourceData::Proxy(resource)
            },
            !old(self).reads@.contains(resource) ==> res == resource && final(graph).resource_registry == old(graph).resource_registry,
            final(self).reads@ == old(self).reads@,
            final(self).writes@ == old(self).writes@.push(res),
            final(self).writes_clear_color@ == old(self).writes_clear_color@.push(None),
            final(self).depth_stencil_input == old(self).depth_stencil_input,
            final(self).depth_stencil_output == old(self).depth_stencil_output,
            final(self).depth_stencil_clear_value == old(self).depth_stencil_clear_value,
    {
        let mut read_before = false;
        let mut i: usize = 0;
        while i < self.reads.len()
            invariant
                i <= self.reads.len(),
                read_before == exists|j: int| 0 <= j < i && self.reads@[j] == resource,
            decreases self.reads.len() - i,
        {
            if self.reads[i] == resource {
                read_before = true;
            }
            i = i + 1;
        }
        let resource = if read_before {
            graph.create_proxy(resource)
        } else {
            resource
        };
        self.writes.push(resource);
        self.writes_clear_color.push(None);
        resource
    }

    /// Sets the clear value of the first write of `resource`, if it is written.
    pub fn set_clear_color(&mut self, resource: ResourceHandle, clear_color: C)
        requires
            old(self).writes_clear_color@.len() == old(self).writes@.len(),
        ensures
            final(self).reads@ == old(self).reads@,
            final(self).writes@ == old(self).writes@,
            old(self).writes@.contains(resource) ==> {
                let i = choose|i: int| 0 <= i < old(self).writes@.len() && old(self).writes@[i] == resource
                    && forall|j: int| 0 <= j < i ==> old(self).writes@[j] != resource;
                final(self).writes_clear_color@ == old(self).writes_clear_color@.update(i, Some(clear_color))
            },
            !old(self).writes@.contains(resource) ==> final(self).writes_clear_color@ == old(self).writes_clear_color@,
            final(self).depth_stencil_input == old(self).depth_stencil_input,
            final(self).depth_stencil_output == old(self).depth_stencil_output,
            final(self).depth_stencil_clear_value == old(self).depth_stencil_clear_value,
    {
        let mut i: usize = 0;
        while i < self.writes.len()
            invariant
                i <= self.writes.len(),
                self.writes@ == old(self).writes@,
                self.reads@ == old(self).reads@,
                self.writes_clear_color@ == old(self).writes_clear_color@,
                old(self).writes_clear_color@.len() == old(self).writes@.len(),
                self.depth_stencil_input == old(self).depth_stencil_input,
                self.depth_stencil_output == old(self).depth_stencil_output,
                self.depth_stencil_clear_value == old(self).depth_stencil_clear_value,
                forall|j: int| 0 <= j < i ==> self.writes@[j] != resource,
            decreases self.writes.len() - i,
        {
            if self.writes[i] == resource {
                proof {
                    let s = self.writes@;
                    let k = choose|k: int| 0 <= k < s.len() && s[k] == resource && forall|j: int| 0 <= j < k ==> s[j] != resource;
                    assert(k == i) by {
                        if k < i {
                            assert(s[k] != resource);
                        }
                        if k > i {
                            assert(s[i as int] == resource);
                        }
                    }
                }
                self.writes_clear_color.set(i, Some(clear_color));
                return;
            }
            i = i + 1;
        }
        assert(!old(self).writes@.contains(resource));
    }

    /// Makes `resource` the pass's depth-stencil target, cleared to `clear_color`.
    pub fn set_depth_stencil_output(&mut self, resource: ResourceHandle, clear_color: C)
        ensures
            final(self).reads@ == old(self).reads@,
            final(self).writes@ == old(self).writes@,
            final(self).writes_clear_color@ == old(self).writes_clear_color@,
            final(self).depth_stencil_input == old(self).depth_stencil_input,
            final(self).depth_stencil_output == Some(resource),
            final(self).depth_stencil_clear_value == Some(clear_color),
    {
        self.depth_stencil_output = Some(resource);
        self.depth_stencil_clear_value = Some(clear_color);
    }
}

} // verus!
