//! Frame graphs: render passes declare the textures they read and write; compiling the
//! graph culls the passes the backbuffer does not need, orders the rest, gathers the
//! textures they use and plans the resource state transitions.
pub mod registry;
pub mod render_pass;
pub mod compile;
pub mod prepare;

use vstd::prelude::*;
use crate::render_graph::registry::{ResourceRegistry, ResourceHandle, FrameGraphTextureDesc, desc_fits};
use crate::render_graph::render_pass::{RenderPass, RenderPassBuilder, RenderPassType};
use crate::text::same_text;
use crate::render_graph::compile::{CompiledFrameGraph, CompileError, compile_passes, culled_order, compiled_as};

verus! {

/// A graph of render passes over textures. `C` is the type of clear values; the
/// passes' code and the device stay with the caller.
pub struct FrameGraph<C> {
    pub resource_registry: ResourceRegistry,
    pub passes: Vec<RenderPass<C>>,
}

impl<C: Copy> FrameGraph<C> {
    /// The registry's rules hold and every pass names resources of the registry.
    pub open spec fn wf(&self) -> bool {
        &&& self.resource_registry.wf()
        &&& forall|i: int| 0 <= i < self.passes@.len() ==> (#[trigger] self.passes@[i]).wf(self.resource_registry.resources_view().len())
    }

    /// Some pass is named `name`.
    pub open spec fn has_pass(&self, name: Seq<char>) -> bool {
        exists|i: int| 0 <= i < self.passes@.len() && #[trigger] self.passes@[i].name@ == name
    }

    /// A graph without resources or passes.
    pub fn new() -> (res: Self)
        ensures
            res.wf(),
            res.resource_registry.resources_view().len() == 0,
            res.passes@.len() == 0,
    {
        FrameGraph { resource_registry: ResourceRegistry::new(), passes: Vec::new() }
    }

    /// Adds a texture named `name`, which no resource is named yet.
    pub fn create_texture(&mut self, name: &str, desc: FrameGraphTextureDesc) -> (res: ResourceHandle)
        requires
            old(self).wf(),
            !old(self).resource_registry.has_name(name@),
            desc_fits(desc),
        ensures
            final(self).wf(),
            final(self).passes@ == old(self).passes@,
            res.0 == old(self).resource_registry.resources_view().len(),
            final(self).resource_registry.resources_view().len() == res.0 + 1,
            final(self).resource_registry.resources_view().subrange(0, res.0 as int) == old(self).resource_registry.resources_view(),
            final(self).resource_registry.resources_view()[res.0 as int].name@ == name@,
            final(self).resource_registry.resources_view()[res.0 as int].data == registry::ResourceData::Texture(desc),
            !final(self).resource_registry.resources_view()[res.0 as int].external,
    {
        let res = self.resource_registry.create_texture(name, desc);
        proof {
            self.lemma_passes_stay_wf(old(self).resource_registry.resources_view().len());
        }
        res
    }

    /// Adds a proxy for `handle`.
    pub fn create_proxy(&mut self, handle: ResourceHandle) -> (res: ResourceHandle)
        requires
            old(self).wf(),
            handle.0 < old(self).resource_registry.resources_view().len(),
        ensures
            final(self).wf(),
            final(self).passes@ == old(self).passes@,
            res.0 == old(self).resource_registry.resources_view().len(),
            final(self).resource_registry.resources_view().len() == res.0 + 1,
            final(self).resource_registry.resources_view().subrange(0, res.0 as int) == old(self).resource_registry.resources_view(),
            final(self).resource_registry.resources_view()[res.0 as int].data == registry::ResourceData::Proxy(handle),
    {
        let res = self.resource_registry.create_proxy(handle);
        proof {
            self.lemma_passes_stay_wf(old(self).resource_registry.resources_view().len());
        }
        res
    }

    /// Passes that name resources of a graph of `len` resources still do in a larger one.
    proof fn lemma_passes_stay_wf(&self, len: nat)
        requires
            len <= self.resource_registry.resources_view().len(),
            forall|i: int| 0 <= i < self.passes@.len() ==> (#[trigger] self.passes@[i]).wf(len),
        ensures
            forall|i: int| 0 <= i < self.passes@.len() ==> (#[trigger] self.passes@[i]).wf(self.resource_registry.resources_view().len()),
    {
    }

    /// Adds a texture that comes from outside the graph (the caller checked that it can
    /// be a render target), named `name`.
    pub fn import_external_texture(&mut self, desc: FrameGraphTextureDesc, name: &str) -> (res: ResourceHandle)
        requires
            old(self).wf(),
            !old(self).resource_registry.has_name(name@),
            desc_fits(desc),
        ensures
            final(self).wf(),
            final(self).passes@ == old(self).passes@,
            res.0 == old(self).resource_registry.resources_view().len(),
            final(self).resource_registry.resources_view().len() == res.0 + 1,
            final(self).resource_registry.resources_view().subrange(0, res.0 as int) == old(self).resource_registry.resources_view(),
            final(self).resource_registry.resources_view()[res.0 as int].name@ == name@,
            final(self).resource_registry.resources_view()[res.0 as int].data == registry::ResourceData::Texture(desc),
            final(self).resource_registry.resources_view()[res.0 as int].external,
    {
        let handle = self.resource_registry.create_texture(name, desc);
        self.resource_registry.set_external(handle);
        proof {
            assert(self.resource_registry.resources_view().subrange(0, handle.0 as int) =~= old(self).resource_registry.resources_view()) by {
                assert forall|i: int| 0 <= i < handle.0 implies self.resource_registry.resources_view()[i] == old(self).resource_registry.resources_view()[i] by {
                }
            }
            self.lemma_passes_stay_wf(old(self).resource_registry.resources_view().len());
        }
        handle
    }

    /// Whether a pass is named `name`.
    pub fn contains_pass(&self, name: &str) -> (res: bool)
        ensures
            res == self.has_pass(name@),
    {
        let mut i: usize = 0;
        while i < self.passes.len()
            invariant
                i <= self.passes.len(),
                forall|j: int| 0 <= j < i ==> #[trigger] self.passes@[j].name@ != name@,
            decreases self.passes.len() - i,
        {
            if same_text(self.passes[i].name.as_str(), name) {
                assert(self.passes@[i as int].name@ == name@);
                return true;
            }
            i = i + 1;
        }
        false
    }

    /// Adds the pass `name`, which no pass is named yet, as set up in `builder`; returns
    /// its position, by which its code is found.
    pub fn add_pass(&mut self, name: &str, ty: RenderPassType, builder: RenderPassBuilder<C>) -> (res: usize)
        requires
            old(self).wf(),
            !old(self).has_pass(name@),
            builder.wf(old(self).resource_registry.resources_view().len()),
        ensures
            final(self).wf(),
            res == old(self).passes@.len(),
            final(self).resource_registry == old(self).resource_registry,
            final(self).passes@.len() == res + 1,
            final(self).passes@.subrange(0, res as int) == old(self).passes@,
            final(self).passes@[res as int].name@ == name@,
            final(self).passes@[res as int].ty == ty,
            final(self).passes@[res as int].reads@ == builder.reads@,
            final(self).passes@[res as int].writes@ == builder.writes@,
            final(self).passes@[res as int].writes_clear_color@ == builder.writes_clear_color@,
            final(self).passes@[res as int].depth_stencil_input == builder.depth_stencil_input,
            final(self).passes@[res as int].depth_stencil_output == builder.depth_stencil_output,
            final(self).passes@[res as int].depth_stencil_clear_value == builder.depth_stencil_clear_value,
    {
        let pass = RenderPass {
            name: name.to_string(),
            ty,
            reads: builder.reads,
            writes: builder.writes,
            writes_clear_color: builder.writes_clear_color,
            depth_stencil_input: builder.depth_stencil_input,
            depth_stencil_output: builder.depth_stencil_output,
            depth_stencil_clear_value: builder.depth_stencil_clear_value,
        };
        self.passes.push(pass);
        proof {
            assert(self.passes@.subrange(0, old(self).passes@.len() as int) =~= old(self).passes@);
            assert forall|i: int| 0 <= i < self.passes@.len() implies (#[trigger] self.passes@[i]).wf(self.resource_registry.resources_view().len()) by {
                if i < old(self).passes@.len() {
                    assert(self.passes@[i] == old(self).passes@[i]);
                }
            }
        }
        self.passes.len() - 1
    }

    /// Compiles the graph for the backbuffer `backbuffer`: culls the passes that it does
    /// not need, gathers the textures and plans the state transitions.
    pub fn compile(self, backbuffer: ResourceHandle) -> (res: Result<CompiledFrameGraph<C>, CompileError>)
        requires
            self.wf(),
            backbuffer.0 < self.resource_registry.resources_view().len(),
        ensures
            exists|order: Seq<usize>| culled_order(self.passes@, backbuffer, order)
                && compiled_as(res, self.resource_registry.resources_view(), self.passes@, backbuffer, order),
    {
        compile_passes(self.resource_registry, self.passes, backbuffer)
    }
}

} // verus!
