//! The resources of a frame graph: textures, and proxies that stand for a texture
//! written after being read.
use vstd::prelude::*;
use crate::gfx::{PixelFormat, texel_size};
use crate::text::same_text;

verus! {

/// A resource of a frame graph, by position.
#[derive(Copy, Clone, Debug, PartialEq, Eq, Structural, Hash, PartialOrd, Ord)]
pub struct ResourceHandle(pub usize);

/// The description of a frame graph texture.
#[derive(Copy, Clone)]
pub struct FrameGraphTextureDesc {
    pub format: PixelFormat,
    pub width: u32,
    pub height: u32,
}

/// The size in bytes of a texture of `desc`.
pub open spec fn texture_size(desc: FrameGraphTextureDesc) -> int {
    desc.width * desc.height * texel_size(desc.format)
}

/// A texture's size fits in a `usize`.
pub open spec fn desc_fits(desc: FrameGraphTextureDesc) -> bool {
    &&& desc.width * desc.height <= usize::MAX
    &&& texture_size(desc) <= usize::MAX
}

/// What a resource is: a texture, or a proxy for another resource.
#[derive(Copy, Clone)]
pub enum ResourceData {
    Texture(FrameGraphTextureDesc),
    Proxy(ResourceHandle),
}

/// A resource: its name, what it is, whether it comes from outside the graph, and the
/// last pass that uses it.
pub struct Resource {
    pub name: String,
    pub data: ResourceData,
    pub external: bool,
    pub last_pass_use: Option<usize>,
}

/// A proxy at position `i` stands for an earlier resource, and a texture's size fits.
pub open spec fn resource_ok(r: Resource, i: int) -> bool {
    match r.data {
        ResourceData::Proxy(h) => h.0 < i,
        ResourceData::Texture(desc) => desc_fits(desc),
    }
}

/// The resources of a frame graph, indexed by handle.
pub struct ResourceRegistry {
    resources: Vec<Resource>,
}

impl ResourceRegistry {
    /// The resources, by handle.
    pub closed spec fn resources_view(&self) -> Seq<Resource> {
        self.resources@
    }

    /// Every proxy stands for an earlier resource, and every texture's size fits.
    pub open spec fn wf(&self) -> bool {
        forall|i: int| 0 <= i < self.resources_view().len() ==> resource_ok(#[trigger] self.resources_view()[i], i)
    }

    /// Whether a resource is named `name`.
    pub open spec fn has_name(&self, name: Seq<char>) -> bool {
        exists|i: int| 0 <= i < self.resources_view().len() && #[trigger] self.resources_view()[i].name@ == name
    }

    /// The handle `handle`, or the resource a proxy at `handle` stands for.
    pub open spec fn resolved(&self, handle: ResourceHandle) -> ResourceHandle {
        match self.resources_view()[handle.0 as int].data {
            ResourceData::Proxy(proxy) => proxy,
            _ => handle,
        }
    }

    /// The resource at `handle` is a texture.
    pub open spec fn is_texture_spec(&self, handle: ResourceHandle) -> bool {
        self.resources_view()[handle.0 as int].data is Texture
    }

    /// No resource.
    pub fn new() -> (res: Self)
        ensures
            res.resources_view().len() == 0,
            res.wf(),
    {
        ResourceRegistry { resources: Vec::new() }
    }

    /// The number of resources.
    pub fn len(&self) -> (res: usize)
        ensures
            res == self.resources_view().len(),
    {
        self.resources.len()
    }

    /// Whether a resource is named `name`.
    pub fn contains_name(&self, name: &str) -> (res: bool)
        ensures
            res == self.has_name(name@),
    {
        let mut i: usize = 0;
        while i < self.resources.len()
            invariant
                i <= self.resources.len(),
                forall|j: int| 0 <= j < i ==> #[trigger] self.resources@[j].name@ != name@,
            decreases self.resources.len() - i,
        {
            if same_text(self.resources[i].name.as_str(), name) {
                assert(self.resources_view()[i as int].name@ == name@);
                return true;
            }
            i = i + 1;
        }
        false
    }

    /// Adds a texture named `name`, which no resource is named yet.
    pub fn create_texture(&mut self, name: &str, desc: FrameGraphTextureDesc) -> (res: ResourceHandle)
        requires
            old(self).wf(),
            !old(self).has_name(name@),
            desc_fits(desc),
        ensures
            final(self).wf(),
            res.0 == old(self).resources_view().len(),
            final(self).resources_view().len() == old(self).resources_view().len() + 1,
            final(self).resources_view().subrange(0, res.0 as int) == old(self).resources_view(),
            final(self).resources_view()[res.0 as int].name@ == name@,
            final(self).resources_view()[res.0 as int].data == ResourceData::Texture(desc),
            !final(self).resources_view()[res.0 as int].external,
            final(self).resources_view()[res.0 as int].last_pass_use is None,
    {
        self.resources.push(Resource {
            name: name.to_string(),
            data: ResourceData::Texture(desc),
            external: false,
            last_pass_use: None,
        });
        proof {
            assert(self.resources_view().subrange(0, old(self).resources_view().len() as int) =~= old(self).resources_view());
            assert forall|i: int| 0 <= i < self.resources_view().len() implies resource_ok(#[trigger] self.resources_view()[i], i) by {
                if i < old(self).resources_view().len() {
                    assert(self.resources_view()[i] == old(self).resources_view()[i]);
                }
            }
        }
        ResourceHandle(self.resources.len() - 1)
    }

    /// Adds a proxy for `handle`, with an empty name.
    pub fn create_proxy(&mut self, handle: ResourceHandle) -> (res: ResourceHandle)
        requires
            old(self).wf(),
            handle.0 < old(self).resources_view().len(),
        ensures
            final(self).wf(),
            res.0 == old(self).resources_view().len(),
            final(self).resources_view().len() == old(self).resources_view().len() + 1,
            final(self).resources_view().subrange(0, res.0 as int) == old(self).resources_view(),
            final(self).resources_view()[res.0 as int].name@ == Seq::<char>::empty(),
            final(self).resources_view()[res.0 as int].data == ResourceData::Proxy(handle),
            !final(self).resources_view()[res.0 as int].external,
            final(self).resources_view()[res.0 as int].last_pass_use is None,
    {
        self.resources.push(Resource {
            name: String::new(),
            data: ResourceData::Proxy(handle),
            external: false,
            last_pass_use: None,
        });
        proof {
            assert(self.resources_view().subrange(0, old(self).resources_view().len() as int) =~= old(self).resources_view());
            assert forall|i: int| 0 <= i < self.resources_view().len() implies resource_ok(#[trigger] self.resources_view()[i], i) by {
                if i < old(self).resources_view().len() {
                    assert(self.resources_view()[i] == old(self).resources_view()[i]);
                }
            }
        }
        ResourceHandle(self.resources.len() - 1)
    }

    /// The resource at `handle`.
    pub fn resource(&self, handle: ResourceHandle) -> (res: &Resource)
        requires
            handle.0 < self.resources_view().len(),
        ensures
            *res == self.resources_view()[handle.0 as int],
    {
        &self.resources[handle.0]
    }

    /// Marks the resource at `handle` as coming from outside the graph.
    pub fn set_external(&mut self, handle: ResourceHandle)
        requires
            old(self).wf(),
            handle.0 < old(self).resources_view().len(),
        ensures
            final(self).wf(),
            final(self).resources_view().len() == old(self).resources_view().len(),
            forall|i: int| 0 <= i < old(self).resources_view().len() && i != handle.0 ==> #[trigger] final(self).resources_view()[i] == old(self).resources_view()[i],
            final(self).resources_view()[handle.0 as int].name == old(self).resources_view()[handle.0 as int].name,
            final(self).resources_view()[handle.0 as int].data == old(self).resources_view()[handle.0 as int].data,
            final(self).resources_view()[handle.0 as int].last_pass_use == old(self).resources_view()[handle.0 as int].last_pass_use,
            final(self).resources_view()[handle.0 as int].external,
    {
        self.resources[handle.0].external = true;
        proof {
            assert forall|i: int| 0 <= i < self.resources_view().len() implies resource_ok(#[trigger] self.resources_view()[i], i) by {
                assert(self.resources_view()[i].data == old(self).resources_view()[i].data);
            }
        }
    }

    /// Records that pass `pass` uses the resource at `handle` last so far.
    pub fn set_last_pass_use(&mut self, handle: ResourceHandle, pass: usize)
        requires
            old(self).wf(),
            handle.0 < old(self).resources_view().len(),
        ensures
            final(self).wf(),
            final(self).resources_view() == old(self).resources_view().update(
                handle.0 as int,
                Resource { last_pass_use: Some(pass), ..old(self).resources_view()[handle.0 as int] },
            ),
    {
        self.resources[handle.0].last_pass_use = Some(pass);
        proof {
            assert(self.resources_view() =~= old(self).resources_view().update(
                handle.0 as int,
                Resource { last_pass_use: Some(pass), ..old(self).resources_view()[handle.0 as int] },
            ));
            assert forall|i: int| 0 <= i < self.resources_view().len() implies resource_ok(#[trigger] self.resources_view()[i], i) by {
                assert(self.resources_view()[i].data == old(self).resources_view()[i].data);
            }
        }
    }

    /// `handle`, or the resource the proxy at `handle` stands for.
    pub fn resolve_handle(&self, handle: ResourceHandle) -> (res: ResourceHandle)
        requires
            handle.0 < self.resources_view().len(),
        ensures
            res == self.resolved(handle),
    {
        match self.resources[handle.0].data {
            ResourceData::Proxy(proxy) => proxy,
            _ => handle,
        }
    }

    /// The description of the texture at `handle`.
    pub fn texture(&self, handle: ResourceHandle) -> (res: FrameGraphTextureDesc)
        requires
            handle.0 < self.resources_view().len(),
            self.is_texture_spec(handle),
        ensures
            self.resources_view()[handle.0 as int].data == ResourceData::Texture(res),
    {
        match self.resources[handle.0].data {
            ResourceData::Texture(desc) => desc,
            _ => vstd::pervasive::unreached(),
        }
    }

    /// Whether the resource at `handle` is a texture.
    pub fn is_texture(&self, handle: ResourceHandle) -> (res: bool)
        requires
            handle.0 < self.resources_view().len(),
        ensures
            res == self.is_texture_spec(handle),
    {
        match self.resources[handle.0].data {
            ResourceData::Texture(_) => true,
            _ => false,
        }
    }

    /// Whether the resource at `handle` comes from outside the graph.
    pub fn is_external(&self, handle: ResourceHandle) -> (res: bool)
        requires
            handle.0 < self.resources_view().len(),
        ensures
            res == self.resources_view()[handle.0 as int].external,
    {
        self.resources[handle.0].external
    }

    /// The resources, by handle.
    pub fn resources(&self) -> (res: &Vec<Resource>)
        ensures
            res@ == self.resources_view(),
    {
        &self.resources
    }
}

impl Default for ResourceRegistry {
    fn default() -> (res: Self)
        ensures
            res.resources_view().len() == 0,
            res.wf(),
    {
        ResourceRegistry::new()
    }
}

} // verus!
