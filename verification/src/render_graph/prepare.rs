//! Preparing a compiled pass to run: which device textures and views it still needs
//! before its render pass can begin. The device objects themselves stay with the caller,
//! which says what it holds already.
use vstd::prelude::*;
use crate::render_graph::registry::ResourceHandle;
use crate::render_graph::compile::{CompiledFrameGraph, CompiledPass, CompiledPassRenderTarget, holds_handle};

verus! {

/// The handles of `targets` that are not in `present`, in order: each one is created
/// when it is first met and counts as present from then on, so none comes twice.
pub open spec fn fresh_handles(targets: Seq<ResourceHandle>, present: Seq<ResourceHandle>) -> Seq<ResourceHandle>
    decreases targets.len(),
{
    if targets.len() == 0 {
        Seq::empty()
    } else if present.contains(targets[0]) {
        fresh_handles(targets.drop_first(), present)
    } else {
        seq![targets[0]] + fresh_handles(targets.drop_first(), present.push(targets[0]))
    }
}

/// The textures of the render targets of `pass`, in order.
pub open spec fn render_target_handles<C>(pass: CompiledPass<C>) -> Seq<ResourceHandle> {
    pass.render_targets@.map_values(|rt: CompiledPassRenderTarget<C>| rt.texture)
}

/// The textures that `pass` draws to: its render targets, then its depth stencil.
pub open spec fn target_handles<C>(pass: CompiledPass<C>) -> Seq<ResourceHandle> {
    render_target_handles(pass) + match pass.depth_stencil {
        Some(ds) => seq![ds.texture],
        None => Seq::empty(),
    }
}

/// What `fresh_handles` gives: each handle of `targets` missing from `present`, once.
pub proof fn lemma_fresh_handles(targets: Seq<ResourceHandle>, present: Seq<ResourceHandle>)
    ensures
        fresh_handles(targets, present).no_duplicates(),
        forall|h: ResourceHandle| #[trigger] fresh_handles(targets, present).contains(h)
            <==> targets.contains(h) && !present.contains(h),
    decreases targets.len(),
{
    if targets.len() > 0 {
        let h0 = targets[0];
        let rest = targets.drop_first();
        assert forall|h: ResourceHandle| targets.contains(h) <==> (h == h0 || rest.contains(h)) by {
            if targets.contains(h) && h != h0 {
                let i = choose|i: int| 0 <= i < targets.len() && targets[i] == h;
                assert(rest[i - 1] == h);
            }
            if rest.contains(h) {
                let i = choose|i: int| 0 <= i < rest.len() && rest[i] == h;
                assert(targets[i + 1] == h);
            }
            if h == h0 {
                assert(targets[0] == h);
            }
        }
        if present.contains(h0) {
            lemma_fresh_handles(rest, present);
        } else {
            let tail = fresh_handles(rest, present.push(h0));
            lemma_fresh_handles(rest, present.push(h0));
            assert forall|h: ResourceHandle| present.push(h0).contains(h) <==> (present.contains(h) || h == h0) by {
                if present.push(h0).contains(h) && h != h0 {
                    let i = choose|i: int| 0 <= i < present.push(h0).len() && present.push(h0)[i] == h;
                    assert(present[i] == h);
                }
                if present.contains(h) {
                    let i = choose|i: int| 0 <= i < present.len() && present[i] == h;
                    assert(present.push(h0)[i] == h);
                }
                if h == h0 {
                    assert(present.push(h0)[present.len() as int] == h);
                }
            }
            let whole = seq![h0] + tail;
            assert(fresh_handles(targets, present) == whole);
            assert forall|h: ResourceHandle| whole.contains(h) <==> (h == h0 || tail.contains(h)) by {
                if whole.contains(h) && h != h0 {
                    let i = choose|i: int| 0 <= i < whole.len() && whole[i] == h;
                    assert(tail[i - 1] == h);
                }
                if tail.contains(h) {
                    let i = choose|i: int| 0 <= i < tail.len() && tail[i] == h;
                    assert(whole[i + 1] == h);
                }
                if h == h0 {
                    assert(whole[0] == h);
                }
            }
            assert forall|i: int, j: int| 0 <= i < whole.len() && 0 <= j < whole.len() && i != j
                implies whole[i] != whole[j] by {
                if i == 0 && j > 0 {
                    assert(tail.contains(whole[j]));
                } else if j == 0 && i > 0 {
                    assert(tail.contains(whole[i]));
                } else if i > 0 && j > 0 {
                    assert(whole[i] == tail[i - 1] && whole[j] == tail[j - 1]);
                }
            }
        }
    }
}

/// The handles of `targets` that are not in `present`, in order, each once.
pub fn fresh_handles_of(targets: &Vec<ResourceHandle>, present: &Vec<ResourceHandle>) -> (res: Vec<ResourceHandle>)
    ensures
        res@ == fresh_handles(targets@, present@),
        res@.no_duplicates(),
        forall|h: ResourceHandle| #[trigger] res@.contains(h) <==> targets@.contains(h) && !present@.contains(h),
{
    let mut seen: Vec<ResourceHandle> = Vec::new();
    let mut j: usize = 0;
    while j < present.len()
        invariant
            j <= present.len(),
            seen@ == present@.take(j as int),
        decreases present.len() - j,
    {
        seen.push(present[j]);
        j = j + 1;
        assert(seen@ =~= present@.take(j as int));
    }
    assert(seen@ =~= present@);
    let mut res: Vec<ResourceHandle> = Vec::new();
    let mut i: usize = 0;
    assert(targets@.skip(0) =~= targets@);
    assert(res@ + fresh_handles(targets@, present@) =~= fresh_handles(targets@, present@));
    assert(present@ + res@ =~= present@);
    while i < targets.len()
        invariant
            i <= targets.len(),
            seen@ == present@ + res@,
            res@ + fresh_handles(targets@.skip(i as int), seen@) == fresh_handles(targets@, present@),
        decreases targets.len() - i,
    {
        let h = targets[i];
        let ghost rest = targets@.skip(i as int);
        assert(rest[0] == h);
        assert(rest.drop_first() =~= targets@.skip(i as int + 1));
        if !holds_handle(&seen, h) {
            proof {
                assert(fresh_handles(rest, seen@) == seq![h] + fresh_handles(rest.drop_first(), seen@.push(h)));
                assert(res@.push(h) + fresh_handles(rest.drop_first(), seen@.push(h))
                    =~= res@ + (seq![h] + fresh_handles(rest.drop_first(), seen@.push(h))));
            }
            res.push(h);
            seen.push(h);
            assert(seen@ =~= present@ + res@);
        }
        i = i + 1;
    }
    assert(targets@.skip(i as int).len() == 0);
    assert(res@ + Seq::<ResourceHandle>::empty() =~= res@);
    proof {
        lemma_fresh_handles(targets@, present@);
    }
    res
}

impl<C> CompiledFrameGraph<C> {
    /// The textures of the render targets of pass `pass_index`, in order.
    pub fn render_target_textures(&self, pass_index: usize) -> (res: Vec<ResourceHandle>)
        requires
            pass_index < self.passes@.len(),
        ensures
            res@ == render_target_handles(self.passes@[pass_index as int]),
    {
        let targets = &self.passes[pass_index].render_targets;
        let mut res: Vec<ResourceHandle> = Vec::new();
        let mut i: usize = 0;
        while i < targets.len()
            invariant
                i <= targets.len(),
                res@ =~= targets@.take(i as int).map_values(|rt: CompiledPassRenderTarget<C>| rt.texture),
            decreases targets.len() - i,
        {
            res.push(targets[i].texture);
            i = i + 1;
            assert(res@ =~= targets@.take(i as int).map_values(|rt: CompiledPassRenderTarget<C>| rt.texture));
        }
        assert(targets@.take(i as int) =~= targets@);
        res
    }

    /// The textures that pass `pass_index` draws to: its render targets, then its depth
    /// stencil.
    pub fn target_textures(&self, pass_index: usize) -> (res: Vec<ResourceHandle>)
        requires
            pass_index < self.passes@.len(),
        ensures
            res@ == target_handles(self.passes@[pass_index as int]),
    {
        let mut res = self.render_target_textures(pass_index);
        match &self.passes[pass_index].depth_stencil {
            Some(ds) => {
                res.push(ds.texture);
            },
            None => {
                assert(res@ + Seq::<ResourceHandle>::empty() =~= res@);
            },
        }
        res
    }

    /// The textures that pass `pass_index` draws to and that have no device texture yet,
    /// given those in `created`: each is to be created once, in the order the pass names
    /// them, before the pass runs.
    pub fn textures_to_create(&self, pass_index: usize, created: &Vec<ResourceHandle>) -> (res: Vec<ResourceHandle>)
        requires
            pass_index < self.passes@.len(),
        ensures
            res@ == fresh_handles(target_handles(self.passes@[pass_index as int]), created@),
            res@.no_duplicates(),
            forall|h: ResourceHandle| #[trigger] res@.contains(h)
                <==> target_handles(self.passes@[pass_index as int]).contains(h) && !created@.contains(h),
    {
        let targets = self.target_textures(pass_index);
        fresh_handles_of(&targets, created)
    }

    /// The render targets of pass `pass_index` that have no render target view yet,
    /// given the textures in `with_view` that have one: each gets a view once, in order.
    pub fn render_target_views_to_create(&self, pass_index: usize, with_view: &Vec<ResourceHandle>) -> (res: Vec<ResourceHandle>)
        requires
            pass_index < self.passes@.len(),
        ensures
            res@ == fresh_handles(render_target_handles(self.passes@[pass_index as int]), with_view@),
            res@.no_duplicates(),
            forall|h: ResourceHandle| #[trigger] res@.contains(h)
                <==> render_target_handles(self.passes@[pass_index as int]).contains(h) && !with_view@.contains(h),
    {
        let targets = self.render_target_textures(pass_index);
        fresh_handles_of(&targets, with_view)
    }

    /// The depth stencil of pass `pass_index`, if it has one that has no depth stencil
    /// view yet, given the textures in `with_view` that have one.
    pub fn depth_stencil_view_to_create(&self, pass_index: usize, with_view: &Vec<ResourceHandle>) -> (res: Option<ResourceHandle>)
        requires
            pass_index < self.passes@.len(),
        ensures
            res == match self.passes@[pass_index as int].depth_stencil {
                Some(ds) => if with_view@.contains(ds.texture) { None } else { Some(ds.texture) },
                None => None,
            },
    {
        match &self.passes[pass_index].depth_stencil {
            Some(ds) => {
                if holds_handle(with_view, ds.texture) {
                    None
                } else {
                    Some(ds.texture)
                }
            },
            None => None,
        }
    }
}

} // verus!
