use ze_engine::gfx::backend::{
    RenderPassTextureLoadMode, ResourceState, TextureUsageFlagBits,
};
use ze_engine::gfx::PixelFormat;
use ze_engine::render_graph::compile::CompileError;
use ze_engine::render_graph::registry::{FrameGraphTextureDesc, ResourceHandle};
use ze_engine::render_graph::render_pass::{RenderPassBuilder, RenderPassType};
use ze_engine::render_graph::FrameGraph;
use ze_engine::render_graph::prepare::fresh_handles_of;

fn desc(width: u32, height: u32) -> FrameGraphTextureDesc {
    FrameGraphTextureDesc { format: PixelFormat::R8G8B8A8Unorm, width, height }
}

#[test]
fn single_pass_writing_the_backbuffer() {
    let mut graph: FrameGraph<u32> = FrameGraph::new();
    let backbuffer = graph.import_external_texture(desc(8, 8), "backbuffer");
    let mut builder = RenderPassBuilder::new();
    let out = builder.write(&mut graph, backbuffer);
    assert_eq!(out, backbuffer);
    builder.set_clear_color(backbuffer, 7);
    assert_eq!(graph.add_pass("present", RenderPassType::Graphics, builder), 0);
    assert!(graph.contains_pass("present"));
    assert!(!graph.contains_pass("other"));

    let compiled = match graph.compile(backbuffer) {
        Ok(c) => c,
        Err(_) => panic!("the graph compiles"),
    };
    assert_eq!(compiled.passes.len(), 1);
    let pass = &compiled.passes[0];
    assert_eq!(pass.pass_index, 0);
    assert_eq!(pass.name, "present");
    assert_eq!(pass.render_targets.len(), 1);
    assert_eq!(pass.render_targets[0].texture, backbuffer);
    assert_eq!(pass.render_targets[0].load_mode, RenderPassTextureLoadMode::Clear);
    assert_eq!(pass.render_targets[0].clear_value, Some(7));
    assert!(pass.depth_stencil.is_none());

    assert_eq!(pass.invalidate_barriers.len(), 1);
    assert_eq!(pass.invalidate_barriers[0].resource, backbuffer);
    assert_eq!(pass.invalidate_barriers[0].src_state, ResourceState::Present);
    assert_eq!(pass.invalidate_barriers[0].dst_state, ResourceState::RenderTargetWrite);
    assert_eq!(pass.flush_barriers.len(), 1);
    assert_eq!(pass.flush_barriers[0].src_state, ResourceState::RenderTargetWrite);
    assert_eq!(pass.flush_barriers[0].dst_state, ResourceState::Present);

    assert_eq!(compiled.textures.len(), 1);
    assert_eq!(compiled.textures[0].handle, backbuffer);
    assert!(compiled.textures[0].usage.contains(TextureUsageFlagBits::RenderTarget));
    assert!(!compiled.textures[0].usage.contains(TextureUsageFlagBits::Sampled));
    assert_eq!(compiled.texture_index(backbuffer), Some(0));
}

#[test]
fn passes_the_backbuffer_does_not_need_are_culled() {
    let mut graph: FrameGraph<u32> = FrameGraph::new();
    let backbuffer = graph.import_external_texture(desc(4, 4), "backbuffer");
    let gbuffer = graph.import_external_texture(desc(4, 4), "gbuffer");
    let unused = graph.create_texture("unused", desc(4, 4));

    let mut builder = RenderPassBuilder::new();
    builder.write(&mut graph, unused);
    graph.add_pass("unused", RenderPassType::Graphics, builder);

    let mut builder = RenderPassBuilder::new();
    builder.read(gbuffer);
    builder.write(&mut graph, backbuffer);
    graph.add_pass("lighting", RenderPassType::Graphics, builder);

    let mut builder = RenderPassBuilder::new();
    builder.write(&mut graph, gbuffer);
    graph.add_pass("gbuffer", RenderPassType::Graphics, builder);

    let compiled = match graph.compile(backbuffer) {
        Ok(c) => c,
        Err(_) => panic!("the graph compiles"),
    };
    let order: Vec<usize> = compiled.passes.iter().map(|p| p.pass_index).collect();
    assert_eq!(order, vec![2, 1]);
    assert_eq!(compiled.passes[0].name, "gbuffer");
    assert_eq!(compiled.passes[1].name, "lighting");
    assert!(compiled.passes[0].flush_barriers.is_empty());
    assert_eq!(compiled.passes[1].flush_barriers.len(), 1);
    let gbuffer_texture = compiled.texture_index(gbuffer).unwrap();
    let usage = compiled.textures[gbuffer_texture].usage;
    assert!(usage.contains(TextureUsageFlagBits::RenderTarget));
    assert!(usage.contains(TextureUsageFlagBits::Sampled));
    assert!(compiled.texture_index(unused).is_none());
}

#[test]
fn a_graph_without_backbuffer_writer_is_refused() {
    let mut graph: FrameGraph<u32> = FrameGraph::new();
    let backbuffer = graph.import_external_texture(desc(4, 4), "backbuffer");
    let other = graph.create_texture("other", desc(4, 4));
    let mut builder = RenderPassBuilder::new();
    builder.write(&mut graph, other);
    graph.add_pass("other", RenderPassType::Compute, builder);
    assert!(matches!(graph.compile(backbuffer), Err(CompileError::NoPassWritesBackbuffer)));
}

#[test]
fn reusing_a_released_texture_is_refused() {
    let mut graph: FrameGraph<u32> = FrameGraph::new();
    let backbuffer = graph.import_external_texture(desc(4, 4), "backbuffer");
    let gbuffer = graph.create_texture("gbuffer", desc(4, 4));

    let mut builder = RenderPassBuilder::new();
    builder.write(&mut graph, gbuffer);
    graph.add_pass("gbuffer", RenderPassType::Graphics, builder);

    let mut builder = RenderPassBuilder::new();
    builder.read(gbuffer);
    builder.write(&mut graph, backbuffer);
    graph.add_pass("lighting", RenderPassType::Graphics, builder);

    assert!(matches!(graph.compile(backbuffer), Err(CompileError::AliasingNotImplemented)));
}

#[test]
fn writing_what_was_read_goes_through_a_proxy() {
    let mut graph: FrameGraph<u32> = FrameGraph::new();
    let backbuffer = graph.import_external_texture(desc(4, 4), "backbuffer");
    let mut builder = RenderPassBuilder::new();
    builder.read(backbuffer);
    let proxy = builder.write(&mut graph, backbuffer);
    assert_eq!(proxy, ResourceHandle(1));
    assert_eq!(graph.resource_registry.len(), 2);
    assert_eq!(graph.resource_registry.resolve_handle(proxy), backbuffer);
    graph.add_pass("blend", RenderPassType::Graphics, builder);

    let compiled = match graph.compile(proxy) {
        Ok(c) => c,
        Err(_) => panic!("the graph compiles"),
    };
    let pass = &compiled.passes[0];
    assert_eq!(pass.render_targets.len(), 1);
    assert_eq!(pass.render_targets[0].texture, backbuffer);
    assert_eq!(pass.render_targets[0].load_mode, RenderPassTextureLoadMode::Preserve);
    assert_eq!(pass.flush_barriers[0].resource, backbuffer);
}

#[test]
fn read_moves_an_earlier_write_to_the_end() {
    let mut graph: FrameGraph<u32> = FrameGraph::new();
    let a = graph.create_texture("a", desc(2, 2));
    let b = graph.create_texture("b", desc(2, 2));
    let mut builder = RenderPassBuilder::new();
    builder.write(&mut graph, a);
    builder.write(&mut graph, b);
    builder.read(a);
    assert_eq!(builder.writes, vec![b, a]);
    assert_eq!(builder.reads, vec![a]);
}

#[test]
fn texture_sizes() {
    assert_eq!(PixelFormat::R8G8B8A8Unorm.texture_size_in_bytes(4, 2), 32);
    assert_eq!(PixelFormat::R8Unorm.texture_size_in_bytes(3, 3), 9);
    assert_eq!(PixelFormat::Unknown.texture_size_in_bytes(3, 3), 0);
    assert_eq!(PixelFormat::D24UnormS8Uint.bytes_size(), 4);
}

#[test]
fn fresh_handles_keep_order_and_skip_present_and_repeated() {
    let h = |i: usize| ResourceHandle(i);
    let targets = vec![h(3), h(1), h(3), h(2), h(1)];
    assert_eq!(fresh_handles_of(&targets, &vec![h(2)]), vec![h(3), h(1)]);
    assert_eq!(fresh_handles_of(&targets, &vec![]), vec![h(3), h(1), h(2)]);
    assert_eq!(fresh_handles_of(&targets, &vec![h(1), h(2), h(3)]), vec![]);
}

#[test]
fn a_pass_creates_its_missing_textures_and_views() {
    let mut graph: FrameGraph<u32> = FrameGraph::new();
    let backbuffer = graph.import_external_texture(desc(8, 8), "backbuffer");
    let depth = graph.create_texture("depth", desc(8, 8));
    let mut builder = RenderPassBuilder::new();
    builder.write(&mut graph, backbuffer);
    builder.set_clear_color(backbuffer, 1);
    builder.set_depth_stencil_output(depth, 0);
    graph.add_pass("main", RenderPassType::Graphics, builder);
    let compiled = match graph.compile(backbuffer) {
        Ok(c) => c,
        Err(_) => panic!("the graph compiles"),
    };
    assert_eq!(compiled.target_textures(0), vec![backbuffer, depth]);
    assert_eq!(compiled.textures_to_create(0, &vec![backbuffer]), vec![depth]);
    assert_eq!(compiled.textures_to_create(0, &vec![]), vec![backbuffer, depth]);
    assert_eq!(compiled.render_target_views_to_create(0, &vec![]), vec![backbuffer]);
    assert_eq!(compiled.render_target_views_to_create(0, &vec![backbuffer]), vec![]);
    assert_eq!(compiled.depth_stencil_view_to_create(0, &vec![]), Some(depth));
    assert_eq!(compiled.depth_stencil_view_to_create(0, &vec![depth]), None);
}
