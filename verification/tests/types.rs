use std::sync::Arc;
use ze_engine::gfx::backend::{TextureUsageFlagBits, TextureUsageFlags};
use ze_engine::gfx::utils::pack_rows;
use ze_engine::gfx::{PixelFormat, SampleDesc, ShaderStageFlagBits};
use ze_engine::reflection::{
    EnumDescription, Field, MetaAttribute, MetaAttributeList, MetaAttributeValue, PrimitiveType,
    StructDescription, TypeDataDescription, TypeDescription, Variant,
};
use ze_engine::shader::{
    decide_modules, stages_are_hlsl, CompilationProgress, ModulesDecision, Shader, ShaderPass, ShaderStage,
    ShaderStageSourceData, ShaderType,
};
use ze_engine::text::same_text;
use ze_engine::ui::{plan_batches, plan_vertex_copies, CommandRange, DrawCommandBatch, Property, VertexCopy, Visibility};

fn primitive(name: &str, size: usize) -> Arc<TypeDescription> {
    Arc::new(TypeDescription::new(
        name.to_string(),
        size,
        size,
        TypeDataDescription::Primitive(PrimitiveType::U32),
    ))
}

#[test]
fn meta_attributes_are_found_by_name() {
    let list = MetaAttributeList::new(vec![
        MetaAttribute::new("serialize".to_string(), None),
        MetaAttribute::new("range".to_string(), Some(MetaAttributeValue::Value("0..1".to_string()))),
        MetaAttribute::new("range".to_string(), Some(MetaAttributeValue::Value("2..3".to_string()))),
    ]);
    assert!(list.has_attribute("serialize"));
    assert!(!list.has_attribute("hidden"));
    match list.attribute("range").unwrap().value() {
        Some(MetaAttributeValue::Value(v)) => assert_eq!(v, "0..1"),
        _ => panic!("the first range attribute has a value"),
    }
    assert!(list.attribute("serialize").unwrap().value().is_none());
}

#[test]
fn struct_descriptions_keep_their_fields() {
    let u32_desc = primitive("u32", 4);
    let fields = vec![
        Field::new("x".to_string(), 0, u32_desc.clone(), MetaAttributeList::new(Vec::new())),
        Field::new("y".to_string(), 4, u32_desc, MetaAttributeList::new(Vec::new())),
    ];
    let desc = TypeDescription::new(
        "Point".to_string(),
        8,
        4,
        TypeDataDescription::Struct(StructDescription::new(fields)),
    );
    assert_eq!(desc.name(), "Point");
    let s = desc.data_as_struct();
    assert_eq!(s.fields().len(), 2);
    assert_eq!(s.fields()[1].name(), "y");
    assert_eq!(s.fields()[1].offset_in_bytes(), 4);
    assert_eq!(s.fields()[0].ty().name(), "u32");
    assert!(!s.fields()[0].attributes().has_attribute("x"));
    assert!(StructDescription::default().fields().is_empty());
}

#[test]
fn enum_variants_are_found_by_discriminant() {
    let desc = EnumDescription::new(vec![
        Variant::new("A".to_string(), None, 0),
        Variant::new("B".to_string(), None, 5),
        Variant::new("C".to_string(), None, 5),
    ]);
    assert_eq!(desc.variant_of_discriminant(5).unwrap().name(), "B");
    assert_eq!(desc.variant_of_discriminant(0).unwrap().discriminant(), 0);
    assert!(desc.variant_of_discriminant(1).is_none());
    assert_eq!(desc.variants().len(), 3);
}

#[test]
fn shader_passes_are_found_by_name() {
    let stage = ShaderStage::new(ShaderStageFlagBits::Vertex, ShaderStageSourceData::Hlsl("main".to_string()));
    let shader = Shader::new(
        ShaderType::Zeshader,
        "lit".to_string(),
        vec![
            ShaderPass::new("depth".to_string(), vec![stage]),
            ShaderPass::new("color".to_string(), Vec::new()),
        ],
    );
    assert_eq!(shader.pass_index("color"), Some(1));
    assert_eq!(shader.pass_index("depth"), Some(0));
    assert_eq!(shader.pass_index("shadow"), None);
    assert_eq!(shader.ty, ShaderType::Zeshader);
    assert_eq!(ShaderStageFlagBits::Compute.bits(), 4);
    assert_eq!(ShaderStageFlagBits::Mesh.bits(), 8);
}

#[test]
fn properties_hold_their_constant() {
    let p = Property::new_constant(3u8);
    assert_eq!(*p.get(), 3);
    let q: Property<u8> = 9.into();
    assert_eq!(*q.get(), 9);
    let d: Property<u8> = Property::default();
    assert_eq!(*d.get(), 0);
    assert_ne!(Visibility::Hidden, Visibility::Collapsed);
}

#[test]
fn pixel_formats_and_usages() {
    assert_eq!(PixelFormat::default(), PixelFormat::Unknown);
    assert_eq!(PixelFormat::B8G8R8A8UnormSrgb.bytes_size(), 4);
    assert_eq!(PixelFormat::R8Unorm.bytes_size(), 1);
    let sample = SampleDesc::default();
    assert_eq!(sample.count, 1);
    assert_eq!(sample.quality, 0);
    let mut usage = TextureUsageFlags::empty();
    assert!(!usage.contains(TextureUsageFlagBits::Sampled));
    usage.insert(TextureUsageFlagBits::Sampled);
    usage.insert(TextureUsageFlagBits::DepthStencil);
    assert_eq!(usage.bits, 12);
    assert!(usage.contains(TextureUsageFlagBits::DepthStencil));
    assert!(!usage.contains(TextureUsageFlagBits::RenderTarget));
}

#[test]
fn same_text_compares_characters() {
    assert!(same_text("abc", "abc"));
    assert!(!same_text("abc", "abd"));
    assert!(!same_text("abc", "ab"));
    assert!(same_text("", ""));
}

#[test]
fn rows_are_packed_without_their_padding() {
    let data = [1u8, 2, 3, 4, 9, 9, 9, 9, 5, 6, 7, 8];
    assert_eq!(pack_rows(&data, 1, 2, 8), vec![1, 2, 3, 4, 5, 6, 7, 8]);
    assert_eq!(pack_rows(&data, 2, 1, 8), vec![1, 2, 3, 4, 9, 9, 9, 9]);
    assert!(pack_rows(&data, 0, 3, 8).is_empty());
}

#[test]
fn primitive_descriptions() {
    let d = TypeDescription::of::<u32>();
    assert_eq!(d.name(), "u32");
    assert!(matches!(d.data(), TypeDataDescription::Primitive(PrimitiveType::U32)));
    let d = TypeDescription::of::<bool>();
    assert_eq!(d.name(), "bool");
    assert!(matches!(d.data(), TypeDataDescription::Primitive(PrimitiveType::Bool)));
    let d = TypeDescription::of::<isize>();
    assert_eq!(d.name(), "isize");
    assert!(matches!(d.data(), TypeDataDescription::Primitive(PrimitiveType::ISize)));
    let d = TypeDescription::of::<char>();
    assert!(matches!(d.data(), TypeDataDescription::Primitive(PrimitiveType::Char)));
}

#[test]
fn modules_request_decisions() {
    assert_eq!(decide_modules(None, Some(0), true, false), ModulesDecision::Unknown);
    assert_eq!(decide_modules(Some(1), None, true, true), ModulesDecision::Unknown);
    assert_eq!(decide_modules(Some(1), Some(0), true, true), ModulesDecision::Cached);
    assert_eq!(decide_modules(Some(1), Some(0), false, true), ModulesDecision::Compiling);
    assert_eq!(decide_modules(Some(1), Some(0), false, false), ModulesDecision::StartCompile);

    let shader = Shader::new(
        ShaderType::Zeshader,
        "s".to_string(),
        vec![ShaderPass::new("".to_string(), vec![]), ShaderPass::new("shadow".to_string(), vec![])],
    );
    assert_eq!(shader.requested_pass_index(None), Some(0));
    assert_eq!(shader.requested_pass_index(Some("shadow")), Some(1));
    assert_eq!(shader.requested_pass_index(Some("other")), None);
}

#[test]
fn batches_of_sorted_commands() {
    let commands = vec![
        CommandRange { vertices_start_idx: 0, vertices_count: 4, indices_start_idx: 0, indices_count: 6 },
        CommandRange { vertices_start_idx: 4, vertices_count: 3, indices_start_idx: 6, indices_count: 3 },
        CommandRange { vertices_start_idx: 7, vertices_count: 4, indices_start_idx: 9, indices_count: 6 },
    ];
    let indices: Vec<u16> = vec![0, 1, 2, 2, 3, 0, 0, 1, 2, 0, 1, 2, 2, 3, 0];
    let sorted = vec![vec![2, 0], vec![1]];
    let (batches, out) = plan_batches(&commands, &indices, &sorted);
    assert_eq!(
        batches,
        vec![
            DrawCommandBatch { vertex_count: 8, index_count: 12, base_vertex_location: 0, base_index_location: 0 },
            DrawCommandBatch { vertex_count: 3, index_count: 3, base_vertex_location: 8, base_index_location: 12 },
        ]
    );
    assert_eq!(out, vec![0, 1, 2, 2, 3, 0, 4, 5, 6, 6, 7, 4, 0, 1, 2]);
}

#[test]
fn vertex_copies_of_sorted_commands() {
    let commands = vec![
        CommandRange { vertices_start_idx: 0, vertices_count: 4, indices_start_idx: 0, indices_count: 6 },
        CommandRange { vertices_start_idx: 4, vertices_count: 3, indices_start_idx: 6, indices_count: 3 },
        CommandRange { vertices_start_idx: 7, vertices_count: 4, indices_start_idx: 9, indices_count: 6 },
    ];
    let sorted = vec![vec![2, 0], vec![1]];
    assert_eq!(
        plan_vertex_copies(&commands, &sorted),
        vec![
            vec![
                VertexCopy { src_start: 7, dst_start: 0, count: 4 },
                VertexCopy { src_start: 0, dst_start: 4, count: 4 },
            ],
            vec![VertexCopy { src_start: 4, dst_start: 8, count: 3 }],
        ]
    );
}

#[test]
fn compilation_completes_when_every_stage_finished() {
    let mut progress = CompilationProgress::new(2);
    assert!(!progress.record_stage(true));
    assert!(!progress.modules_ready());
    assert!(progress.record_stage(true));
    assert!(progress.modules_ready());

    let mut failed = CompilationProgress::new(2);
    assert!(!failed.record_stage(false));
    assert!(failed.record_stage(true));
    assert!(!failed.modules_ready());

    let hlsl = ShaderPass::new("".to_string(), vec![ShaderStage::new(ShaderStageFlagBits::Vertex, ShaderStageSourceData::Hlsl("x".to_string()))]);
    assert!(stages_are_hlsl(&hlsl));
    let bytecode = ShaderPass::new("".to_string(), vec![ShaderStage::new(ShaderStageFlagBits::Vertex, ShaderStageSourceData::Bytecode(vec![1]))]);
    assert!(!stages_are_hlsl(&bytecode));
}
