use dumper_rust::dumper::{
    apply_special_request_fields, build_model_catalog, build_polymorphic_models,
    discover_polymorphic_roots, extract_polymorphic_base_from_field, EventEntry, ModelEntry,
    PacketEntry, PolymorphicBase, PolymorphicDiscriminator, PolymorphicModelEntry,
    EntryTable, PolymorphicVariant, RootSource, RootSources, TypeDescriptorEntry,
};
use dumper_rust::extractor::ExtractedField;
use dumper_rust::names::{NameMap, NameSet};
use dumper_rust::rtti::ClassHierarchy;
use dumper_rust::scanner::ping_payload_fields;
use dumper_rust::type_parser::{decompose_type, DecomposedType};

fn field(name: &str, ty: &str) -> ExtractedField {
    ExtractedField { name: name.to_string(), field_type: decompose_type(ty), required: false }
}

fn entry(name: &str, offset: &str, fields: Vec<ExtractedField>) -> TypeDescriptorEntry {
    TypeDescriptorEntry { offset: Some(offset.to_string()), name: name.to_string(), fields, warn: None }
}

fn roots(base_name: &str, sources: &[&str]) -> NameMap<RootSources> {
    let mut s = RootSources::default();
    for source in sources {
        match *source {
            "protocol_field" => s.protocol_field = true,
            "rtti_heuristic" => s.rtti_heuristic = true,
            other => panic!("unknown test root source {other}"),
        }
    }
    let mut roots = NameMap::new();
    roots.set(base_name.to_string(), s);
    roots
}

fn hierarchy(base_name: &str, derived_names: &[&str]) -> ClassHierarchy {
    let mut h = ClassHierarchy::new();
    for d in derived_names {
        h.add_derived(base_name, d);
    }
    h
}

fn build_test_polymorphic_models_with_values(
    roots: NameMap<RootSources>,
    hierarchy: ClassHierarchy,
    entries: Vec<TypeDescriptorEntry>,
    discriminator_values: NameMap<String>,
) -> (Vec<PolymorphicModelEntry>, NameSet) {
    let mut resolver = EntryTable::new(entries);
    build_polymorphic_models(&roots, &hierarchy, &mut resolver, &discriminator_values)
}

fn build_test_polymorphic_models(
    roots: NameMap<RootSources>,
    hierarchy: ClassHierarchy,
    entries: Vec<TypeDescriptorEntry>,
) -> (Vec<PolymorphicModelEntry>, NameSet) {
    build_test_polymorphic_models_with_values(roots, hierarchy, entries, NameMap::new())
}

fn build_test_model_catalog(
    packets: Vec<PacketEntry>,
    events: Vec<EventEntry>,
    polymorphic_models: Vec<PolymorphicModelEntry>,
    entries: Vec<TypeDescriptorEntry>,
) -> Vec<ModelEntry> {
    let mut resolver = EntryTable::new(entries);
    build_model_catalog(&packets, &events, &polymorphic_models, &mut resolver)
}

fn field_names(fields: &[ExtractedField]) -> Vec<&str> {
    fields.iter().map(|field| field.name.as_str()).collect()
}

fn variant_names(variants: &[PolymorphicVariant]) -> Vec<&str> {
    variants.iter().map(|variant| variant.name.as_str()).collect()
}

fn variant(name: &str, offset: Option<&str>, fields: Vec<ExtractedField>, all_fields: Vec<ExtractedField>, tag: Option<&str>) -> PolymorphicVariant {
    PolymorphicVariant {
        name: name.to_string(),
        offset: offset.map(|o| o.to_string()),
        fields,
        all_fields,
        tag: tag.map(|t| t.to_string()),
    }
}

fn type_discriminator() -> Option<PolymorphicDiscriminator> {
    Some(PolymorphicDiscriminator { field: "_type".to_string(), value_type: "std::string".to_string() })
}

fn event_with_request(opcode: u32, request: TypeDescriptorEntry) -> EventEntry {
    EventEntry {
        opcode,
        kind: None,
        name: None,
        base_kind: None,
        offset: None,
        request: Some(request),
        response: None,
        warn: None,
    }
}

#[test]
fn polymorphic_builder_protocol_field_root_populates_variants_and_rtti_subclasses() {
    let base = "Api::OneMe::Types::BaseAttachment";
    let photo = "Api::OneMe::Types::PhotoAttachment";
    let (models, catalog_names) = build_test_polymorphic_models(
        roots(base, &["protocol_field"]),
        hierarchy(base, &[photo]),
        vec![
            entry(base, "0x100", vec![field("_type", "std::string")]),
            entry(photo, "0x200", vec![field("url", "std::string")]),
        ],
    );

    assert_eq!(models.len(), 1);
    let model = &models[0];
    assert_eq!(model.name, base);
    assert_eq!(model.root_sources, vec!["protocol_field"]);
    let discriminator = model.discriminator.as_ref().expect("must have discriminator");
    assert_eq!(discriminator.field, "_type");
    assert_eq!(discriminator.value_type, "std::string");
    assert_eq!(field_names(&model.base.fields), vec!["_type"]);
    assert_eq!(variant_names(&model.variants), vec![photo]);
    assert_eq!(variant_names(&model.rtti_subclasses), vec![photo]);
    assert!(catalog_names.contains(base));
    assert!(catalog_names.contains(photo));
}

#[test]
fn polymorphic_builder_rtti_heuristic_root_keeps_empty_variants() {
    let base = "Api::OneMe::Types::Log::EventParams";
    let opened = "Api::OneMe::Types::Log::OpenedParams";
    let (models, catalog_names) = build_test_polymorphic_models(
        roots(base, &["rtti_heuristic"]),
        hierarchy(base, &[opened]),
        vec![
            entry(base, "0x300", vec![field("common", "int")]),
            entry(opened, "0x400", vec![field("duration", "int")]),
        ],
    );

    let model = &models[0];
    assert_eq!(model.root_sources, vec!["rtti_heuristic"]);
    assert!(model.variants.is_empty());
    assert_eq!(variant_names(&model.rtti_subclasses), vec![opened]);
    assert_eq!(model.discriminator, None);
    assert!(!catalog_names.contains(opened));
    assert!(!catalog_names.contains(base));
}

#[test]
fn polymorphic_builder_excludes_base_from_variants() {
    let base = "Api::OneMe::Types::BaseAttachment";
    let video = "Api::OneMe::Types::VideoAttachment";
    let (models, _) = build_test_polymorphic_models(
        roots(base, &["protocol_field"]),
        hierarchy(base, &[base, video]),
        vec![
            entry(base, "0x500", vec![field("_type", "std::string")]),
            entry(video, "0x600", vec![field("collage", "Api::OneMe::Types::VideoCollage")]),
        ],
    );

    assert_eq!(variant_names(&models[0].variants), vec![video]);
}

#[test]
fn polymorphic_builder_variant_fields_are_local() {
    let base = "Api::OneMe::Types::BaseAttachment";
    let file = "Api::OneMe::Types::FileAttachment";
    let (models, _) = build_test_polymorphic_models(
        roots(base, &["protocol_field"]),
        hierarchy(base, &[file]),
        vec![
            entry(base, "0x700", vec![field("baseId", "int64_t")]),
            entry(file, "0x800", vec![field("fileId", "int64_t")]),
        ],
    );

    let variant = &models[0].variants[0];
    assert_eq!(field_names(&variant.fields), vec!["fileId"]);
}

#[test]
fn polymorphic_builder_all_fields_are_base_first_and_base_wins_duplicate_names() {
    let base = "Api::OneMe::Types::BaseAttachment";
    let sticker = "Api::OneMe::Types::StickerAttachment";
    let (models, _) = build_test_polymorphic_models(
        roots(base, &["protocol_field"]),
        hierarchy(base, &[sticker]),
        vec![
            entry(base, "0x900", vec![field("shared", "int"), field("baseOnly", "bool")]),
            entry(sticker, "0xa00", vec![field("shared", "std::string"), field("localOnly", "std::string")]),
        ],
    );

    let all_fields = &models[0].variants[0].all_fields;
    assert_eq!(field_names(all_fields), vec!["shared", "baseOnly", "localOnly"]);
    assert_eq!(all_fields[0].field_type.full, "int32_t");
}

#[test]
fn polymorphic_builder_attaches_direct_tag_to_variant() {
    let base = "Api::OneMe::Types::BaseAttachment";
    let photo = "Api::OneMe::Types::PhotoAttachment";
    let mut discriminator_values = NameMap::new();
    discriminator_values.set(photo.to_string(), "PHOTO".to_string());
    let (models, _) = build_test_polymorphic_models_with_values(
        roots(base, &["protocol_field"]),
        hierarchy(base, &[photo]),
        vec![
            entry(base, "0x100", vec![field("_type", "std::string")]),
            entry(photo, "0x200", vec![field("url", "std::string")]),
        ],
        discriminator_values,
    );

    assert_eq!(models[0].variants[0].tag.as_deref(), Some("PHOTO"));
    assert_eq!(models[0].rtti_subclasses[0].tag, None);
}

#[test]
fn polymorphic_builder_omits_tags_for_rtti_only_roots() {
    let base = "Api::OneMe::Types::Log::EventParams";
    let opened = "Api::OneMe::Types::Log::OpenedParams";
    let mut discriminator_values = NameMap::new();
    discriminator_values.set(opened.to_string(), "OPENED".to_string());
    let (models, _) = build_test_polymorphic_models_with_values(
        roots(base, &["rtti_heuristic"]),
        hierarchy(base, &[opened]),
        vec![
            entry(base, "0x300", vec![field("common", "int")]),
            entry(opened, "0x400", vec![field("duration", "int")]),
        ],
        discriminator_values,
    );

    assert!(models[0].variants.is_empty());
    assert_eq!(models[0].rtti_subclasses[0].tag, None);
}

#[test]
fn special_ping_payload_fields_replace_no_data_warning() {
    let entry = TypeDescriptorEntry {
        offset: None,
        name: "Api::OneMe::Packets::Ping::Payload".to_string(),
        fields: Vec::new(),
        warn: Some("no data found".to_string()),
    };

    let resolved = apply_special_request_fields(entry, &ping_payload_fields());

    assert_eq!(resolved.warn, None);
    assert_eq!(resolved.fields, ping_payload_fields());
}

#[test]
fn special_fields_do_not_override_generic_resolution() {
    let existing_fields = vec![ExtractedField {
        name: "existing".to_string(),
        field_type: decompose_type("int32_t"),
        required: false,
    }];
    let entry = TypeDescriptorEntry {
        offset: Some("0x1234".to_string()),
        name: "Api::OneMe::Packets::Ping::Payload".to_string(),
        fields: existing_fields.clone(),
        warn: None,
    };

    let resolved = apply_special_request_fields(entry, &ping_payload_fields());

    assert_eq!(resolved.offset.as_deref(), Some("0x1234"));
    assert_eq!(resolved.fields, existing_fields);
    assert_eq!(resolved.warn, None);
}

#[test]
fn transitive_polymorphic_root_discovery_elevates_nested_model_polymorphic_types_to_protocol_field() {
    let packet_req = "Api::OneMe::Packets::Log::Event::Request";
    let packet_resp = "Api::OneMe::Packets::Log::Event::Response";
    let log_event = "Api::OneMe::Packets::Log::LogEvent";
    let event_params = "Api::OneMe::Types::Log::EventParams";
    let call_params = "Api::OneMe::Types::Log::CallEventParams";
    let unknown_params = "Api::OneMe::Types::Log::UnknownContactInteractionParams";
    let unknown_sub_params = "Api::OneMe::Types::Log::UnknownContactInteractionSubParams";

    let packet = PacketEntry {
        opcode: 5,
        request: entry(packet_req, "0x1000", vec![field("events", &format!("std::vector<{log_event}>"))]),
        response: entry(packet_resp, "0x1010", vec![]),
    };

    let mut hierarchy_map = ClassHierarchy::new();
    hierarchy_map.add_derived(event_params, call_params);
    hierarchy_map.add_derived(event_params, unknown_params);
    hierarchy_map.add_derived(unknown_params, unknown_sub_params);

    let mut resolver = EntryTable::new(vec![
            entry(
                log_event,
                "0x1020",
                vec![field("params", &format!("std::optional<Api::OneMe::Types::Polymorphic<{event_params}>>"))],
            ),
            entry(event_params, "0x1030", vec![field("common", "int32_t")]),
            entry(call_params, "0x1040", vec![field("duration", "int32_t")]),
            entry(unknown_params, "0x1050", vec![field("unknownField", "int32_t")]),
            entry(unknown_sub_params, "0x1060", vec![field("subField", "int32_t")]),
        ]);

    let roots = discover_polymorphic_roots(&vec![packet], &vec![], &hierarchy_map, &mut resolver);

    assert!(roots.contains_key(event_params));
    let event_params_sources = roots.get(event_params).unwrap();
    assert!(
        event_params_sources.contains(&RootSource::ProtocolField),
        "EventParams must be recognized as protocol_field"
    );
    assert!(
        event_params_sources.contains(&RootSource::RttiHeuristic),
        "EventParams must retain rtti_heuristic"
    );

    assert!(roots.contains_key(unknown_params));
    let unknown_sources = roots.get(unknown_params).unwrap();
    assert!(
        !unknown_sources.contains(&RootSource::ProtocolField),
        "UnknownContactInteractionParams must not be marked as protocol_field"
    );
    assert!(
        unknown_sources.contains(&RootSource::RttiHeuristic),
        "UnknownContactInteractionParams must remain as rtti_heuristic"
    );

    let (poly_models, _) = build_polymorphic_models(&roots, &hierarchy_map, &mut resolver, &NameMap::new());

    let event_model = poly_models
        .iter()
        .find(|m| m.name == event_params)
        .expect("EventParams polymorphic model must be present");
    assert_eq!(event_model.root_sources, vec!["protocol_field", "rtti_heuristic"]);
    let event_variant_names = variant_names(&event_model.variants);
    assert_eq!(event_variant_names, vec![call_params, unknown_params]);

    let unknown_model = poly_models
        .iter()
        .find(|m| m.name == unknown_params)
        .expect("UnknownContactInteractionParams polymorphic model must be present");
    assert_eq!(unknown_model.root_sources, vec!["rtti_heuristic"]);
    assert!(unknown_model.variants.is_empty(), "Heuristic-only intermediate root must have empty variants");
    assert_eq!(variant_names(&unknown_model.rtti_subclasses), vec![unknown_sub_params]);
}

#[test]
fn model_field_referencing_polymorphic_via_decompiled_type_marks_protocol_root() {
    let packet_req = "Api::OneMe::Packets::Log::Event::Request";
    let packet_resp = "Api::OneMe::Packets::Log::Event::Response";
    let log_event = "Api::OneMe::Packets::Log::LogEvent";
    let event_params = "Api::OneMe::Types::Log::EventParams";
    let call_params = "Api::OneMe::Types::Log::CallEventParams";

    let packet = PacketEntry {
        opcode: 5,
        request: entry(packet_req, "0x1000", vec![field("events", &format!("std::vector<{log_event}>"))]),
        response: entry(packet_resp, "0x1010", vec![]),
    };

    let mut hierarchy_map = ClassHierarchy::new();
    hierarchy_map.add_derived(event_params, call_params);

    let raw_decompiled_field = ExtractedField {
        name: "params".to_string(),
        field_type: DecomposedType {
            full: format!("class Api::OneMe::Types::Polymorphic<class {event_params}>"),
            name: None,
            optional: false,
            array: false,
            map: false,
            map_key: None,
            map_value: None,
            polymorphic: false,
            polymorphic_base: None,
        },
        required: false,
    };

    assert_eq!(extract_polymorphic_base_from_field(&raw_decompiled_field), Some(event_params.to_string()));

    let mut resolver = EntryTable::new(vec![
            entry(log_event, "0x1020", vec![raw_decompiled_field]),
            entry(event_params, "0x1030", vec![field("common", "int32_t")]),
            entry(call_params, "0x1040", vec![field("duration", "int32_t")]),
        ]);

    let roots = discover_polymorphic_roots(&vec![packet], &vec![], &hierarchy_map, &mut resolver);
    assert!(roots.contains_key(event_params));
    assert!(
        roots.get(event_params).unwrap().contains(&RootSource::ProtocolField),
        "Decompiled Polymorphic<T> must mark T as protocol_field"
    );
}

#[test]
fn event_payload_transitive_polymorphic_root_discovery() {
    let event_req = "Api::OneMe::Events::Telemetry::Request";
    let log_event = "Api::OneMe::Packets::Log::LogEvent";
    let event_params = "Api::OneMe::Types::Log::EventParams";
    let call_params = "Api::OneMe::Types::Log::CallEventParams";

    let event = event_with_request(
        100,
        entry(event_req, "0x2000", vec![field("events", &format!("std::vector<{log_event}>"))]),
    );

    let mut hierarchy_map = ClassHierarchy::new();
    hierarchy_map.add_derived(event_params, call_params);

    let mut resolver = EntryTable::new(vec![
            entry(log_event, "0x2010", vec![field("params", &format!("Api::OneMe::Types::Polymorphic<{event_params}>"))]),
            entry(event_params, "0x2020", vec![field("common", "int32_t")]),
            entry(call_params, "0x2030", vec![field("duration", "int32_t")]),
        ]);

    let roots = discover_polymorphic_roots(&vec![], &vec![event], &hierarchy_map, &mut resolver);
    assert!(roots.contains_key(event_params));
    assert!(roots.get(event_params).unwrap().contains(&RootSource::ProtocolField));
}

#[test]
fn multi_hop_model_transitive_polymorphic_discovery() {
    let outer_model = "Api::OneMe::Types::OuterModel";
    let inner_model = "Api::OneMe::Types::InnerModel";
    let poly_root = "Api::OneMe::Types::DeepAttachment";
    let poly_variant = "Api::OneMe::Types::ConcreteDeepAttachment";

    let packet = PacketEntry {
        opcode: 10,
        request: entry("Api::OneMe::Packets::Test::Request", "0x3000", vec![field("outer", outer_model)]),
        response: entry("Api::OneMe::Packets::Test::Response", "0x3010", vec![]),
    };

    let mut hierarchy_map = ClassHierarchy::new();
    hierarchy_map.add_derived(poly_root, poly_variant);

    let mut resolver = EntryTable::new(vec![
            entry(outer_model, "0x3020", vec![field("inner", inner_model)]),
            entry(inner_model, "0x3030", vec![field("attachment", &format!("Api::OneMe::Types::Polymorphic<{poly_root}>"))]),
            entry(poly_root, "0x3040", vec![field("_type", "std::string")]),
            entry(poly_variant, "0x3050", vec![field("data", "std::string")]),
        ]);

    let roots = discover_polymorphic_roots(&vec![packet], &vec![], &hierarchy_map, &mut resolver);
    assert!(roots.contains_key(poly_root));
    assert!(roots.get(poly_root).unwrap().contains(&RootSource::ProtocolField));
}

#[test]
fn model_catalog_includes_real_variants_from_polymorphic_models() {
    let base_attach = "Api::OneMe::Types::BaseAttachment";
    let photo_attach = "Api::OneMe::Types::PhotoAttachment";
    let app_attach = "Api::OneMe::Types::AppAttachment";
    let event_params = "Api::OneMe::Types::Log::EventParams";
    let call_params = "Api::OneMe::Types::Log::CallEventParams";

    let poly_models = vec![
        PolymorphicModelEntry {
            name: base_attach.to_string(),
            root_sources: vec!["protocol_field".to_string()],
            discriminator: type_discriminator(),
            base: PolymorphicBase { offset: Some("0x100".to_string()), fields: vec![field("_type", "std::string")] },
            variants: vec![
                variant(
                    photo_attach,
                    Some("0x200"),
                    vec![field("photoId", "int64_t"), field("width", "int32_t")],
                    vec![field("_type", "std::string"), field("photoId", "int64_t"), field("width", "int32_t")],
                    Some("PHOTO"),
                ),
                variant(
                    app_attach,
                    Some("0x300"),
                    vec![field("appId", "int64_t"), field("name", "std::string")],
                    vec![field("_type", "std::string"), field("appId", "int64_t"), field("name", "std::string")],
                    Some("APP"),
                ),
            ],
            rtti_subclasses: vec![],
        },
        PolymorphicModelEntry {
            name: event_params.to_string(),
            root_sources: vec!["protocol_field".to_string(), "rtti_heuristic".to_string()],
            discriminator: None,
            base: PolymorphicBase { offset: Some("0x400".to_string()), fields: vec![field("common", "std::string")] },
            variants: vec![variant(
                call_params,
                Some("0x500"),
                vec![field("callDuration", "int64_t")],
                vec![field("common", "std::string"), field("callDuration", "int64_t")],
                None,
            )],
            rtti_subclasses: vec![],
        },
    ];

    let entries = vec![
        entry(base_attach, "0x100", vec![field("_type", "std::string")]),
        entry(photo_attach, "0x200", vec![field("photoId", "int64_t"), field("width", "int32_t")]),
        entry(app_attach, "0x300", vec![field("appId", "int64_t"), field("name", "std::string")]),
        entry(event_params, "0x400", vec![field("common", "std::string")]),
        entry(call_params, "0x500", vec![field("callDuration", "int64_t")]),
    ];

    let models = build_test_model_catalog(vec![], vec![], poly_models, entries);
    let model_names: Vec<&str> = models.iter().map(|m| m.name.as_str()).collect();

    assert!(model_names.contains(&photo_attach), "PhotoAttachment must be present in models");
    assert!(model_names.contains(&app_attach), "AppAttachment must be present in models");
    assert!(model_names.contains(&call_params), "CallEventParams must be present in models");
    assert!(model_names.contains(&base_attach), "BaseAttachment protocol root base must be present in models");
    assert!(model_names.contains(&event_params), "EventParams protocol root base must be present in models");
}

#[test]
fn model_catalog_excludes_empty_rtti_subclasses() {
    let unknown_params = "Api::OneMe::Types::Log::UnknownContactInteractionParams";
    let ab_status = "Api::OneMe::Types::Log::AbStatusParams";
    let banner_params = "Api::OneMe::Types::Log::BannerParams";
    let photo_attach = "Api::OneMe::Types::PhotoAttachment";
    let base_attach = "Api::OneMe::Types::BaseAttachment";

    let poly_models = vec![
        PolymorphicModelEntry {
            name: unknown_params.to_string(),
            root_sources: vec!["rtti_heuristic".to_string()],
            discriminator: None,
            base: PolymorphicBase { offset: Some("0x600".to_string()), fields: vec![] },
            variants: vec![],
            rtti_subclasses: vec![
                variant(ab_status, Some("0x610"), vec![], vec![], None),
                variant(banner_params, Some("0x620"), vec![], vec![], None),
            ],
        },
        PolymorphicModelEntry {
            name: base_attach.to_string(),
            root_sources: vec!["protocol_field".to_string()],
            discriminator: None,
            base: PolymorphicBase { offset: Some("0x100".to_string()), fields: vec![field("_type", "std::string")] },
            variants: vec![variant(
                photo_attach,
                Some("0x200"),
                vec![field("url", "std::string")],
                vec![field("_type", "std::string"), field("url", "std::string")],
                None,
            )],
            rtti_subclasses: vec![],
        },
    ];

    let entries = vec![
        entry(unknown_params, "0x600", vec![]),
        entry(ab_status, "0x610", vec![]),
        entry(banner_params, "0x620", vec![]),
        entry(base_attach, "0x100", vec![field("_type", "std::string")]),
        entry(photo_attach, "0x200", vec![field("url", "std::string")]),
    ];

    let models = build_test_model_catalog(vec![], vec![], poly_models, entries);
    let model_names: Vec<&str> = models.iter().map(|m| m.name.as_str()).collect();

    assert!(!model_names.contains(&ab_status), "Empty RTTI-only subclass AbStatusParams must be excluded from models");
    assert!(!model_names.contains(&banner_params), "Empty RTTI-only subclass BannerParams must be excluded from models");
    assert!(
        !model_names.contains(&unknown_params),
        "Heuristic-only base UnknownContactInteractionParams without protocol usage must be excluded from models"
    );
    assert!(model_names.contains(&photo_attach), "Active variant PhotoAttachment must be included in models");
}

#[test]
fn model_catalog_variant_entries_expose_local_fields_only() {
    let base_attach = "Api::OneMe::Types::BaseAttachment";
    let photo_attach = "Api::OneMe::Types::PhotoAttachment";

    let poly_models = vec![PolymorphicModelEntry {
        name: base_attach.to_string(),
        root_sources: vec!["protocol_field".to_string()],
        discriminator: type_discriminator(),
        base: PolymorphicBase {
            offset: Some("0x100".to_string()),
            fields: vec![field("_type", "std::string"), field("deleted", "std::optional<bool>")],
        },
        variants: vec![variant(
            photo_attach,
            Some("0x200"),
            vec![field("photoId", "int64_t"), field("baseUrl", "std::string"), field("width", "int32_t"), field("height", "int32_t")],
            vec![
                field("_type", "std::string"),
                field("deleted", "std::optional<bool>"),
                field("photoId", "int64_t"),
                field("baseUrl", "std::string"),
                field("width", "int32_t"),
                field("height", "int32_t"),
            ],
            Some("PHOTO"),
        )],
        rtti_subclasses: vec![],
    }];

    let entries = vec![
        entry(base_attach, "0x100", vec![field("_type", "std::string"), field("deleted", "std::optional<bool>")]),
        entry(
            photo_attach,
            "0x200",
            vec![field("photoId", "int64_t"), field("baseUrl", "std::string"), field("width", "int32_t"), field("height", "int32_t")],
        ),
    ];

    let models = build_test_model_catalog(vec![], vec![], poly_models, entries);
    let photo_model = models.iter().find(|m| m.name == photo_attach).expect("PhotoAttachment must be present in models");

    let photo_field_names: Vec<&str> = photo_model.fields.iter().map(|f| f.name.as_str()).collect();
    assert_eq!(
        photo_field_names,
        vec!["photoId", "baseUrl", "width", "height"],
        "PhotoAttachment in models must contain only local fields"
    );
    assert!(!photo_field_names.contains(&"_type"), "_type base field must not be in local fields of PhotoAttachment in models");
    assert!(!photo_field_names.contains(&"deleted"), "deleted base field must not be in local fields of PhotoAttachment in models");
}

#[test]
fn model_catalog_suppresses_warn_on_valid_empty_marker_variant() {
    let base_attach = "Api::OneMe::Types::BaseAttachment";
    let unsupported = "Api::OneMe::Types::UnsupportedAttachment";

    let poly_models = vec![PolymorphicModelEntry {
        name: base_attach.to_string(),
        root_sources: vec!["protocol_field".to_string()],
        discriminator: type_discriminator(),
        base: PolymorphicBase {
            offset: Some("0x100".to_string()),
            fields: vec![field("_type", "std::string"), field("deleted", "std::optional<bool>")],
        },
        variants: vec![variant(
            unsupported,
            Some("0x531d90"),
            vec![],
            vec![field("_type", "std::string"), field("deleted", "std::optional<bool>")],
            Some("UNSUPPORTED"),
        )],
        rtti_subclasses: vec![],
    }];

    let entries = vec![
        entry(base_attach, "0x100", vec![field("_type", "std::string"), field("deleted", "std::optional<bool>")]),
        TypeDescriptorEntry {
            name: unsupported.to_string(),
            offset: Some("0x531d90".to_string()),
            fields: vec![],
            warn: Some("no data found".to_string()),
        },
    ];

    let models = build_test_model_catalog(vec![], vec![], poly_models, entries);
    let unsupported_model = models.iter().find(|m| m.name == unsupported).expect("UnsupportedAttachment must be present in models");

    assert_eq!(unsupported_model.offset.as_deref(), Some("0x531d90"));
    assert!(unsupported_model.fields.is_empty());
    assert_eq!(
        unsupported_model.warn, None,
        "warn must be suppressed (None / null) for verified empty marker variant with base fields"
    );
}

#[test]
fn model_catalog_preserves_warn_when_unverified_or_base_has_no_fields() {
    let base_empty = "Api::OneMe::Types::EmptyBase";
    let derived_unverified = "Api::OneMe::Types::UnverifiedDerived";
    let derived_empty_base = "Api::OneMe::Types::EmptyBaseDerived";

    let poly_models = vec![PolymorphicModelEntry {
        name: base_empty.to_string(),
        root_sources: vec!["protocol_field".to_string()],
        discriminator: None,
        base: PolymorphicBase { offset: Some("0x100".to_string()), fields: vec![] },
        variants: vec![
            variant(derived_unverified, None, vec![], vec![], None),
            variant(derived_empty_base, Some("0x200"), vec![], vec![], None),
        ],
        rtti_subclasses: vec![],
    }];

    let entries = vec![
        entry(base_empty, "0x100", vec![]),
        TypeDescriptorEntry {
            name: derived_unverified.to_string(),
            offset: None,
            fields: vec![],
            warn: Some("no data found".to_string()),
        },
        TypeDescriptorEntry {
            name: derived_empty_base.to_string(),
            offset: Some("0x200".to_string()),
            fields: vec![],
            warn: Some("no data found".to_string()),
        },
    ];

    let models = build_test_model_catalog(vec![], vec![], poly_models, entries);

    let unverified = models.iter().find(|m| m.name == derived_unverified).unwrap();
    assert_eq!(unverified.warn, Some("no data found".to_string()));

    let empty_base_var = models.iter().find(|m| m.name == derived_empty_base).unwrap();
    assert_eq!(empty_base_var.warn, Some("no data found".to_string()));
}

#[test]
fn model_catalog_transitively_discovers_standalone_models_referenced_by_variant() {
    let base_attach = "Api::OneMe::Types::BaseAttachment";
    let video_attach = "Api::OneMe::Types::VideoAttachment";
    let video_collage = "Api::OneMe::Types::VideoCollage";

    let poly_models = vec![PolymorphicModelEntry {
        name: base_attach.to_string(),
        root_sources: vec!["protocol_field".to_string()],
        discriminator: None,
        base: PolymorphicBase { offset: Some("0x100".to_string()), fields: vec![field("_type", "std::string")] },
        variants: vec![variant(
            video_attach,
            Some("0x200"),
            vec![field("collage", video_collage)],
            vec![field("_type", "std::string"), field("collage", video_collage)],
            None,
        )],
        rtti_subclasses: vec![],
    }];

    let entries = vec![
        entry(base_attach, "0x100", vec![field("_type", "std::string")]),
        entry(video_attach, "0x200", vec![field("collage", video_collage)]),
        entry(
            video_collage,
            "0x300",
            vec![
                field("url", "std::string"),
                field("frequency", "int32_t"),
                field("height", "int32_t"),
                field("width", "int32_t"),
                field("count", "int32_t"),
            ],
        ),
    ];

    let models = build_test_model_catalog(vec![], vec![], poly_models, entries);
    let vc_model = models
        .iter()
        .find(|m| m.name == video_collage)
        .expect("VideoCollage must be transitively discovered via VideoAttachment variant fields");

    let vc_fields: Vec<&str> = vc_model.fields.iter().map(|f| f.name.as_str()).collect();
    assert_eq!(vc_fields, vec!["url", "frequency", "height", "width", "count"]);
}

#[test]
fn model_catalog_preserves_standalone_models_referenced_by_packets_and_events() {
    let packet_req = "Api::OneMe::Packets::Msg::Send::Request";
    let packet_resp = "Api::OneMe::Packets::Msg::Send::Response";
    let msg_model = "Api::OneMe::Types::Message";
    let contact_model = "Api::OneMe::Types::Contact";
    let event_req = "Api::OneMe::Events::Notify::Request";

    let packet = PacketEntry {
        opcode: 1,
        request: entry(packet_req, "0x10", vec![field("msg", msg_model)]),
        response: entry(packet_resp, "0x20", vec![]),
    };

    let event = event_with_request(2, entry(event_req, "0x30", vec![field("contact", contact_model)]));

    let entries = vec![
        entry(packet_req, "0x10", vec![field("msg", msg_model)]),
        entry(packet_resp, "0x20", vec![]),
        entry(event_req, "0x30", vec![field("contact", contact_model)]),
        entry(msg_model, "0x100", vec![field("text", "std::string")]),
        entry(contact_model, "0x200", vec![field("userId", "int64_t")]),
    ];

    let models = build_test_model_catalog(vec![packet], vec![event], vec![], entries);
    let model_names: Vec<&str> = models.iter().map(|m| m.name.as_str()).collect();

    assert!(model_names.contains(&msg_model), "Message model referenced by Packet must be in models");
    assert!(model_names.contains(&contact_model), "Contact model referenced by Event must be in models");
    assert!(!model_names.contains(&packet_req), "Packet request must not be treated as standalone model in models");
    assert!(!model_names.contains(&event_req), "Event request must not be treated as standalone model in models");
}

#[test]
fn test_model_catalog_filtering_and_variant_local_fields() {
    let base_attach = "Api::OneMe::Types::BaseAttachment";
    let photo_attach = "Api::OneMe::Types::PhotoAttachment";
    let video_attach = "Api::OneMe::Types::VideoAttachment";
    let unsupported = "Api::OneMe::Types::UnsupportedAttachment";
    let video_collage = "Api::OneMe::Types::VideoCollage";
    let event_params = "Api::OneMe::Types::Log::EventParams";
    let call_params = "Api::OneMe::Types::Log::CallEventParams";
    let unknown_params = "Api::OneMe::Types::Log::UnknownContactInteractionParams";
    let ab_status = "Api::OneMe::Types::Log::AbStatusParams";
    let banner_params = "Api::OneMe::Types::Log::BannerParams";

    let base_fields = || vec![field("_type", "std::string"), field("deleted", "std::optional<bool>")];
    let photo_fields =
        || vec![field("photoId", "int64_t"), field("baseUrl", "std::string"), field("width", "int32_t"), field("height", "int32_t")];

    let poly_models = vec![
        PolymorphicModelEntry {
            name: base_attach.to_string(),
            root_sources: vec!["protocol_field".to_string()],
            discriminator: type_discriminator(),
            base: PolymorphicBase { offset: Some("0x100".to_string()), fields: base_fields() },
            variants: vec![
                variant(photo_attach, Some("0x200"), photo_fields(), [base_fields(), photo_fields()].concat(), Some("PHOTO")),
                variant(
                    video_attach,
                    Some("0x210"),
                    vec![field("collage", video_collage)],
                    [base_fields(), vec![field("collage", video_collage)]].concat(),
                    Some("VIDEO"),
                ),
                variant(unsupported, Some("0x531d90"), vec![], base_fields(), Some("UNSUPPORTED")),
            ],
            rtti_subclasses: vec![],
        },
        PolymorphicModelEntry {
            name: event_params.to_string(),
            root_sources: vec!["protocol_field".to_string(), "rtti_heuristic".to_string()],
            discriminator: None,
            base: PolymorphicBase { offset: Some("0x300".to_string()), fields: vec![field("common", "std::string")] },
            variants: vec![variant(
                call_params,
                Some("0x400"),
                vec![field("callDuration", "int64_t")],
                vec![field("common", "std::string"), field("callDuration", "int64_t")],
                None,
            )],
            rtti_subclasses: vec![],
        },
        PolymorphicModelEntry {
            name: unknown_params.to_string(),
            root_sources: vec!["rtti_heuristic".to_string()],
            discriminator: None,
            base: PolymorphicBase { offset: Some("0x500".to_string()), fields: vec![] },
            variants: vec![],
            rtti_subclasses: vec![
                variant(ab_status, Some("0x510"), vec![], vec![], None),
                variant(banner_params, Some("0x520"), vec![], vec![], None),
            ],
        },
    ];

    let no_data = |name: &str, offset: &str| TypeDescriptorEntry {
        name: name.to_string(),
        offset: Some(offset.to_string()),
        fields: vec![],
        warn: Some("no data found".to_string()),
    };
    let entries = vec![
        entry(base_attach, "0x100", base_fields()),
        entry(photo_attach, "0x200", photo_fields()),
        entry(video_attach, "0x210", vec![field("collage", video_collage)]),
        no_data(unsupported, "0x531d90"),
        entry(
            video_collage,
            "0x220",
            vec![
                field("url", "std::string"),
                field("frequency", "int32_t"),
                field("height", "int32_t"),
                field("width", "int32_t"),
                field("count", "int32_t"),
            ],
        ),
        entry(event_params, "0x300", vec![field("common", "std::string")]),
        entry(call_params, "0x400", vec![field("callDuration", "int64_t")]),
        no_data(unknown_params, "0x500"),
        no_data(ab_status, "0x510"),
        no_data(banner_params, "0x520"),
    ];

    let models = build_test_model_catalog(vec![], vec![], poly_models, entries);
    let model_names: Vec<&str> = models.iter().map(|m| m.name.as_str()).collect();

    assert!(model_names.contains(&photo_attach));
    assert!(model_names.contains(&video_attach));
    assert!(model_names.contains(&call_params));
    assert!(model_names.contains(&unsupported));

    assert!(!model_names.contains(&ab_status), "AbStatusParams must be excluded from models");
    assert!(!model_names.contains(&banner_params), "BannerParams must be excluded from models");
    assert!(
        !model_names.contains(&unknown_params),
        "UnknownContactInteractionParams without protocol usage must be excluded from models"
    );

    let photo = models.iter().find(|m| m.name == photo_attach).unwrap();
    let photo_field_names: Vec<&str> = photo.fields.iter().map(|f| f.name.as_str()).collect();
    assert_eq!(photo_field_names, vec!["photoId", "baseUrl", "width", "height"]);
    assert!(!photo_field_names.contains(&"_type"));
    assert!(!photo_field_names.contains(&"deleted"));

    let unsupp = models.iter().find(|m| m.name == unsupported).unwrap();
    assert_eq!(unsupp.offset.as_deref(), Some("0x531d90"));
    assert!(unsupp.fields.is_empty());
    assert_eq!(unsupp.warn, None, "warn must be None (null in JSON) on UnsupportedAttachment");

    let vc = models.iter().find(|m| m.name == video_collage).unwrap();
    let vc_field_names: Vec<&str> = vc.fields.iter().map(|f| f.name.as_str()).collect();
    assert_eq!(vc_field_names, vec!["url", "frequency", "height", "width", "count"]);
}
