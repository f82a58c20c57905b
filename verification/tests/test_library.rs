use dumper_rust::dumper::version_from_matches;
use dumper_rust::compact::format_compact_dump;
use dumper_rust::dumper::{
    collect_model_refs_from_field, detect_version_from_bytes, flattened_polymorphic_fields, sort_by_key,
    AppVersion, DumpResult, EntryTable, TypeDescriptorEntry, TypeEntryResolver,
};
use dumper_rust::extractor::{is_dispatch_function, is_valid_field_name, ExtractedField};
use dumper_rust::model_resolver::resolution_from_choice;
use dumper_rust::names::{NameMap, NameSet};
use dumper_rust::pe::{PeError, PeImage, RuntimeFunction, SectionInfo};
use dumper_rust::rtti::{demangle_type_name, extract_smember_type, ClassHierarchy};
use dumper_rust::scanner::{add_descriptor, descriptors_from_captures, scan_common_packets, PacketDescriptor, ScanError};
use dumper_rust::text::{decimal_string, hex_string};
use dumper_rust::type_parser::decompose_type;

fn field(name: &str, ty: &str) -> ExtractedField {
    ExtractedField { name: name.to_string(), field_type: decompose_type(ty), required: false }
}

fn image<'a>(raw: &'a [u8], name: &str, rva: u32, pdata: Vec<RuntimeFunction>) -> PeImage<'a> {
    PeImage {
        raw,
        image_base: 0x1_8000_0000,
        sections: vec![SectionInfo {
            name: name.to_string(),
            virtual_address: rva,
            virtual_size: raw.len() as u32,
            pointer_to_raw_data: 0,
            size_of_raw_data: raw.len() as u32,
        }],
        pdata,
    }
}

fn descriptor(opcode: u32, name: &str) -> PacketDescriptor {
    PacketDescriptor {
        opcode,
        request_full_name: format!("{name}::Request"),
        request_kind: "Request".to_string(),
        response_full_name: format!("{name}::Response"),
        response_kind: "Response".to_string(),
        is_special: false,
        special_name: None,
        base_kind: None,
        special_request_fields: Vec::new(),
    }
}

#[test]
fn flattened_fields_put_base_first_and_base_wins() {
    let base = vec![field("shared", "int"), field("baseOnly", "bool")];
    let local = vec![field("shared", "std::string"), field("localOnly", "std::string"), field("localOnly", "bool")];
    let all = flattened_polymorphic_fields(&base, &local);
    let names: Vec<&str> = all.iter().map(|f| f.name.as_str()).collect();
    assert_eq!(names, vec!["shared", "baseOnly", "localOnly"]);
    assert_eq!(all[0].field_type.full, "int32_t");
    assert_eq!(all[2].field_type.full, "std::string");
}

#[test]
fn sort_by_key_is_stable() {
    let sorted = sort_by_key(vec![(2u32, "x"), (1, "y"), (2, "z"), (1, "w"), (0, "v")]);
    assert_eq!(sorted, vec![(0, "v"), (1, "y"), (1, "w"), (2, "x"), (2, "z")]);
}

#[test]
fn version_is_detected_with_either_separator() {
    let v = detect_version_from_bytes(b"junk 25.11.2.6413 more").unwrap();
    assert_eq!(v, AppVersion { version: "25.11.2".to_string(), build: 6413 });
    let w = detect_version_from_bytes(b"\x00\x011.2.3:4\x00").unwrap();
    assert_eq!(w, AppVersion { version: "1.2.3".to_string(), build: 4 });
    assert_eq!(detect_version_from_bytes(b"no version here 1.2"), None);
    assert_eq!(detect_version_from_bytes(b"9.9.9.99999999999 1.0.0.7").unwrap().build, 7);
}

#[test]
fn numbers_are_written_in_hex_and_decimal() {
    assert_eq!(hex_string(0x1a2b), "0x1a2b");
    assert_eq!(hex_string(0), "0x0");
    assert_eq!(decimal_string(0), "0");
    assert_eq!(decimal_string(4294967295), "4294967295");
}

#[test]
fn hierarchy_bases_agree_with_derived_lists() {
    let mut h = ClassHierarchy::new();
    h.add_derived("Base", "A");
    h.add_derived("Other", "A");
    h.add_derived("Base", "B");
    assert!(h.is_base_of("Base", "A"));
    assert!(h.is_base_of("Base", "B"));
    assert!(!h.is_base_of("Other", "B"));
    assert_eq!(h.bases_of("A"), vec!["Base".to_string(), "Other".to_string()]);
    assert_eq!(h.bases_of("B"), vec!["Base".to_string()]);
    assert_eq!(h.derived_of("Base").unwrap(), &["A".to_string(), "B".to_string()][..]);
}

#[test]
fn entry_table_answers_known_names_and_warns_for_unknown_ones() {
    let known = TypeDescriptorEntry {
        offset: Some("0x10".to_string()),
        name: "Api::OneMe::Types::Known".to_string(),
        fields: vec![field("id", "int64_t")],
        warn: None,
    };
    let mut table = EntryTable::new(vec![known]);
    let found = table.find_type_entry("Api::OneMe::Types::Known");
    assert_eq!(found.offset.as_deref(), Some("0x10"));
    assert_eq!(found.fields.len(), 1);
    let missing = table.find_type_entry("Api::OneMe::Types::Missing");
    assert_eq!(missing.name, "Api::OneMe::Types::Missing");
    assert_eq!(missing.offset, None);
    assert!(missing.fields.is_empty());
    assert_eq!(missing.warn.as_deref(), Some("no data found"));
    let poly = table.find_type_entry("Api::OneMe::Types::Polymorphic");
    assert_eq!(poly.warn, None);
}

#[test]
fn model_references_are_found_in_field_types() {
    let mut queue = Vec::new();
    collect_model_refs_from_field(&field("contacts", "std::vector<Api::OneMe::Types::Contact>"), &mut queue);
    assert!(queue.contains(&"Api::OneMe::Types::Contact".to_string()));
    let mut none = Vec::new();
    collect_model_refs_from_field(&field("count", "int32_t"), &mut none);
    assert!(!none.iter().any(|n| n.contains("Api::OneMe")));
}

#[test]
fn names_and_maps_keep_ascending_order() {
    let mut set = NameSet::new();
    assert!(set.insert("b".to_string()));
    assert!(set.insert("a".to_string()));
    assert!(!set.insert("b".to_string()));
    assert_eq!(set.to_vec(), vec!["a".to_string(), "b".to_string()]);
    let mut map: NameMap<u32> = NameMap::new();
    map.set("z".to_string(), 1);
    map.set("m".to_string(), 2);
    map.set("z".to_string(), 3);
    assert_eq!(map.len(), 2);
    assert_eq!(map.key_at(0), "m");
    assert_eq!(map.get("z"), Some(&3));
}

#[test]
fn adding_a_descriptor_keeps_opcodes_unique_and_ascending() {
    let mut list = Vec::new();
    add_descriptor(&mut list, descriptor(5, "A"));
    add_descriptor(&mut list, descriptor(1, "B"));
    add_descriptor(&mut list, descriptor(5, "C"));
    let opcodes: Vec<u32> = list.iter().map(|d| d.opcode).collect();
    assert_eq!(opcodes, vec![1, 5]);
    assert_eq!(list[1].request_full_name, "A::Request");
}

#[test]
fn unreadable_captures_are_an_error() {
    let caps = vec![vec![Some(b"x".to_vec()), Some(b"7".to_vec()), Some(vec![0xff, 0xfe]), Some(b"R".to_vec())]];
    assert_eq!(descriptors_from_captures(&caps), Err(ScanError::UnreadableCapture));
}

#[test]
fn packets_are_scanned_from_rdata_templates() {
    let text = b"..Api::OneMe::Packets::CommonPacket<12, struct Api::OneMe::Packets::Foo::Request, struct Api::OneMe::Packets::Foo::Response>..Api::OneMe::Packets::CommonPacket<3,class Api::OneMe::Packets::Bar::Request,class Api::OneMe::Packets::Bar::Response>\0";
    let pe = image(text, ".rdata", 0x2000, Vec::new());
    let packets = scan_common_packets(&pe).unwrap();
    assert_eq!(packets.len(), 2);
    assert_eq!(packets[0].opcode, 3);
    assert_eq!(packets[1].opcode, 12);
    assert_eq!(packets[1].request_full_name, "Api::OneMe::Packets::Foo::Request");
}

#[test]
fn strings_are_read_up_to_their_terminator() {
    let data = b"Hello\0World\0";
    let pe = image(data, ".rdata", 0x3000, Vec::new());
    assert_eq!(pe.read_cstring(0x3000), Some("Hello"));
    assert_eq!(pe.read_cstring(0x3006), Some("World"));
    assert_eq!(pe.read_cstring(0x4000), None);
    assert_eq!(pe.rva_to_offset(0x3006), Some(6));
}

#[test]
fn a_large_stack_frame_marks_a_dispatch_function() {
    let big: [u8; 9] = [0xB8, 0x00, 0x20, 0x00, 0x00, 0x48, 0x29, 0xC4, 0xC3];
    let pe = image(&big, ".text", 0x1000, vec![RuntimeFunction { begin_address: 0x1000, end_address: 0x1009, unwind_info_address: 0 }]);
    assert!(is_dispatch_function(&pe, 0x1000));
    let small: [u8; 5] = [0x48, 0x83, 0xEC, 0x28, 0xC3];
    let pe2 = image(&small, ".text", 0x1000, vec![RuntimeFunction { begin_address: 0x1000, end_address: 0x1005, unwind_info_address: 0 }]);
    assert!(!is_dispatch_function(&pe2, 0x1000));
}

#[test]
fn malformed_images_are_refused() {
    let bytes = vec![0u8; 64];
    assert!(matches!(PeImage::parse(&bytes), Err(PeError::Malformed(_))));
}

#[test]
fn type_names_are_demangled_or_split() {
    assert_eq!(demangle_type_name(".?AUUpdateContent@Assets@Types@OneMe@Api@@"), "Api::OneMe::Types::Assets::UpdateContent");
    assert_eq!(demangle_type_name("abc"), "abc");
}

#[test]
fn serializable_member_types_are_read_from_their_descriptor() {
    let demangled = "class Serialization::SerializableMember<class std::optional<int>,class Serialization::Msgpack::SerializedType>::`RTTI Type Descriptor'";
    assert_eq!(extract_smember_type(demangled, "").as_deref(), Some("std::optional<int>"));
    assert_eq!(extract_smember_type("class Other<int>", ""), None);
}

#[test]
fn field_names_are_identifiers() {
    assert!(is_valid_field_name("photoId"));
    assert!(is_valid_field_name("_type"));
    assert!(!is_valid_field_name(""));
    assert!(!is_valid_field_name("has space"));
    assert!(!is_valid_field_name("9lives"));
}

#[test]
fn compact_text_of_an_empty_dump_has_every_section() {
    let dump = DumpResult {
        options: AppVersion { version: "1.0.0".to_string(), build: 7 },
        packets: vec![],
        events: vec![],
        models: vec![],
        polymorphic_models: vec![],
        string_enums: vec!["B".to_string(), "A".to_string(), "B".to_string()],
        error: vec![],
    };
    assert_eq!(
        format_compact_dump(&dump),
        "app_version: 1.0.0\nbuild_number: 7\n\nPackets\n\nEvents\n\nModels\n\nPolymorphic Models\n\nString Enums\nstring_enum A\nstring_enum B\nstring_enum B\n"
    );
}

#[test]
fn decomposed_types_are_consistent() {
    for raw in [
        "std::unordered_map<std::string, Api::OneMe::Types::Polymorphic<Api::OneMe::Types::X>>",
        "std::optional<Api::OneMe::Types::Polymorphic<struct Api::OneMe::Types::BaseAttachment>>",
        "class std::vector<struct Api::OneMe::Types::Contact,class std::allocator<struct Api::OneMe::Types::Contact> >",
        "unsigned __int64",
    ] {
        let t = decompose_type(raw);
        assert_eq!(t.polymorphic, t.polymorphic_base.is_some(), "{raw}");
        if t.polymorphic && !t.map {
            assert_eq!(t.name, t.polymorphic_base, "{raw}");
        }
        assert_eq!(t.map, t.map_key.is_some() && t.map_value.is_some(), "{raw}");
        if t.map {
            assert_eq!(t.name, None, "{raw}");
        }
    }
    assert_eq!(decompose_type("unsigned __int64").full, "uint64_t");
}

#[test]
fn compact_events_with_equal_opcodes_put_unnamed_first() {
    let event = |name: Option<&str>| dumper_rust::dumper::EventEntry {
        opcode: 4,
        kind: None,
        name: name.map(|n| n.to_string()),
        base_kind: None,
        offset: None,
        request: None,
        response: None,
        warn: None,
    };
    let dump = DumpResult {
        options: AppVersion { version: "1".to_string(), build: 0 },
        packets: vec![],
        events: vec![event(Some("B")), event(Some("A")), event(None)],
        models: vec![],
        polymorphic_models: vec![],
        string_enums: vec![],
        error: vec![],
    };
    let text = format_compact_dump(&dump);
    let events = text.split("Events\n").nth(1).unwrap().split("\nModels").next().unwrap();
    assert_eq!(events, "event opcode=4\nevent opcode=4\n  name: A\nevent opcode=4\n  name: B\n");
}

#[test]
fn chosen_initializers_give_their_address_and_warn_only_without_data() {
    let empty = resolution_from_choice("Api::OneMe::Types::X", 0x1a, vec![], false);
    assert_eq!(empty.offset.as_deref(), Some("0x1a"));
    assert_eq!(empty.warn.as_deref(), Some("no data found"));
    let marker = resolution_from_choice("Api::OneMe::Types::X", 0x1a, vec![], true);
    assert_eq!(marker.warn, None);
    let full = resolution_from_choice("Api::OneMe::Types::X", 0x1a, vec![field("id", "int")], false);
    assert_eq!(full.warn, None);
    assert_eq!(full.fields.len(), 1);
    let poly = resolution_from_choice("Api::OneMe::Types::Polymorphic", 0x2, vec![], false);
    assert_eq!(poly.warn, None);
}

#[test]
fn every_dump_describes_the_server_error_payload() {
    let pairs = dumper_rust::dumper::default_error_payload();
    let expected: Vec<(String, String)> = ["error", "localizedMessage", "message", "title"]
        .iter()
        .map(|k| (k.to_string(), "std::string".to_string()))
        .collect();
    assert_eq!(pairs, expected);
}

#[test]
fn file_offsets_map_back_to_their_rvas_when_sections_do_not_share_raw_data() {
    let raw = vec![0u8; 0x400];
    let img = PeImage {
        raw: &raw,
        image_base: 0x1_8000_0000,
        sections: vec![
            SectionInfo {
                name: ".text".to_string(),
                virtual_address: 0x1000,
                virtual_size: 0x180,
                pointer_to_raw_data: 0x100,
                size_of_raw_data: 0x100,
            },
            SectionInfo {
                name: ".rdata".to_string(),
                virtual_address: 0x3000,
                virtual_size: 0x80,
                pointer_to_raw_data: 0x200,
                size_of_raw_data: 0x200,
            },
        ],
        pdata: vec![],
    };
    for rva in [0x1000u32, 0x10ff, 0x3000, 0x3123] {
        let off = img.rva_to_offset(rva).unwrap();
        assert_eq!(img.offset_to_rva(off), Some(rva));
    }
    assert_eq!(img.rva_to_offset(0x1100), None);
}

#[test]
fn binary_search_finds_only_functions_that_hold_the_address() {
    let raw = vec![0u8; 16];
    let img = PeImage {
        raw: &raw,
        image_base: 0,
        sections: vec![],
        pdata: vec![
            RuntimeFunction { begin_address: 0x3000, end_address: 0x3010, unwind_info_address: 0 },
            RuntimeFunction { begin_address: 0x1000, end_address: 0x1010, unwind_info_address: 0 },
            RuntimeFunction { begin_address: 0x2000, end_address: 0x2010, unwind_info_address: 0 },
        ],
    };
    // an unsorted table: whatever the search finds holds the address
    for rva in [0x1004u32, 0x2004, 0x3004, 0x5000] {
        if let Some(f) = img.find_function(rva) {
            assert!(f.begin_address <= rva && rva < f.end_address);
        }
    }
    assert_eq!(img.find_function(0x2004).map(|f| f.begin_address), Some(0x2000));
}

#[test]
fn the_first_match_that_reads_as_a_version_gives_it() {
    let ms = vec![b"1.2.3.99999999999".to_vec(), b"25.3.1:789".to_vec(), b"7.7.7.7".to_vec()];
    let v = version_from_matches(&ms).unwrap();
    assert_eq!(v.version, "25.3.1");
    assert_eq!(v.build, 789);
    assert!(version_from_matches(&vec![b"1.2".to_vec()]).is_none());
}
