use dumper_rust::names::{NameMap, RvaMap};
use dumper_rust::rtti::{ClassHierarchy, RttiEngine, TypeDescriptor};
use dumper_rust::scanner::{is_likely_enum, ping_payload_fields, scan_special_packets_from_rtti};

fn synthetic_rtti_with_type(demangled_name: &str) -> RttiEngine {
    let mut type_descriptors = RvaMap::new();
    type_descriptors.insert(
        0x1000,
        TypeDescriptor { rva: 0x1000, mangled_name: String::new(), demangled_name: demangled_name.to_string() },
    );
    RttiEngine {
        type_descriptors,
        vtable_to_type: RvaMap::new(),
        type_to_vtable: NameMap::new(),
        smember_vtables: RvaMap::new(),
        smember_owners: RvaMap::new(),
        hierarchy: ClassHierarchy::default(),
    }
}

#[test]
fn special_ping_discovery_includes_interactive_payload_field() {
    let rtti = synthetic_rtti_with_type(
        "Api::OneMe::Packets::Creator<Api::OneMe::Packets::Ping, Api::OneMe::Packets::BaseEvent>",
    );

    let descriptors = scan_special_packets_from_rtti(&rtti);

    assert_eq!(descriptors.len(), 1);
    let ping = &descriptors[0];
    assert_eq!(ping.opcode, 1);
    assert_eq!(ping.request_full_name, "Api::OneMe::Packets::Ping::Payload");
    assert_eq!(ping.base_kind.as_deref(), Some("Api::OneMe::Packets::BaseEvent"));
    assert_eq!(ping.special_request_fields, ping_payload_fields());
}

#[test]
fn special_discovery_does_not_mark_unrelated_creator_as_ping() {
    let rtti = synthetic_rtti_with_type(
        "Api::OneMe::Packets::Creator<Api::OneMe::Packets::SessionInit, Api::OneMe::Packets::BasePacket>",
    );

    assert!(scan_special_packets_from_rtti(&rtti).is_empty());
}

#[test]
fn enum_tokens_need_enough_letters() {
    assert!(is_likely_enum("PHOTO_ATTACHMENT"));
    assert!(is_likely_enum("AB1"));
    assert!(!is_likely_enum("A12"));
    assert!(!is_likely_enum("12_34"));
    assert!(!is_likely_enum("TEXTXZ"));
}
