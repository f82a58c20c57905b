use dumper_rust::rtti::{demangle_type_name, is_demangle_safe};
use dumper_rust::rtti::extract_smember_metadata;
use dumper_rust::type_parser::decompose_type;

fn serializable_member_rtti(value_type: &str, owner_type: &str) -> String {
    format!(
        "class Serialization::SerializableMember<{value_type},class Serialization::Msgpack::SerializedType,class std::basic_string_view<char,struct std::char_traits<char> >,{owner_type}>::`RTTI Type Descriptor'"
    )
}

#[test]
fn test_extract_smember_metadata_preserves_owner_for_supported_value_shapes() {
    let owner = "struct Api::OneMe::Types::OwnerModel";
    let cases = [
        ("normal", "int", "int32_t", Some("int32_t"), false, false, false, None, None, None),
        (
            "optional",
            "class std::optional<struct Api::OneMe::Types::Contact>",
            "std::optional<Api::OneMe::Types::Contact>",
            Some("Api::OneMe::Types::Contact"),
            true,
            false,
            false,
            None,
            None,
            None,
        ),
        (
            "vector",
            "class std::vector<struct Api::OneMe::Types::Contact,class std::allocator<struct Api::OneMe::Types::Contact> >",
            "std::vector<Api::OneMe::Types::Contact>",
            Some("Api::OneMe::Types::Contact"),
            false,
            true,
            false,
            None,
            None,
            None,
        ),
        (
            "map",
            "class std::unordered_map<class std::basic_string<char,struct std::char_traits<char>,class std::allocator<char> >,unsigned __int64>",
            "std::unordered_map<std::string, uint64_t>",
            None,
            false,
            false,
            true,
            Some("std::string"),
            Some("uint64_t"),
            None,
        ),
        (
            "polymorphic",
            "class Api::OneMe::Types::Polymorphic<struct Api::OneMe::Types::BaseAttachment>",
            "Api::OneMe::Types::Polymorphic<Api::OneMe::Types::BaseAttachment>",
            Some("Api::OneMe::Types::BaseAttachment"),
            false,
            false,
            false,
            None,
            None,
            Some("Api::OneMe::Types::BaseAttachment"),
        ),
    ];

    for (
        case_name,
        value_type,
        expected_full,
        expected_name,
        optional,
        array,
        map,
        map_key,
        map_value,
        polymorphic_base,
    ) in cases
    {
        let demangled = serializable_member_rtti(value_type, owner);
        let metadata = extract_smember_metadata(&demangled, "")
            .unwrap_or_else(|| panic!("{case_name}: expected SerializableMember metadata"));
        assert_eq!(
            metadata.owner_type.as_deref(),
            Some("Api::OneMe::Types::OwnerModel"),
            "{case_name}: owner type"
        );

        let decomposed = decompose_type(&metadata.value_type);
        assert_eq!(
            decomposed.full, expected_full,
            "{case_name}: normalized full type"
        );
        assert_eq!(
            decomposed.name.as_deref(),
            expected_name,
            "{case_name}: extracted name"
        );
        assert_eq!(decomposed.optional, optional, "{case_name}: optional flag");
        assert_eq!(decomposed.array, array, "{case_name}: array flag");
        assert_eq!(decomposed.map, map, "{case_name}: map flag");
        assert_eq!(
            decomposed.map_key.as_deref(),
            map_key,
            "{case_name}: map key"
        );
        assert_eq!(
            decomposed.map_value.as_deref(),
            map_value,
            "{case_name}: map value"
        );
        assert_eq!(
            decomposed.polymorphic_base.as_deref(),
            polymorphic_base,
            "{case_name}: polymorphic base"
        );
    }
}

#[test]
fn demangle_safety_admits_ordinary_type_descriptors() {
    assert!(is_demangle_safe("??_R0?AVName@Space@@@8"));
    assert!(is_demangle_safe(
        "??_R0?AV?$SerializableMember@HVSerializedType@Msgpack@Serialization@@@Serialization@@@8"
    ));
}

#[test]
fn demangle_safety_refuses_inputs_the_demangler_cannot_take() {
    // a run of eight hex digits (a number that can reach i32::MIN)
    assert!(!is_demangle_safe("??_R0?$?IAAAAAAA@@8"));
    assert!(!is_demangle_safe("??_R0?AVABCDEFGH@@@8"));
    // a byte escape below 'A'
    assert!(!is_demangle_safe("??_C@_0BB@?$0A@"));
    // a thread-safe static guard
    assert!(!is_demangle_safe("??_R0?$TSS0123456789012@@8"));
    // too long
    let long = format!("??_R0?AV{}@@@8", "a".repeat(1100));
    assert!(!is_demangle_safe(&long));
    // not ASCII
    assert!(!is_demangle_safe("??_R0?AVé@@@8"));
}

#[test]
fn deeply_nested_type_names_are_demangled_without_overflowing() {
    // the deepest pointer nesting the length bound admits
    let mangled = format!(".{}H", "QEB".repeat(338));
    let r = demangle_type_name(&mangled);
    assert!(!r.is_empty());
}

#[test]
fn names_refused_by_the_safety_test_fall_back_to_their_components() {
    assert_eq!(demangle_type_name(".?AVABCDEFGH@Space@@"), "Space::ABCDEFGH");
}

#[test]
fn long_uppercase_names_not_ending_a_number_are_demangled() {
    assert!(is_demangle_safe("??_R0?AVABCDEFGHXY@@@8"));
    assert!(!is_demangle_safe("??_R0?AVABCDEFGHIJKLMNOP@@@8"));
}
