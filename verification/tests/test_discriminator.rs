use dumper_rust::discriminator::{
    diagnostics_from_scan, evidence_from_factory_facts, is_scream_case_discriminator_value,
    values_from_evidence, FactoryDiscriminatorFacts,
};
use dumper_rust::names::{NameMap, NameSet};

fn name_set(values: &[&str]) -> NameSet {
    let mut set = NameSet::new();
    for value in values {
        set.insert(value.to_string());
    }
    set
}

fn facts(function_rva: u32, constructed_variants: &[&str], type_assignments: &[&str]) -> FactoryDiscriminatorFacts {
    let mut direct_type_assignments = NameMap::new();
    if constructed_variants.len() == 1 && type_assignments.len() == 1 {
        direct_type_assignments.set(constructed_variants[0].to_string(), name_set(&[type_assignments[0]]));
    }
    FactoryDiscriminatorFacts {
        function_rva,
        constructed_variants: name_set(constructed_variants),
        type_assignments: name_set(type_assignments),
        direct_type_assignments,
        ambiguous_type_assignment: false,
    }
}

#[test]
fn direct_factory_evidence_maps_variant_to_discriminator_value() {
    let photo = "Api::OneMe::Types::PhotoAttachment";
    let evidence = evidence_from_factory_facts(&vec![facts(0x1000, &[photo], &["PHOTO"])]);
    let values = values_from_evidence(&evidence);

    assert_eq!(values.get(photo).map(String::as_str), Some("PHOTO"));
}

#[test]
fn ambiguous_factory_evidence_is_not_emitted() {
    let photo = "Api::OneMe::Types::PhotoAttachment";
    let video = "Api::OneMe::Types::VideoAttachment";
    assert!(evidence_from_factory_facts(&vec![facts(0x1000, &[photo, video], &["PHOTO"])]).is_empty());
    assert!(evidence_from_factory_facts(&vec![facts(0x1000, &[photo], &["PHOTO", "VIDEO"])]).is_empty());

    let mut ambiguous = facts(0x1000, &[photo], &["PHOTO"]);
    ambiguous.ambiguous_type_assignment = true;
    assert!(evidence_from_factory_facts(&vec![ambiguous]).is_empty());
}

#[test]
fn missing_factory_evidence_is_not_emitted() {
    let photo = "Api::OneMe::Types::PhotoAttachment";

    assert!(evidence_from_factory_facts(&vec![facts(0x1000, &[photo], &[])]).is_empty());
    assert!(evidence_from_factory_facts(&vec![facts(0x1000, &[], &["PHOTO"])]).is_empty());
}

#[test]
fn conflicting_values_for_same_variant_are_omitted() {
    let photo = "Api::OneMe::Types::PhotoAttachment";
    let evidence = evidence_from_factory_facts(&vec![
        facts(0x1000, &[photo], &["PHOTO"]),
        facts(0x2000, &[photo], &["VIDEO"]),
    ]);
    let values = values_from_evidence(&evidence);

    assert!(!values.contains_key(photo));
}

#[test]
fn diagnostics_report_evidence_and_extraction_misses() {
    let photo = "Api::OneMe::Types::PhotoAttachment";
    let video = "Api::OneMe::Types::VideoAttachment";
    let candidate_variants = name_set(&[photo, video]);
    let facts = vec![facts(0x1000, &[photo], &["PHOTO"]), facts(0x2000, &[video], &[])];
    let evidence = evidence_from_factory_facts(&facts);
    let values = values_from_evidence(&evidence);

    let diagnostics = diagnostics_from_scan(&candidate_variants, &facts, &evidence, &values);

    assert_eq!(diagnostics.evidence.len(), 1);
    assert_eq!(diagnostics.evidence[0].variant_name, photo);
    assert_eq!(diagnostics.evidence[0].value, "PHOTO");
    assert!(diagnostics.misses.iter().any(|miss| {
        miss.variant_name.as_deref() == Some(video)
            && miss.function_rva.as_deref() == Some("0x2000")
            && miss.reason == "no _type assignment observed"
    }));
}

#[test]
fn diagnostics_report_conflicting_discriminator_values_as_miss() {
    let photo = "Api::OneMe::Types::PhotoAttachment";
    let candidate_variants = name_set(&[photo]);
    let evidence = evidence_from_factory_facts(&vec![
        facts(0x1000, &[photo], &["PHOTO"]),
        facts(0x2000, &[photo], &["VIDEO"]),
    ]);
    let values = values_from_evidence(&evidence);

    let diagnostics = diagnostics_from_scan(&candidate_variants, &vec![], &evidence, &values);

    assert!(diagnostics.misses.iter().any(|miss| {
        miss.variant_name.as_deref() == Some(photo)
            && miss.reason == "conflicting discriminator values: PHOTO, VIDEO"
            && miss.type_assignments == vec!["PHOTO", "VIDEO"]
    }));
}

#[test]
fn non_scream_case_values_are_not_evidence() {
    let photo = "Api::OneMe::Types::PhotoAttachment";

    assert!(evidence_from_factory_facts(&vec![facts(0x1000, &[photo], &["Photo"])]).is_empty());
    assert!(!is_scream_case_discriminator_value("_type"));
    assert!(is_scream_case_discriminator_value("VIDEO_NOTE"));
}

#[test]
fn evidence_reports_the_factory_address_in_hexadecimal() {
    let photo = "Api::OneMe::Types::PhotoAttachment";
    let candidate_variants = name_set(&[photo]);
    let facts = vec![facts(0x1a2b, &[photo], &["PHOTO"])];
    let evidence = evidence_from_factory_facts(&facts);
    let values = values_from_evidence(&evidence);
    let diagnostics = diagnostics_from_scan(&candidate_variants, &facts, &evidence, &values);
    assert_eq!(diagnostics.evidence[0].function_rva, "0x1a2b");
    assert!(diagnostics.misses.is_empty());
}
