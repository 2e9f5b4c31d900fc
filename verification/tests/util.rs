use x12_types::header::Isa;
use x12_types::segment::{Field, Segment};
use x12_types::util::is_equal_payload;
use x12_types::v004010::{FunctionalGroup, Transmission};

fn segment(tag: &str, fields: &[&str]) -> Segment {
    Segment {
        tag: tag.as_bytes().to_vec(),
        fields: fields.iter().map(|f| Field::Scalar(f.as_bytes().to_vec())).collect(),
    }
}

fn group(control: &str, sets: Vec<u32>) -> FunctionalGroup<u32> {
    FunctionalGroup {
        gs: segment("GS", &["QO", control]),
        segments: sets,
        ge: segment("GE", &["1", control]),
    }
}

fn interchange(sender: &str, groups: Vec<FunctionalGroup<u32>>) -> Transmission<u32> {
    Transmission {
        isa: Isa {
            elements: vec![sender.as_bytes().to_vec()],
            element_separator: b'*',
            segment_terminator: b'~',
        },
        functional_group: groups,
        iea: segment("IEA", &["1", sender]),
    }
}

#[test]
fn payloads_are_equal_whatever_the_envelope() {
    let a = interchange("A", vec![group("1", vec![315, 310])]);
    let b = interchange("B", vec![group("1", vec![315, 310])]);
    assert!(is_equal_payload(&a, &b));
    assert_ne!(a, b);
}

#[test]
fn payloads_differ_by_set_header_or_trailer() {
    let a = interchange("A", vec![group("1", vec![315, 310])]);
    assert!(!is_equal_payload(&a, &interchange("A", vec![group("1", vec![315])])));
    assert!(!is_equal_payload(&a, &interchange("A", vec![group("1", vec![315, 311])])));
    assert!(!is_equal_payload(&a, &interchange("A", vec![group("2", vec![315, 310])])));
}

#[test]
fn every_group_is_held_against_the_first_group_of_the_other() {
    let twice = interchange("A", vec![group("1", vec![315]), group("1", vec![315])]);
    let once = interchange("A", vec![group("1", vec![315]), group("9", vec![0])]);
    assert!(is_equal_payload(&twice, &once));
    assert!(!is_equal_payload(&once, &twice));
}

#[test]
fn interchange_without_groups_equals_any_other() {
    let none = interchange("A", vec![]);
    assert!(is_equal_payload(&none, &interchange("B", vec![group("1", vec![315])])));
    assert!(is_equal_payload(&none, &interchange("B", vec![])));
}

#[test]
fn groups_compare_field_by_field() {
    assert_eq!(group("1", vec![315]), group("1", vec![315]));
    assert_ne!(group("1", vec![315]), group("1", vec![310]));
    assert_ne!(group("1", vec![315]), group("2", vec![315]));
}
