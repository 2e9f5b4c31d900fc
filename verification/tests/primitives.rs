use x12_types::bytes::{
    append_bytes, bytes_eq, copy_bytes, copy_range, find_byte, join_bytes, split_bytes,
};
use x12_types::envelope::{count_matches, set_count};
use x12_types::grammar::tag_bytes;
use x12_types::numeral::{decimal_bytes, write_decimal};
use x12_types::segment::{Field, Segment};

fn pieces(parts: &[&str]) -> Vec<Vec<u8>> {
    parts.iter().map(|p| p.as_bytes().to_vec()).collect()
}

#[test]
fn splitting_gives_one_piece_more_than_separators() {
    assert_eq!(split_bytes(b"", b'*'), pieces(&[""]));
    assert_eq!(split_bytes(b"N1", b'*'), pieces(&["N1"]));
    assert_eq!(split_bytes(b"a**b", b'*'), pieces(&["a", "", "b"]));
    assert_eq!(split_bytes(b"*", b'*'), pieces(&["", ""]));
    assert_eq!(split_bytes(b"*a*", b'*'), pieces(&["", "a", ""]));
}

#[test]
fn joining_puts_the_separator_between_neighbours() {
    let mut out = b">".to_vec();
    join_bytes(&mut out, &pieces(&["a", "", "b"]), b'*');
    assert_eq!(out, b">a**b");
    let mut out = Vec::new();
    join_bytes(&mut out, &pieces(&[]), b'*');
    assert_eq!(out, b"");
    let mut out = Vec::new();
    join_bytes(&mut out, &pieces(&["only"]), b'*');
    assert_eq!(out, b"only");
}

#[test]
fn joining_undoes_splitting() {
    for text in [&b""[..], b"N1*SH*ACME", b"***", b"no separator", b"*x"] {
        let mut out = Vec::new();
        join_bytes(&mut out, &split_bytes(text, b'*'), b'*');
        assert_eq!(out, text);
    }
}

#[test]
fn first_occurrence_is_found_from_a_position() {
    assert_eq!(find_byte(b"ab~cd~", 0, b'~'), 2);
    assert_eq!(find_byte(b"ab~cd~", 2, b'~'), 2);
    assert_eq!(find_byte(b"ab~cd~", 3, b'~'), 5);
    assert_eq!(find_byte(b"ab~cd~", 6, b'~'), 6);
    assert_eq!(find_byte(b"abcd", 1, b'~'), 4);
}

#[test]
fn bytes_are_compared_copied_and_appended() {
    assert!(bytes_eq(b"N1", b"N1"));
    assert!(!bytes_eq(b"N1", b"N2"));
    assert!(!bytes_eq(b"N1", b"N1A"));
    assert!(bytes_eq(b"", b""));
    assert_eq!(copy_bytes(b"GS"), b"GS");
    assert_eq!(copy_range(b"ISA*00*", 4, 6), b"00");
    assert_eq!(copy_range(b"ISA*00*", 3, 3), b"");
    let mut out = b"GS".to_vec();
    append_bytes(&mut out, b"*QO");
    assert_eq!(out, b"GS*QO");
    assert_eq!(tag_bytes("N7A"), b"N7A");
}

#[test]
fn numerals_have_no_leading_zero() {
    assert_eq!(decimal_bytes(0), b"0");
    assert_eq!(decimal_bytes(7), b"7");
    assert_eq!(decimal_bytes(10), b"10");
    assert_eq!(decimal_bytes(909), b"909");
    assert_eq!(decimal_bytes(123456789), b"123456789");
    assert_eq!(
        decimal_bytes(usize::MAX),
        usize::MAX.to_string().into_bytes()
    );
    let mut out = b"GE*".to_vec();
    write_decimal(&mut out, 42);
    assert_eq!(out, b"GE*42");
}

#[test]
fn count_is_the_first_field_as_a_numeral() {
    let trailer = |fields: Vec<Field>| Segment { tag: b"GE".to_vec(), fields };
    let one = trailer(vec![Field::Scalar(b"1".to_vec()), Field::Scalar(b"77".to_vec())]);
    assert!(count_matches(&one, 1));
    assert!(!count_matches(&one, 2));
    assert!(!count_matches(&one, 77));
    assert!(!count_matches(&trailer(vec![]), 0));
    assert!(!count_matches(&trailer(vec![Field::Absent]), 0));
    assert!(!count_matches(&trailer(vec![Field::Scalar(b"01".to_vec())]), 1));
    assert!(!count_matches(&trailer(vec![Field::Scalar(b"one".to_vec())]), 1));
    assert!(!count_matches(
        &trailer(vec![Field::Composite(vec![b"1".to_vec(), b"".to_vec()])]),
        1
    ));
}

#[test]
fn setting_the_count_replaces_the_first_field_only() {
    let trailer = |fields: Vec<Field>| Segment { tag: b"GE".to_vec(), fields };
    let counted = set_count(
        &trailer(vec![Field::Scalar(b"9".to_vec()), Field::Scalar(b"77".to_vec())]),
        12,
    );
    assert_eq!(
        counted,
        trailer(vec![Field::Scalar(b"12".to_vec()), Field::Scalar(b"77".to_vec())])
    );
    assert_eq!(
        set_count(&trailer(vec![]), 3),
        trailer(vec![Field::Scalar(b"3".to_vec())])
    );
    assert_eq!(
        set_count(&trailer(vec![Field::Absent]), 0),
        trailer(vec![Field::Scalar(b"0".to_vec())])
    );
    assert!(count_matches(&counted, 12));
}
