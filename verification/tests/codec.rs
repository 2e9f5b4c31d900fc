use x12_types::codec::{encode, field_fits, fits, Directory, ElementShape, SegmentShape};
use x12_types::error::{ErrorKind, ParseError};
use x12_types::segment::{Field, Segment};
use x12_types::v004010::sets::{TransactionSet, _315};
use x12_types::v004010::Transmission;

fn scalar(text: &str) -> Field {
    Field::Scalar(text.as_bytes().to_vec())
}

fn segment(tag: &str, fields: Vec<Field>) -> Segment {
    Segment { tag: tag.as_bytes().to_vec(), fields }
}

fn shape(tag: &str, elements: &[(bool, usize, usize)]) -> SegmentShape {
    SegmentShape {
        tag: tag.as_bytes().to_vec(),
        elements: elements
            .iter()
            .map(|&(mandatory, min_len, max_len)| ElementShape { mandatory, min_len, max_len })
            .collect(),
    }
}

fn directory() -> Directory {
    let mut dir = Directory::new();
    dir.push(shape("ST", &[(true, 3, 3), (true, 4, 9)]));
    dir.push(shape("N9", &[(true, 2, 3), (false, 1, 30), (false, 1, 45)]));
    dir.push(shape("ST", &[(true, 1, 1)]));
    dir
}

const DOCUMENT: &str = "ISA*00*          *00*          *ZZ*SOURCE         *ZZ*TARGET         *220524*1120*U*00401*000000001*0*P*>~GS*QO~ST*315*00001~B4~N9*BM*REF~SE*4*00001~GE*1*1~IEA*1*1~";

#[test]
fn field_has_its_shape_by_presence_and_length() {
    let mandatory = ElementShape { mandatory: true, min_len: 2, max_len: 3 };
    let optional = ElementShape { mandatory: false, min_len: 2, max_len: 3 };
    assert!(!field_fits(&Field::Absent, &mandatory));
    assert!(field_fits(&Field::Absent, &optional));
    assert!(!field_fits(&scalar("A"), &optional));
    assert!(field_fits(&scalar("AB"), &optional));
    assert!(field_fits(&scalar("ABC"), &mandatory));
    assert!(!field_fits(&scalar("ABCD"), &mandatory));
    assert!(field_fits(&Field::Composite(vec![b"A".to_vec(), b"BCDEFG".to_vec()]), &mandatory));
}

#[test]
fn segment_fits_when_every_declared_field_does() {
    let st = shape("ST", &[(true, 3, 3), (true, 4, 9)]);
    assert!(fits(&segment("ST", vec![scalar("315"), scalar("00001")]), &st));
    assert!(!fits(&segment("ST", vec![scalar("315")]), &st));
    assert!(!fits(&segment("ST", vec![]), &st));
    assert!(!fits(&segment("ST", vec![scalar("31"), scalar("00001")]), &st));
    assert!(!fits(&segment("ST", vec![scalar("315"), Field::Absent]), &st));
    assert!(!fits(&segment("ST", vec![scalar("315"), scalar("0123456789")]), &st));
    assert!(fits(&segment("ST", vec![]), &shape("ST", &[])));
    assert!(fits(&segment("ST", vec![]), &shape("ST", &[(false, 1, 1), (false, 1, 1)])));
}

#[test]
fn fields_behind_the_declared_ones_are_kept() {
    let dir = directory();
    let fields = vec![scalar("315"), scalar("00001"), scalar("LATER"), Field::Absent];
    let decoded = dir.decode(b"ST".to_vec(), fields.clone()).unwrap();
    assert_eq!(decoded, segment("ST", fields.clone()));
    assert_eq!(encode(decoded), (b"ST".to_vec(), fields));
}

#[test]
fn absent_mandatory_field_and_wrong_length_are_malformed() {
    let dir = directory();
    assert_eq!(
        dir.decode(b"ST".to_vec(), vec![scalar("315")]),
        Err(ErrorKind::MalformedSegment)
    );
    assert_eq!(
        dir.decode(b"N9".to_vec(), vec![Field::Absent, scalar("REF")]),
        Err(ErrorKind::MalformedSegment)
    );
    assert_eq!(
        dir.decode(b"N9".to_vec(), vec![scalar("LONG"), scalar("REF")]),
        Err(ErrorKind::MalformedSegment)
    );
    assert!(dir.decode(b"N9".to_vec(), vec![scalar("BM")]).is_ok());
}

#[test]
fn first_definition_of_a_tag_applies_and_other_tags_are_free() {
    let dir = directory();
    assert!(dir.admits(&segment("ST", vec![scalar("315"), scalar("00001")])));
    assert!(!dir.admits(&segment("ST", vec![scalar("3")])));
    assert!(dir.admits(&segment("B4", vec![])));
    assert!(dir.admits(&segment("STX", vec![])));
    assert!(Directory::new().admits(&segment("ST", vec![])));
}

#[test]
fn first_segment_that_is_not_admitted_is_found() {
    let dir = directory();
    let good = segment("ST", vec![scalar("315"), scalar("00001")]);
    let bad = segment("N9", vec![]);
    assert_eq!(dir.check(&vec![]), None);
    assert_eq!(dir.check(&vec![good.clone(), good.clone()]), None);
    assert_eq!(dir.check(&vec![good.clone(), bad.clone(), bad.clone()]), Some(1));
    assert_eq!(dir.check(&vec![bad, good]), Some(0));
}

#[test]
fn document_is_parsed_under_a_directory() {
    let dir = directory();
    let plain = Transmission::parse(DOCUMENT.as_bytes(), &_315::grammar()).unwrap();
    let checked = Transmission::parse_with(DOCUMENT.as_bytes(), &_315::grammar(), &dir).unwrap();
    assert_eq!(checked, plain);
    let written = checked.serialize();
    assert_eq!(Transmission::parse_with(&written, &_315::grammar(), &dir).unwrap(), plain);
}

#[test]
fn segment_of_the_wrong_shape_is_malformed_at_its_position() {
    let dir = directory();
    let text = DOCUMENT.replace("ST*315*00001~", "ST*315~");
    assert!(Transmission::parse(text.as_bytes(), &_315::grammar()).is_ok());
    assert_eq!(
        Transmission::parse_with(text.as_bytes(), &_315::grammar(), &dir),
        Err(ParseError { kind: ErrorKind::MalformedSegment, offset: 1 })
    );
    let text = DOCUMENT.replace("N9*BM*REF~", "N9**REF~");
    assert_eq!(
        Transmission::parse_with(text.as_bytes(), &_315::grammar(), &dir),
        Err(ParseError { kind: ErrorKind::MalformedSegment, offset: 3 })
    );
}

#[test]
fn shape_is_checked_before_structure() {
    let dir = directory();
    let text = DOCUMENT.replace("B4~", "").replace("N9*BM*REF~", "N9~");
    assert_eq!(
        Transmission::parse(text.as_bytes(), &_315::grammar()),
        Err(ParseError { kind: ErrorKind::MissingMandatorySegment, offset: 2 })
    );
    assert_eq!(
        Transmission::parse_with(text.as_bytes(), &_315::grammar(), &dir),
        Err(ParseError { kind: ErrorKind::MalformedSegment, offset: 2 })
    );
}
