use x12_types::error::{ErrorKind, ParseError};
use x12_types::header::{copy_isa, delimiters, element_width, isa_eq, read_isa, write_isa, Isa};
use x12_types::segment::{
    copy_field, copy_segment, field_eq, read_field, read_segment, rows_eq, segment_eq,
    write_field, write_segment, Delimiters, Field, Segment,
};
use x12_types::tokenizer::{render_text, skip_breaks, tokenize_text};

const HEADER: &str = "ISA*00*          *00*          *ZZ*SOURCE         *ZZ*TARGET         *220524*1120*U*00401*000000001*0*P*>~";

fn standard() -> Delimiters {
    Delimiters { element: b'*', sub_element: b'>', terminator: b'~' }
}

fn malformed(offset: usize) -> ParseError {
    ParseError { kind: ErrorKind::MalformedSegment, offset }
}

#[test]
fn header_is_read_by_position() {
    assert_eq!(HEADER.len(), 106);
    let isa = read_isa(HEADER.as_bytes()).unwrap();
    assert_eq!(isa.elements.len(), 16);
    assert_eq!(isa.elements[0], b"00");
    assert_eq!(isa.elements[1], b"          ");
    assert_eq!(isa.elements[5], b"SOURCE         ");
    assert_eq!(isa.elements[8], b"220524");
    assert_eq!(isa.elements[12], b"000000001");
    assert_eq!(isa.elements[15], b">");
    assert_eq!(isa.element_separator, b'*');
    assert_eq!(isa.segment_terminator, b'~');
    assert_eq!(delimiters(&isa), standard());
    let mut out = Vec::new();
    write_isa(&mut out, &isa);
    assert_eq!(out, HEADER.as_bytes());
}

#[test]
fn header_elements_may_hold_any_byte() {
    let text = HEADER.replace("SOURCE         ", "SO*RCE~        ");
    let isa = read_isa(text.as_bytes()).unwrap();
    assert_eq!(isa.elements[5], b"SO*RCE~        ");
    let mut out = Vec::new();
    write_isa(&mut out, &isa);
    assert_eq!(out, text.as_bytes());
}

#[test]
fn widths_of_the_header_elements_add_up() {
    let widths: Vec<usize> = (0..16).map(element_width).collect();
    assert_eq!(widths, vec![2, 10, 2, 10, 2, 15, 2, 15, 6, 4, 1, 5, 9, 1, 1, 1]);
    assert_eq!(3 + widths.iter().map(|w| w + 1).sum::<usize>() + 1, 106);
}

#[test]
fn text_that_does_not_begin_with_the_header_misses_it() {
    let missing = ParseError { kind: ErrorKind::MissingMandatorySegment, offset: 0 };
    assert_eq!(read_isa(b""), Err(missing));
    assert_eq!(read_isa(b"IS"), Err(missing));
    assert_eq!(read_isa(b"GS*QO~"), Err(missing));
    assert_eq!(tokenize_text(b"GS*QO~"), Err(missing));
}

#[test]
fn short_header_is_malformed_at_its_end() {
    assert_eq!(read_isa(b"ISA*00*"), Err(malformed(7)));
    assert_eq!(read_isa(&HEADER.as_bytes()[..105]), Err(malformed(105)));
}

#[test]
fn header_with_a_misplaced_separator_is_malformed_there() {
    let text = HEADER.replace("*ZZ*SOURCE", "*ZZ SOURCE");
    assert_eq!(read_isa(text.as_bytes()), Err(malformed(34)));
    let text = HEADER.replace("*P*>~", "*P:>~");
    assert_eq!(read_isa(text.as_bytes()), Err(malformed(103)));
}

#[test]
fn header_without_sub_element_separator_declares_the_colon() {
    let isa = Isa { elements: vec![b"00".to_vec()], element_separator: b'|', segment_terminator: b'!' };
    assert_eq!(
        delimiters(&isa),
        Delimiters { element: b'|', sub_element: b':', terminator: b'!' }
    );
    assert_eq!(render_text(&isa, &vec![]), b"ISA|00!\n");
}

#[test]
fn body_is_cut_at_terminators_and_line_breaks_are_dropped() {
    let text = format!("{}\r\nGS*QO*A~\n\nST*315~\rSE~IEA*1~\r\n", HEADER);
    let (isa, segs) = tokenize_text(text.as_bytes()).unwrap();
    assert_eq!(isa.elements[15], b">");
    let tags: Vec<&[u8]> = segs.iter().map(|s| s.tag.as_slice()).collect();
    assert_eq!(tags, vec![&b"GS"[..], b"ST", b"SE", b"IEA"]);
    assert_eq!(segs[0].fields, vec![Field::Scalar(b"QO".to_vec()), Field::Scalar(b"A".to_vec())]);
    assert_eq!(segs[2].fields, vec![]);
    let written = render_text(&isa, &segs);
    assert_eq!(
        String::from_utf8(written).unwrap(),
        format!("{}\nGS*QO*A~\nST*315~\nSE~\nIEA*1~\n", HEADER)
    );
}

#[test]
fn header_alone_is_a_document_without_segments() {
    let (_, segs) = tokenize_text(HEADER.as_bytes()).unwrap();
    assert!(segs.is_empty());
    let text = format!("{}\n\r\n", HEADER);
    let (_, segs) = tokenize_text(text.as_bytes()).unwrap();
    assert!(segs.is_empty());
}

#[test]
fn text_without_terminator_is_malformed_where_the_segment_starts() {
    let text = format!("{}GS*QO~ST*315", HEADER);
    assert_eq!(tokenize_text(text.as_bytes()), Err(malformed(112)));
    let text = format!("{}\nGS*QO~\nST*315", HEADER);
    assert_eq!(tokenize_text(text.as_bytes()), Err(malformed(114)));
}

#[test]
fn segment_without_tag_is_malformed_where_it_starts() {
    let text = format!("{}GS*QO~~ST*315~", HEADER);
    assert_eq!(tokenize_text(text.as_bytes()), Err(malformed(112)));
    let text = format!("{}GS*QO~*315~", HEADER);
    assert_eq!(tokenize_text(text.as_bytes()), Err(malformed(112)));
}

#[test]
fn line_breaks_inside_a_segment_are_kept() {
    let text = format!("{}K1*LINE\nTWO~", HEADER);
    let (_, segs) = tokenize_text(text.as_bytes()).unwrap();
    assert_eq!(segs[0].fields, vec![Field::Scalar(b"LINE\nTWO".to_vec())]);
}

#[test]
fn fields_are_absent_scalar_or_composite() {
    assert_eq!(read_field(b"", b'>'), Field::Absent);
    assert_eq!(read_field(b"VA", b'>'), Field::Scalar(b"VA".to_vec()));
    assert_eq!(
        read_field(b"A>B", b'>'),
        Field::Composite(vec![b"A".to_vec(), b"B".to_vec()])
    );
    assert_eq!(
        read_field(b">", b'>'),
        Field::Composite(vec![b"".to_vec(), b"".to_vec()])
    );
    assert_eq!(
        read_field(b"A>>C", b'>'),
        Field::Composite(vec![b"A".to_vec(), b"".to_vec(), b"C".to_vec()])
    );
}

#[test]
fn fields_are_written_as_they_were_read() {
    for text in [&b""[..], b"VA", b"A>B", b">", b"A>>C", b">>"] {
        let mut out = b"X".to_vec();
        write_field(&mut out, &read_field(text, b'>'), b'>');
        assert_eq!(&out[1..], text);
    }
}

#[test]
fn segment_text_is_tag_and_fields() {
    let seg = read_segment(b"B4***VA*20220901**A>B", &standard());
    assert_eq!(seg.tag, b"B4");
    assert_eq!(
        seg.fields,
        vec![
            Field::Absent,
            Field::Absent,
            Field::Scalar(b"VA".to_vec()),
            Field::Scalar(b"20220901".to_vec()),
            Field::Absent,
            Field::Composite(vec![b"A".to_vec(), b"B".to_vec()]),
        ]
    );
    let mut out = Vec::new();
    write_segment(&mut out, &seg, &standard());
    assert_eq!(out, b"B4***VA*20220901**A>B");
}

#[test]
fn trailing_separators_are_trailing_absent_fields() {
    let seg = read_segment(b"N9*BM**", &standard());
    assert_eq!(
        seg.fields,
        vec![Field::Scalar(b"BM".to_vec()), Field::Absent, Field::Absent]
    );
    let mut out = Vec::new();
    write_segment(&mut out, &seg, &standard());
    assert_eq!(out, b"N9*BM**");
    let bare = read_segment(b"LE", &standard());
    assert_eq!(bare, Segment { tag: b"LE".to_vec(), fields: vec![] });
}

#[test]
fn copies_equal_what_they_were_copied_from() {
    let seg = read_segment(b"B4***VA*20220901**A>B", &standard());
    let copy = copy_segment(&seg);
    assert_eq!(copy, seg);
    assert!(segment_eq(&copy, &seg));
    for field in &seg.fields {
        assert_eq!(&copy_field(field), field);
        assert!(field_eq(&copy_field(field), field));
    }
}

#[test]
fn segments_differ_by_tag_field_count_or_field() {
    let seg = read_segment(b"N9*BM*REF", &standard());
    assert!(!segment_eq(&seg, &read_segment(b"N8*BM*REF", &standard())));
    assert!(!segment_eq(&seg, &read_segment(b"N9*BM", &standard())));
    assert!(!segment_eq(&seg, &read_segment(b"N9*BM*REG", &standard())));
    assert!(!segment_eq(&seg, &read_segment(b"N9*BM*", &standard())));
    assert!(!field_eq(&Field::Absent, &Field::Scalar(vec![])));
    assert!(!field_eq(
        &Field::Scalar(b"A".to_vec()),
        &Field::Composite(vec![b"A".to_vec()])
    ));
    assert!(rows_eq(&vec![b"A".to_vec()], &vec![b"A".to_vec()]));
    assert!(!rows_eq(&vec![b"A".to_vec()], &vec![b"A".to_vec(), b"".to_vec()]));
    assert!(!rows_eq(&vec![b"A".to_vec()], &vec![b"B".to_vec()]));
}

#[test]
fn line_breaks_are_skipped_up_to_the_next_other_byte() {
    assert_eq!(skip_breaks(b"\r\n\nGS", 0), 3);
    assert_eq!(skip_breaks(b"\r\n\nGS", 3), 3);
    assert_eq!(skip_breaks(b"GS\n", 2), 3);
    assert_eq!(skip_breaks(b"GS\n", 3), 3);
    assert_eq!(skip_breaks(b"\tGS", 0), 0);
}

#[test]
fn headers_are_compared_by_elements_and_delimiters() {
    let isa = read_isa(HEADER.as_bytes()).unwrap();
    assert!(isa_eq(&isa, &copy_isa(&isa)));
    assert_eq!(isa, isa.clone());
    let mut other = copy_isa(&isa);
    other.segment_terminator = b'!';
    assert!(!isa_eq(&isa, &other));
    let mut other = copy_isa(&isa);
    other.element_separator = b'|';
    assert!(!isa_eq(&isa, &other));
    let mut other = copy_isa(&isa);
    other.elements[12] = b"000000002".to_vec();
    assert!(!isa_eq(&isa, &other));
    assert_ne!(isa, Isa::default());
}
