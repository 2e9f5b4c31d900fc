use x12_types::engine::{LoopInstance, SlotValue};
use x12_types::error::{ErrorKind, ParseError};
use x12_types::header::Isa;
use x12_types::segment::{Field, Segment};
use x12_types::v004010::sets::{TransactionSet, _310, _315};
use x12_types::v004010::{FunctionalGroup, Transmission};

fn scalar(text: &str) -> Field {
    Field::Scalar(text.as_bytes().to_vec())
}

fn segment(tag: &str, fields: Vec<Field>) -> Segment {
    Segment { tag: tag.as_bytes().to_vec(), fields }
}

fn scalars(tag: &str, fields: &[&str]) -> Segment {
    segment(tag, fields.iter().map(|f| scalar(f)).collect())
}

fn isa() -> Isa {
    let elements = [
        "00",
        "          ",
        "00",
        "          ",
        "ZZ",
        "SOURCE         ",
        "ZZ",
        "TARGET         ",
        "220524",
        "1120",
        "U",
        "00401",
        "000000001",
        "0",
        "P",
        ">",
    ];
    Isa {
        elements: elements.iter().map(|e| e.as_bytes().to_vec()).collect(),
        element_separator: b'*',
        segment_terminator: b'~',
    }
}

fn r4(kind: &str, code: &str, name: &str, empty: Field) -> Segment {
    segment(
        "R4",
        vec![
            scalar(kind),
            scalar("UN"),
            scalar(code),
            scalar(name),
            scalar("US"),
            empty.clone(),
            empty,
            scalar("US"),
        ],
    )
}

fn n9(qualifier: &str, reference: &str) -> Segment {
    scalars("N9", &[qualifier, reference])
}

/// The 315 interchange of the tests; `empty` stands where an element is
/// given without content.
fn status_details(empty: Field) -> Transmission<LoopInstance> {
    let b4 = segment(
        "B4",
        vec![
            Field::Absent,
            Field::Absent,
            scalar("VA"),
            scalar("20220901"),
            scalar("0807"),
            empty.clone(),
            scalar("GMCU"),
            scalar("609413"),
            scalar("E"),
            empty.clone(),
            scalar("LOCKBOURNE"),
            scalar("CI"),
            scalar("7"),
        ],
    );
    let q2 = segment(
        "Q2",
        vec![
            scalar("9330141"),
            Field::Absent,
            Field::Absent,
            Field::Absent,
            Field::Absent,
            Field::Absent,
            Field::Absent,
            Field::Absent,
            scalar("202N"),
            Field::Absent,
            Field::Absent,
            scalar("L"),
            scalar("MARIM"),
        ],
    );
    let port = |segment: Segment| LoopInstance {
        slots: vec![SlotValue::One(segment), SlotValue::Many(vec![])],
    };
    let set = LoopInstance {
        slots: vec![
            SlotValue::One(scalars("ST", &["315", "00001"])),
            SlotValue::One(b4),
            SlotValue::Many(vec![
                n9("BM", "21001ASK5V9U"),
                n9("BN", "1NAN910141"),
                n9("EQ", "GMCU6094137"),
            ]),
            SlotValue::One(q2),
            SlotValue::Many(vec![]),
            SlotValue::Loops(vec![
                port(r4("L", "USMEM", "BNSF MEMPHIS RAMP", empty.clone())),
                port(r4("E", "USDAL", "BNSF ALLIANCE RAMP", empty)),
            ]),
            SlotValue::Absent,
            SlotValue::One(scalars("SE", &["9", "00001"])),
        ],
    };
    Transmission {
        isa: isa(),
        functional_group: vec![FunctionalGroup {
            gs: scalars(
                "GS",
                &["QO", "SOURCE", "TARGET", "20220524", "1600", "1", "X", "004010"],
            ),
            segments: vec![set],
            ge: scalars("GE", &["1", "1"]),
        }],
        iea: scalars("IEA", &["1", "000000001"]),
    }
}

const STATUS_DETAILS_TEXT: &str = r#"ISA*00*          *00*          *ZZ*SOURCE         *ZZ*TARGET         *220524*1120*U*00401*000000001*0*P*>~
GS*QO*SOURCE*TARGET*20220524*1600*1*X*004010~
ST*315*00001~
B4***VA*20220901*0807**GMCU*609413*E**LOCKBOURNE*CI*7~
N9*BM*21001ASK5V9U~
N9*BN*1NAN910141~
N9*EQ*GMCU6094137~
Q2*9330141********202N***L*MARIM~
R4*L*UN*USMEM*BNSF MEMPHIS RAMP*US***US~
R4*E*UN*USDAL*BNSF ALLIANCE RAMP*US***US~
SE*9*00001~
GE*1*1~
IEA*1*000000001~
"#;

#[test]
fn parse_315() {
    let x = status_details(Field::Absent);
    let str = String::from_utf8(x.serialize()).unwrap();
    println!("{}", str);
    let new_input = str.replace("\r\n", "");
    let new_input = new_input.replace("\n", "");
    let obj: Transmission<LoopInstance> =
        Transmission::parse_as(new_input.as_bytes(), b"315").unwrap();
    println!("{:?}", obj);
    assert_eq!(x, obj);
}

#[test]
fn test_315() {
    let x = status_details(Field::Scalar(vec![]));
    let serialized = String::from_utf8(x.serialize()).unwrap();
    let expected = STATUS_DETAILS_TEXT;
    assert_eq!(serialized, expected);
}

#[test]
fn test_315_defaults() {
    let x = status_details(Field::Absent);
    let serialized = String::from_utf8(x.serialize()).unwrap();
    let expected = STATUS_DETAILS_TEXT;
    assert_eq!(serialized, expected);
}

const FREIGHT_INVOICE_TEXT: &str = r#"ISA*00*          *00*          *ZZ*SOURCE         *02*TARGET         *220101*1449*U*00401*000011566*0*P*>~GS*IO*SOURCE*TARGET*20220101*1449*61716*X*004010~ST*310*35353~B3*3*IDENTIFIER123*IDENTIFIER123*MX**20220830*00****WHT*20220830*PP~B2A*00*BL~N9*BN*1XXX011114*BOOKING NUMBER~N9*BM*IDENTIFIER123*BILL OF LADING NUMBER~N9*R1*MSK-BL-1.0*INTERNAL GUIDELINE VERSION NUMBER~N9*VT*9V8896*VESSEL CALL-SIGN~V1*9786774*POLAR ECUADOR*SG*234N****L~Y2*1***45G1~N1*SH*MADERAS ARAUCO S.A.*25*940924821~N3*EL GOLF 150~N4*LAS CONDES**7550107*CL~N1*CN*ARAUCO NORTH AMERICA INC*25*100992847~N3*PERIMETER CENTER TER NE 400~N4*ATLANTA*GA*30346*US~N1*N1*GEODIS USA INC*25*12323242~N3*LACROSS RD 4995~N4*NORTH CHARLESTON*SC*29406*US~N1*CA*WHATEVER*2*WHT~N3*ESPLANADEN 50~N4*COPENHAGEN K**1098*DK~R4*L*UN*CLSVE*SAN VICENTE*CL***BI~DTM*140*20220830*003000*LT~R4*D*UN*USBAL*BALTIMORE*US***MD~DTM*140*20220101*120000*LT~R4*T*UN*PAMIT*MANZANILLO*PA~DTM*140*20220101*130000*LT~C8***WHT CODE: 4411.1400~C8***EMISION SWB.~C8***CHARGE_TYPE-BASIC FREIGHT; PAYER-SHIPPER; TERM-PREPAID;~LX*1~N7*TCNU*6849731*17007*G*3810*28690**31.32*X*S*CN*****M*K*1****45G1~M7*MLCL0008628~L0*1***17007*G*31.32*X*36*PKG**K~L5*1*1 X 40'HC 21 PACKAGES WITH 31.320 MCUB AND 16.837*2313432*Z~L5*1*NET WEIGHT . MOULDINGS OF MEDIUM DENSITY FIBERBO~L5*1*ARD ( MECHANICALLY WORKED (WITH SURFACED COVER ED~L5*1*) . REF.INT: 111111 . ALSO CONSIGNEE: ATTN: AW~L3*17007*G*******42.42*X*1*K~L1*1*3371*FR*316100****COF***P******1*NR~C3*USD~L1*2*875*FR*87900****BUA***P******1*NR~C3*USD~L1*3*29*FR*2800*******P******1*NR~C3*USD~SE*49*32353~GE*1*61916~IEA*1*000061216~"#;

#[test]
fn test_310() {
    let edi = FREIGHT_INVOICE_TEXT;
    let obj: Transmission<LoopInstance> = Transmission::parse_as(edi.as_bytes(), b"310").unwrap();
    assert_eq!(obj.functional_group.len(), 1);
    assert_eq!(obj.functional_group[0].segments.len(), 1);
    assert_eq!(obj.functional_group[0].segments[0].slots.len(), 30);
}

#[test]
fn freight_invoice_loops_are_found() {
    let obj = Transmission::parse_as(FREIGHT_INVOICE_TEXT.as_bytes(), b"310").unwrap();
    let set = &obj.functional_group[0].segments[0];
    match &set.slots[5] {
        SlotValue::Many(references) => assert_eq!(references.len(), 4),
        other => panic!("references: {:?}", other),
    }
    match &set.slots[12] {
        SlotValue::Loops(parties) => {
            assert_eq!(parties.len(), 4);
            assert_eq!(parties[0].slots[1], SlotValue::Absent);
            assert!(matches!(parties[0].slots[2], SlotValue::One(_)));
        }
        other => panic!("parties: {:?}", other),
    }
    match &set.slots[14] {
        SlotValue::Loops(ports) => assert_eq!(ports.len(), 3),
        other => panic!("ports: {:?}", other),
    }
    match &set.slots[20] {
        SlotValue::Loops(clauses) => assert_eq!(clauses.len(), 3),
        other => panic!("clauses: {:?}", other),
    }
    match &set.slots[21] {
        SlotValue::Loops(details) => {
            assert_eq!(details.len(), 1);
            match &details[0].slots[2] {
                SlotValue::Loops(items) => match &items[0].slots[1] {
                    SlotValue::Many(descriptions) => assert_eq!(descriptions.len(), 4),
                    other => panic!("descriptions: {:?}", other),
                },
                other => panic!("line items: {:?}", other),
            }
        }
        other => panic!("details: {:?}", other),
    }
    match &set.slots[24] {
        SlotValue::Loops(rates) => assert_eq!(rates.len(), 3),
        other => panic!("rates: {:?}", other),
    }
}

#[test]
fn freight_invoice_reads_back_line_by_line() {
    let obj = Transmission::parse_as(FREIGHT_INVOICE_TEXT.as_bytes(), b"310").unwrap();
    let written = String::from_utf8(obj.serialize()).unwrap();
    assert_eq!(written, FREIGHT_INVOICE_TEXT.replace("~", "~\n"));
    let again = Transmission::parse_as(written.as_bytes(), b"310").unwrap();
    assert_eq!(again, obj);
}

#[test]
fn status_details_parse_to_one_group_with_one_set() {
    let obj = Transmission::parse_as(STATUS_DETAILS_TEXT.as_bytes(), b"315").unwrap();
    assert_eq!(obj.functional_group.len(), 1);
    assert_eq!(obj.functional_group[0].segments.len(), 1);
    assert_eq!(obj, status_details(Field::Absent));
    assert_eq!(obj.serialize(), STATUS_DETAILS_TEXT.as_bytes());
}

#[test]
fn line_breaks_after_terminators_are_normalized() {
    let with_crlf = STATUS_DETAILS_TEXT.replace("\n", "\r\n\n");
    let obj = Transmission::parse_as(with_crlf.as_bytes(), b"315").unwrap();
    assert_eq!(obj.serialize(), STATUS_DETAILS_TEXT.as_bytes());
    let without = STATUS_DETAILS_TEXT.replace("\n", "");
    let obj = Transmission::parse_as(without.as_bytes(), b"315").unwrap();
    assert_eq!(obj.serialize(), STATUS_DETAILS_TEXT.as_bytes());
}

#[test]
fn interchange_count_of_two_with_one_group_is_a_mismatch() {
    let text = STATUS_DETAILS_TEXT.replace("IEA*1*", "IEA*2*");
    let r = Transmission::parse_as(text.as_bytes(), b"315");
    assert_eq!(
        r,
        Err(ParseError { kind: ErrorKind::ControlCountMismatch, offset: 11 })
    );
}

#[test]
fn group_count_that_differs_is_a_mismatch_at_the_group_trailer() {
    let text = STATUS_DETAILS_TEXT.replace("GE*1*1", "GE*3*1");
    let r = Transmission::parse_as(text.as_bytes(), b"315");
    assert_eq!(
        r,
        Err(ParseError { kind: ErrorKind::ControlCountMismatch, offset: 10 })
    );
    let text = STATUS_DETAILS_TEXT.replace("GE*1*1", "GE*01*1");
    let r = Transmission::parse_as(text.as_bytes(), b"315");
    assert_eq!(
        r,
        Err(ParseError { kind: ErrorKind::ControlCountMismatch, offset: 10 })
    );
}

#[test]
fn structure_is_checked_before_counts() {
    let text = STATUS_DETAILS_TEXT
        .replace("GE*1*1", "GE*3*1")
        .replace("IEA*1*000000001~\n", "");
    let r = Transmission::parse_as(text.as_bytes(), b"315");
    assert_eq!(
        r,
        Err(ParseError { kind: ErrorKind::MissingMandatorySegment, offset: 11 })
    );
}

#[test]
fn copies_and_defaults_of_interchanges() {
    let x = status_details(Field::Absent);
    assert_eq!(x.clone(), x);
    assert!(x.same_as(&x.clone()));
    assert!(!x.same_as(&status_details(Field::Scalar(vec![]))));
    assert_eq!(x.functional_group[0].segments[0].clone(), x.functional_group[0].segments[0]);
    let empty: Transmission<LoopInstance> = Transmission::default();
    assert!(empty.functional_group.is_empty());
    assert_eq!(empty.iea, Segment::default());
    assert_eq!(empty.serialize(), b"ISA~\n*0~\n");
    assert_eq!(LoopInstance::default().slots.len(), 0);
    assert_eq!(FunctionalGroup::<LoopInstance>::default().segments.len(), 0);
}

#[test]
fn set_type_may_be_chosen_by_type_by_name_or_by_grammar() {
    let text = STATUS_DETAILS_TEXT.as_bytes();
    let by_type = Transmission::parse_set::<_315>(text).unwrap();
    let by_name = Transmission::parse_as(text, b"315").unwrap();
    let by_grammar = Transmission::parse(text, &_315::grammar()).unwrap();
    assert_eq!(by_type, by_name);
    assert_eq!(by_type, by_grammar);
    assert_eq!(
        Transmission::parse_set::<_310>(text),
        Err(ParseError { kind: ErrorKind::MissingMandatorySegment, offset: 2 })
    );
}

#[test]
fn checked_serialization_gives_text_only_when_it_reads_back() {
    let set = _315::grammar();
    let x = status_details(Field::Absent);
    assert_eq!(x.serialize_checked(&set), Some(STATUS_DETAILS_TEXT.as_bytes().to_vec()));
    let mut miscounted = status_details(Field::Absent);
    miscounted.functional_group[0].ge = scalars("GE", &["7", "1"]);
    assert_eq!(miscounted.serialize_checked(&set), None);
    let mut with_separator = status_details(Field::Absent);
    with_separator.iea = scalars("IEA", &["1", "0000*0001"]);
    assert_eq!(with_separator.serialize_checked(&set), None);
    assert_eq!(status_details(Field::Scalar(vec![])).serialize_checked(&set), None);
    let mut out_of_order = status_details(Field::Absent);
    out_of_order.functional_group[0].segments[0].slots.swap(0, 1);
    assert_eq!(out_of_order.serialize_checked(&set), None);
    assert_eq!(x.serialize_checked(&_310::grammar()), None);
}

#[test]
fn unregistered_set_type_is_unknown() {
    let r = Transmission::parse_as(STATUS_DETAILS_TEXT.as_bytes(), b"999");
    assert_eq!(
        r,
        Err(ParseError { kind: ErrorKind::UnknownTransactionSetType, offset: 0 })
    );
}

#[test]
fn segment_after_the_interchange_trailer_is_unexpected() {
    let text = format!("{}N9*BM*LATE~\n", STATUS_DETAILS_TEXT);
    let r = Transmission::parse_as(text.as_bytes(), b"315");
    assert_eq!(
        r,
        Err(ParseError { kind: ErrorKind::UnexpectedSegment, offset: 12 })
    );
}

#[test]
fn missing_group_trailer_is_reported_where_it_is_owed() {
    let text = STATUS_DETAILS_TEXT.replace("GE*1*1~\n", "");
    let r = Transmission::parse_as(text.as_bytes(), b"315");
    assert_eq!(
        r,
        Err(ParseError { kind: ErrorKind::MissingMandatorySegment, offset: 10 })
    );
}

#[test]
fn missing_mandatory_segment_of_the_set_is_reported() {
    let text = STATUS_DETAILS_TEXT.replace("B4***VA*20220901*0807**GMCU*609413*E**LOCKBOURNE*CI*7~\n", "");
    let r = Transmission::parse_as(text.as_bytes(), b"315");
    assert_eq!(
        r,
        Err(ParseError { kind: ErrorKind::MissingMandatorySegment, offset: 2 })
    );
}

#[test]
fn group_without_transaction_set_is_rejected() {
    let text = "ISA*00*          *00*          *ZZ*SOURCE         *ZZ*TARGET         *220524*1120*U*00401*000000001*0*P*>~GS*QO~GE*0*1~IEA*1*000000001~";
    let r = Transmission::parse_as(text.as_bytes(), b"315");
    assert_eq!(
        r,
        Err(ParseError { kind: ErrorKind::MissingMandatorySegment, offset: 1 })
    );
}

#[test]
fn interchange_without_group_is_rejected() {
    let text = "ISA*00*          *00*          *ZZ*SOURCE         *ZZ*TARGET         *220524*1120*U*00401*000000001*0*P*>~IEA*0*000000001~";
    let r = Transmission::parse_as(text.as_bytes(), b"315");
    assert_eq!(
        r,
        Err(ParseError { kind: ErrorKind::MissingMandatorySegment, offset: 0 })
    );
}

#[test]
fn more_matching_segments_than_the_bound_are_rejected() {
    let mut references = String::new();
    for i in 0..31 {
        references.push_str(&format!("N9*BM*R{}~\n", i));
    }
    let text = STATUS_DETAILS_TEXT.replace("N9*BM*21001ASK5V9U~\nN9*BN*1NAN910141~\nN9*EQ*GMCU6094137~\n", &references);
    let r = Transmission::parse_as(text.as_bytes(), b"315");
    assert_eq!(
        r,
        Err(ParseError { kind: ErrorKind::RepeatBoundExceeded, offset: 33 })
    );
}

#[test]
fn two_groups_with_two_sets_each_are_counted_and_read_back() {
    let set = "ST*315*00001~B4***VA~SE*3*00001~";
    let text = format!(
        "ISA*00*          *00*          *ZZ*SOURCE         *ZZ*TARGET         *220524*1120*U*00401*000000001*0*P*>~GS*QO*A~{s}{s}GE*2*1~GS*QO*B~{s}{s}GE*2*2~IEA*2*000000001~",
        s = set
    );
    let obj = Transmission::parse_as(text.as_bytes(), b"315").unwrap();
    assert_eq!(obj.functional_group.len(), 2);
    assert_eq!(obj.functional_group[0].segments.len(), 2);
    assert_eq!(obj.functional_group[1].segments.len(), 2);
    let written = obj.serialize();
    assert_eq!(String::from_utf8(written.clone()).unwrap(), text.replace("~", "~\n"));
    assert_eq!(Transmission::parse_as(&written, b"315").unwrap(), obj);
}

#[test]
fn counts_are_computed_when_an_interchange_is_written() {
    let mut x = status_details(Field::Absent);
    x.functional_group[0].ge = scalars("GE", &["7", "1"]);
    x.iea = segment("IEA", vec![]);
    let text = String::from_utf8(x.serialize()).unwrap();
    assert!(text.contains("GE*1*1~\n"));
    assert!(text.ends_with("IEA*1~\n"));
    let obj = Transmission::parse_as(text.as_bytes(), b"315").unwrap();
    assert_eq!(obj.functional_group[0].ge, scalars("GE", &["1", "1"]));
    assert_eq!(obj.iea, scalars("IEA", &["1"]));
}

#[test]
fn other_delimiters_are_read_from_the_header() {
    let text = "ISA|00|          |00|          |ZZ|SOURCE         |ZZ|TARGET         |220524|1120|U|00401|000000001|0|P|^\nGS|QO\nST|315|00001\nB4|||VA^X^|20220901\nSE|3|00001\nGE|1|1\nIEA|1|000000001\n";
    let obj = Transmission::parse_as(text.as_bytes(), b"315").unwrap();
    assert_eq!(obj.isa.element_separator, b'|');
    assert_eq!(obj.isa.segment_terminator, b'\n');
    match &obj.functional_group[0].segments[0].slots[1] {
        SlotValue::One(b4) => {
            assert_eq!(
                b4.fields[2],
                Field::Composite(vec![b"VA".to_vec(), b"X".to_vec(), b"".to_vec()])
            );
            assert_eq!(b4.fields[0], Field::Absent);
        }
        other => panic!("B4: {:?}", other),
    }
    let written = String::from_utf8(obj.serialize()).unwrap();
    assert_eq!(written, text.replace("\n", "\n\n"));
    assert_eq!(Transmission::parse_as(written.as_bytes(), b"315").unwrap(), obj);
}

#[test]
fn shipment_of_fixed_shape_parses_as_301() {
    let text = "ISA*00*          *00*          *ZZ*SOURCE         *ZZ*TARGET         *220524*1120*U*00401*000000001*0*P*>~GS*RO~ST*301*1~B1*A~Y3*B~Y4*C~N9*D~N1*E~N3*F~N4*G~R4*H~R4*I~DTM*J~R4*K~LX*1~L0*1~L5*1~V1*L~SE*17*1~GE*1*1~IEA*1*1~";
    let obj = Transmission::parse_as(text.as_bytes(), b"301").unwrap();
    assert_eq!(obj.functional_group[0].segments[0].slots.len(), 17);
    let swapped = text.replace("R4*I~DTM*J~", "DTM*J~R4*I~");
    let r = Transmission::parse_as(swapped.as_bytes(), b"301");
    assert_eq!(
        r,
        Err(ParseError { kind: ErrorKind::MissingMandatorySegment, offset: 10 })
    );
}

#[test]
fn load_tender_with_stops_parses_as_204() {
    let text = "ISA*00*          *00*          *ZZ*SOURCE         *ZZ*TARGET         *220524*1120*U*00401*000000001*0*P*>~GS*SM~ST*204*1~B2**SCAC~B2A*00~L11*1*PO~N1*SH*ACME~N3*STREET~N4*CITY~G61*IC*JOE~N7**123~S5*1*LD~L11*2*BM~G62*10*20220101~N1*SF*DOCK~L5*1*GOODS~AT8*G*L*100~N7**456~S5*2*UL~L3*100*G~SE*19*1~GE*1*1~IEA*1*1~";
    let obj = Transmission::parse_as(text.as_bytes(), b"204").unwrap();
    let set = &obj.functional_group[0].segments[0];
    assert_eq!(set.slots.len(), 15);
    match &set.slots[12] {
        SlotValue::Loops(stops) => {
            assert_eq!(stops.len(), 2);
            match &stops[0].slots[8] {
                SlotValue::Loops(parties) => assert_eq!(parties.len(), 1),
                other => panic!("parties: {:?}", other),
            }
            match &stops[0].slots[10] {
                SlotValue::Loops(equipment) => assert_eq!(equipment.len(), 1),
                other => panic!("equipment: {:?}", other),
            }
            assert_eq!(stops[1].slots[8], SlotValue::Loops(vec![]));
        }
        other => panic!("stops: {:?}", other),
    }
    assert!(matches!(set.slots[13], SlotValue::One(_)));
    assert_eq!(
        String::from_utf8(obj.serialize()).unwrap(),
        text.replace("~", "~\n")
    );
}
