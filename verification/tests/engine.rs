use x12_types::engine::{
    copy_instance, copy_value, flatten, instance_eq, leading_tag, parse_loop, parse_repetitions,
    parse_slot_at, peek_is, value_eq, LoopInstance, SlotValue,
};
use x12_types::error::{ErrorKind, ParseError};
use x12_types::grammar::{copy_slot, copy_spec, grammar_eq, slot_eq, LoopSpec, Slot};
use x12_types::segment::{read_segment, Delimiters, Segment};
use x12_types::v004010::sets::{lookup, TransactionSet, _204, _301, _310, _315};

fn delimiters() -> Delimiters {
    Delimiters { element: b'*', sub_element: b':', terminator: b'~' }
}

fn segments(lines: &[&str]) -> Vec<Segment> {
    lines.iter().map(|l| read_segment(l.as_bytes(), &delimiters())).collect()
}

fn party_loop() -> LoopSpec {
    let mut party = LoopSpec::new();
    party.push(Slot::single("N1"));
    party.push(Slot::optional("N3"));
    party
}

fn parties_then_references() -> LoopSpec {
    let mut g = LoopSpec::new();
    g.push(Slot::repeat_loop(party_loop(), 10));
    g.push(Slot::repeated("N9", 30));
    g
}

#[test]
fn two_parties_and_one_reference_consume_all_three_segments() {
    let input = segments(&["N1*SH*ACME", "N1*CN*OTHERCO", "N9*BM*REF1"]);
    let (instance, end) = parse_loop(&parties_then_references(), &input, 0).unwrap();
    assert_eq!(end, 3);
    assert_eq!(end, input.len());
    assert_eq!(instance.slots.len(), 2);
    match &instance.slots[0] {
        SlotValue::Loops(parties) => {
            assert_eq!(parties.len(), 2);
            assert_eq!(parties[0].slots[0], SlotValue::One(input[0].clone()));
            assert_eq!(parties[0].slots[1], SlotValue::Absent);
            assert_eq!(parties[1].slots[0], SlotValue::One(input[1].clone()));
        }
        other => panic!("parties: {:?}", other),
    }
    assert_eq!(instance.slots[1], SlotValue::Many(vec![input[2].clone()]));
    assert_eq!(flatten(&instance), input);
}

#[test]
fn optional_slot_without_its_tag_is_absent_and_leaves_the_cursor() {
    let input = segments(&["N9*BM*REF1"]);
    let r = parse_slot_at(&Slot::optional("N3"), &input, 0);
    assert_eq!(r, Ok((SlotValue::Absent, 0)));
    let at_end = parse_slot_at(&Slot::optional("N3"), &input, 1);
    assert_eq!(at_end, Ok((SlotValue::Absent, 1)));
    let nothing = LoopInstance { slots: vec![SlotValue::Absent] };
    assert_eq!(flatten(&nothing), Vec::<Segment>::new());
}

#[test]
fn optional_slot_with_its_tag_takes_one_segment() {
    let input = segments(&["N3*STREET", "N3*MORE"]);
    let r = parse_slot_at(&Slot::optional("N3"), &input, 0);
    assert_eq!(r, Ok((SlotValue::One(input[0].clone()), 1)));
}

#[test]
fn single_slot_takes_its_segment_or_fails_where_it_stands() {
    let input = segments(&["ST*315*1", "B4"]);
    assert_eq!(
        parse_slot_at(&Slot::single("ST"), &input, 0),
        Ok((SlotValue::One(input[0].clone()), 1))
    );
    assert_eq!(
        parse_slot_at(&Slot::single("ST"), &input, 1),
        Err(ParseError { kind: ErrorKind::MissingMandatorySegment, offset: 1 })
    );
    assert_eq!(
        parse_slot_at(&Slot::single("ST"), &input, 2),
        Err(ParseError { kind: ErrorKind::MissingMandatorySegment, offset: 2 })
    );
}

#[test]
fn repeated_slot_takes_the_whole_run() {
    let input = segments(&["N9*A", "N9*B", "N9*C", "Q2*X", "N9*D"]);
    let r = parse_slot_at(&Slot::repeated("N9", 3), &input, 0);
    assert_eq!(
        r,
        Ok((SlotValue::Many(vec![input[0].clone(), input[1].clone(), input[2].clone()]), 3))
    );
    let later = parse_slot_at(&Slot::repeated("N9", 3), &input, 1);
    assert_eq!(later, Ok((SlotValue::Many(vec![input[1].clone(), input[2].clone()]), 3)));
    let none = parse_slot_at(&Slot::repeated("N9", 3), &input, 3);
    assert_eq!(none, Ok((SlotValue::Many(vec![]), 3)));
}

#[test]
fn one_segment_beyond_the_bound_exceeds_it() {
    let input = segments(&["N9*A", "N9*B", "N9*C", "Q2*X"]);
    let r = parse_slot_at(&Slot::repeated("N9", 2), &input, 0);
    assert_eq!(r, Err(ParseError { kind: ErrorKind::RepeatBoundExceeded, offset: 2 }));
    let none_allowed = parse_slot_at(&Slot::repeated("N9", 0), &input, 0);
    assert_eq!(
        none_allowed,
        Err(ParseError { kind: ErrorKind::RepeatBoundExceeded, offset: 0 })
    );
}

#[test]
fn run_that_may_not_be_empty_needs_one_segment() {
    let input = segments(&["Q2*X", "N9*A"]);
    assert_eq!(
        parse_slot_at(&Slot::at_least_once("N9", 5), &input, 0),
        Err(ParseError { kind: ErrorKind::MissingMandatorySegment, offset: 0 })
    );
    assert_eq!(
        parse_slot_at(&Slot::at_least_once("N9", 5), &input, 1),
        Ok((SlotValue::Many(vec![input[1].clone()]), 2))
    );
}

#[test]
fn loop_repeats_while_its_first_tag_is_seen() {
    let input = segments(&["N1*A", "N3*X", "N1*B", "N1*C", "N3*Y", "N9*R"]);
    let (parties, end) = parse_repetitions(&party_loop(), 10, &input, 0).unwrap();
    assert_eq!(end, 5);
    assert_eq!(parties.len(), 3);
    assert_eq!(parties[0].slots[1], SlotValue::One(input[1].clone()));
    assert_eq!(parties[1].slots[1], SlotValue::Absent);
    assert_eq!(parties[2].slots[1], SlotValue::One(input[4].clone()));
    let (none, end) = parse_repetitions(&party_loop(), 10, &input, 5).unwrap();
    assert_eq!(end, 5);
    assert!(none.is_empty());
}

#[test]
fn one_repetition_beyond_the_bound_exceeds_it() {
    let input = segments(&["N1*A", "N3*X", "N1*B", "N1*C"]);
    assert_eq!(
        parse_repetitions(&party_loop(), 2, &input, 0),
        Err(ParseError { kind: ErrorKind::RepeatBoundExceeded, offset: 3 })
    );
    assert!(parse_repetitions(&party_loop(), 3, &input, 0).is_ok());
}

#[test]
fn mandatory_loop_needs_one_repetition() {
    let input = segments(&["N9*R"]);
    assert_eq!(
        parse_slot_at(&Slot::mandatory_loop(party_loop(), 5), &input, 0),
        Err(ParseError { kind: ErrorKind::MissingMandatorySegment, offset: 0 })
    );
    assert_eq!(
        parse_slot_at(&Slot::repeat_loop(party_loop(), 5), &input, 0),
        Ok((SlotValue::Loops(vec![]), 0))
    );
}

#[test]
fn error_inside_a_repetition_ends_the_parse() {
    let mut inner = LoopSpec::new();
    inner.push(Slot::single("LX"));
    inner.push(Slot::single("L0"));
    let input = segments(&["LX*1", "L0*1", "LX*2", "L5*1"]);
    assert_eq!(
        parse_repetitions(&inner, 9, &input, 0),
        Err(ParseError { kind: ErrorKind::MissingMandatorySegment, offset: 3 })
    );
}

#[test]
fn segments_after_the_last_slot_are_left_to_the_caller() {
    let input = segments(&["N1*A", "N9*R", "SE*3*1", "GE*1*1"]);
    let (_, end) = parse_loop(&parties_then_references(), &input, 0).unwrap();
    assert_eq!(end, 2);
}

#[test]
fn grammar_without_slots_matches_nothing_and_never_repeats() {
    let input = segments(&["N1*A"]);
    let empty = LoopSpec::new();
    assert_eq!(leading_tag(&empty), None);
    let (instance, end) = parse_loop(&empty, &input, 0).unwrap();
    assert_eq!((instance.slots.len(), end), (0, 0));
    let (none, end) = parse_repetitions(&empty, 5, &input, 0).unwrap();
    assert_eq!((none.len(), end), (0, 0));
}

#[test]
fn leading_tag_is_looked_up_through_nested_loops() {
    let mut outer = LoopSpec::new();
    outer.push(Slot::repeat_loop(party_loop(), 3));
    outer.push(Slot::single("SE"));
    assert_eq!(leading_tag(&outer), Some(&b"N1".to_vec()));
    assert_eq!(leading_tag(&_315::grammar()), Some(&b"ST".to_vec()));
}

#[test]
fn lookahead_compares_whole_tags() {
    let input = segments(&["N7A*X", "N7"]);
    assert!(!peek_is(&input, 0, &b"N7".to_vec()));
    assert!(peek_is(&input, 0, &b"N7A".to_vec()));
    assert!(peek_is(&input, 1, &b"N7".to_vec()));
    assert!(!peek_is(&input, 2, &b"N7".to_vec()));
}

#[test]
fn flattening_follows_slot_order_and_stored_order() {
    let input = segments(&["N1*A", "N3*X", "N1*B", "N9*R", "N9*S"]);
    let (instance, end) = parse_loop(&parties_then_references(), &input, 0).unwrap();
    assert_eq!(end, 5);
    assert_eq!(flatten(&instance), input);
}

#[test]
fn registered_grammars_are_those_of_the_four_sets() {
    assert_eq!(lookup(b"204"), Some(_204::grammar()));
    assert_eq!(lookup(b"301"), Some(_301::grammar()));
    assert_eq!(lookup(b"310"), Some(_310::grammar()));
    assert_eq!(lookup(b"315"), Some(_315::grammar()));
    assert_eq!(lookup(b"214"), None);
    assert_eq!(lookup(b""), None);
    assert_eq!(_204::grammar().slots.len(), 15);
    assert_eq!(_301::grammar().slots.len(), 17);
    assert_eq!(_310::grammar().slots.len(), 30);
    assert_eq!(_315::grammar().slots.len(), 8);
    assert_eq!(_315::grammar().slots[2], Slot::repeated("N9", 30));
}

#[test]
fn one_status_set_is_matched_from_a_position() {
    let input = segments(&["GS*QO", "ST*315*1", "B4", "R4*L", "DTM*1", "DTM*2", "SE*5*1", "GE"]);
    let (instance, end) = _315::parse(&input, 1).unwrap();
    assert_eq!(end, 7);
    match &instance.slots[5] {
        SlotValue::Loops(ports) => {
            assert_eq!(ports.len(), 1);
            assert_eq!(
                ports[0].slots[1],
                SlotValue::Many(vec![input[4].clone(), input[5].clone()])
            );
        }
        other => panic!("ports: {:?}", other),
    }
    assert_eq!(
        _315::parse(&input, 0),
        Err(ParseError { kind: ErrorKind::MissingMandatorySegment, offset: 0 })
    );
    assert_eq!(
        _310::parse(&input, 1),
        Err(ParseError { kind: ErrorKind::MissingMandatorySegment, offset: 2 })
    );
    assert_eq!(
        _204::parse(&input, 1),
        Err(ParseError { kind: ErrorKind::MissingMandatorySegment, offset: 2 })
    );
    assert_eq!(
        _301::parse(&input, 1),
        Err(ParseError { kind: ErrorKind::MissingMandatorySegment, offset: 2 })
    );
}

#[test]
fn instances_are_compared_value_by_value() {
    let input = segments(&["N1*A", "N3*X", "N1*B", "N9*R", "N9*S"]);
    let (instance, _) = parse_loop(&parties_then_references(), &input, 0).unwrap();
    let copy = copy_instance(&instance);
    assert!(instance_eq(&instance, &copy));
    assert_eq!(instance, copy);
    let other = segments(&["N1*A", "N3*X", "N1*B", "N9*R", "N9*T"]);
    let (different, _) = parse_loop(&parties_then_references(), &other, 0).unwrap();
    assert!(!instance_eq(&instance, &different));
    let shorter = segments(&["N1*A", "N3*X", "N9*R", "N9*S"]);
    let (fewer, _) = parse_loop(&parties_then_references(), &shorter, 0).unwrap();
    assert!(!instance_eq(&instance, &fewer));
    assert!(!instance_eq(&instance, &LoopInstance { slots: vec![] }));
    for value in &instance.slots {
        assert!(value_eq(value, &copy_value(value)));
    }
    assert!(!value_eq(&SlotValue::Absent, &SlotValue::Many(vec![])));
    assert!(!value_eq(&SlotValue::Many(vec![]), &SlotValue::Loops(vec![])));
    assert!(value_eq(&SlotValue::Absent, &SlotValue::Absent));
    assert!(!value_eq(
        &SlotValue::One(input[0].clone()),
        &SlotValue::One(input[1].clone())
    ));
    assert!(!value_eq(
        &SlotValue::Many(vec![input[0].clone()]),
        &SlotValue::Many(vec![input[0].clone(), input[0].clone()])
    ));
}

#[test]
fn grammars_are_compared_slot_by_slot() {
    let g = _310::grammar();
    assert!(grammar_eq(&g, &copy_spec(&g)));
    assert_eq!(g.clone(), g);
    assert!(!grammar_eq(&g, &_315::grammar()));
    assert!(!grammar_eq(&party_loop(), &LoopSpec::new()));
    for slot in &g.slots {
        assert!(slot_eq(slot, &copy_slot(slot)));
    }
    assert!(!slot_eq(&Slot::single("N1"), &Slot::optional("N1")));
    assert!(!slot_eq(&Slot::single("N1"), &Slot::single("N2")));
    assert!(!slot_eq(&Slot::repeated("N1", 2), &Slot::repeated("N1", 3)));
    assert!(!slot_eq(&Slot::repeated("N1", 2), &Slot::at_least_once("N1", 2)));
    assert!(!slot_eq(
        &Slot::repeat_loop(party_loop(), 2),
        &Slot::mandatory_loop(party_loop(), 2)
    ));
    assert!(!slot_eq(
        &Slot::repeat_loop(party_loop(), 2),
        &Slot::repeat_loop(party_loop(), 3)
    ));
    assert!(!slot_eq(
        &Slot::repeat_loop(party_loop(), 2),
        &Slot::repeat_loop(parties_then_references(), 2)
    ));
    let mut joined = party_loop();
    joined.append(parties_then_references());
    assert_eq!(joined.slots.len(), 4);
    assert_eq!(joined.slots[0], Slot::single("N1"));
    assert_eq!(joined.slots[3], Slot::repeated("N9", 30));
}
