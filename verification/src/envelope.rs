//! The envelope assembler: functional groups and the interchange trailer
//! around the transaction sets, and the control counts of the trailers.
//!
//! The envelope is itself a loop grammar over fixed tags: one or more groups,
//! each a `GS`, one or more transaction sets and a `GE`, followed by one
//! `IEA`. Its segments are matched by the rules of the loop engine.

use crate::bytes::{bytes_eq, copy_bytes};
use crate::conformance::lemma_parsed_iterations;
use crate::engine::{
    first_tag, flatten_instances, flatten_into, instance_models, lemma_flatten_instances_push,
    lemma_instance_models, parse_iterations, parse_repetitions, parse_slot, parse_slots, peek_is,
    prepend, tag_at, LoopInstance, SlotValueModel,
};
use crate::error::{error_at, ErrorKind, ParseError};
use crate::grammar::{LoopSpec, SlotModel};
use crate::header::{Isa, IsaModel};
use crate::numeral::{decimal, decimal_bytes};
use crate::segment::{
    copy_field, copy_segment, field_models, segment_models, Field, FieldModel,
    Segment, SegmentModel,
};
use crate::v004010::{FunctionalGroup, GroupModel, Transmission, TransmissionModel};
use vstd::prelude::*;

verus! {

/// The tag of a group header, `GS`.
pub open spec fn gs_tag() -> Seq<u8> {
    seq![71u8, 83u8]
}

/// The tag of a group trailer, `GE`.
pub open spec fn ge_tag() -> Seq<u8> {
    seq![71u8, 69u8]
}

/// The tag of the interchange trailer, `IEA`.
pub open spec fn iea_tag() -> Seq<u8> {
    seq![73u8, 69u8, 65u8]
}

/// The repeat bound of the envelope's loops: none but what the machine sets.
pub open spec fn unbounded() -> nat {
    usize::MAX as nat
}

/// The grammar of a functional group whose transaction sets follow `set`.
pub open spec fn group_grammar(set: Seq<SlotModel>) -> Seq<SlotModel> {
    seq![
        SlotModel::Single { tag: gs_tag() },
        SlotModel::Nested { slots: set, optional: false, max: unbounded() },
        SlotModel::Single { tag: ge_tag() },
    ]
}

/// The grammar of what follows the interchange header.
pub open spec fn envelope_grammar(set: Seq<SlotModel>) -> Seq<SlotModel> {
    seq![
        SlotModel::Nested { slots: group_grammar(set), optional: false, max: unbounded() },
        SlotModel::Single { tag: iea_tag() },
    ]
}

/// A functional group as values of the group grammar.
pub open spec fn group_values(g: GroupModel<Seq<SlotValueModel>>) -> Seq<SlotValueModel> {
    seq![SlotValueModel::One(g.gs), SlotValueModel::Loops(g.sets), SlotValueModel::One(g.ge)]
}

/// The functional group that values of the group grammar stand for.
pub open spec fn group_of(vals: Seq<SlotValueModel>) -> GroupModel<Seq<SlotValueModel>> {
    GroupModel { gs: vals[0]->One_0, sets: vals[1]->Loops_0, ge: vals[2]->One_0 }
}

/// Functional groups as repetitions of the group grammar.
pub open spec fn groups_values(groups: Seq<GroupModel<Seq<SlotValueModel>>>) -> Seq<
    Seq<SlotValueModel>,
> {
    groups.map_values(|g: GroupModel<Seq<SlotValueModel>>| group_values(g))
}

/// The functional groups that repetitions of the group grammar stand for.
pub open spec fn groups_of(insts: Seq<Seq<SlotValueModel>>) -> Seq<
    GroupModel<Seq<SlotValueModel>>,
> {
    insts.map_values(|vals: Seq<SlotValueModel>| group_of(vals))
}

/// Functional groups and an interchange trailer as values of the envelope
/// grammar.
pub open spec fn envelope_values(
    groups: Seq<GroupModel<Seq<SlotValueModel>>>,
    iea: SegmentModel,
) -> Seq<SlotValueModel> {
    seq![SlotValueModel::Loops(groups_values(groups)), SlotValueModel::One(iea)]
}

/// Whether the first field of a trailer is the decimal numeral of `n`.
pub open spec fn count_is(seg: SegmentModel, n: nat) -> bool {
    seg.fields.len() > 0 && seg.fields[0] == FieldModel::Scalar(decimal(n))
}

/// The trailer with its first field set to the decimal numeral of `n`.
pub open spec fn with_count(seg: SegmentModel, n: nat) -> SegmentModel {
    SegmentModel {
        tag: seg.tag,
        fields: if seg.fields.len() == 0 {
            seq![FieldModel::Scalar(decimal(n))]
        } else {
            seq![FieldModel::Scalar(decimal(n))] + seg.fields.skip(1)
        },
    }
}

/// The number of segments of a functional group.
pub open spec fn group_len(g: GroupModel<Seq<SlotValueModel>>) -> nat {
    2 + flatten_instances(g.sets).len()
}

/// The number of segments of a sequence of functional groups.
pub open spec fn groups_len(groups: Seq<GroupModel<Seq<SlotValueModel>>>) -> nat
    decreases groups.len(),
{
    if groups.len() == 0 {
        0
    } else {
        groups_len(groups.drop_last()) + group_len(groups.last())
    }
}

/// The position, among the segments after the interchange header, of the
/// first group trailer whose count is not the number of its group's
/// transaction sets.
pub open spec fn miscount_in(groups: Seq<GroupModel<Seq<SlotValueModel>>>) -> Option<int>
    decreases groups.len(),
{
    if groups.len() == 0 {
        None
    } else {
        let init = groups.drop_last();
        let g = groups.last();
        match miscount_in(init) {
            Some(at) => Some(at),
            None => if count_is(g.ge, g.sets.len()) {
                None
            } else {
                Some(groups_len(init) + group_len(g) - 1)
            },
        }
    }
}

/// The position of the first trailer with a wrong count: a group trailer, or
/// else the interchange trailer, which counts the functional groups.
pub open spec fn first_miscount(
    groups: Seq<GroupModel<Seq<SlotValueModel>>>,
    iea: SegmentModel,
) -> Option<int> {
    match miscount_in(groups) {
        Some(at) => Some(at),
        None => if count_is(iea, groups.len()) {
            None
        } else {
            Some(groups_len(groups) as int)
        },
    }
}

/// Whether every trailer carries the count of the units it closes.
pub open spec fn counts_hold(groups: Seq<GroupModel<Seq<SlotValueModel>>>, iea: SegmentModel) -> bool {
    &&& count_is(iea, groups.len())
    &&& forall|j: int|
        0 <= j < groups.len() ==> count_is((#[trigger] groups[j]).ge, groups[j].sets.len())
}

/// The interchange that the segments after an interchange header stand for.
/// The segments are matched against the envelope grammar; a segment left
/// over after the interchange trailer is unexpected; then each trailer's
/// count is held against the number of units present.
pub open spec fn assemble(isa: IsaModel, input: Seq<SegmentModel>, set: Seq<SlotModel>) -> Result<
    TransmissionModel<Seq<SlotValueModel>>,
    ParseError,
> {
    match parse_slots(envelope_grammar(set), input, 0) {
        Err(e) => Err(e),
        Ok((vals, end)) => {
            let groups = groups_of(vals[0]->Loops_0);
            let iea = vals[1]->One_0;
            if end < input.len() {
                Err(error_at(ErrorKind::UnexpectedSegment, end))
            } else {
                match first_miscount(groups, iea) {
                    Some(at) => Err(error_at(ErrorKind::ControlCountMismatch, at)),
                    None => Ok(TransmissionModel { isa, groups, iea }),
                }
            }
        },
    }
}

/// The segments of a functional group, the trailer carrying the count of the
/// transaction sets.
pub open spec fn group_segments(g: GroupModel<Seq<SlotValueModel>>) -> Seq<SegmentModel> {
    seq![g.gs] + flatten_instances(g.sets) + seq![with_count(g.ge, g.sets.len())]
}

/// The segments of a sequence of functional groups.
pub open spec fn groups_segments(groups: Seq<GroupModel<Seq<SlotValueModel>>>) -> Seq<
    SegmentModel,
>
    decreases groups.len(),
{
    if groups.len() == 0 {
        Seq::empty()
    } else {
        groups_segments(groups.drop_last()) + group_segments(groups.last())
    }
}

/// The segments after the interchange header of an interchange: those of
/// the groups and the interchange trailer, every trailer carrying the count
/// of the units actually present.
pub open spec fn envelope_segments(
    groups: Seq<GroupModel<Seq<SlotValueModel>>>,
    iea: SegmentModel,
) -> Seq<SegmentModel> {
    groups_segments(groups) + seq![with_count(iea, groups.len())]
}

/// What matching a functional group at `pos` yields, written out.
pub open spec fn parse_group(set: Seq<SlotModel>, input: Seq<SegmentModel>, pos: int) -> Result<
    (Seq<SlotValueModel>, int),
    ParseError,
> {
    if !tag_at(input, pos, gs_tag()) {
        Err(error_at(ErrorKind::MissingMandatorySegment, pos))
    } else {
        match parse_iterations(set, unbounded(), input, pos + 1) {
            Err(e) => Err(e),
            Ok((sets, end)) => if sets.len() == 0 {
                Err(error_at(ErrorKind::MissingMandatorySegment, pos + 1))
            } else if !tag_at(input, end, ge_tag()) {
                Err(error_at(ErrorKind::MissingMandatorySegment, end))
            } else {
                Ok(
                    (
                        seq![
                            SlotValueModel::One(input[pos]),
                            SlotValueModel::Loops(sets),
                            SlotValueModel::One(input[end]),
                        ],
                        end + 1,
                    ),
                )
            },
        }
    }
}

/// What matching the envelope yields, written out.
pub open spec fn parse_envelope(set: Seq<SlotModel>, input: Seq<SegmentModel>) -> Result<
    (Seq<SlotValueModel>, int),
    ParseError,
> {
    match parse_iterations(group_grammar(set), unbounded(), input, 0) {
        Err(e) => Err(e),
        Ok((groups, end)) => if groups.len() == 0 {
            Err(error_at(ErrorKind::MissingMandatorySegment, 0))
        } else if !tag_at(input, end, iea_tag()) {
            Err(error_at(ErrorKind::MissingMandatorySegment, end))
        } else {
            Ok((seq![SlotValueModel::Loops(groups), SlotValueModel::One(input[end])], end + 1))
        },
    }
}

/// Matching the group grammar is matching a group header, the transaction
/// sets and a group trailer.
pub proof fn lemma_parse_group(set: Seq<SlotModel>, input: Seq<SegmentModel>, pos: int)
    ensures
        parse_slots(group_grammar(set), input, pos) == parse_group(set, input, pos),
        first_tag(group_grammar(set)) == Some(gs_tag()),
{
    let g = group_grammar(set);
    let g1 = g.drop_first();
    let g2 = g1.drop_first();
    let g3 = g2.drop_first();
    assert(g3 =~= Seq::<SlotModel>::empty());
    assert(g1[0] == g[1]);
    assert(g2[0] == g[2]);
    if tag_at(input, pos, gs_tag()) {
        let first = SlotValueModel::One(input[pos]);
        assert(parse_slot(g[0], input, pos) == Ok::<(SlotValueModel, int), ParseError>(
            (first, pos + 1),
        ));
        match parse_iterations(set, unbounded(), input, pos + 1) {
            Err(e) => {
                assert(parse_slot(g1[0], input, pos + 1) == Err::<
                    (SlotValueModel, int),
                    ParseError,
                >(e));
                assert(parse_slots(g1, input, pos + 1) == Err::<
                    (Seq<SlotValueModel>, int),
                    ParseError,
                >(e));
            },
            Ok((sets, end)) => {
                if sets.len() == 0 {
                    assert(parse_slot(g1[0], input, pos + 1) is Err);
                    assert(parse_slots(g1, input, pos + 1) is Err);
                } else {
                    let second = SlotValueModel::Loops(sets);
                    assert(parse_slot(g1[0], input, pos + 1) == Ok::<
                        (SlotValueModel, int),
                        ParseError,
                    >((second, end)));
                    if tag_at(input, end, ge_tag()) {
                        let third = SlotValueModel::One(input[end]);
                        assert(parse_slot(g2[0], input, end) == Ok::<
                            (SlotValueModel, int),
                            ParseError,
                        >((third, end + 1)));
                        assert(parse_slots(g3, input, end + 1) == Ok::<
                            (Seq<SlotValueModel>, int),
                            ParseError,
                        >((Seq::empty(), end + 1)));
                        assert(seq![third] + Seq::<SlotValueModel>::empty() =~= seq![third]);
                        assert(parse_slots(g2, input, end) == Ok::<
                            (Seq<SlotValueModel>, int),
                            ParseError,
                        >((seq![third], end + 1)));
                        assert(seq![second] + seq![third] =~= seq![second, third]);
                        assert(parse_slots(g1, input, pos + 1) == Ok::<
                            (Seq<SlotValueModel>, int),
                            ParseError,
                        >((seq![second, third], end + 1)));
                        assert(seq![first] + seq![second, third] =~= seq![first, second, third]);
                    } else {
                        assert(parse_slot(g2[0], input, end) is Err);
                        assert(parse_slots(g2, input, end) is Err);
                        assert(parse_slots(g1, input, pos + 1) is Err);
                    }
                }
            },
        }
    } else {
        assert(parse_slot(g[0], input, pos) is Err);
    }
}

/// Matching the envelope grammar is matching the groups and an interchange
/// trailer.
pub proof fn lemma_parse_envelope(set: Seq<SlotModel>, input: Seq<SegmentModel>)
    ensures
        parse_slots(envelope_grammar(set), input, 0) == parse_envelope(set, input),
{
    let g = envelope_grammar(set);
    let g1 = g.drop_first();
    let g2 = g1.drop_first();
    assert(g2 =~= Seq::<SlotModel>::empty());
    assert(g1[0] == g[1]);
    match parse_iterations(group_grammar(set), unbounded(), input, 0) {
        Err(e) => {
            assert(parse_slot(g[0], input, 0) == Err::<(SlotValueModel, int), ParseError>(e));
        },
        Ok((groups, end)) => {
            if groups.len() == 0 {
                assert(parse_slot(g[0], input, 0) is Err);
            } else {
                let first = SlotValueModel::Loops(groups);
                assert(parse_slot(g[0], input, 0) == Ok::<(SlotValueModel, int), ParseError>(
                    (first, end),
                ));
                if tag_at(input, end, iea_tag()) {
                    let second = SlotValueModel::One(input[end]);
                    assert(parse_slot(g1[0], input, end) == Ok::<
                        (SlotValueModel, int),
                        ParseError,
                    >((second, end + 1)));
                    assert(parse_slots(g2, input, end + 1) == Ok::<
                        (Seq<SlotValueModel>, int),
                        ParseError,
                    >((Seq::empty(), end + 1)));
                    assert(seq![second] + Seq::<SlotValueModel>::empty() =~= seq![second]);
                    assert(parse_slots(g1, input, end) == Ok::<
                        (Seq<SlotValueModel>, int),
                        ParseError,
                    >((seq![second], end + 1)));
                    assert(seq![first] + seq![second] =~= seq![first, second]);
                } else {
                    assert(parse_slot(g1[0], input, end) is Err);
                    assert(parse_slots(g1, input, end) is Err);
                }
            }
        },
    }
}

/// The models of a sequence of functional groups.
pub open spec fn group_models(groups: Seq<FunctionalGroup<LoopInstance>>) -> Seq<
    GroupModel<Seq<SlotValueModel>>,
> {
    groups.map_values(|g: FunctionalGroup<LoopInstance>| g@)
}

/// The number of segments and the first miscount of one more group.
pub proof fn lemma_groups_push(
    groups: Seq<GroupModel<Seq<SlotValueModel>>>,
    g: GroupModel<Seq<SlotValueModel>>,
)
    ensures
        groups_len(groups.push(g)) == groups_len(groups) + group_len(g),
        groups_segments(groups.push(g)) == groups_segments(groups) + group_segments(g),
        miscount_in(groups.push(g)) == match miscount_in(groups) {
            Some(at) => Some(at),
            None => if count_is(g.ge, g.sets.len()) {
                None
            } else {
                Some(groups_len(groups) + group_len(g) - 1)
            },
        },
{
    assert(groups.push(g).drop_last() =~= groups);
}

/// No trailer is miscounted exactly when every trailer carries its count.
pub proof fn lemma_miscount(groups: Seq<GroupModel<Seq<SlotValueModel>>>)
    ensures
        miscount_in(groups) is None <==> forall|j: int|
            0 <= j < groups.len() ==> count_is((#[trigger] groups[j]).ge, groups[j].sets.len()),
    decreases groups.len(),
{
    if groups.len() > 0 {
        let init = groups.drop_last();
        lemma_miscount(init);
        if miscount_in(groups) is None {
            assert forall|j: int| 0 <= j < groups.len() implies count_is(
                (#[trigger] groups[j]).ge,
                groups[j].sets.len(),
            ) by {
                if j < init.len() {
                    assert(init[j] == groups[j]);
                }
            }
        } else {
            if miscount_in(init) is Some {
                let j = choose|j: int|
                    0 <= j < init.len() && !count_is((#[trigger] init[j]).ge, init[j].sets.len());
                assert(init[j] == groups[j]);
            }
        }
    }
}

/// Whether the first field of a trailer is the decimal numeral of `n`.
pub fn count_matches(seg: &Segment, n: usize) -> (r: bool)
    ensures
        r == count_is(seg@, n as nat),
{
    if seg.fields.len() == 0 {
        return false;
    }
    proof {
        assert(seg@.fields[0] == seg.fields[0]@);
    }
    match &seg.fields[0] {
        Field::Scalar(text) => {
            let want = decimal_bytes(n);
            bytes_eq(text.as_slice(), want.as_slice())
        },
        _ => false,
    }
}

/// A copy of a trailer with its first field set to the decimal numeral of
/// `n`; the other fields are kept.
pub fn set_count(seg: &Segment, n: usize) -> (r: Segment)
    ensures
        r@ == with_count(seg@, n as nat),
{
    let mut fields: Vec<Field> = Vec::new();
    fields.push(Field::Scalar(decimal_bytes(n)));
    let ghost head = seq![FieldModel::Scalar(decimal(n as nat))];
    let ghost rest = if seg.fields.len() == 0 {
        Seq::<FieldModel>::empty()
    } else {
        field_models(seg.fields@).skip(1)
    };
    let mut i: usize = 1;
    proof {
        assert(field_models(fields@) =~= head + rest.take(0));
    }
    while i < seg.fields.len()
        invariant
            1 <= i,
            i <= seg.fields.len() || (seg.fields.len() == 0 && i == 1),
            head == seq![FieldModel::Scalar(decimal(n as nat))],
            seg.fields.len() > 0 ==> rest == field_models(seg.fields@).skip(1),
            seg.fields.len() == 0 ==> rest == Seq::<FieldModel>::empty(),
            field_models(fields@) == head + rest.take(i - 1),
        decreases seg.fields.len() - i,
    {
        let ghost prev = fields@;
        fields.push(copy_field(&seg.fields[i]));
        proof {
            assert(field_models(fields@) =~= field_models(prev).push(seg.fields[i as int]@));
            assert(rest[i - 1] == seg.fields[i as int]@);
            assert(head + rest.take(i as int) =~= (head + rest.take(i - 1)).push(
                seg.fields[i as int]@,
            ));
        }
        i += 1;
    }
    proof {
        assert(seg@.fields.len() == seg.fields.len());
        if seg.fields.len() == 0 {
            assert(head + rest.take(0) =~= head);
        } else {
            assert(rest.take(seg.fields.len() - 1) =~= rest);
        }
        assert(field_models(fields@) =~= with_count(seg@, n as nat).fields);
    }
    Segment { tag: copy_bytes(seg.tag.as_slice()), fields }
}

/// Whether the outcome of the executable assembler is the outcome `m` of the
/// model.
pub open spec fn transmission_result_is(
    r: Result<Transmission<LoopInstance>, ParseError>,
    m: Result<TransmissionModel<Seq<SlotValueModel>>, ParseError>,
) -> bool {
    match (r, m) {
        (Ok(t), Ok(u)) => t@ == u,
        (Err(e), Err(f)) => e == f,
        _ => false,
    }
}

/// Frames the segments after an interchange header: peels functional groups
/// while a `GS` is seen, lets the loop engine match the transaction sets of
/// each against `set`, expects the `GE` and finally the `IEA`, and holds
/// every trailer's count against the number of units found.
pub fn assemble_segments(isa: Isa, input: &Vec<Segment>, set: &LoopSpec) -> (r: Result<
    Transmission<LoopInstance>,
    ParseError,
>)
    ensures
        transmission_result_is(r, assemble(isa@, segment_models(input@), set@)),
        r matches Ok(t) ==> counts_hold(t@.groups, t@.iea),
{
    let ghost model = segment_models(input@);
    let ghost whole = parse_iterations(group_grammar(set@), unbounded(), model, 0);
    let gs: Vec<u8> = vec![71u8, 83u8];
    let ge: Vec<u8> = vec![71u8, 69u8];
    let iea: Vec<u8> = vec![73u8, 69u8, 65u8];
    proof {
        assert(gs@ =~= gs_tag());
        assert(ge@ =~= ge_tag());
        assert(iea@ =~= iea_tag());
        lemma_parse_envelope(set@, model);
        lemma_parse_group(set@, model, 0);
        if whole is Ok {
            assert(Seq::<Seq<SlotValueModel>>::empty() + whole->Ok_0.0 =~= whole->Ok_0.0);
        }
        assert(groups_values(group_models(Seq::empty())) =~= Seq::<Seq<SlotValueModel>>::empty());
    }
    let mut groups: Vec<FunctionalGroup<LoopInstance>> = Vec::new();
    let mut pos: usize = 0;
    let mut miscount: Option<usize> = None;
    loop
        invariant
            model == segment_models(input@),
            gs@ == gs_tag(),
            ge@ == ge_tag(),
            pos <= input.len(),
            pos == groups_len(group_models(groups@)),
            match miscount {
                Some(at) => miscount_in(group_models(groups@)) == Some(at as int),
                None => miscount_in(group_models(groups@)) is None,
            },
            parse_slots(envelope_grammar(set@), model, 0) == parse_envelope(set@, model),
            whole == parse_iterations(group_grammar(set@), unbounded(), model, 0),
            whole == prepend(
                groups_values(group_models(groups@)),
                parse_iterations(
                    group_grammar(set@),
                    (unbounded() - groups.len()) as nat,
                    model,
                    pos as int,
                ),
            ),
        ensures
            pos <= input.len(),
            pos == groups_len(group_models(groups@)),
            match miscount {
                Some(at) => miscount_in(group_models(groups@)) == Some(at as int),
                None => miscount_in(group_models(groups@)) is None,
            },
            whole == Ok::<(Seq<Seq<SlotValueModel>>, int), ParseError>(
                (groups_values(group_models(groups@)), pos as int),
            ),
        decreases usize::MAX - groups.len(),
    {
        proof {
            lemma_parse_group(set@, model, pos as int);
        }
        if !peek_is(input, pos, &gs) {
            proof {
                assert(groups_values(group_models(groups@)) + Seq::<
                    Seq<SlotValueModel>,
                >::empty() =~= groups_values(group_models(groups@)));
            }
            break ;
        }
        if groups.len() >= usize::MAX {
            return Err(ParseError { kind: ErrorKind::RepeatBoundExceeded, offset: pos });
        }
        let header = copy_segment(&input[pos]);
        let (sets, end) = match parse_repetitions(set, usize::MAX, input, pos + 1) {
            Ok(found) => found,
            Err(e) => {
                return Err(e);
            },
        };
        if sets.len() == 0 {
            return Err(
                ParseError { kind: ErrorKind::MissingMandatorySegment, offset: pos + 1 },
            );
        }
        if !peek_is(input, end, &ge) {
            return Err(ParseError { kind: ErrorKind::MissingMandatorySegment, offset: end });
        }
        let trailer = copy_segment(&input[end]);
        if miscount.is_none() && !count_matches(&trailer, sets.len()) {
            miscount = Some(end);
        }
        let ghost prev = groups@;
        let ghost sets_model = instance_models(sets@, sets@.len());
        let ghost tail = parse_iterations(
            group_grammar(set@),
            (unbounded() - groups.len() - 1) as nat,
            model,
            end + 1,
        );
        let group = FunctionalGroup { gs: header, segments: sets, ge: trailer };
        proof {
            lemma_instance_models(sets@, sets@.len());
            assert(group@.sets =~= sets_model);
            lemma_parsed_iterations(set@, unbounded(), model, pos + 1);
            assert(flatten_instances(sets_model).len() == end - pos - 1);
            assert(group_values(group@) =~= seq![
                SlotValueModel::One(model[pos as int]),
                SlotValueModel::Loops(sets_model),
                SlotValueModel::One(model[end as int]),
            ]);
        }
        groups.push(group);
        proof {
            assert(group_models(groups@) =~= group_models(prev).push(group@));
            lemma_groups_push(group_models(prev), group@);
            assert(groups_values(group_models(groups@)) =~= groups_values(
                group_models(prev),
            ).push(group_values(group@)));
            if tail is Ok {
                assert(groups_values(group_models(prev)) + (seq![group_values(group@)]
                    + tail->Ok_0.0) =~= groups_values(group_models(groups@)) + tail->Ok_0.0);
            }
        }
        pos = end + 1;
    }
    let ghost found = group_models(groups@);
    proof {
        assert(groups_of(groups_values(found)) =~= found);
    }
    if groups.len() == 0 {
        return Err(ParseError { kind: ErrorKind::MissingMandatorySegment, offset: 0 });
    }
    if !peek_is(input, pos, &iea) {
        return Err(ParseError { kind: ErrorKind::MissingMandatorySegment, offset: pos });
    }
    let trailer = copy_segment(&input[pos]);
    if pos + 1 < input.len() {
        return Err(ParseError { kind: ErrorKind::UnexpectedSegment, offset: pos + 1 });
    }
    match miscount {
        Some(at) => {
            return Err(ParseError { kind: ErrorKind::ControlCountMismatch, offset: at });
        },
        None => {},
    }
    if !count_matches(&trailer, groups.len()) {
        return Err(ParseError { kind: ErrorKind::ControlCountMismatch, offset: pos });
    }
    proof {
        lemma_miscount(found);
    }
    Ok(Transmission { isa, functional_group: groups, iea: trailer })
}

/// The segments after the interchange header of an interchange, in order,
/// every trailer carrying the count of the units actually present.
pub fn disassemble(t: &Transmission<LoopInstance>) -> (r: Vec<Segment>)
    ensures
        segment_models(r@) == envelope_segments(t@.groups, t@.iea),
{
    let mut out: Vec<Segment> = Vec::new();
    let ghost all = t@.groups;
    let mut i: usize = 0;
    proof {
        assert(all.take(0) =~= Seq::<GroupModel<Seq<SlotValueModel>>>::empty());
        assert(segment_models(out@) =~= groups_segments(all.take(0)));
    }
    while i < t.functional_group.len()
        invariant
            i <= t.functional_group.len(),
            all == t@.groups,
            all.len() == t.functional_group.len(),
            segment_models(out@) == groups_segments(all.take(i as int)),
        decreases t.functional_group.len() - i,
    {
        let group = &t.functional_group[i];
        let ghost g = group@;
        let ghost before = segment_models(out@);
        proof {
            assert(all[i as int] == g);
        }
        out.push(copy_segment(&group.gs));
        proof {
            assert(segment_models(out@) =~= before + seq![g.gs]);
            assert(g.sets.take(0) =~= Seq::<Seq<SlotValueModel>>::empty());
            assert(before + seq![g.gs] + flatten_instances(g.sets.take(0)) =~= before + seq![
                g.gs,
            ]);
        }
        let mut j: usize = 0;
        while j < group.segments.len()
            invariant
                j <= group.segments.len(),
                g == group@,
                g.sets.len() == group.segments.len(),
                segment_models(out@) == before + seq![g.gs] + flatten_instances(
                    g.sets.take(j as int),
                ),
            decreases group.segments.len() - j,
        {
            let ghost mid = segment_models(out@);
            flatten_into(&group.segments[j], &mut out);
            proof {
                assert(g.sets[j as int] == group.segments[j as int]@);
                lemma_flatten_instances_push(g.sets.take(j as int), g.sets[j as int]);
                assert(g.sets.take(j as int).push(g.sets[j as int]) =~= g.sets.take(j + 1));
                assert(mid + crate::engine::flatten_slots(g.sets[j as int]) =~= before + seq![
                    g.gs,
                ] + flatten_instances(g.sets.take(j + 1)));
            }
            j += 1;
        }
        let ghost mid = segment_models(out@);
        out.push(set_count(&group.ge, group.segments.len()));
        proof {
            assert(g.sets.take(group.segments.len() as int) =~= g.sets);
            assert(segment_models(out@) =~= mid + seq![with_count(g.ge, g.sets.len())]);
            lemma_groups_push(all.take(i as int), g);
            assert(all.take(i as int).push(g) =~= all.take(i + 1));
            assert(segment_models(out@) =~= before + group_segments(g));
        }
        i += 1;
    }
    let ghost mid = segment_models(out@);
    out.push(set_count(&t.iea, t.functional_group.len()));
    proof {
        assert(all.take(t.functional_group.len() as int) =~= all);
        assert(segment_models(out@) =~= mid + seq![with_count(t@.iea, all.len())]);
    }
    out
}

} // verus!
