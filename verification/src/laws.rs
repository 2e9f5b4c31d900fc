//! The laws of the library: what parsing and serialization owe each other,
//! what the trailers of a parsed interchange count, and how optional and
//! repeatable slots behave.

use crate::conformance::{
    instances_conform, lemma_parsed_iterations, lemma_parsed_slots, lemma_reparse_slots,
    slot_conforms, slots_conform, stands_at,
};
use crate::engine::{
    flatten_instances, flatten_slots, flatten_value, lemma_flatten_instances_push,
    lemma_flatten_slots_push, lemma_run, parse_iterations, parse_slot, parse_slots, peek, run,
    starts_loop, tag_at, SlotValueModel,
};
use crate::envelope::{
    count_is, counts_hold, envelope_grammar, envelope_segments, envelope_values, group_grammar,
    group_of, group_values, groups_of, groups_segments, groups_values, lemma_miscount,
    with_count,
};
use crate::error::{error_at, ErrorKind, ParseError};
use crate::grammar::SlotModel;
use crate::header::{delimiters_of, wf_isa};
use crate::numeral::{lemma_decimal_value, numeral_value};
use crate::segment::{distinct, legal_segments, SegmentModel};
use crate::tokenizer::{
    canonical, lemma_render_tokenize, lemma_tokenize_render, lemma_tokenized_legal, render_body,
    tokenize,
};
use crate::codec::{admits, lemma_first_misfit, SegmentShapeModel};
use crate::v004010::{
    parse_model, parse_model_with, serialize_model, GroupModel, TransmissionModel,
};
use vstd::prelude::*;

verus! {

/// Whether an interchange is legal for transaction sets of grammar `set`:
/// its header is well formed and declares three different delimiters, every
/// segment can be written with them, the groups and transaction sets conform
/// to the envelope and to `set`, and every trailer carries its count.
pub open spec fn legal_transmission(
    t: TransmissionModel<Seq<SlotValueModel>>,
    set: Seq<SlotModel>,
) -> bool {
    &&& wf_isa(t.isa)
    &&& distinct(delimiters_of(t.isa))
    &&& counts_hold(t.groups, t.iea)
    &&& slots_conform(envelope_grammar(set), envelope_values(t.groups, t.iea), None)
    &&& legal_segments(envelope_segments(t.groups, t.iea), delimiters_of(t.isa))
}

/// The number that the first field of a trailer denotes, if that field is a
/// scalar.
pub open spec fn control_count(seg: SegmentModel) -> Option<nat> {
    if seg.fields.len() > 0 && seg.fields[0] is Scalar {
        Some(numeral_value(seg.fields[0]->Scalar_0))
    } else {
        None
    }
}

/// A trailer that carries its count is left as it is when the count is set.
pub proof fn lemma_with_count_same(seg: SegmentModel, n: nat)
    requires
        count_is(seg, n),
    ensures
        with_count(seg, n) == seg,
{
    assert(with_count(seg, n).fields =~= seg.fields);
}

/// The segments of a functional group as values of the group grammar.
pub proof fn lemma_group_values_flatten(g: GroupModel<Seq<SlotValueModel>>)
    ensures
        flatten_slots(group_values(g)) == seq![g.gs] + flatten_instances(g.sets) + seq![g.ge],
{
    let a = SlotValueModel::One(g.gs);
    let b = SlotValueModel::Loops(g.sets);
    let c = SlotValueModel::One(g.ge);
    let e = Seq::<SlotValueModel>::empty();
    lemma_flatten_slots_push(e, a);
    lemma_flatten_slots_push(e.push(a), b);
    lemma_flatten_slots_push(e.push(a).push(b), c);
    assert(flatten_slots(e) =~= Seq::<SegmentModel>::empty());
    assert(group_values(g) =~= e.push(a).push(b).push(c));
    assert(flatten_value(a) =~= seq![g.gs]);
    assert(flatten_value(b) =~= flatten_instances(g.sets));
    assert(flatten_value(c) =~= seq![g.ge]);
    assert(flatten_slots(e.push(a)) =~= seq![g.gs]);
    assert(flatten_slots(e.push(a).push(b).push(c)) =~= seq![g.gs] + flatten_instances(g.sets)
        + seq![g.ge]);
}

/// With every group trailer carrying its count, the segments of the groups
/// are those of the groups as repetitions of the group grammar.
pub proof fn lemma_groups_flatten(groups: Seq<GroupModel<Seq<SlotValueModel>>>)
    requires
        forall|j: int|
            0 <= j < groups.len() ==> count_is((#[trigger] groups[j]).ge, groups[j].sets.len()),
    ensures
        flatten_instances(groups_values(groups)) == groups_segments(groups),
    decreases groups.len(),
{
    if groups.len() == 0 {
        assert(groups_values(groups) =~= Seq::<Seq<SlotValueModel>>::empty());
    } else {
        let init = groups.drop_last();
        let g = groups.last();
        assert forall|j: int| 0 <= j < init.len() implies count_is(
            (#[trigger] init[j]).ge,
            init[j].sets.len(),
        ) by {
            assert(init[j] == groups[j]);
        }
        lemma_groups_flatten(init);
        assert(groups_values(groups) =~= groups_values(init).push(group_values(g)));
        lemma_flatten_instances_push(groups_values(init), group_values(g));
        lemma_group_values_flatten(g);
        assert(count_is(g.ge, g.sets.len()));
        lemma_with_count_same(g.ge, g.sets.len());
    }
}

/// With every trailer carrying its count, the segments of an interchange
/// are those of its values under the envelope grammar.
pub proof fn lemma_envelope_flatten(
    groups: Seq<GroupModel<Seq<SlotValueModel>>>,
    iea: SegmentModel,
)
    requires
        counts_hold(groups, iea),
    ensures
        flatten_slots(envelope_values(groups, iea)) == envelope_segments(groups, iea),
{
    let a = SlotValueModel::Loops(groups_values(groups));
    let b = SlotValueModel::One(iea);
    let e = Seq::<SlotValueModel>::empty();
    lemma_flatten_slots_push(e, a);
    lemma_flatten_slots_push(e.push(a), b);
    assert(flatten_slots(e) =~= Seq::<SegmentModel>::empty());
    lemma_groups_flatten(groups);
    lemma_with_count_same(iea, groups.len());
    assert(envelope_values(groups, iea) =~= e.push(a).push(b));
    assert(flatten_value(a) =~= flatten_instances(groups_values(groups)));
    assert(flatten_value(b) =~= seq![iea]);
    assert(flatten_slots(e.push(a)) =~= groups_segments(groups));
    assert(flatten_slots(e.push(a).push(b)) =~= envelope_segments(groups, iea));
}

/// Values that conform to the group grammar are a header, transaction sets
/// and a trailer.
pub proof fn lemma_group_shape(
    set: Seq<SlotModel>,
    vals: Seq<SlotValueModel>,
    follow: Option<Seq<u8>>,
)
    requires
        slots_conform(group_grammar(set), vals, follow),
    ensures
        vals == group_values(group_of(vals)),
{
    let g = group_grammar(set);
    let g1 = g.drop_first();
    let g2 = g1.drop_first();
    let g3 = g2.drop_first();
    let v1 = vals.drop_first();
    let v2 = v1.drop_first();
    let v3 = v2.drop_first();
    assert(g1[0] == g[1]);
    assert(g2[0] == g[2]);
    assert(g3 =~= Seq::<SlotModel>::empty());
    assert(slots_conform(g1, v1, follow));
    assert(slots_conform(g2, v2, follow));
    assert(slots_conform(g3, v3, follow));
    assert(v3.len() == 0);
    assert(vals.len() == 3);
    assert(v1[0] == vals[1]);
    assert(v2[0] == vals[2]);
    assert(slot_conforms(g[0], vals[0], crate::conformance::head_tag(flatten_slots(v1), follow)));
    assert(slot_conforms(g1[0], v1[0], crate::conformance::head_tag(flatten_slots(v2), follow)));
    assert(slot_conforms(g2[0], v2[0], crate::conformance::head_tag(flatten_slots(v3), follow)));
    assert(vals[0] is One);
    assert(vals[1] is Loops);
    assert(vals[2] is One);
    assert(vals =~= group_values(group_of(vals)));
}

/// Repetitions that conform to the group grammar are functional groups.
pub proof fn lemma_groups_shape(
    set: Seq<SlotModel>,
    insts: Seq<Seq<SlotValueModel>>,
    follow: Option<Seq<u8>>,
)
    requires
        instances_conform(group_grammar(set), insts, follow),
    ensures
        insts == groups_values(groups_of(insts)),
    decreases insts.len(),
{
    if insts.len() > 0 {
        let rest = insts.drop_first();
        lemma_groups_shape(set, rest, follow);
        lemma_group_shape(
            set,
            insts[0],
            crate::conformance::head_tag(flatten_instances(rest), follow),
        );
        assert forall|j: int| 0 <= j < insts.len() implies insts[j] == groups_values(
            groups_of(insts),
        )[j] by {
            if j > 0 {
                assert(insts[j] == rest[j - 1]);
                assert(groups_values(groups_of(rest))[j - 1] == group_values(
                    group_of(rest[j - 1]),
                ));
            }
        }
    }
    assert(insts =~= groups_values(groups_of(insts)));
}

/// Values that conform to the envelope grammar are functional groups and an
/// interchange trailer.
pub proof fn lemma_envelope_shape(
    set: Seq<SlotModel>,
    vals: Seq<SlotValueModel>,
    follow: Option<Seq<u8>>,
)
    requires
        slots_conform(envelope_grammar(set), vals, follow),
    ensures
        vals == envelope_values(groups_of(vals[0]->Loops_0), vals[1]->One_0),
{
    let g = envelope_grammar(set);
    let g1 = g.drop_first();
    let g2 = g1.drop_first();
    let v1 = vals.drop_first();
    let v2 = v1.drop_first();
    assert(g1[0] == g[1]);
    assert(g2 =~= Seq::<SlotModel>::empty());
    assert(slots_conform(g1, v1, follow));
    assert(slots_conform(g2, v2, follow));
    assert(vals.len() == 2);
    assert(v1[0] == vals[1]);
    assert(slot_conforms(g[0], vals[0], crate::conformance::head_tag(flatten_slots(v1), follow)));
    assert(slot_conforms(g1[0], v1[0], crate::conformance::head_tag(flatten_slots(v2), follow)));
    assert(vals[0] is Loops);
    assert(vals[1] is One);
    let insts = vals[0]->Loops_0;
    lemma_groups_shape(
        set,
        insts,
        crate::conformance::head_tag(flatten_slots(v1), follow),
    );
    assert(vals =~= envelope_values(groups_of(insts), vals[1]->One_0));
}

/// Round trip from values: parsing the serialization of a legal interchange
/// gives back that interchange.
pub proof fn law_parse_serialize(t: TransmissionModel<Seq<SlotValueModel>>, set: Seq<SlotModel>)
    requires
        legal_transmission(t, set),
    ensures
        parse_model(serialize_model(t), set) == Ok::<
            TransmissionModel<Seq<SlotValueModel>>,
            ParseError,
        >(t),
{
    let segs = envelope_segments(t.groups, t.iea);
    let vals = envelope_values(t.groups, t.iea);
    lemma_tokenize_render(t.isa, segs);
    lemma_envelope_flatten(t.groups, t.iea);
    assert(segs.subrange(0, segs.len() as int) =~= segs);
    assert(stands_at(segs, 0, flatten_slots(vals)));
    lemma_reparse_slots(envelope_grammar(set), vals, segs, 0);
    assert(groups_of(groups_values(t.groups)) =~= t.groups);
    lemma_miscount(t.groups);
}

/// Round trip from text: serializing what a document parses to gives the
/// canonical form of the document, which differs from the document only in
/// the line breaks after segment terminators.
pub proof fn law_serialize_parse(text: Seq<u8>, set: Seq<SlotModel>)
    requires
        parse_model(text, set) is Ok,
    ensures
        serialize_model(parse_model(text, set)->Ok_0) == canonical(
            text,
            parse_model(text, set)->Ok_0.isa.segment_terminator,
        ),
{
    let t = parse_model(text, set)->Ok_0;
    let (isa, segs) = tokenize(text)->Ok_0;
    let (vals, end) = parse_slots(envelope_grammar(set), segs, 0)->Ok_0;
    lemma_parsed_slots(envelope_grammar(set), segs, 0);
    lemma_envelope_shape(set, vals, peek(segs, end));
    lemma_miscount(t.groups);
    lemma_envelope_flatten(t.groups, t.iea);
    assert(segs.subrange(0, segs.len() as int) =~= segs);
    lemma_render_tokenize(text);
}

/// Cardinality: in every interchange that parsing yields, each group
/// trailer counts the transaction sets of its group and the interchange
/// trailer counts the functional groups.
pub proof fn law_cardinality(text: Seq<u8>, set: Seq<SlotModel>)
    requires
        parse_model(text, set) is Ok,
    ensures
        ({
            let t = parse_model(text, set)->Ok_0;
            &&& counts_hold(t.groups, t.iea)
            &&& control_count(t.iea) == Some(t.groups.len())
            &&& forall|j: int|
                0 <= j < t.groups.len() ==> control_count((#[trigger] t.groups[j]).ge) == Some(
                    t.groups[j].sets.len(),
                )
        }),
{
    let t = parse_model(text, set)->Ok_0;
    lemma_miscount(t.groups);
    lemma_decimal_value(t.groups.len());
    assert forall|j: int| 0 <= j < t.groups.len() implies control_count(
        (#[trigger] t.groups[j]).ge,
    ) == Some(t.groups[j].sets.len()) by {
        lemma_decimal_value(t.groups[j].sets.len());
    }
}

/// Optional absence: an optional slot whose tag is not the lookahead leaves
/// the position where it is and holds nothing, and nothing is written for it.
pub proof fn law_optional_absence(
    tag: Seq<u8>,
    input: Seq<SegmentModel>,
    pos: int,
    d: crate::segment::Delimiters,
)
    requires
        !tag_at(input, pos, tag),
    ensures
        parse_slot(SlotModel::Optional { tag }, input, pos) == Ok::<
            (SlotValueModel, int),
            ParseError,
        >((SlotValueModel::Absent, pos)),
        flatten_value(SlotValueModel::Absent) == Seq::<SegmentModel>::empty(),
        render_body(flatten_value(SlotValueModel::Absent), d) == Seq::<u8>::empty(),
{
}

/// Greedy repetition of a segment: a repeated slot takes the whole run of
/// segments that carry its tag and stops before the first that does not; a
/// run longer than the bound is an error at the first segment beyond it.
pub proof fn law_greedy_repeat(
    tag: Seq<u8>,
    max: nat,
    non_empty: bool,
    input: Seq<SegmentModel>,
    pos: int,
)
    requires
        0 <= pos,
    ensures
        ({
            let n = run(input, pos, tag);
            let r = parse_slot(SlotModel::Repeated { tag, max, non_empty }, input, pos);
            &&& forall|q: int| pos <= q < pos + n ==> tag_at(input, q, tag)
            &&& !tag_at(input, pos + n, tag)
            &&& n > max ==> r == Err::<(SlotValueModel, int), ParseError>(
                error_at(ErrorKind::RepeatBoundExceeded, pos + max),
            )
            &&& n <= max && n == 0 && non_empty ==> r == Err::<(SlotValueModel, int), ParseError>(
                error_at(ErrorKind::MissingMandatorySegment, pos),
            )
            &&& n <= max && !(n == 0 && non_empty) ==> r == Ok::<
                (SlotValueModel, int),
                ParseError,
            >((SlotValueModel::Many(input.subrange(pos, pos + n)), pos + n))
        }),
{
    lemma_run(input, pos, tag);
}

/// Greedy repetition of a loop: a nested-loop slot that succeeds holds at
/// most `max` repetitions, whose segments are exactly those consumed, and
/// stops only where the lookahead does not begin another repetition; a
/// repetition that begins when the bound is used up is an error there.
pub proof fn law_greedy_loop(
    slots: Seq<SlotModel>,
    optional: bool,
    max: nat,
    input: Seq<SegmentModel>,
    pos: int,
)
    requires
        0 <= pos <= input.len(),
    ensures
        parse_slot(SlotModel::Nested { slots, optional, max }, input, pos) matches Ok((v, end))
            ==> {
            &&& v is Loops
            &&& v->Loops_0.len() <= max
            &&& pos <= end <= input.len()
            &&& flatten_instances(v->Loops_0) == input.subrange(pos, end)
            &&& !starts_loop(input, end, slots)
        },
        starts_loop(input, pos, slots) ==> parse_iterations(slots, 0, input, pos) == Err::<
            (Seq<Seq<SlotValueModel>>, int),
            ParseError,
        >(error_at(ErrorKind::RepeatBoundExceeded, pos)),
{
    if parse_slot(SlotModel::Nested { slots, optional, max }, input, pos) is Ok {
        lemma_parsed_iterations(slots, max, input, pos);
    }
}

/// Legality of what is parsed: every interchange that parsing yields from
/// a document whose three delimiters differ is legal, so that it can be
/// written and read back.
pub proof fn law_parsed_is_legal(text: Seq<u8>, set: Seq<SlotModel>)
    requires
        parse_model(text, set) is Ok,
        distinct(delimiters_of(parse_model(text, set)->Ok_0.isa)),
    ensures
        legal_transmission(parse_model(text, set)->Ok_0, set),
{
    let t = parse_model(text, set)->Ok_0;
    let (isa, segs) = tokenize(text)->Ok_0;
    let (vals, end) = parse_slots(envelope_grammar(set), segs, 0)->Ok_0;
    lemma_parsed_slots(envelope_grammar(set), segs, 0);
    lemma_envelope_shape(set, vals, peek(segs, end));
    lemma_miscount(t.groups);
    lemma_envelope_flatten(t.groups, t.iea);
    assert(segs.subrange(0, segs.len() as int) =~= segs);
    lemma_render_tokenize(text);
    lemma_tokenized_legal(text);
}

/// The functional group with its trailer carrying the count of its
/// transaction sets.
pub open spec fn counted_group(g: GroupModel<Seq<SlotValueModel>>) -> GroupModel<
    Seq<SlotValueModel>,
> {
    GroupModel { gs: g.gs, sets: g.sets, ge: with_count(g.ge, g.sets.len()) }
}

/// The functional groups with their trailers carrying their counts.
pub open spec fn counted_groups(groups: Seq<GroupModel<Seq<SlotValueModel>>>) -> Seq<
    GroupModel<Seq<SlotValueModel>>,
> {
    groups.map_values(|g: GroupModel<Seq<SlotValueModel>>| counted_group(g))
}

/// The interchange with every trailer carrying the count of the units that
/// are present.
pub open spec fn counted(t: TransmissionModel<Seq<SlotValueModel>>) -> TransmissionModel<
    Seq<SlotValueModel>,
> {
    TransmissionModel {
        isa: t.isa,
        groups: counted_groups(t.groups),
        iea: with_count(t.iea, t.groups.len()),
    }
}

/// Setting a count twice is setting it once.
pub proof fn lemma_with_count_twice(seg: SegmentModel, n: nat)
    ensures
        with_count(with_count(seg, n), n) == with_count(seg, n),
{
    assert(with_count(with_count(seg, n), n).fields =~= with_count(seg, n).fields);
}

/// The segments written for functional groups do not depend on the counts
/// that their trailers carry.
pub proof fn lemma_counted_groups_segments(groups: Seq<GroupModel<Seq<SlotValueModel>>>)
    ensures
        groups_segments(counted_groups(groups)) == groups_segments(groups),
    decreases groups.len(),
{
    let all = counted_groups(groups);
    if groups.len() > 0 {
        let init = groups.drop_last();
        lemma_counted_groups_segments(init);
        assert(all.drop_last() =~= counted_groups(init));
        assert(all.last() == counted_group(groups.last()));
        lemma_with_count_twice(groups.last().ge, groups.last().sets.len());
    }
}

/// Counts are computed when an interchange is written: the serialization
/// does not depend on the counts that the trailers carry, and parsing it
/// gives the interchange with the counts of what is present.
pub proof fn law_serialize_counts(t: TransmissionModel<Seq<SlotValueModel>>, set: Seq<SlotModel>)
    requires
        legal_transmission(counted(t), set),
    ensures
        serialize_model(t) == serialize_model(counted(t)),
        parse_model(serialize_model(t), set) == Ok::<
            TransmissionModel<Seq<SlotValueModel>>,
            ParseError,
        >(counted(t)),
{
    lemma_counted_groups_segments(t.groups);
    lemma_with_count_twice(t.iea, t.groups.len());
    law_parse_serialize(counted(t), set);
}

/// Declared shapes when parsing: what parsing under a directory yields is
/// what parsing without one yields, and the directory admits every segment
/// of the document.
pub proof fn law_directory_parse(text: Seq<u8>, set: Seq<SlotModel>, dir: Seq<SegmentShapeModel>)
    requires
        parse_model_with(text, set, dir) is Ok,
    ensures
        parse_model_with(text, set, dir) == parse_model(text, set),
        forall|i: int|
            0 <= i < tokenize(text)->Ok_0.1.len() ==> admits(
                dir,
                #[trigger] tokenize(text)->Ok_0.1[i],
            ),
{
    lemma_first_misfit(dir, tokenize(text)->Ok_0.1, 0);
}

/// Declared shapes and the round trip: the serialization of a legal
/// interchange all of whose segments the directory admits parses back to
/// the interchange under that directory.
pub proof fn law_directory_round_trip(
    t: TransmissionModel<Seq<SlotValueModel>>,
    set: Seq<SlotModel>,
    dir: Seq<SegmentShapeModel>,
)
    requires
        legal_transmission(t, set),
        forall|i: int|
            0 <= i < envelope_segments(t.groups, t.iea).len() ==> admits(
                dir,
                #[trigger] envelope_segments(t.groups, t.iea)[i],
            ),
    ensures
        parse_model_with(serialize_model(t), set, dir) == Ok::<
            TransmissionModel<Seq<SlotValueModel>>,
            ParseError,
        >(t),
{
    let segs = envelope_segments(t.groups, t.iea);
    lemma_first_misfit(dir, segs, 0);
    lemma_tokenize_render(t.isa, segs);
    law_parse_serialize(t, set);
}

} // verus!
