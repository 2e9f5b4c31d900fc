//! Which loop instances the engine reads back unchanged, and the two
//! directions of the correspondence between matching and flattening.

use crate::engine::{
    first_tag, flatten_instances, flatten_slots, flatten_value, lemma_run, lemma_run_exact,
    parse_iterations, parse_slot, parse_slots, peek, run, starts_loop, tag_at, SlotValueModel,
};
use crate::error::ParseError;
use crate::grammar::SlotModel;
use crate::segment::SegmentModel;
use vstd::prelude::*;

verus! {

/// The tag that is seen after a position that is followed by `segs` and then
/// by a segment tagged `follow` (or by nothing).
pub open spec fn head_tag(segs: Seq<SegmentModel>, follow: Option<Seq<u8>>) -> Option<Seq<u8>> {
    if segs.len() > 0 {
        Some(segs[0].tag)
    } else {
        follow
    }
}

/// Whether `v` is a value that the slot yields when the segment after the
/// slot's own segments is tagged `follow` (`None`: there is none): the tags
/// fit, the bounds are kept, and the lookahead after the value does not fit
/// the slot again, so that greedy matching stops exactly there.
pub open spec fn slot_conforms(slot: SlotModel, v: SlotValueModel, follow: Option<Seq<u8>>) -> bool
    decreases slot, 0nat, 0nat,
{
    match slot {
        SlotModel::Single { tag } => v matches SlotValueModel::One(s) && s.tag == tag,
        SlotModel::Optional { tag } => match v {
            SlotValueModel::One(s) => s.tag == tag,
            SlotValueModel::Absent => follow != Some(tag),
            _ => false,
        },
        SlotModel::Repeated { tag, max, non_empty } => {
            &&& v matches SlotValueModel::Many(items)
            &&& items.len() <= max
            &&& non_empty ==> items.len() > 0
            &&& forall|i: int| 0 <= i < items.len() ==> (#[trigger] items[i]).tag == tag
            &&& follow != Some(tag)
        },
        SlotModel::Nested { slots, optional, max } => {
            &&& v matches SlotValueModel::Loops(insts)
            &&& insts.len() <= max
            &&& !optional ==> insts.len() > 0
            &&& instances_conform(slots, insts, follow)
        },
    }
}

/// Whether `insts` are repetitions that the loop `slots` yields before
/// `follow`: each begins with the loop's first tag and conforms to the
/// grammar, and `follow` does not begin another repetition.
pub open spec fn instances_conform(
    slots: Seq<SlotModel>,
    insts: Seq<Seq<SlotValueModel>>,
    follow: Option<Seq<u8>>,
) -> bool
    decreases slots, 1nat, insts.len(),
{
    if insts.len() == 0 {
        first_tag(slots) is None || follow != first_tag(slots)
    } else {
        let rest = insts.drop_first();
        &&& first_tag(slots) is Some
        &&& head_tag(flatten_slots(insts[0]), None) == first_tag(slots)
        &&& slots_conform(slots, insts[0], head_tag(flatten_instances(rest), follow))
        &&& instances_conform(slots, rest, follow)
    }
}

/// Whether `vals` holds, slot by slot, values that the grammar `slots` yields
/// before `follow`. What follows a slot is the first segment of the later
/// slots' values or, when they are all empty, `follow`.
pub open spec fn slots_conform(
    slots: Seq<SlotModel>,
    vals: Seq<SlotValueModel>,
    follow: Option<Seq<u8>>,
) -> bool
    decreases slots, 0nat, 0nat,
{
    if slots.len() == 0 {
        vals.len() == 0
    } else {
        &&& vals.len() > 0
        &&& slot_conforms(slots[0], vals[0], head_tag(flatten_slots(vals.drop_first()), follow))
        &&& slots_conform(slots.drop_first(), vals.drop_first(), follow)
    }
}

/// Whether the segments `segs` stand in `input` from `pos` on.
pub open spec fn stands_at(input: Seq<SegmentModel>, pos: int, segs: Seq<SegmentModel>) -> bool {
    &&& 0 <= pos
    &&& pos + segs.len() <= input.len()
    &&& input.subrange(pos, pos + segs.len()) == segs
}

/// Where `a + b` stands, `a` stands, `b` stands after it, and the lookahead
/// after `a` is the head of `b` or, when `b` is empty, the lookahead after both.
pub proof fn lemma_stands_split(
    input: Seq<SegmentModel>,
    pos: int,
    a: Seq<SegmentModel>,
    b: Seq<SegmentModel>,
)
    requires
        stands_at(input, pos, a + b),
    ensures
        stands_at(input, pos, a),
        stands_at(input, pos + a.len(), b),
        peek(input, pos + a.len()) == head_tag(b, peek(input, pos + a.len() + b.len())),
{
    let whole = input.subrange(pos, pos + (a + b).len());
    assert(input.subrange(pos, pos + a.len()) =~= whole.subrange(0, a.len() as int));
    assert((a + b).subrange(0, a.len() as int) =~= a);
    assert(input.subrange(pos + a.len(), pos + a.len() + b.len()) =~= whole.subrange(
        a.len() as int,
        (a + b).len() as int,
    ));
    assert((a + b).subrange(a.len() as int, (a + b).len() as int) =~= b);
    if b.len() > 0 {
        assert(input[pos + a.len()] == whole[a.len() as int]);
        assert((a + b)[a.len() as int] == b[0]);
    }
}

/// Matching a slot where a conforming value's segments stand yields that
/// value and stops right after them.
pub proof fn lemma_reparse_slot(
    slot: SlotModel,
    v: SlotValueModel,
    input: Seq<SegmentModel>,
    pos: int,
)
    requires
        stands_at(input, pos, flatten_value(v)),
        slot_conforms(slot, v, peek(input, pos + flatten_value(v).len())),
    ensures
        parse_slot(slot, input, pos) == Ok::<(SlotValueModel, int), ParseError>(
            (v, pos + flatten_value(v).len()),
        ),
    decreases slot, 0nat, 0nat,
{
    let segs = flatten_value(v);
    let here = input.subrange(pos, pos + segs.len());
    match slot {
        SlotModel::Single { tag } => {
            assert(input[pos] == here[0]);
        },
        SlotModel::Optional { tag } => {
            match v {
                SlotValueModel::One(s) => {
                    assert(input[pos] == here[0]);
                },
                _ => {},
            }
        },
        SlotModel::Repeated { tag, max, non_empty } => {
            let items = v->Many_0;
            assert forall|q: int| pos <= q < pos + items.len() implies tag_at(input, q, tag) by {
                assert(input[q] == here[q - pos]);
            }
            lemma_run_exact(input, pos, tag, items.len());
        },
        SlotModel::Nested { slots, optional, max } => {
            let insts = v->Loops_0;
            lemma_reparse_iterations(slots, max, insts, input, pos);
        },
    }
}

/// Matching repetitions of a loop where conforming repetitions stand yields
/// those repetitions and stops right after them.
pub proof fn lemma_reparse_iterations(
    slots: Seq<SlotModel>,
    left: nat,
    insts: Seq<Seq<SlotValueModel>>,
    input: Seq<SegmentModel>,
    pos: int,
)
    requires
        insts.len() <= left,
        stands_at(input, pos, flatten_instances(insts)),
        instances_conform(slots, insts, peek(input, pos + flatten_instances(insts).len())),
    ensures
        parse_iterations(slots, left, input, pos) == Ok::<
            (Seq<Seq<SlotValueModel>>, int),
            ParseError,
        >((insts, pos + flatten_instances(insts).len())),
    decreases slots, 1nat, insts.len(),
{
    if insts.len() == 0 {
        assert(insts =~= Seq::<Seq<SlotValueModel>>::empty());
    } else {
        let first = insts[0];
        let rest = insts.drop_first();
        let a = flatten_slots(first);
        let b = flatten_instances(rest);
        lemma_stands_split(input, pos, a, b);
        assert(input[pos] == input.subrange(pos, pos + a.len())[0]);
        assert(starts_loop(input, pos, slots));
        lemma_reparse_slots(slots, first, input, pos);
        lemma_reparse_iterations(slots, (left - 1) as nat, rest, input, pos + a.len());
        assert(seq![first] + rest =~= insts);
    }
}

/// Matching a grammar where the segments of conforming values stand yields
/// those values and stops right after them.
pub proof fn lemma_reparse_slots(
    slots: Seq<SlotModel>,
    vals: Seq<SlotValueModel>,
    input: Seq<SegmentModel>,
    pos: int,
)
    requires
        stands_at(input, pos, flatten_slots(vals)),
        slots_conform(slots, vals, peek(input, pos + flatten_slots(vals).len())),
    ensures
        parse_slots(slots, input, pos) == Ok::<(Seq<SlotValueModel>, int), ParseError>(
            (vals, pos + flatten_slots(vals).len()),
        ),
    decreases slots, 0nat, 0nat,
{
    if slots.len() == 0 {
        assert(vals =~= Seq::<SlotValueModel>::empty());
    } else {
        let v = vals[0];
        let rest = vals.drop_first();
        let a = flatten_value(v);
        let b = flatten_slots(rest);
        lemma_stands_split(input, pos, a, b);
        lemma_reparse_slot(slots[0], v, input, pos);
        lemma_reparse_slots(slots.drop_first(), rest, input, pos + a.len());
        assert(seq![v] + rest =~= vals);
    }
}

/// What matching one slot yields flattens to exactly the segments it
/// consumed, and conforms to the slot before the lookahead it stopped at.
pub proof fn lemma_parsed_slot(slot: SlotModel, input: Seq<SegmentModel>, pos: int)
    requires
        0 <= pos <= input.len(),
        parse_slot(slot, input, pos) is Ok,
    ensures
        ({
            let (v, end) = parse_slot(slot, input, pos)->Ok_0;
            &&& pos <= end <= input.len()
            &&& flatten_value(v) == input.subrange(pos, end)
            &&& slot_conforms(slot, v, peek(input, end))
        }),
    decreases slot, 0nat, 0nat,
{
    let (v, end) = parse_slot(slot, input, pos)->Ok_0;
    match slot {
        SlotModel::Single { tag } => {
            assert(flatten_value(v) =~= input.subrange(pos, end));
        },
        SlotModel::Optional { tag } => {
            assert(flatten_value(v) =~= input.subrange(pos, end));
        },
        SlotModel::Repeated { tag, max, non_empty } => {
            lemma_run(input, pos, tag);
            let items = input.subrange(pos, pos + run(input, pos, tag));
            assert forall|i: int| 0 <= i < items.len() implies (#[trigger] items[i]).tag
                == tag by {
                assert(tag_at(input, pos + i, tag));
            }
        },
        SlotModel::Nested { slots, optional, max } => {
            lemma_parsed_iterations(slots, max, input, pos);
        },
    }
}

/// What matching repetitions of a loop yields flattens to exactly the
/// segments consumed, keeps the bound, and conforms before the lookahead at
/// which matching stopped.
pub proof fn lemma_parsed_iterations(
    slots: Seq<SlotModel>,
    left: nat,
    input: Seq<SegmentModel>,
    pos: int,
)
    requires
        0 <= pos <= input.len(),
        parse_iterations(slots, left, input, pos) is Ok,
    ensures
        ({
            let (insts, end) = parse_iterations(slots, left, input, pos)->Ok_0;
            &&& pos <= end <= input.len()
            &&& insts.len() <= left
            &&& flatten_instances(insts) == input.subrange(pos, end)
            &&& instances_conform(slots, insts, peek(input, end))
            &&& !starts_loop(input, end, slots)
        }),
    decreases slots, 1nat, left,
{
    let (insts, end) = parse_iterations(slots, left, input, pos)->Ok_0;
    if !starts_loop(input, pos, slots) {
        assert(flatten_instances(insts) =~= input.subrange(pos, end));
    } else {
        lemma_parsed_slots(slots, input, pos);
        let (first, mid) = parse_slots(slots, input, pos)->Ok_0;
        lemma_parsed_iterations(slots, (left - 1) as nat, input, mid);
        let (rest, _) = parse_iterations(slots, (left - 1) as nat, input, mid)->Ok_0;
        assert(insts.drop_first() =~= rest);
        assert(insts[0] == first);
        assert(input.subrange(pos, mid) + input.subrange(mid, end) =~= input.subrange(pos, end));
        lemma_parsed_first(slots, input, pos);
        if rest.len() > 0 {
            assert(flatten_instances(rest)[0] == input[mid]);
        } else {
            assert(mid == end);
        }
        if mid > pos {
            assert(flatten_slots(first)[0] == input[pos]);
        }
    }
}

/// A repetition that begins at the loop's first tag consumes at least that
/// segment.
pub proof fn lemma_parsed_first(slots: Seq<SlotModel>, input: Seq<SegmentModel>, pos: int)
    requires
        0 <= pos <= input.len(),
        starts_loop(input, pos, slots),
        parse_slots(slots, input, pos) is Ok,
    ensures
        parse_slots(slots, input, pos)->Ok_0.1 > pos,
    decreases slots, 0nat, 1nat,
{
    let (v, mid) = parse_slot(slots[0], input, pos)->Ok_0;
    lemma_parsed_slot(slots[0], input, pos);
    lemma_parsed_slots(slots.drop_first(), input, mid);
    match slots[0] {
        SlotModel::Single { tag } => {},
        SlotModel::Optional { tag } => {},
        SlotModel::Repeated { tag, max, non_empty } => {},
        SlotModel::Nested { slots: inner, optional, max } => {
            assert(starts_loop(input, pos, inner));
            lemma_parsed_first(inner, input, pos);
            lemma_parsed_slots(inner, input, pos);
            let (first, m1) = parse_slots(inner, input, pos)->Ok_0;
            lemma_parsed_iterations(inner, (max - 1) as nat, input, m1);
        },
    }
}

/// What matching a grammar yields has one value per slot, flattens to
/// exactly the segments consumed, and conforms to the grammar before the
/// lookahead at which matching stopped.
pub proof fn lemma_parsed_slots(slots: Seq<SlotModel>, input: Seq<SegmentModel>, pos: int)
    requires
        0 <= pos <= input.len(),
        parse_slots(slots, input, pos) is Ok,
    ensures
        ({
            let (vals, end) = parse_slots(slots, input, pos)->Ok_0;
            &&& pos <= end <= input.len()
            &&& vals.len() == slots.len()
            &&& flatten_slots(vals) == input.subrange(pos, end)
            &&& slots_conform(slots, vals, peek(input, end))
        }),
    decreases slots, 0nat, 0nat,
{
    let (vals, end) = parse_slots(slots, input, pos)->Ok_0;
    if slots.len() == 0 {
        assert(flatten_slots(vals) =~= input.subrange(pos, end));
    } else {
        lemma_parsed_slot(slots[0], input, pos);
        let (v, mid) = parse_slot(slots[0], input, pos)->Ok_0;
        lemma_parsed_slots(slots.drop_first(), input, mid);
        let (rest, _) = parse_slots(slots.drop_first(), input, mid)->Ok_0;
        assert(vals.drop_first() =~= rest);
        assert(vals[0] == v);
        assert(input.subrange(pos, mid) + input.subrange(mid, end) =~= input.subrange(pos, end));
        if rest.len() > 0 && flatten_slots(rest).len() > 0 {
            assert(flatten_slots(rest)[0] == input[mid]);
        }
    }
}

} // verus!
