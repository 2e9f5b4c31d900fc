//! The loop engine: greedy matching of a segment sequence against a loop
//! grammar with one segment of lookahead, and the flattening of the result
//! back into a segment sequence.

use crate::bytes::bytes_eq;
use crate::error::{error_at, ErrorKind, ParseError};
use crate::grammar::{lemma_slot_models, LoopSpec, Slot, SlotModel};
use crate::segment::{copy_segment, segment_eq, segment_models, Segment, SegmentModel};
use vstd::prelude::*;

verus! {

/// Mathematical model of what one slot holds after matching.
pub enum SlotValueModel {
    /// An optional segment that was not there.
    Absent,
    /// The segment of a single or optional slot.
    One(SegmentModel),
    /// The run of segments of a repeated slot.
    Many(Seq<SegmentModel>),
    /// The repetitions of a nested loop, each a sequence of slot values.
    Loops(Seq<Seq<SlotValueModel>>),
}

/// What one slot holds after matching.
#[derive(Debug)]
pub enum SlotValue {
    /// An optional segment that was not there.
    Absent,
    /// The segment of a single or optional slot.
    One(Segment),
    /// The run of segments of a repeated slot.
    Many(Vec<Segment>),
    /// The repetitions of a nested loop.
    Loops(Vec<LoopInstance>),
}

/// One application of a loop grammar: a value for each slot, in slot order.
#[derive(Debug)]
pub struct LoopInstance {
    pub slots: Vec<SlotValue>,
}

/// The model of a slot value.
pub open spec fn value_model(v: SlotValue) -> SlotValueModel
    decreases v, 0nat,
{
    match v {
        SlotValue::Absent => SlotValueModel::Absent,
        SlotValue::One(s) => SlotValueModel::One(s@),
        SlotValue::Many(items) => SlotValueModel::Many(segment_models(items@)),
        SlotValue::Loops(insts) => SlotValueModel::Loops(instance_models(insts@, insts@.len())),
    }
}

/// The models of the first `n` slot values of a sequence.
pub open spec fn value_models(vals: Seq<SlotValue>, n: nat) -> Seq<SlotValueModel>
    decreases vals, n,
{
    if n == 0 || n > vals.len() {
        Seq::empty()
    } else {
        value_models(vals, (n - 1) as nat).push(value_model(vals[n - 1]))
    }
}

/// The models of the first `n` loop instances of a sequence.
pub open spec fn instance_models(insts: Seq<LoopInstance>, n: nat) -> Seq<Seq<SlotValueModel>>
    decreases insts, n,
{
    if n == 0 || n > insts.len() {
        Seq::empty()
    } else {
        instance_models(insts, (n - 1) as nat).push(
            value_models(insts[n - 1].slots@, insts[n - 1].slots@.len()),
        )
    }
}

impl View for SlotValue {
    type V = SlotValueModel;

    open spec fn view(&self) -> SlotValueModel {
        value_model(*self)
    }
}

impl View for LoopInstance {
    type V = Seq<SlotValueModel>;

    open spec fn view(&self) -> Seq<SlotValueModel> {
        value_models(self.slots@, self.slots@.len())
    }
}

/// The model of a sequence of slot values has one model per value, in order.
pub proof fn lemma_value_models(vals: Seq<SlotValue>, n: nat)
    requires
        n <= vals.len(),
    ensures
        value_models(vals, n).len() == n,
        forall|i: int| 0 <= i < n ==> #[trigger] value_models(vals, n)[i] == vals[i]@,
    decreases n,
{
    if n > 0 {
        lemma_value_models(vals, (n - 1) as nat);
    }
}

/// The model of a sequence of instances has one model per instance, in order.
pub proof fn lemma_instance_models(insts: Seq<LoopInstance>, n: nat)
    requires
        n <= insts.len(),
    ensures
        instance_models(insts, n).len() == n,
        forall|i: int| 0 <= i < n ==> #[trigger] instance_models(insts, n)[i] == insts[i]@,
    decreases n,
{
    if n > 0 {
        lemma_instance_models(insts, (n - 1) as nat);
    }
}

/// The tag of the segment at `pos`, if there is one: the lookahead.
pub open spec fn peek(input: Seq<SegmentModel>, pos: int) -> Option<Seq<u8>> {
    if 0 <= pos < input.len() {
        Some(input[pos].tag)
    } else {
        None
    }
}

/// Whether a segment stands at `pos` and carries `tag`.
pub open spec fn tag_at(input: Seq<SegmentModel>, pos: int, tag: Seq<u8>) -> bool {
    peek(input, pos) == Some(tag)
}

/// The tag by which a repetition of a loop is recognised: the tag of its
/// first slot, looked up through leading nested loops. A grammar without
/// slots has none.
pub open spec fn first_tag(slots: Seq<SlotModel>) -> Option<Seq<u8>>
    decreases slots,
{
    if slots.len() == 0 {
        None
    } else {
        match slots[0] {
            SlotModel::Single { tag } => Some(tag),
            SlotModel::Optional { tag } => Some(tag),
            SlotModel::Repeated { tag, .. } => Some(tag),
            SlotModel::Nested { slots: inner, .. } => first_tag(inner),
        }
    }
}

/// Whether the segment at `pos` begins a repetition of the loop `slots`.
pub open spec fn starts_loop(input: Seq<SegmentModel>, pos: int, slots: Seq<SlotModel>) -> bool {
    match first_tag(slots) {
        Some(tag) => tag_at(input, pos, tag),
        None => false,
    }
}

/// The number of consecutive segments from `pos` on that carry `tag`.
pub open spec fn run(input: Seq<SegmentModel>, pos: int, tag: Seq<u8>) -> nat
    decreases input.len() - pos,
{
    if tag_at(input, pos, tag) {
        1 + run(input, pos + 1, tag)
    } else {
        0
    }
}

/// The result of matching one slot at `pos`: the slot's value and the
/// position after it, or the error.
pub open spec fn parse_slot(slot: SlotModel, input: Seq<SegmentModel>, pos: int) -> Result<
    (SlotValueModel, int),
    ParseError,
>
    decreases slot, 0nat, 0nat,
{
    match slot {
        SlotModel::Single { tag } => if tag_at(input, pos, tag) {
            Ok((SlotValueModel::One(input[pos]), pos + 1))
        } else {
            Err(error_at(ErrorKind::MissingMandatorySegment, pos))
        },
        SlotModel::Optional { tag } => if tag_at(input, pos, tag) {
            Ok((SlotValueModel::One(input[pos]), pos + 1))
        } else {
            Ok((SlotValueModel::Absent, pos))
        },
        SlotModel::Repeated { tag, max, non_empty } => {
            let n = run(input, pos, tag);
            if n > max {
                Err(error_at(ErrorKind::RepeatBoundExceeded, pos + max))
            } else if n == 0 && non_empty {
                Err(error_at(ErrorKind::MissingMandatorySegment, pos))
            } else {
                Ok((SlotValueModel::Many(input.subrange(pos, pos + n)), pos + n))
            }
        },
        SlotModel::Nested { slots, optional, max } => match parse_iterations(
            slots,
            max,
            input,
            pos,
        ) {
            Err(e) => Err(e),
            Ok((insts, end)) => if insts.len() == 0 && !optional {
                Err(error_at(ErrorKind::MissingMandatorySegment, pos))
            } else {
                Ok((SlotValueModel::Loops(insts), end))
            },
        },
    }
}

/// The result of matching repetitions of the loop `slots` at `pos`, of which
/// at most `left` are allowed: a repetition begins while the lookahead is the
/// loop's first tag; one that begins when none is left exceeds the bound.
pub open spec fn parse_iterations(
    slots: Seq<SlotModel>,
    left: nat,
    input: Seq<SegmentModel>,
    pos: int,
) -> Result<(Seq<Seq<SlotValueModel>>, int), ParseError>
    decreases slots, 1nat, left,
{
    if !starts_loop(input, pos, slots) {
        Ok((Seq::empty(), pos))
    } else if left == 0 {
        Err(error_at(ErrorKind::RepeatBoundExceeded, pos))
    } else {
        match parse_slots(slots, input, pos) {
            Err(e) => Err(e),
            Ok((inst, mid)) => match parse_iterations(slots, (left - 1) as nat, input, mid) {
                Err(e) => Err(e),
                Ok((rest, end)) => Ok((seq![inst] + rest, end)),
            },
        }
    }
}

/// The result of matching the slots of a grammar in order, starting at
/// `pos`: one value per slot and the position after the last one, or the
/// first error. Segments after that position are not looked at.
pub open spec fn parse_slots(slots: Seq<SlotModel>, input: Seq<SegmentModel>, pos: int) -> Result<
    (Seq<SlotValueModel>, int),
    ParseError,
>
    decreases slots, 0nat, 0nat,
{
    if slots.len() == 0 {
        Ok((Seq::empty(), pos))
    } else {
        match parse_slot(slots[0], input, pos) {
            Err(e) => Err(e),
            Ok((v, mid)) => match parse_slots(slots.drop_first(), input, mid) {
                Err(e) => Err(e),
                Ok((rest, end)) => Ok((seq![v] + rest, end)),
            },
        }
    }
}

/// The segments of a slot value, in order.
pub open spec fn flatten_value(v: SlotValueModel) -> Seq<SegmentModel>
    decreases v,
{
    match v {
        SlotValueModel::Absent => Seq::empty(),
        SlotValueModel::One(s) => seq![s],
        SlotValueModel::Many(items) => items,
        SlotValueModel::Loops(insts) => flatten_instances(insts),
    }
}

/// The segments of a sequence of slot values: those of each value, in slot
/// order.
pub open spec fn flatten_slots(vals: Seq<SlotValueModel>) -> Seq<SegmentModel>
    decreases vals,
{
    if vals.len() == 0 {
        Seq::empty()
    } else {
        flatten_value(vals[0]) + flatten_slots(vals.drop_first())
    }
}

/// The segments of a sequence of loop repetitions, in stored order.
pub open spec fn flatten_instances(insts: Seq<Seq<SlotValueModel>>) -> Seq<SegmentModel>
    decreases insts,
{
    if insts.len() == 0 {
        Seq::empty()
    } else {
        flatten_slots(insts[0]) + flatten_instances(insts.drop_first())
    }
}


/// `done` put in front of the values of a result.
pub open spec fn prepend<T>(done: Seq<T>, r: Result<(Seq<T>, int), ParseError>) -> Result<
    (Seq<T>, int),
    ParseError,
> {
    match r {
        Ok((rest, end)) => Ok((done + rest, end)),
        Err(e) => Err(e),
    }
}

/// Whether the outcome of the executable engine is the outcome `m` of the
/// model: the same error, or an instance with the model's values and the same
/// end position.
pub open spec fn instance_result_is(
    r: Result<(LoopInstance, usize), ParseError>,
    m: Result<(Seq<SlotValueModel>, int), ParseError>,
) -> bool {
    match (r, m) {
        (Ok((inst, end)), Ok((vals, p))) => inst@ == vals && end == p,
        (Err(e), Err(f)) => e == f,
        _ => false,
    }
}

/// Whether the outcome of matching one slot is the outcome `m` of the model.
pub open spec fn value_result_is(
    r: Result<(SlotValue, usize), ParseError>,
    m: Result<(SlotValueModel, int), ParseError>,
) -> bool {
    match (r, m) {
        (Ok((v, end)), Ok((w, p))) => v@ == w && end == p,
        (Err(e), Err(f)) => e == f,
        _ => false,
    }
}

/// A run is at least as long as any stretch of matching segments from `pos`.
pub proof fn lemma_run_at_least(input: Seq<SegmentModel>, pos: int, tag: Seq<u8>, n: nat)
    requires
        forall|q: int| pos <= q < pos + n ==> tag_at(input, q, tag),
    ensures
        run(input, pos, tag) >= n,
    decreases n,
{
    if n > 0 {
        assert(tag_at(input, pos, tag));
        lemma_run_at_least(input, pos + 1, tag, (n - 1) as nat);
    }
}

/// A stretch of matching segments from `pos` that ends before a segment that
/// does not match is the run.
pub proof fn lemma_run_exact(input: Seq<SegmentModel>, pos: int, tag: Seq<u8>, n: nat)
    requires
        forall|q: int| pos <= q < pos + n ==> tag_at(input, q, tag),
        !tag_at(input, pos + n, tag),
    ensures
        run(input, pos, tag) == n,
    decreases n,
{
    if n > 0 {
        assert(tag_at(input, pos, tag));
        lemma_run_exact(input, pos + 1, tag, (n - 1) as nat);
    }
}

/// Every segment of a run carries the tag, the run ends inside the input, and
/// the segment after it, if any, does not carry the tag.
pub proof fn lemma_run(input: Seq<SegmentModel>, pos: int, tag: Seq<u8>)
    requires
        0 <= pos,
    ensures
        forall|q: int| pos <= q < pos + run(input, pos, tag) ==> tag_at(input, q, tag),
        !tag_at(input, pos + run(input, pos, tag), tag),
        run(input, pos, tag) == 0 || pos + run(input, pos, tag) <= input.len(),
    decreases input.len() - pos,
{
    if tag_at(input, pos, tag) {
        lemma_run(input, pos + 1, tag);
    }
}

/// Whether the segment at `pos`, if any, carries `tag`.
pub fn peek_is(input: &Vec<Segment>, pos: usize, tag: &Vec<u8>) -> (r: bool)
    ensures
        r == tag_at(segment_models(input@), pos as int, tag@),
{
    pos < input.len() && bytes_eq(input[pos].tag.as_slice(), tag.as_slice())
}

/// The tag by which a repetition of the loop `spec` is recognised.
pub fn leading_tag(spec: &LoopSpec) -> (r: Option<&Vec<u8>>)
    ensures
        match r {
            Some(tag) => first_tag(spec@) == Some(tag@),
            None => first_tag(spec@) is None,
        },
    decreases spec,
{
    proof {
        lemma_slot_models(spec.slots@, spec.slots@.len());
    }
    if spec.slots.len() == 0 {
        return None;
    }
    match &spec.slots[0] {
        Slot::Single { tag } => Some(tag),
        Slot::Optional { tag } => Some(tag),
        Slot::Repeated { tag, .. } => Some(tag),
        Slot::Nested { spec: inner, .. } => leading_tag(inner),
    }
}

/// Matches one slot of a grammar against the segments from `pos` on.
pub fn parse_slot_at(slot: &Slot, input: &Vec<Segment>, pos: usize) -> (r: Result<
    (SlotValue, usize),
    ParseError,
>)
    requires
        pos <= input.len(),
    ensures
        value_result_is(r, parse_slot(slot@, segment_models(input@), pos as int)),
        r matches Ok((_, end)) ==> pos <= end <= input.len(),
    decreases slot, 0nat,
{
    let ghost model = segment_models(input@);
    match slot {
        Slot::Single { tag } => {
            if peek_is(input, pos, tag) {
                Ok((SlotValue::One(copy_segment(&input[pos])), pos + 1))
            } else {
                Err(ParseError { kind: ErrorKind::MissingMandatorySegment, offset: pos })
            }
        },
        Slot::Optional { tag } => {
            if peek_is(input, pos, tag) {
                Ok((SlotValue::One(copy_segment(&input[pos])), pos + 1))
            } else {
                Ok((SlotValue::Absent, pos))
            }
        },
        Slot::Repeated { tag, max, non_empty } => {
            let mut items: Vec<Segment> = Vec::new();
            let mut p: usize = pos;
            while items.len() < *max && peek_is(input, p, tag)
                invariant
                    model == segment_models(input@),
                    pos <= p <= input.len(),
                    p - pos == items.len(),
                    items.len() <= *max,
                    segment_models(items@) == model.subrange(pos as int, p as int),
                    forall|q: int| pos <= q < p ==> tag_at(model, q, tag@),
                decreases input.len() - p,
            {
                let ghost prev = items@;
                items.push(copy_segment(&input[p]));
                proof {
                    assert(segment_models(items@) =~= segment_models(prev).push(model[p as int]));
                    assert(model.subrange(pos as int, p + 1) =~= model.subrange(
                        pos as int,
                        p as int,
                    ).push(model[p as int]));
                }
                p += 1;
            }
            if peek_is(input, p, tag) {
                proof {
                    lemma_run_at_least(model, pos as int, tag@, (p - pos + 1) as nat);
                }
                Err(ParseError { kind: ErrorKind::RepeatBoundExceeded, offset: p })
            } else {
                proof {
                    lemma_run_exact(model, pos as int, tag@, (p - pos) as nat);
                }
                if items.len() == 0 && *non_empty {
                    Err(ParseError { kind: ErrorKind::MissingMandatorySegment, offset: pos })
                } else {
                    Ok((SlotValue::Many(items), p))
                }
            }
        },
        Slot::Nested { spec, optional, max } => {
            match parse_repetitions(spec, *max, input, pos) {
                Err(e) => Err(e),
                Ok((insts, end)) => {
                    proof {
                        lemma_instance_models(insts@, insts@.len());
                    }
                    if insts.len() == 0 && !*optional {
                        Err(ParseError { kind: ErrorKind::MissingMandatorySegment, offset: pos })
                    } else {
                        Ok((SlotValue::Loops(insts), end))
                    }
                },
            }
        },
    }
}

/// Whether the outcome of matching repetitions of a loop is the outcome `m`
/// of the model.
pub open spec fn instances_result_is(
    r: Result<(Vec<LoopInstance>, usize), ParseError>,
    m: Result<(Seq<Seq<SlotValueModel>>, int), ParseError>,
) -> bool {
    match (r, m) {
        (Ok((insts, end)), Ok((vals, p))) => instance_models(insts@, insts@.len()) == vals && end
            == p,
        (Err(e), Err(f)) => e == f,
        _ => false,
    }
}

/// Matches repetitions of the loop `spec` from `pos` on, at most `max` of
/// them: a repetition begins while the lookahead is the loop's first tag.
pub fn parse_repetitions(spec: &LoopSpec, max: usize, input: &Vec<Segment>, pos: usize) -> (r:
    Result<(Vec<LoopInstance>, usize), ParseError>)
    requires
        pos <= input.len(),
    ensures
        instances_result_is(
            r,
            parse_iterations(spec@, max as nat, segment_models(input@), pos as int),
        ),
        r matches Ok((_, end)) ==> pos <= end <= input.len(),
    decreases spec, 2nat,
{
    let ghost model = segment_models(input@);
    let lead = leading_tag(spec);
    let mut insts: Vec<LoopInstance> = Vec::new();
    let mut p: usize = pos;
    let ghost whole = parse_iterations(spec@, max as nat, model, pos as int);
    proof {
        if whole is Ok {
            assert(Seq::<Seq<SlotValueModel>>::empty() + whole->Ok_0.0 =~= whole->Ok_0.0);
        }
    }
    loop
        invariant
            model == segment_models(input@),
            pos <= p <= input.len(),
            insts.len() <= max,
            match lead {
                Some(tag) => first_tag(spec@) == Some(tag@),
                None => first_tag(spec@) is None,
            },
            whole == parse_iterations(spec@, max as nat, model, pos as int),
            whole == prepend(
                instance_models(insts@, insts@.len()),
                parse_iterations(spec@, (max - insts.len()) as nat, model, p as int),
            ),
        ensures
            pos <= p <= input.len(),
            whole == Ok::<(Seq<Seq<SlotValueModel>>, int), ParseError>(
                (instance_models(insts@, insts@.len()), p as int),
            ),
        decreases max - insts.len(),
    {
        let more = match lead {
            Some(tag) => peek_is(input, p, tag),
            None => false,
        };
        if !more {
            proof {
                assert(instance_models(insts@, insts@.len()) + Seq::<
                    Seq<SlotValueModel>,
                >::empty() =~= instance_models(insts@, insts@.len()));
            }
            break ;
        }
        if insts.len() >= max {
            return Err(ParseError { kind: ErrorKind::RepeatBoundExceeded, offset: p });
        }
        match parse_loop(spec, input, p) {
            Err(e) => {
                return Err(e);
            },
            Ok((inst, end)) => {
                let ghost prev = insts@;
                let ghost tail = parse_iterations(
                    spec@,
                    (max - insts.len() - 1) as nat,
                    model,
                    end as int,
                );
                insts.push(inst);
                proof {
                    lemma_instance_models(prev, prev.len());
                    lemma_instance_models(insts@, insts@.len());
                    assert(instance_models(insts@, insts@.len()) =~= instance_models(
                        prev,
                        prev.len(),
                    ).push(inst@));
                    if tail is Ok {
                        assert(instance_models(prev, prev.len()) + (seq![inst@] + tail->Ok_0.0)
                            =~= instance_models(insts@, insts@.len()) + tail->Ok_0.0);
                    }
                }
                p = end;
            },
        }
    }
    Ok((insts, p))
}

/// Applies a loop grammar to the segments from `start` on: walks the slots in
/// order, consumes segments while the lookahead fits the slot at hand, and
/// returns the instance built together with the position of the first
/// segment that was not consumed.
pub fn parse_loop(spec: &LoopSpec, input: &Vec<Segment>, start: usize) -> (r: Result<
    (LoopInstance, usize),
    ParseError,
>)
    requires
        start <= input.len(),
    ensures
        instance_result_is(r, parse_slots(spec@, segment_models(input@), start as int)),
        r matches Ok((_, end)) ==> start <= end <= input.len(),
    decreases spec, 1nat,
{
    let ghost model = segment_models(input@);
    let ghost whole = parse_slots(spec@, model, start as int);
    let mut done: Vec<SlotValue> = Vec::new();
    let mut pos: usize = start;
    let mut k: usize = 0;
    proof {
        lemma_slot_models(spec.slots@, spec.slots@.len());
        assert(spec@.skip(0) =~= spec@);
        if whole is Ok {
            assert(Seq::<SlotValueModel>::empty() + whole->Ok_0.0 =~= whole->Ok_0.0);
        }
    }
    while k < spec.slots.len()
        invariant
            model == segment_models(input@),
            k <= spec.slots.len(),
            spec@.len() == spec.slots.len(),
            forall|i: int| 0 <= i < spec.slots.len() ==> spec@[i] == #[trigger] spec.slots[i]@,
            start <= pos <= input.len(),
            whole == parse_slots(spec@, model, start as int),
            whole == prepend(
                value_models(done@, done@.len()),
                parse_slots(spec@.skip(k as int), model, pos as int),
            ),
        decreases spec.slots.len() - k,
    {
        let ghost suffix = spec@.skip(k as int);
        proof {
            assert(suffix[0] == spec.slots[k as int]@);
            assert(suffix.drop_first() =~= spec@.skip(k + 1));
        }
        match parse_slot_at(&spec.slots[k], input, pos) {
            Err(e) => {
                proof {
                    assert(parse_slot(suffix[0], model, pos as int) == Err::<
                        (SlotValueModel, int),
                        ParseError,
                    >(e));
                    assert(parse_slots(suffix, model, pos as int) == Err::<
                        (Seq<SlotValueModel>, int),
                        ParseError,
                    >(e));
                }
                return Err(e);
            },
            Ok((v, end)) => {
                let ghost prev = done@;
                let ghost tail = parse_slots(spec@.skip(k + 1), model, end as int);
                done.push(v);
                proof {
                    lemma_value_models(prev, prev.len());
                    lemma_value_models(done@, done@.len());
                    assert(value_models(done@, done@.len()) =~= value_models(
                        prev,
                        prev.len(),
                    ).push(v@));
                    if tail is Ok {
                        assert(value_models(prev, prev.len()) + (seq![v@] + tail->Ok_0.0)
                            =~= value_models(done@, done@.len()) + tail->Ok_0.0);
                    }
                }
                pos = end;
            },
        }
        k += 1;
    }
    proof {
        assert(spec@.skip(k as int) =~= Seq::<SlotModel>::empty());
        assert(value_models(done@, done@.len()) + Seq::<SlotValueModel>::empty()
            =~= value_models(done@, done@.len()));
    }
    Ok((LoopInstance { slots: done }, pos))
}

/// Appends the segments of a slot value to `out`.
pub fn flatten_value_into(v: &SlotValue, out: &mut Vec<Segment>)
    ensures
        segment_models(final(out)@) == segment_models(old(out)@) + flatten_value(v@),
    decreases v, 0nat,
{
    match v {
        SlotValue::Absent => {
            proof {
                assert(segment_models(out@) + Seq::<SegmentModel>::empty() =~= segment_models(
                    out@,
                ));
            }
        },
        SlotValue::One(s) => {
            out.push(copy_segment(s));
            proof {
                assert(segment_models(out@) =~= segment_models(old(out)@) + seq![s@]);
            }
        },
        SlotValue::Many(items) => {
            let mut i: usize = 0;
            proof {
                assert(segment_models(out@) + segment_models(items@).take(0) =~= segment_models(
                    out@,
                ));
            }
            while i < items.len()
                invariant
                    i <= items.len(),
                    segment_models(out@) == segment_models(old(out)@) + segment_models(
                        items@,
                    ).take(i as int),
                decreases items.len() - i,
            {
                let ghost prev = out@;
                out.push(copy_segment(&items[i]));
                proof {
                    assert(segment_models(out@) =~= segment_models(prev).push(
                        items[i as int]@,
                    ));
                    assert(segment_models(items@).take(i + 1) =~= segment_models(items@).take(
                        i as int,
                    ).push(items[i as int]@));
                    assert(segment_models(out@) =~= segment_models(old(out)@) + segment_models(
                        items@,
                    ).take(i + 1));
                }
                i += 1;
            }
            proof {
                assert(segment_models(items@).take(items.len() as int) =~= segment_models(
                    items@,
                ));
            }
        },
        SlotValue::Loops(insts) => {
            let ghost all = instance_models(insts@, insts@.len());
            let mut i: usize = 0;
            proof {
                lemma_instance_models(insts@, insts@.len());
                assert(all.take(0) =~= Seq::<Seq<SlotValueModel>>::empty());
                assert(segment_models(out@) + Seq::<SegmentModel>::empty() =~= segment_models(
                    out@,
                ));
            }
            while i < insts.len()
                invariant
                    *v == SlotValue::Loops(*insts),
                    i <= insts.len(),
                    all == instance_models(insts@, insts@.len()),
                    all.len() == insts.len(),
                    forall|j: int| 0 <= j < insts.len() ==> all[j] == #[trigger] insts[j]@,
                    segment_models(out@) == segment_models(old(out)@) + flatten_instances(
                        all.take(i as int),
                    ),
                decreases insts.len() - i,
            {
                let ghost before = segment_models(out@);
                proof {
                    assert(v->Loops_0 == *insts);
                    assert(decreases_to!(*insts => insts[i as int]));
                }
                flatten_into(&insts[i], out);
                proof {
                    lemma_flatten_instances_push(all.take(i as int), all[i as int]);
                    assert(all.take(i as int).push(all[i as int]) =~= all.take(i + 1));
                    assert(segment_models(old(out)@) + (flatten_instances(all.take(i as int))
                        + flatten_slots(all[i as int])) =~= before + flatten_slots(
                        all[i as int],
                    ));
                }
                i += 1;
            }
            proof {
                assert(all.take(insts.len() as int) =~= all);
            }
        },
    }
}

/// Appends the segments of a loop instance to `out`: those of each slot in
/// slot order, nested repetitions in stored order, nothing for an absent slot.
pub fn flatten_into(inst: &LoopInstance, out: &mut Vec<Segment>)
    ensures
        segment_models(final(out)@) == segment_models(old(out)@) + flatten_slots(inst@),
    decreases inst, 1nat,
{
    let ghost all = inst@;
    let mut i: usize = 0;
    proof {
        lemma_value_models(inst.slots@, inst.slots@.len());
        assert(all.take(0) =~= Seq::<SlotValueModel>::empty());
        assert(segment_models(out@) + Seq::<SegmentModel>::empty() =~= segment_models(out@));
    }
    while i < inst.slots.len()
        invariant
            i <= inst.slots.len(),
            all == inst@,
            all.len() == inst.slots.len(),
            forall|j: int| 0 <= j < inst.slots.len() ==> all[j] == #[trigger] inst.slots[j]@,
            segment_models(out@) == segment_models(old(out)@) + flatten_slots(all.take(i as int)),
        decreases inst.slots.len() - i,
    {
        let ghost before = segment_models(out@);
        flatten_value_into(&inst.slots[i], out);
        proof {
            lemma_flatten_slots_push(all.take(i as int), all[i as int]);
            assert(all.take(i as int).push(all[i as int]) =~= all.take(i + 1));
            assert(segment_models(old(out)@) + (flatten_slots(all.take(i as int))
                + flatten_value(all[i as int])) =~= before + flatten_value(all[i as int]));
        }
        i += 1;
    }
    proof {
        assert(all.take(inst.slots.len() as int) =~= all);
    }
}

/// The segments of a loop instance, in grammar order.
pub fn flatten(inst: &LoopInstance) -> (r: Vec<Segment>)
    ensures
        segment_models(r@) == flatten_slots(inst@),
{
    let mut out: Vec<Segment> = Vec::new();
    flatten_into(inst, &mut out);
    proof {
        assert(segment_models(Seq::<Segment>::empty()) + flatten_slots(inst@) =~= flatten_slots(
            inst@,
        ));
    }
    out
}

/// Flattening distributes over concatenation of slot values.
pub proof fn lemma_flatten_slots_concat(a: Seq<SlotValueModel>, b: Seq<SlotValueModel>)
    ensures
        flatten_slots(a + b) == flatten_slots(a) + flatten_slots(b),
    decreases a.len(),
{
    if a.len() == 0 {
        assert(a + b =~= b);
        assert(flatten_slots(a) + flatten_slots(b) =~= flatten_slots(b));
    } else {
        lemma_flatten_slots_concat(a.drop_first(), b);
        assert((a + b).drop_first() =~= a.drop_first() + b);
        assert(flatten_value(a[0]) + (flatten_slots(a.drop_first()) + flatten_slots(b))
            =~= flatten_slots(a) + flatten_slots(b));
    }
}

/// Flattening one more slot value appends its segments.
pub proof fn lemma_flatten_slots_push(a: Seq<SlotValueModel>, v: SlotValueModel)
    ensures
        flatten_slots(a.push(v)) == flatten_slots(a) + flatten_value(v),
{
    lemma_flatten_slots_concat(a, seq![v]);
    assert(a.push(v) =~= a + seq![v]);
    assert(seq![v].drop_first() =~= Seq::<SlotValueModel>::empty());
    assert(flatten_slots(seq![v].drop_first()) =~= Seq::<SegmentModel>::empty());
    assert(flatten_slots(seq![v]) =~= flatten_value(v));
}

/// Flattening distributes over concatenation of loop repetitions.
pub proof fn lemma_flatten_instances_concat(
    a: Seq<Seq<SlotValueModel>>,
    b: Seq<Seq<SlotValueModel>>,
)
    ensures
        flatten_instances(a + b) == flatten_instances(a) + flatten_instances(b),
    decreases a.len(),
{
    if a.len() == 0 {
        assert(a + b =~= b);
        assert(flatten_instances(a) + flatten_instances(b) =~= flatten_instances(b));
    } else {
        lemma_flatten_instances_concat(a.drop_first(), b);
        assert((a + b).drop_first() =~= a.drop_first() + b);
        assert(flatten_slots(a[0]) + (flatten_instances(a.drop_first()) + flatten_instances(b))
            =~= flatten_instances(a) + flatten_instances(b));
    }
}

/// Flattening one more loop repetition appends its segments.
pub proof fn lemma_flatten_instances_push(a: Seq<Seq<SlotValueModel>>, inst: Seq<SlotValueModel>)
    ensures
        flatten_instances(a.push(inst)) == flatten_instances(a) + flatten_slots(inst),
{
    lemma_flatten_instances_concat(a, seq![inst]);
    assert(a.push(inst) =~= a + seq![inst]);
    assert(seq![inst].drop_first() =~= Seq::<Seq<SlotValueModel>>::empty());
    assert(flatten_instances(seq![inst].drop_first()) =~= Seq::<SegmentModel>::empty());
    assert(flatten_instances(seq![inst]) =~= flatten_slots(inst));
}

/// Copies a slot value.
pub fn copy_value(v: &SlotValue) -> (r: SlotValue)
    ensures
        r@ == v@,
    decreases v, 0nat,
{
    match v {
        SlotValue::Absent => SlotValue::Absent,
        SlotValue::One(s) => SlotValue::One(copy_segment(s)),
        SlotValue::Many(items) => {
            let mut out: Vec<Segment> = Vec::new();
            let mut i: usize = 0;
            proof {
                assert(segment_models(out@) =~= segment_models(items@).take(0));
            }
            while i < items.len()
                invariant
                    i <= items.len(),
                    segment_models(out@) == segment_models(items@).take(i as int),
                decreases items.len() - i,
            {
                let ghost prev = out@;
                out.push(copy_segment(&items[i]));
                proof {
                    assert(segment_models(out@) =~= segment_models(prev).push(
                        items[i as int]@,
                    ));
                    assert(segment_models(items@).take(i + 1) =~= segment_models(items@).take(
                        i as int,
                    ).push(items[i as int]@));
                }
                i += 1;
            }
            proof {
                assert(segment_models(items@).take(items.len() as int) =~= segment_models(
                    items@,
                ));
            }
            SlotValue::Many(out)
        },
        SlotValue::Loops(insts) => {
            let mut out: Vec<LoopInstance> = Vec::new();
            let ghost all = instance_models(insts@, insts@.len());
            let mut i: usize = 0;
            proof {
                lemma_instance_models(insts@, insts@.len());
                assert(instance_models(out@, out@.len()) =~= all.take(0));
            }
            while i < insts.len()
                invariant
                    *v == SlotValue::Loops(*insts),
                    i <= insts.len(),
                    all == instance_models(insts@, insts@.len()),
                    all.len() == insts.len(),
                    forall|j: int| 0 <= j < insts.len() ==> all[j] == #[trigger] insts[j]@,
                    instance_models(out@, out@.len()) == all.take(i as int),
                decreases insts.len() - i,
            {
                let ghost prev = out@;
                proof {
                    assert(v->Loops_0 == *insts);
                    assert(decreases_to!(*insts => insts[i as int]));
                }
                let copy = copy_instance(&insts[i]);
                out.push(copy);
                proof {
                    lemma_instance_models(prev, prev.len());
                    lemma_instance_models(out@, out@.len());
                    assert(instance_models(out@, out@.len()) =~= all.take(i + 1));
                }
                i += 1;
            }
            proof {
                assert(all.take(insts.len() as int) =~= all);
            }
            SlotValue::Loops(out)
        },
    }
}

/// Copies a loop instance.
pub fn copy_instance(inst: &LoopInstance) -> (r: LoopInstance)
    ensures
        r@ == inst@,
    decreases inst, 1nat,
{
    let mut out: Vec<SlotValue> = Vec::new();
    let ghost all = inst@;
    let mut i: usize = 0;
    proof {
        lemma_value_models(inst.slots@, inst.slots@.len());
        assert(value_models(out@, out@.len()) =~= all.take(0));
    }
    while i < inst.slots.len()
        invariant
            i <= inst.slots.len(),
            all == inst@,
            all.len() == inst.slots.len(),
            forall|j: int| 0 <= j < inst.slots.len() ==> all[j] == #[trigger] inst.slots[j]@,
            value_models(out@, out@.len()) == all.take(i as int),
        decreases inst.slots.len() - i,
    {
        let ghost prev = out@;
        let copy = copy_value(&inst.slots[i]);
        out.push(copy);
        proof {
            lemma_value_models(prev, prev.len());
            lemma_value_models(out@, out@.len());
            assert(value_models(out@, out@.len()) =~= all.take(i + 1));
        }
        i += 1;
    }
    proof {
        assert(all.take(inst.slots.len() as int) =~= all);
    }
    LoopInstance { slots: out }
}

impl Clone for SlotValue {
    fn clone(&self) -> (r: Self)
        ensures
            r@ == self@,
    {
        copy_value(self)
    }
}

impl Clone for LoopInstance {
    fn clone(&self) -> (r: Self)
        ensures
            r@ == self@,
    {
        copy_instance(self)
    }
}

impl Default for SlotValue {
    /// The absent value.
    fn default() -> (r: Self)
        ensures
            r == SlotValue::Absent,
    {
        SlotValue::Absent
    }
}

impl Default for LoopInstance {
    /// The instance without slots.
    fn default() -> (r: Self)
        ensures
            r@ == Seq::<SlotValueModel>::empty(),
    {
        LoopInstance { slots: Vec::new() }
    }
}

/// Compares two slot values.
pub fn value_eq(a: &SlotValue, b: &SlotValue) -> (r: bool)
    ensures
        r == (a@ == b@),
    decreases a, 0nat,
{
    match (a, b) {
        (SlotValue::Absent, SlotValue::Absent) => true,
        (SlotValue::One(x), SlotValue::One(y)) => segment_eq(x, y),
        (SlotValue::Many(x), SlotValue::Many(y)) => {
            if x.len() != y.len() {
                proof {
                    assert(segment_models(x@).len() != segment_models(y@).len());
                }
                return false;
            }
            let mut i: usize = 0;
            while i < x.len()
                invariant
                    *a == SlotValue::Many(*x),
                    *b == SlotValue::Many(*y),
                    x.len() == y.len(),
                    i <= x.len(),
                    forall|j: int| 0 <= j < i ==> x@[j]@ == y@[j]@,
                decreases x.len() - i,
            {
                if !segment_eq(&x[i], &y[i]) {
                    proof {
                        assert(segment_models(x@)[i as int] == x@[i as int]@);
                        assert(segment_models(y@)[i as int] == y@[i as int]@);
                    }
                    return false;
                }
                i += 1;
            }
            proof {
                assert(segment_models(x@) =~= segment_models(y@));
            }
            true
        },
        (SlotValue::Loops(x), SlotValue::Loops(y)) => {
            proof {
                lemma_instance_models(x@, x@.len());
                lemma_instance_models(y@, y@.len());
            }
            if x.len() != y.len() {
                return false;
            }
            let mut i: usize = 0;
            while i < x.len()
                invariant
                    *a == SlotValue::Loops(*x),
                    *b == SlotValue::Loops(*y),
                    x.len() == y.len(),
                    i <= x.len(),
                    instance_models(x@, x@.len()).len() == x.len(),
                    instance_models(y@, y@.len()).len() == y.len(),
                    forall|j: int|
                        0 <= j < x.len() ==> instance_models(x@, x@.len())[j] == #[trigger] x[j]@,
                    forall|j: int|
                        0 <= j < y.len() ==> instance_models(y@, y@.len())[j] == #[trigger] y[j]@,
                    forall|j: int| 0 <= j < i ==> x@[j]@ == y@[j]@,
                decreases x.len() - i,
            {
                proof {
                    assert(a->Loops_0 == *x);
                    assert(decreases_to!(*x => x[i as int]));
                }
                if !instance_eq(&x[i], &y[i]) {
                    return false;
                }
                i += 1;
            }
            proof {
                assert(instance_models(x@, x@.len()) =~= instance_models(y@, y@.len()));
            }
            true
        },
        _ => false,
    }
}

/// Compares two loop instances: their slot values, one by one.
pub fn instance_eq(a: &LoopInstance, b: &LoopInstance) -> (r: bool)
    ensures
        r == (a@ == b@),
    decreases a, 1nat,
{
    proof {
        lemma_value_models(a.slots@, a.slots@.len());
        lemma_value_models(b.slots@, b.slots@.len());
    }
    if a.slots.len() != b.slots.len() {
        return false;
    }
    let mut i: usize = 0;
    while i < a.slots.len()
        invariant
            a.slots.len() == b.slots.len(),
            i <= a.slots.len(),
            a@.len() == a.slots.len(),
            b@.len() == b.slots.len(),
            forall|j: int| 0 <= j < a.slots.len() ==> a@[j] == #[trigger] a.slots[j]@,
            forall|j: int| 0 <= j < b.slots.len() ==> b@[j] == #[trigger] b.slots[j]@,
            forall|j: int| 0 <= j < i ==> a.slots@[j]@ == b.slots@[j]@,
        decreases a.slots.len() - i,
    {
        if !value_eq(&a.slots[i], &b.slots[i]) {
            return false;
        }
        i += 1;
    }
    proof {
        assert(a@ =~= b@);
    }
    true
}

impl PartialEq for SlotValue {
    fn eq(&self, other: &Self) -> (r: bool) {
        value_eq(self, other)
    }
}

impl vstd::std_specs::cmp::PartialEqSpecImpl for SlotValue {
    open spec fn obeys_eq_spec() -> bool {
        true
    }

    open spec fn eq_spec(&self, other: &Self) -> bool {
        self@ == other@
    }
}

impl Eq for SlotValue {

}

impl PartialEq for LoopInstance {
    fn eq(&self, other: &Self) -> (r: bool) {
        instance_eq(self, other)
    }
}

impl vstd::std_specs::cmp::PartialEqSpecImpl for LoopInstance {
    open spec fn obeys_eq_spec() -> bool {
        true
    }

    open spec fn eq_spec(&self, other: &Self) -> bool {
        self@ == other@
    }
}

impl Eq for LoopInstance {

}

} // verus!
