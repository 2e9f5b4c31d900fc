//! The entities of the 004010 dialect: the interchange, its functional
//! groups, and the grammars of the transaction sets.

use crate::codec::{first_misfit, Directory, SegmentShapeModel};
use crate::engine::{LoopInstance, SlotValueModel};
use crate::envelope::{
    assemble, assemble_segments, counts_hold, disassemble, envelope_segments,
    transmission_result_is,
};
use crate::error::{error_at, ErrorKind, ParseError};
use crate::grammar::{LoopSpec, SlotModel};
use crate::header::{empty_isa, isa_eq, Isa, IsaModel};
use crate::segment::{empty_segment, segment_eq, Segment, SegmentModel};
use crate::tokenizer::{render, render_text, tokenize, tokenize_text};
use vstd::prelude::*;
use vstd::std_specs::cmp::PartialEqSpec;

pub mod sets;

verus! {

/// Mathematical model of a functional group holding transaction sets of
/// model type `T`.
pub struct GroupModel<T> {
    pub gs: SegmentModel,
    pub sets: Seq<T>,
    pub ge: SegmentModel,
}

/// Mathematical model of an interchange.
pub struct TransmissionModel<T> {
    pub isa: IsaModel,
    pub groups: Seq<GroupModel<T>>,
    pub iea: SegmentModel,
}

/// A batch of transaction sets of one type between a group header and a
/// group trailer.
#[derive(Clone, Debug)]
pub struct FunctionalGroup<T> {
    /// The group header.
    pub gs: Segment,
    /// The transaction sets, in order.
    pub segments: Vec<T>,
    /// The group trailer; its first field counts the transaction sets.
    pub ge: Segment,
}

/// The outermost envelope: an interchange header, functional groups, and the
/// interchange trailer.
#[derive(Clone, Debug)]
pub struct Transmission<T> {
    /// The interchange header.
    pub isa: Isa,
    /// The functional groups, in order.
    pub functional_group: Vec<FunctionalGroup<T>>,
    /// The interchange trailer; its first field counts the functional groups.
    pub iea: Segment,
}

impl<T: View> View for FunctionalGroup<T> {
    type V = GroupModel<T::V>;

    open spec fn view(&self) -> GroupModel<T::V> {
        GroupModel { gs: self.gs@, sets: self.segments@.map_values(|t: T| t@), ge: self.ge@ }
    }
}

impl<T: View> View for Transmission<T> {
    type V = TransmissionModel<T::V>;

    open spec fn view(&self) -> TransmissionModel<T::V> {
        TransmissionModel {
            isa: self.isa@,
            groups: self.functional_group@.map_values(|g: FunctionalGroup<T>| g@),
            iea: self.iea@,
        }
    }
}

/// Whether two functional groups are equal: their headers, their
/// transaction sets, one by one, and their trailers are.
pub open spec fn group_eq<T: PartialEq>(a: FunctionalGroup<T>, b: FunctionalGroup<T>) -> bool {
    &&& a.gs@ == b.gs@
    &&& a.segments.len() == b.segments.len()
    &&& forall|i: int|
        #![auto]
        0 <= i < a.segments.len() ==> a.segments[i].eq_spec(&b.segments[i])
    &&& a.ge@ == b.ge@
}

impl<T: PartialEq> PartialEq for FunctionalGroup<T> {
    fn eq(&self, other: &Self) -> (r: bool) {
        if !segment_eq(&self.gs, &other.gs) {
            return false;
        }
        if !(self.segments == other.segments) {
            return false;
        }
        segment_eq(&self.ge, &other.ge)
    }
}

impl<T: Eq> Eq for FunctionalGroup<T> {

}

impl<T: PartialEq> vstd::std_specs::cmp::PartialEqSpecImpl for FunctionalGroup<T> {
    open spec fn obeys_eq_spec() -> bool {
        T::obeys_eq_spec()
    }

    open spec fn eq_spec(&self, other: &Self) -> bool {
        group_eq(*self, *other)
    }
}

/// Whether two interchanges are equal: their headers, their functional
/// groups, one by one, and their trailers are.
pub open spec fn transmission_eq<T: PartialEq>(a: Transmission<T>, b: Transmission<T>) -> bool {
    &&& a.isa@ == b.isa@
    &&& a.functional_group.len() == b.functional_group.len()
    &&& forall|i: int|
        #![auto]
        0 <= i < a.functional_group.len() ==> group_eq(a.functional_group[i], b.functional_group[i])
    &&& a.iea@ == b.iea@
}

impl<T: PartialEq> PartialEq for Transmission<T> {
    fn eq(&self, other: &Self) -> (r: bool) {
        if !isa_eq(&self.isa, &other.isa) {
            return false;
        }
        if !(self.functional_group == other.functional_group) {
            return false;
        }
        segment_eq(&self.iea, &other.iea)
    }
}

impl<T: PartialEq> vstd::std_specs::cmp::PartialEqSpecImpl for Transmission<T> {
    open spec fn obeys_eq_spec() -> bool {
        T::obeys_eq_spec()
    }

    open spec fn eq_spec(&self, other: &Self) -> bool {
        transmission_eq(*self, *other)
    }
}

impl<T: Eq> Eq for Transmission<T> {

}

/// Functional groups of loop instances are equal exactly when their models
/// are.
pub proof fn lemma_group_eq(a: FunctionalGroup<LoopInstance>, b: FunctionalGroup<LoopInstance>)
    ensures
        group_eq(a, b) == (a@ == b@),
{
    if group_eq(a, b) {
        assert(a@.sets =~= b@.sets);
    }
    if a@ == b@ {
        assert(a@.sets.len() == b@.sets.len());
        assert forall|i: int| 0 <= i < a.segments.len() implies a.segments[i]@
            == b.segments[i]@ by {
            assert(a@.sets[i] == a.segments[i]@);
            assert(b@.sets[i] == b.segments[i]@);
        }
    }
}

/// Interchanges of loop instances are equal exactly when their models are.
pub proof fn lemma_transmission_eq(a: Transmission<LoopInstance>, b: Transmission<LoopInstance>)
    ensures
        transmission_eq(a, b) == (a@ == b@),
{
    if transmission_eq(a, b) {
        assert forall|i: int| 0 <= i < a.functional_group.len() implies a@.groups[i]
            == b@.groups[i] by {
            lemma_group_eq(a.functional_group[i], b.functional_group[i]);
        }
        assert(a@.groups =~= b@.groups);
    }
    if a@ == b@ {
        assert(a@.groups.len() == b@.groups.len());
        assert forall|i: int| 0 <= i < a.functional_group.len() implies group_eq(
            a.functional_group[i],
            b.functional_group[i],
        ) by {
            assert(a@.groups[i] == a.functional_group[i]@);
            assert(b@.groups[i] == b.functional_group[i]@);
            lemma_group_eq(a.functional_group[i], b.functional_group[i]);
        }
    }
}

impl<T> Default for FunctionalGroup<T> {
    /// The group without transaction sets, between empty segments.
    fn default() -> (r: Self)
        ensures
            r.segments@ == Seq::<T>::empty(),
            r.gs@ == empty_segment(),
            r.ge@ == empty_segment(),
    {
        FunctionalGroup { gs: Segment::default(), segments: Vec::new(), ge: Segment::default() }
    }
}

impl<T> Default for Transmission<T> {
    /// The interchange without functional groups.
    fn default() -> (r: Self)
        ensures
            r.functional_group@ == Seq::<FunctionalGroup<T>>::empty(),
            r.isa@ == empty_isa(),
            r.iea@ == empty_segment(),
    {
        Transmission { isa: Isa::default(), functional_group: Vec::new(), iea: Segment::default() }
    }
}

/// The interchange that a document holds when its transaction sets follow
/// the grammar `set`: the text is tokenized, and the segments after the
/// interchange header are framed.
pub open spec fn parse_model(text: Seq<u8>, set: Seq<SlotModel>) -> Result<
    TransmissionModel<Seq<SlotValueModel>>,
    ParseError,
> {
    match tokenize(text) {
        Err(e) => Err(e),
        Ok((isa, segs)) => assemble(isa, segs, set),
    }
}

/// The interchange that a document holds when, besides, every segment after
/// the interchange header must be admitted by the directory `dir`: the first
/// segment that is not admitted is malformed.
pub open spec fn parse_model_with(
    text: Seq<u8>,
    set: Seq<SlotModel>,
    dir: Seq<SegmentShapeModel>,
) -> Result<TransmissionModel<Seq<SlotValueModel>>, ParseError> {
    match tokenize(text) {
        Err(e) => Err(e),
        Ok((isa, segs)) => if first_misfit(dir, segs, 0) < segs.len() {
            Err(error_at(ErrorKind::MalformedSegment, first_misfit(dir, segs, 0)))
        } else {
            assemble(isa, segs, set)
        },
    }
}

/// The document that holds the interchange `t`: the header, then the
/// segments of the groups and the interchange trailer, each on a line of its
/// own, with the control counts computed from what `t` holds.
pub open spec fn serialize_model(t: TransmissionModel<Seq<SlotValueModel>>) -> Seq<u8> {
    render(t.isa, envelope_segments(t.groups, t.iea))
}

/// The interchange that a document holds when its transaction sets are of
/// the registered type `id`.
pub open spec fn parse_model_as(text: Seq<u8>, id: Seq<u8>) -> Result<
    TransmissionModel<Seq<SlotValueModel>>,
    ParseError,
> {
    match sets::registered(id) {
        None => Err(error_at(ErrorKind::UnknownTransactionSetType, 0)),
        Some(set) => parse_model(text, set),
    }
}

impl Transmission<LoopInstance> {
    /// Parses a document whose transaction sets follow the grammar `set`.
    /// The document is accepted or rejected as a whole.
    pub fn parse(text: &[u8], set: &LoopSpec) -> (r: Result<Transmission<LoopInstance>, ParseError>)
        ensures
            transmission_result_is(r, parse_model(text@, set@)),
            r matches Ok(t) ==> counts_hold(t@.groups, t@.iea),
    {
        match tokenize_text(text) {
            Err(e) => Err(e),
            Ok((isa, segs)) => assemble_segments(isa, &segs, set),
        }
    }

    /// Parses a document whose transaction sets follow the grammar `set` and
    /// whose segments must have the shapes that the directory `dir`
    /// declares for their tags.
    pub fn parse_with(text: &[u8], set: &LoopSpec, dir: &Directory) -> (r: Result<
        Transmission<LoopInstance>,
        ParseError,
    >)
        ensures
            transmission_result_is(r, parse_model_with(text@, set@, dir@)),
            r matches Ok(t) ==> counts_hold(t@.groups, t@.iea),
    {
        match tokenize_text(text) {
            Err(e) => Err(e),
            Ok((isa, segs)) => match dir.check(&segs) {
                Some(at) => Err(ParseError { kind: ErrorKind::MalformedSegment, offset: at }),
                None => assemble_segments(isa, &segs, set),
            },
        }
    }

    /// Parses a document whose transaction sets are of the type `S`.
    pub fn parse_set<S: sets::TransactionSet>(text: &[u8]) -> (r: Result<
        Transmission<LoopInstance>,
        ParseError,
    >)
        ensures
            transmission_result_is(r, parse_model(text@, S::model())),
            r matches Ok(t) ==> counts_hold(t@.groups, t@.iea),
    {
        let set = S::grammar();
        Transmission::parse(text, &set)
    }

    /// Parses a document whose transaction sets are of the registered type
    /// `id`, such as `315`.
    pub fn parse_as(text: &[u8], id: &[u8]) -> (r: Result<Transmission<LoopInstance>, ParseError>)
        ensures
            transmission_result_is(r, parse_model_as(text@, id@)),
            r matches Ok(t) ==> counts_hold(t@.groups, t@.iea),
    {
        match sets::lookup(id) {
            None => Err(ParseError { kind: ErrorKind::UnknownTransactionSetType, offset: 0 }),
            Some(set) => Transmission::parse(text, &set),
        }
    }

    /// Whether two interchanges hold the same header, groups, transaction
    /// sets and trailer.
    pub fn same_as(&self, other: &Transmission<LoopInstance>) -> (r: bool)
        ensures
            r == (self@ == other@),
    {
        proof {
            lemma_transmission_eq(*self, *other);
        }
        self == other
    }

    /// Writes the interchange as a document. The control counts written are
    /// those of the groups and transaction sets actually held.
    pub fn serialize(&self) -> (r: Vec<u8>)
        ensures
            r@ == serialize_model(self@),
    {
        let segs = disassemble(self);
        render_text(&self.isa, &segs)
    }

    /// Writes the interchange as a document and makes sure that the document
    /// reads back as this interchange when its transaction sets are matched
    /// against `set`. Returns nothing when it does not, which cannot happen
    /// for a legal interchange.
    pub fn serialize_checked(&self, set: &LoopSpec) -> (r: Option<Vec<u8>>)
        ensures
            match r {
                Some(text) => {
                    &&& text@ == serialize_model(self@)
                    &&& parse_model(text@, set@) == Ok::<
                        TransmissionModel<Seq<SlotValueModel>>,
                        ParseError,
                    >(self@)
                },
                None => parse_model(serialize_model(self@), set@) != Ok::<
                    TransmissionModel<Seq<SlotValueModel>>,
                    ParseError,
                >(self@),
            },
            crate::laws::legal_transmission(self@, set@) ==> r is Some,
    {
        proof {
            if crate::laws::legal_transmission(self@, set@) {
                crate::laws::law_parse_serialize(self@, set@);
            }
        }
        let text = self.serialize();
        match Transmission::parse(text.as_slice(), set) {
            Ok(back) => if back.same_as(self) {
                Some(text)
            } else {
                None
            },
            Err(_) => None,
        }
    }
}

} // verus!
