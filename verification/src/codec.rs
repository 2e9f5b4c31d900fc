//! The segment codec: from a tag and its fields to a segment and back, with
//! the shapes that a directory of segment definitions declares for the
//! fields.

use crate::bytes::bytes_eq;
use crate::error::ErrorKind;
use crate::segment::{field_models, segment_models, Field, FieldModel, Segment, SegmentModel};
use vstd::prelude::*;

verus! {

/// The declared shape of one field: whether it must be there, and the
/// bounds on the length of a scalar value.
#[derive(Clone, Copy, Debug, PartialEq, Eq, Structural)]
pub struct ElementShape {
    pub mandatory: bool,
    pub min_len: usize,
    pub max_len: usize,
}

/// Mathematical model of a segment definition.
pub struct SegmentShapeModel {
    pub tag: Seq<u8>,
    pub elements: Seq<ElementShape>,
}

/// The definition of the segments of one tag: the shapes of their leading
/// fields. Fields behind the declared ones are not constrained.
#[derive(Clone, Debug, PartialEq, Eq)]
pub struct SegmentShape {
    pub tag: Vec<u8>,
    pub elements: Vec<ElementShape>,
}

/// A directory of segment definitions. Of two definitions for one tag the
/// first applies; segments of a tag without definition are not constrained.
#[derive(Clone, Debug, PartialEq, Eq)]
pub struct Directory {
    pub shapes: Vec<SegmentShape>,
}

impl View for SegmentShape {
    type V = SegmentShapeModel;

    open spec fn view(&self) -> SegmentShapeModel {
        SegmentShapeModel { tag: self.tag@, elements: self.elements@ }
    }
}

impl View for Directory {
    type V = Seq<SegmentShapeModel>;

    open spec fn view(&self) -> Seq<SegmentShapeModel> {
        self.shapes@.map_values(|s: SegmentShape| s@)
    }
}

/// Whether a field has the declared shape: an absent field must not be
/// mandatory, and the length of a scalar must lie within the bounds. The
/// components of a composite are not constrained.
pub open spec fn element_fits(f: FieldModel, e: ElementShape) -> bool {
    match f {
        FieldModel::Absent => !e.mandatory,
        FieldModel::Scalar(t) => e.min_len <= t.len() <= e.max_len,
        FieldModel::Composite(_) => true,
    }
}

/// The field at position `i`; a field behind the last one is absent.
pub open spec fn field_at(fields: Seq<FieldModel>, i: int) -> FieldModel {
    if 0 <= i < fields.len() {
        fields[i]
    } else {
        FieldModel::Absent
    }
}

/// The first position among `from..` at which a field does not have its
/// declared shape, or the number of declared shapes when there is none.
pub open spec fn first_bad_field(
    fields: Seq<FieldModel>,
    elements: Seq<ElementShape>,
    from: int,
) -> int
    decreases elements.len() - from,
{
    if from >= elements.len() {
        elements.len() as int
    } else if !element_fits(field_at(fields, from), elements[from]) {
        from
    } else {
        first_bad_field(fields, elements, from + 1)
    }
}

/// Whether every declared field of a segment has its declared shape.
pub open spec fn segment_fits(seg: SegmentModel, shape: SegmentShapeModel) -> bool {
    forall|i: int|
        0 <= i < shape.elements.len() ==> element_fits(
            field_at(seg.fields, i),
            #[trigger] shape.elements[i],
        )
}

/// The position of the first definition among `from..` for `tag`, or the
/// number of definitions when there is none.
pub open spec fn shape_index(dir: Seq<SegmentShapeModel>, tag: Seq<u8>, from: int) -> int
    decreases dir.len() - from,
{
    if from >= dir.len() {
        dir.len() as int
    } else if dir[from].tag == tag {
        from
    } else {
        shape_index(dir, tag, from + 1)
    }
}

/// Whether a directory admits a segment: the segment fits the definition of
/// its tag, if the directory has one.
pub open spec fn admits(dir: Seq<SegmentShapeModel>, seg: SegmentModel) -> bool {
    let i = shape_index(dir, seg.tag, 0);
    0 <= i < dir.len() ==> segment_fits(seg, dir[i])
}

/// The position of the first segment among `from..` that the directory does
/// not admit, or the number of segments when it admits them all.
pub open spec fn first_misfit(dir: Seq<SegmentShapeModel>, segs: Seq<SegmentModel>, from: int) -> int
    decreases segs.len() - from,
{
    if from >= segs.len() {
        segs.len() as int
    } else if !admits(dir, segs[from]) {
        from
    } else {
        first_misfit(dir, segs, from + 1)
    }
}

/// `first_bad_field` names the least position with a field of the wrong
/// shape.
pub proof fn lemma_first_bad_field(fields: Seq<FieldModel>, elements: Seq<ElementShape>, from: int)
    requires
        0 <= from <= elements.len(),
    ensures
        from <= first_bad_field(fields, elements, from) <= elements.len(),
        forall|i: int|
            from <= i < first_bad_field(fields, elements, from) ==> element_fits(
                field_at(fields, i),
                #[trigger] elements[i],
            ),
        first_bad_field(fields, elements, from) < elements.len() ==> !element_fits(
            field_at(fields, first_bad_field(fields, elements, from)),
            elements[first_bad_field(fields, elements, from)],
        ),
    decreases elements.len() - from,
{
    if from < elements.len() && element_fits(field_at(fields, from), elements[from]) {
        lemma_first_bad_field(fields, elements, from + 1);
    }
}

/// `shape_index` names the first definition for the tag.
pub proof fn lemma_shape_index(dir: Seq<SegmentShapeModel>, tag: Seq<u8>, from: int)
    requires
        0 <= from <= dir.len(),
    ensures
        from <= shape_index(dir, tag, from) <= dir.len(),
        forall|i: int| from <= i < shape_index(dir, tag, from) ==> (#[trigger] dir[i]).tag != tag,
        shape_index(dir, tag, from) < dir.len() ==> dir[shape_index(dir, tag, from)].tag == tag,
    decreases dir.len() - from,
{
    if from < dir.len() && dir[from].tag != tag {
        lemma_shape_index(dir, tag, from + 1);
    }
}

/// `first_misfit` names the first segment that the directory does not admit.
pub proof fn lemma_first_misfit(dir: Seq<SegmentShapeModel>, segs: Seq<SegmentModel>, from: int)
    requires
        0 <= from <= segs.len(),
    ensures
        from <= first_misfit(dir, segs, from) <= segs.len(),
        forall|i: int|
            from <= i < first_misfit(dir, segs, from) ==> admits(dir, #[trigger] segs[i]),
        first_misfit(dir, segs, from) < segs.len() ==> !admits(
            dir,
            segs[first_misfit(dir, segs, from)],
        ),
    decreases segs.len() - from,
{
    if from < segs.len() && admits(dir, segs[from]) {
        lemma_first_misfit(dir, segs, from + 1);
    }
}

/// Whether a field has the declared shape.
pub fn field_fits(f: &Field, e: &ElementShape) -> (r: bool)
    ensures
        r == element_fits(f@, *e),
{
    match f {
        Field::Absent => !e.mandatory,
        Field::Scalar(t) => e.min_len <= t.len() && t.len() <= e.max_len,
        Field::Composite(_) => true,
    }
}

/// Whether every declared field of a segment has its declared shape.
pub fn fits(seg: &Segment, shape: &SegmentShape) -> (r: bool)
    ensures
        r == segment_fits(seg@, shape@),
{
    let absent = Field::Absent;
    let mut i: usize = 0;
    while i < shape.elements.len()
        invariant
            i <= shape.elements.len(),
            absent == Field::Absent,
            first_bad_field(seg@.fields, shape@.elements, 0) == first_bad_field(
                seg@.fields,
                shape@.elements,
                i as int,
            ),
        decreases shape.elements.len() - i,
    {
        let field = if i < seg.fields.len() {
            &seg.fields[i]
        } else {
            &absent
        };
        proof {
            if i < seg.fields.len() {
                assert(seg@.fields[i as int] == seg.fields[i as int]@);
            }
            assert(field@ == field_at(seg@.fields, i as int));
        }
        if !field_fits(field, &shape.elements[i]) {
            proof {
                lemma_first_bad_field(seg@.fields, shape@.elements, 0);
            }
            return false;
        }
        i += 1;
    }
    proof {
        lemma_first_bad_field(seg@.fields, shape@.elements, 0);
    }
    true
}

impl Directory {
    /// The directory without definitions, which admits every segment.
    pub fn new() -> (d: Directory)
        ensures
            d@ == Seq::<SegmentShapeModel>::empty(),
    {
        let d = Directory { shapes: Vec::new() };
        proof {
            assert(d@ =~= Seq::<SegmentShapeModel>::empty());
        }
        d
    }

    /// Adds a definition behind those that are there.
    pub fn push(&mut self, shape: SegmentShape)
        ensures
            final(self)@ == old(self)@.push(shape@),
    {
        self.shapes.push(shape);
        proof {
            assert(self@ =~= old(self)@.push(shape@));
        }
    }

    /// Whether the directory admits a segment: the segment fits the
    /// definition of its tag, if the directory has one.
    pub fn admits(&self, seg: &Segment) -> (r: bool)
        ensures
            r == admits(self@, seg@),
    {
        let mut i: usize = 0;
        while i < self.shapes.len()
            invariant
                i <= self.shapes.len(),
                self@.len() == self.shapes.len(),
                shape_index(self@, seg@.tag, 0) == shape_index(self@, seg@.tag, i as int),
            decreases self.shapes.len() - i,
        {
            proof {
                assert(self@[i as int] == self.shapes[i as int]@);
            }
            if bytes_eq(self.shapes[i].tag.as_slice(), seg.tag.as_slice()) {
                return fits(seg, &self.shapes[i]);
            }
            i += 1;
        }
        true
    }

    /// Decodes a tag and its fields into a segment. The segment holds the
    /// tag and all the fields, those behind the declared ones too. It is
    /// malformed when a mandatory field is absent or a field does not have
    /// its declared shape.
    pub fn decode(&self, tag: Vec<u8>, fields: Vec<Field>) -> (r: Result<Segment, ErrorKind>)
        ensures
            match r {
                Ok(seg) => seg.tag == tag && seg.fields == fields && admits(self@, seg@),
                Err(kind) => kind == ErrorKind::MalformedSegment && !admits(
                    self@,
                    SegmentModel { tag: tag@, fields: field_models(fields@) },
                ),
            },
    {
        let seg = Segment { tag, fields };
        if self.admits(&seg) {
            Ok(seg)
        } else {
            Err(ErrorKind::MalformedSegment)
        }
    }

    /// The position of the first segment that the directory does not admit.
    pub fn check(&self, segs: &Vec<Segment>) -> (r: Option<usize>)
        ensures
            match r {
                Some(i) => i < segs.len() && first_misfit(self@, segment_models(segs@), 0) == i,
                None => first_misfit(self@, segment_models(segs@), 0) == segs.len(),
            },
    {
        let mut i: usize = 0;
        while i < segs.len()
            invariant
                i <= segs.len(),
                first_misfit(self@, segment_models(segs@), 0) == first_misfit(
                    self@,
                    segment_models(segs@),
                    i as int,
                ),
            decreases segs.len() - i,
        {
            proof {
                assert(segment_models(segs@)[i as int] == segs[i as int]@);
            }
            if !self.admits(&segs[i]) {
                return Some(i);
            }
            i += 1;
        }
        None
    }
}

/// Encodes a segment into its tag and its fields: the inverse of decoding.
pub fn encode(seg: Segment) -> (r: (Vec<u8>, Vec<Field>))
    ensures
        r.0 == seg.tag,
        r.1 == seg.fields,
{
    (seg.tag, seg.fields)
}

} // verus!
