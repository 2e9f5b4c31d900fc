//! Segments and their fields, and the codec between a segment and the text
//! that lies between two segment terminators.

use crate::bytes::{
    copy_bytes, index_of, join, join_bytes, lacks, lemma_index_of, lemma_join_split,
    lemma_split_join, lemma_split_lacks, lemma_split_pieces, rows, split, split_bytes,
};
use vstd::prelude::*;

verus! {

/// The three delimiters of an interchange.
#[derive(Clone, Copy, Debug, PartialEq, Eq, Structural)]
pub struct Delimiters {
    /// Separates the tag and the fields of a segment.
    pub element: u8,
    /// Separates the components of a composite field.
    pub sub_element: u8,
    /// Ends a segment.
    pub terminator: u8,
}

/// Mathematical model of a field.
pub enum FieldModel {
    /// Nothing stands between the two separators.
    Absent,
    /// A single value.
    Scalar(Seq<u8>),
    /// Two or more components.
    Composite(Seq<Seq<u8>>),
}

/// Mathematical model of a segment: its tag and its fields in order.
pub struct SegmentModel {
    pub tag: Seq<u8>,
    pub fields: Seq<FieldModel>,
}

/// One field of a segment.
#[derive(Debug)]
pub enum Field {
    /// Nothing stands between the two separators.
    Absent,
    /// A single value.
    Scalar(Vec<u8>),
    /// Two or more components.
    Composite(Vec<Vec<u8>>),
}

/// One tagged record of the wire format.
#[derive(Debug)]
pub struct Segment {
    pub tag: Vec<u8>,
    pub fields: Vec<Field>,
}

impl View for Field {
    type V = FieldModel;

    open spec fn view(&self) -> FieldModel {
        match self {
            Field::Absent => FieldModel::Absent,
            Field::Scalar(t) => FieldModel::Scalar(t@),
            Field::Composite(parts) => FieldModel::Composite(rows(parts@)),
        }
    }
}

/// The models of a sequence of fields.
pub open spec fn field_models(fields: Seq<Field>) -> Seq<FieldModel> {
    fields.map_values(|f: Field| f@)
}

impl View for Segment {
    type V = SegmentModel;

    open spec fn view(&self) -> SegmentModel {
        SegmentModel { tag: self.tag@, fields: field_models(self.fields@) }
    }
}

/// The models of a sequence of segments.
pub open spec fn segment_models(segments: Seq<Segment>) -> Seq<SegmentModel> {
    segments.map_values(|s: Segment| s@)
}

/// The field that a piece of text between two element separators stands for.
pub open spec fn decode_field(text: Seq<u8>, sub: u8) -> FieldModel {
    if text.len() == 0 {
        FieldModel::Absent
    } else if lacks(text, sub) {
        FieldModel::Scalar(text)
    } else {
        FieldModel::Composite(split(text, sub))
    }
}

/// The text that stands for a field.
pub open spec fn encode_field(f: FieldModel, sub: u8) -> Seq<u8> {
    match f {
        FieldModel::Absent => Seq::empty(),
        FieldModel::Scalar(t) => t,
        FieldModel::Composite(parts) => join(parts, sub),
    }
}

/// The fields that pieces of text stand for.
pub open spec fn decode_fields(texts: Seq<Seq<u8>>, sub: u8) -> Seq<FieldModel> {
    texts.map_values(|t: Seq<u8>| decode_field(t, sub))
}

/// The texts that fields are written as.
pub open spec fn encode_fields(fields: Seq<FieldModel>, sub: u8) -> Seq<Seq<u8>> {
    fields.map_values(|f: FieldModel| encode_field(f, sub))
}

/// The segment that the text between two terminators stands for: the piece
/// before the first element separator is the tag, every later piece a field.
pub open spec fn decode_segment(text: Seq<u8>, d: Delimiters) -> SegmentModel {
    let pieces = split(text, d.element);
    SegmentModel { tag: pieces[0], fields: decode_fields(pieces.skip(1), d.sub_element) }
}

/// The text of a segment, without its terminator.
pub open spec fn encode_segment(seg: SegmentModel, d: Delimiters) -> Seq<u8> {
    join(seq![seg.tag] + encode_fields(seg.fields, d.sub_element), d.element)
}

/// Whether `s` holds none of the three delimiters.
pub open spec fn clean(s: Seq<u8>, d: Delimiters) -> bool {
    lacks(s, d.element) && lacks(s, d.sub_element) && lacks(s, d.terminator)
}

/// Whether the three delimiters differ from one another.
pub open spec fn distinct(d: Delimiters) -> bool {
    d.element != d.sub_element && d.element != d.terminator && d.sub_element != d.terminator
}

/// Whether a field is in the form that decoding produces: a scalar is not
/// empty, a composite has two components or more, and no delimiter occurs
/// inside a value.
pub open spec fn legal_field(f: FieldModel, d: Delimiters) -> bool {
    match f {
        FieldModel::Absent => true,
        FieldModel::Scalar(t) => t.len() > 0 && clean(t, d),
        FieldModel::Composite(parts) => parts.len() >= 2 && forall|k: int|
            0 <= k < parts.len() ==> clean(#[trigger] parts[k], d),
    }
}

/// Whether a segment can be written with the delimiters `d` and read back: the
/// tag is not empty, does not start with a line break and holds neither the
/// element separator nor the terminator, and every field is legal.
pub open spec fn legal_segment(seg: SegmentModel, d: Delimiters) -> bool {
    &&& seg.tag.len() > 0
    &&& !crate::bytes::is_break(seg.tag[0])
    &&& lacks(seg.tag, d.element)
    &&& lacks(seg.tag, d.terminator)
    &&& forall|k: int| 0 <= k < seg.fields.len() ==> legal_field(#[trigger] seg.fields[k], d)
}

/// Whether every segment of a sequence is legal.
pub open spec fn legal_segments(segs: Seq<SegmentModel>, d: Delimiters) -> bool {
    forall|k: int| 0 <= k < segs.len() ==> legal_segment(#[trigger] segs[k], d)
}

/// A join of two pieces or more holds the separator.
pub proof fn lemma_join_holds_separator(parts: Seq<Seq<u8>>, sep: u8)
    requires
        parts.len() >= 2,
    ensures
        !lacks(join(parts, sep), sep),
        join(parts, sep).len() > 0,
{
    let text = join(parts, sep);
    assert(text == parts[0] + seq![sep] + join(parts.drop_first(), sep));
    assert(text[parts[0].len() as int] == sep);
}

/// A join holds a byte other than the separator only if some piece holds it.
pub proof fn lemma_join_lacks(parts: Seq<Seq<u8>>, sep: u8, b: u8)
    requires
        b != sep,
        forall|k: int| 0 <= k < parts.len() ==> lacks(#[trigger] parts[k], b),
    ensures
        lacks(join(parts, sep), b),
    decreases parts.len(),
{
    if parts.len() >= 2 {
        let tail = parts.drop_first();
        assert forall|k: int| 0 <= k < tail.len() implies lacks(#[trigger] tail[k], b) by {
            assert(tail[k] == parts[k + 1]);
        }
        lemma_join_lacks(tail, sep, b);
        assert(lacks(parts[0], b));
    } else if parts.len() == 1 {
        assert(lacks(parts[0], b));
    }
}

/// Encoding the field decoded from any text gives back that text.
pub proof fn lemma_encode_decode_field(text: Seq<u8>, sub: u8)
    ensures
        encode_field(decode_field(text, sub), sub) == text,
{
    if text.len() == 0 {
        assert(text =~= Seq::<u8>::empty());
    } else if lacks(text, sub) {
    } else {
        lemma_join_split(text, sub);
    }
}

/// Decoding the text of a legal field gives back that field.
pub proof fn lemma_decode_encode_field(f: FieldModel, d: Delimiters)
    requires
        legal_field(f, d),
    ensures
        decode_field(encode_field(f, d.sub_element), d.sub_element) == f,
{
    match f {
        FieldModel::Absent => {},
        FieldModel::Scalar(t) => {},
        FieldModel::Composite(parts) => {
            lemma_join_holds_separator(parts, d.sub_element);
            assert forall|k: int| 0 <= k < parts.len() implies lacks(
                #[trigger] parts[k],
                d.sub_element,
            ) by {
                assert(clean(parts[k], d));
            }
            lemma_split_join(parts, d.sub_element);
        },
    }
}

/// The text of a legal field holds neither the element separator nor the
/// terminator.
pub proof fn lemma_encoded_field_clean(f: FieldModel, d: Delimiters)
    requires
        legal_field(f, d),
        distinct(d),
    ensures
        lacks(encode_field(f, d.sub_element), d.element),
        lacks(encode_field(f, d.sub_element), d.terminator),
{
    match f {
        FieldModel::Absent => {},
        FieldModel::Scalar(t) => {},
        FieldModel::Composite(parts) => {
            assert forall|k: int| 0 <= k < parts.len() implies lacks(
                #[trigger] parts[k],
                d.element,
            ) && lacks(parts[k], d.terminator) by {
                assert(clean(parts[k], d));
            }
            lemma_join_lacks(parts, d.sub_element, d.element);
            lemma_join_lacks(parts, d.sub_element, d.terminator);
        },
    }
}

/// Encoding the segment decoded from any text gives back that text.
pub proof fn lemma_encode_decode_segment(text: Seq<u8>, d: Delimiters)
    ensures
        encode_segment(decode_segment(text, d), d) == text,
{
    let pieces = split(text, d.element);
    lemma_split_pieces(text, d.element);
    lemma_join_split(text, d.element);
    let seg = decode_segment(text, d);
    let texts = encode_fields(seg.fields, d.sub_element);
    assert forall|k: int| 0 <= k < texts.len() implies texts[k] == pieces.skip(1)[k] by {
        lemma_encode_decode_field(pieces.skip(1)[k], d.sub_element);
    }
    assert(texts =~= pieces.skip(1));
    assert(seq![seg.tag] + texts =~= pieces);
}

/// The text of a legal segment holds no terminator, is not empty, and does
/// not start with a line break or with the element separator.
pub proof fn lemma_encoded_segment_shape(seg: SegmentModel, d: Delimiters)
    requires
        legal_segment(seg, d),
        distinct(d),
    ensures
        lacks(encode_segment(seg, d), d.terminator),
        encode_segment(seg, d).len() > 0,
        encode_segment(seg, d)[0] == seg.tag[0],
{
    let texts = encode_fields(seg.fields, d.sub_element);
    let pieces = seq![seg.tag] + texts;
    assert forall|k: int| 0 <= k < pieces.len() implies lacks(
        #[trigger] pieces[k],
        d.terminator,
    ) by {
        if k > 0 {
            assert(pieces[k] == texts[k - 1]);
            lemma_encoded_field_clean(seg.fields[k - 1], d);
        }
    }
    lemma_join_lacks(pieces, d.element, d.terminator);
    if pieces.len() >= 2 {
        assert(join(pieces, d.element) == pieces[0] + seq![d.element] + join(
            pieces.drop_first(),
            d.element,
        ));
    }
}

/// Decoding the text of a legal segment gives back that segment.
pub proof fn lemma_decode_encode_segment(seg: SegmentModel, d: Delimiters)
    requires
        legal_segment(seg, d),
        distinct(d),
    ensures
        decode_segment(encode_segment(seg, d), d) == seg,
{
    let texts = encode_fields(seg.fields, d.sub_element);
    let pieces = seq![seg.tag] + texts;
    assert forall|k: int| 0 <= k < pieces.len() implies lacks(#[trigger] pieces[k], d.element) by {
        if k > 0 {
            assert(pieces[k] == texts[k - 1]);
            lemma_encoded_field_clean(seg.fields[k - 1], d);
        }
    }
    lemma_split_join(pieces, d.element);
    let back = decode_segment(encode_segment(seg, d), d);
    assert(pieces.skip(1) =~= texts);
    assert forall|k: int| 0 <= k < seg.fields.len() implies back.fields[k] == seg.fields[k] by {
        lemma_decode_encode_field(seg.fields[k], d);
    }
    assert(back.fields =~= seg.fields);
}

/// The field decoded from text that holds neither the element separator
/// nor the terminator is legal.
pub proof fn lemma_decoded_field_legal(text: Seq<u8>, d: Delimiters)
    requires
        lacks(text, d.element),
        lacks(text, d.terminator),
    ensures
        legal_field(decode_field(text, d.sub_element), d),
{
    if text.len() > 0 && !lacks(text, d.sub_element) {
        let parts = split(text, d.sub_element);
        lemma_split_pieces(text, d.sub_element);
        lemma_split_lacks(text, d.sub_element, d.element);
        lemma_split_lacks(text, d.sub_element, d.terminator);
        assert forall|k: int| 0 <= k < parts.len() implies clean(#[trigger] parts[k], d) by {}
    }
}

/// The segment decoded from text between two terminators is legal when the
/// text begins with a tag byte that is not a line break.
pub proof fn lemma_decoded_segment_legal(text: Seq<u8>, d: Delimiters)
    requires
        text.len() > 0,
        text[0] != d.element,
        !crate::bytes::is_break(text[0]),
        lacks(text, d.terminator),
    ensures
        legal_segment(decode_segment(text, d), d),
{
    let pieces = split(text, d.element);
    let seg = decode_segment(text, d);
    lemma_split_pieces(text, d.element);
    lemma_split_lacks(text, d.element, d.terminator);
    lemma_index_of(text, d.element);
    let i = index_of(text, d.element);
    if 0 <= i < text.len() {
        assert(pieces[0] == text.take(i));
        assert(i > 0);
        assert(pieces[0][0] == text[0]);
    } else {
        assert(pieces[0] == text);
    }
    assert forall|k: int| 0 <= k < seg.fields.len() implies legal_field(
        #[trigger] seg.fields[k],
        d,
    ) by {
        assert(pieces.skip(1)[k] == pieces[k + 1]);
        lemma_decoded_field_legal(pieces[k + 1], d);
    }
}

/// Copies a field.
pub fn copy_field(f: &Field) -> (r: Field)
    ensures
        r@ == f@,
{
    match f {
        Field::Absent => Field::Absent,
        Field::Scalar(t) => Field::Scalar(copy_bytes(t.as_slice())),
        Field::Composite(parts) => {
            let mut out: Vec<Vec<u8>> = Vec::new();
            let mut i: usize = 0;
            while i < parts.len()
                invariant
                    i <= parts.len(),
                    rows(out@) == rows(parts@).take(i as int),
                decreases parts.len() - i,
            {
                let ghost prev = out@;
                out.push(copy_bytes(parts[i].as_slice()));
                proof {
                    assert(rows(out@) =~= rows(prev).push(parts[i as int]@));
                    assert(rows(parts@).take(i + 1) =~= rows(parts@).take(i as int).push(
                        parts[i as int]@,
                    ));
                }
                i += 1;
            }
            proof {
                assert(rows(parts@).take(parts.len() as int) =~= rows(parts@));
            }
            Field::Composite(out)
        },
    }
}

/// Copies a segment.
pub fn copy_segment(s: &Segment) -> (r: Segment)
    ensures
        r@ == s@,
{
    let mut fields: Vec<Field> = Vec::new();
    let mut i: usize = 0;
    while i < s.fields.len()
        invariant
            i <= s.fields.len(),
            field_models(fields@) == field_models(s.fields@).take(i as int),
        decreases s.fields.len() - i,
    {
        let ghost prev = fields@;
        fields.push(copy_field(&s.fields[i]));
        proof {
            assert(field_models(fields@) =~= field_models(prev).push(s.fields[i as int]@));
            assert(field_models(s.fields@).take(i + 1) =~= field_models(s.fields@).take(
                i as int,
            ).push(s.fields[i as int]@));
        }
        i += 1;
    }
    proof {
        assert(field_models(s.fields@).take(s.fields.len() as int) =~= field_models(s.fields@));
    }
    Segment { tag: copy_bytes(s.tag.as_slice()), fields }
}

/// Decodes the text between two element separators.
pub fn read_field(text: &[u8], sub: u8) -> (r: Field)
    ensures
        r@ == decode_field(text@, sub),
{
    if text.len() == 0 {
        return Field::Absent;
    }
    let parts = split_bytes(text, sub);
    proof {
        lemma_split_pieces(text@, sub);
    }
    if parts.len() == 1 {
        Field::Scalar(copy_bytes(text))
    } else {
        Field::Composite(parts)
    }
}

/// Decodes the text between two segment terminators.
pub fn read_segment(text: &[u8], d: &Delimiters) -> (r: Segment)
    ensures
        r@ == decode_segment(text@, *d),
{
    let pieces = split_bytes(text, d.element);
    proof {
        lemma_split_pieces(text@, d.element);
    }
    let tag = copy_bytes(pieces[0].as_slice());
    let mut fields: Vec<Field> = Vec::new();
    let ghost want = decode_fields(rows(pieces@).skip(1), d.sub_element);
    let mut i: usize = 1;
    while i < pieces.len()
        invariant
            1 <= i <= pieces.len(),
            want == decode_fields(rows(pieces@).skip(1), d.sub_element),
            field_models(fields@) == want.take(i - 1),
        decreases pieces.len() - i,
    {
        let ghost prev = fields@;
        let field = read_field(pieces[i].as_slice(), d.sub_element);
        fields.push(field);
        proof {
            assert(field_models(fields@) =~= field_models(prev).push(field@));
            assert(rows(pieces@).skip(1)[i - 1] == pieces[i as int]@);
            assert(want.take(i as int) =~= want.take(i - 1).push(field@));
        }
        i += 1;
    }
    proof {
        assert(want.take(pieces.len() - 1) =~= want);
    }
    Segment { tag, fields }
}

/// Appends the text of a field to `out`.
pub fn write_field(out: &mut Vec<u8>, f: &Field, sub: u8)
    ensures
        final(out)@ == old(out)@ + encode_field(f@, sub),
{
    match f {
        Field::Absent => {
            proof {
                assert(out@ + Seq::<u8>::empty() =~= out@);
            }
        },
        Field::Scalar(t) => {
            crate::bytes::append_bytes(out, t.as_slice());
        },
        Field::Composite(parts) => {
            join_bytes(out, parts, sub);
        },
    }
}

/// Appends the text of a segment, without a terminator, to `out`.
pub fn write_segment(out: &mut Vec<u8>, seg: &Segment, d: &Delimiters)
    ensures
        final(out)@ == old(out)@ + encode_segment(seg@, *d),
{
    crate::bytes::append_bytes(out, seg.tag.as_slice());
    let ghost texts = encode_fields(seg@.fields, d.sub_element);
    let ghost pieces = seq![seg@.tag] + texts;
    let mut i: usize = 0;
    proof {
        assert(pieces.take(1) =~= seq![seg@.tag]);
    }
    while i < seg.fields.len()
        invariant
            i <= seg.fields.len(),
            texts == encode_fields(seg@.fields, d.sub_element),
            pieces == seq![seg@.tag] + texts,
            out@ == old(out)@ + join(pieces.take(i + 1), d.element),
        decreases seg.fields.len() - i,
    {
        out.push(d.element);
        write_field(out, &seg.fields[i], d.sub_element);
        proof {
            crate::bytes::lemma_join_push(pieces.take(i + 1), pieces[i + 1], d.element);
            assert(pieces.take(i + 1).push(pieces[i + 1]) =~= pieces.take(i + 2));
            assert(pieces[i + 1] == texts[i as int]);
            assert(seg@.fields[i as int] == seg.fields[i as int]@);
        }
        i += 1;
    }
    proof {
        assert(pieces.take(seg.fields.len() + 1) =~= pieces);
    }
}

/// Compares two vectors of byte strings.
pub fn rows_eq(a: &Vec<Vec<u8>>, b: &Vec<Vec<u8>>) -> (r: bool)
    ensures
        r == (rows(a@) == rows(b@)),
{
    if a.len() != b.len() {
        proof {
            assert(rows(a@).len() != rows(b@).len());
        }
        return false;
    }
    let mut i: usize = 0;
    while i < a.len()
        invariant
            a.len() == b.len(),
            i <= a.len(),
            forall|j: int| 0 <= j < i ==> a@[j]@ == b@[j]@,
        decreases a.len() - i,
    {
        if !crate::bytes::bytes_eq(a[i].as_slice(), b[i].as_slice()) {
            proof {
                assert(rows(a@)[i as int] == a@[i as int]@);
                assert(rows(b@)[i as int] == b@[i as int]@);
            }
            return false;
        }
        i += 1;
    }
    proof {
        assert(rows(a@) =~= rows(b@));
    }
    true
}

/// Compares two fields.
pub fn field_eq(a: &Field, b: &Field) -> (r: bool)
    ensures
        r == (a@ == b@),
{
    match (a, b) {
        (Field::Absent, Field::Absent) => true,
        (Field::Scalar(x), Field::Scalar(y)) => crate::bytes::bytes_eq(x.as_slice(), y.as_slice()),
        (Field::Composite(x), Field::Composite(y)) => rows_eq(x, y),
        _ => false,
    }
}

/// Compares two segments: their tags and their fields, one by one.
pub fn segment_eq(a: &Segment, b: &Segment) -> (r: bool)
    ensures
        r == (a@ == b@),
{
    if !crate::bytes::bytes_eq(a.tag.as_slice(), b.tag.as_slice()) {
        return false;
    }
    if a.fields.len() != b.fields.len() {
        proof {
            assert(field_models(a.fields@).len() != field_models(b.fields@).len());
        }
        return false;
    }
    let mut i: usize = 0;
    while i < a.fields.len()
        invariant
            a.fields.len() == b.fields.len(),
            i <= a.fields.len(),
            forall|j: int| 0 <= j < i ==> a.fields@[j]@ == b.fields@[j]@,
        decreases a.fields.len() - i,
    {
        if !field_eq(&a.fields[i], &b.fields[i]) {
            proof {
                assert(field_models(a.fields@)[i as int] == a.fields@[i as int]@);
                assert(field_models(b.fields@)[i as int] == b.fields@[i as int]@);
            }
            return false;
        }
        i += 1;
    }
    proof {
        assert(field_models(a.fields@) =~= field_models(b.fields@));
    }
    true
}

impl Clone for Field {
    fn clone(&self) -> (r: Self)
        ensures
            r@ == self@,
    {
        copy_field(self)
    }
}

impl Clone for Segment {
    fn clone(&self) -> (r: Self)
        ensures
            r@ == self@,
    {
        copy_segment(self)
    }
}

impl Default for Field {
    /// The absent field.
    fn default() -> (r: Self)
        ensures
            r == Field::Absent,
    {
        Field::Absent
    }
}

/// The segment without tag and fields.
pub open spec fn empty_segment() -> SegmentModel {
    SegmentModel { tag: Seq::empty(), fields: Seq::empty() }
}

impl Default for Segment {
    /// The segment without tag and fields.
    fn default() -> (r: Self)
        ensures
            r@ == empty_segment(),
    {
        let r = Segment { tag: Vec::new(), fields: Vec::new() };
        proof {
            assert(r@.fields =~= Seq::<FieldModel>::empty());
        }
        r
    }
}

impl PartialEq for Field {
    fn eq(&self, other: &Self) -> (r: bool) {
        field_eq(self, other)
    }
}

impl vstd::std_specs::cmp::PartialEqSpecImpl for Field {
    open spec fn obeys_eq_spec() -> bool {
        true
    }

    open spec fn eq_spec(&self, other: &Self) -> bool {
        self@ == other@
    }
}

impl Eq for Field {

}

impl PartialEq for Segment {
    fn eq(&self, other: &Self) -> (r: bool) {
        segment_eq(self, other)
    }
}

impl vstd::std_specs::cmp::PartialEqSpecImpl for Segment {
    open spec fn obeys_eq_spec() -> bool {
        true
    }

    open spec fn eq_spec(&self, other: &Self) -> bool {
        self@ == other@
    }
}

impl Eq for Segment {

}

} // verus!
