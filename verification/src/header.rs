//! The interchange header: sixteen elements of fixed width, laid out at fixed
//! positions, from which the three delimiters of the interchange are read
//! before anything else can be tokenized.

use crate::bytes::{append_bytes, copy_bytes, copy_range, rows};
use crate::error::{error_at, ErrorKind, ParseError};
use crate::segment::Delimiters;
use vstd::prelude::*;

verus! {

/// Mathematical model of an interchange header.
pub struct IsaModel {
    /// The sixteen elements, each of its fixed width.
    pub elements: Seq<Seq<u8>>,
    /// The byte that follows the tag and separates the elements.
    pub element_separator: u8,
    /// The byte that ends the header and every later segment.
    pub segment_terminator: u8,
}

/// The interchange header segment. Its sixteenth element is the sub-element
/// separator; the other two delimiters have no element of their own and are
/// kept beside the elements.
#[derive(Debug)]
pub struct Isa {
    /// The sixteen elements, each of its fixed width.
    pub elements: Vec<Vec<u8>>,
    /// The byte that follows the tag and separates the elements.
    pub element_separator: u8,
    /// The byte that ends the header and every later segment.
    pub segment_terminator: u8,
}

impl View for Isa {
    type V = IsaModel;

    open spec fn view(&self) -> IsaModel {
        IsaModel {
            elements: rows(self.elements@),
            element_separator: self.element_separator,
            segment_terminator: self.segment_terminator,
        }
    }
}

/// The tag of the interchange header, `ISA`.
pub open spec fn isa_tag() -> Seq<u8> {
    seq![73u8, 83u8, 65u8]
}

/// The number of bytes of a header, from its tag to its terminator.
pub open spec fn isa_len() -> int {
    106
}

/// The width of element `i` (counted from 0).
pub open spec fn isa_width(i: int) -> int {
    if i == 0 {
        2
    } else if i == 1 {
        10
    } else if i == 2 {
        2
    } else if i == 3 {
        10
    } else if i == 4 {
        2
    } else if i == 5 {
        15
    } else if i == 6 {
        2
    } else if i == 7 {
        15
    } else if i == 8 {
        6
    } else if i == 9 {
        4
    } else if i == 10 {
        1
    } else if i == 11 {
        5
    } else if i == 12 {
        9
    } else {
        1
    }
}

/// The position of the first byte of element `i`: each element follows the
/// one before it and one separator. For `i == 16` this is the length of the
/// header.
pub open spec fn isa_start(i: int) -> int
    decreases i,
{
    if i <= 0 {
        4
    } else {
        isa_start(i - 1) + isa_width(i - 1) + 1
    }
}

/// The positions of the sixteen elements.
pub proof fn lemma_isa_layout()
    ensures
        isa_start(0) == 4,
        isa_start(1) == 7,
        isa_start(2) == 18,
        isa_start(3) == 21,
        isa_start(4) == 32,
        isa_start(5) == 35,
        isa_start(6) == 51,
        isa_start(7) == 54,
        isa_start(8) == 70,
        isa_start(9) == 77,
        isa_start(10) == 82,
        isa_start(11) == 84,
        isa_start(12) == 90,
        isa_start(13) == 100,
        isa_start(14) == 102,
        isa_start(15) == 104,
        isa_start(16) == isa_len(),
{
    reveal_with_fuel(isa_start, 18);
}

/// Elements lie one after another inside the header.
pub proof fn lemma_isa_bounds(i: int)
    requires
        0 <= i < 16,
    ensures
        4 <= isa_start(i),
        1 <= isa_width(i),
        isa_start(i + 1) == isa_start(i) + isa_width(i) + 1,
        isa_start(i + 1) <= isa_len(),
{
    lemma_isa_layout();
}

/// Whether a header has sixteen elements of the fixed widths.
pub open spec fn wf_isa(m: IsaModel) -> bool {
    &&& m.elements.len() == 16
    &&& forall|i: int| 0 <= i < 16 ==> (#[trigger] m.elements[i]).len() == isa_width(i)
}

/// The delimiters that a header declares. The sub-element separator is the
/// sixteenth element; a header that lacks it declares the conventional `:`.
pub open spec fn delimiters_of(m: IsaModel) -> Delimiters {
    Delimiters {
        element: m.element_separator,
        sub_element: if m.elements.len() >= 16 && m.elements[15].len() >= 1 {
            m.elements[15][0]
        } else {
            58u8
        },
        terminator: m.segment_terminator,
    }
}

/// The text of the tag and the first `n` elements, each behind a separator.
pub open spec fn isa_prefix(m: IsaModel, n: int) -> Seq<u8>
    decreases n,
{
    if n <= 0 {
        isa_tag()
    } else {
        isa_prefix(m, n - 1) + seq![m.element_separator] + m.elements[n - 1]
    }
}

/// The text of a header, with its terminator.
pub open spec fn encode_isa(m: IsaModel) -> Seq<u8> {
    isa_prefix(m, m.elements.len() as int) + seq![m.segment_terminator]
}

/// The first element among `i..16` that is not preceded by the byte at
/// position 3, or 16 when there is none.
pub open spec fn first_bad(text: Seq<u8>, i: int) -> int
    decreases 16 - i,
{
    if i >= 16 {
        16
    } else if text[isa_start(i) - 1] != text[3] {
        i
    } else {
        first_bad(text, i + 1)
    }
}

/// The elements that lie at the fixed positions of `text`.
pub open spec fn isa_elements(text: Seq<u8>) -> Seq<Seq<u8>> {
    Seq::new(16, |i: int| text.subrange(isa_start(i), isa_start(i) + isa_width(i)))
}

/// The header at the start of `text`, read by position. The text must begin
/// with the tag, hold all 106 bytes of a header, and show one and the same
/// separator before each of the sixteen elements.
pub open spec fn decode_isa(text: Seq<u8>) -> Result<IsaModel, ParseError> {
    if text.len() < 3 || text.take(3) != isa_tag() {
        Err(error_at(ErrorKind::MissingMandatorySegment, 0))
    } else if text.len() < isa_len() {
        Err(error_at(ErrorKind::MalformedSegment, text.len() as int))
    } else if first_bad(text, 0) < 16 {
        Err(error_at(ErrorKind::MalformedSegment, isa_start(first_bad(text, 0)) - 1))
    } else {
        Ok(
            IsaModel {
                elements: isa_elements(text),
                element_separator: text[3],
                segment_terminator: text[105],
            },
        )
    }
}

/// `first_bad` names the least element with a wrong separator.
pub proof fn lemma_first_bad(text: Seq<u8>, i: int)
    requires
        0 <= i <= 16,
    ensures
        i <= first_bad(text, i) <= 16,
        forall|j: int| i <= j < first_bad(text, i) ==> text[#[trigger] isa_start(j) - 1] == text[3],
        first_bad(text, i) < 16 ==> text[isa_start(first_bad(text, i)) - 1] != text[3],
    decreases 16 - i,
{
    if i < 16 && text[isa_start(i) - 1] == text[3] {
        lemma_first_bad(text, i + 1);
    }
}

/// The length of the text of the tag and the first `n` elements.
pub proof fn lemma_isa_prefix_len(m: IsaModel, n: int)
    requires
        wf_isa(m),
        0 <= n <= 16,
    ensures
        isa_prefix(m, n).len() == isa_start(n) - 1,
    decreases n,
{
    if n > 0 {
        lemma_isa_prefix_len(m, n - 1);
        lemma_isa_bounds(n - 1);
    }
}

/// A longer prefix agrees with a shorter one on the shorter one's bytes.
pub proof fn lemma_isa_prefix_extends(m: IsaModel, k: int, n: int)
    requires
        wf_isa(m),
        0 <= k <= n <= 16,
    ensures
        isa_prefix(m, k) == isa_prefix(m, n).take(isa_start(k) - 1),
        isa_start(k) <= isa_start(n),
    decreases n - k,
{
    lemma_isa_prefix_len(m, k);
    lemma_isa_prefix_len(m, n);
    if k == n {
        assert(isa_prefix(m, n).take(isa_start(k) - 1) =~= isa_prefix(m, k));
    } else {
        lemma_isa_prefix_extends(m, k, n - 1);
        lemma_isa_prefix_len(m, n - 1);
        lemma_isa_bounds(n - 1);
        assert(isa_prefix(m, n).take(isa_start(k) - 1) =~= isa_prefix(m, n - 1).take(
            isa_start(k) - 1,
        ));
    }
}

/// The header read from the text of a well-formed header, whatever follows
/// it, is that header.
pub proof fn lemma_decode_encode_isa(m: IsaModel, rest: Seq<u8>)
    requires
        wf_isa(m),
    ensures
        decode_isa(encode_isa(m) + rest) == Ok::<IsaModel, ParseError>(m),
        encode_isa(m).len() == isa_len(),
{
    let text = encode_isa(m) + rest;
    let full = isa_prefix(m, 16);
    lemma_isa_layout();
    lemma_isa_prefix_len(m, 16);
    lemma_isa_prefix_extends(m, 0, 16);
    assert(text.take(3) =~= full.take(3));
    assert forall|j: int| 0 <= j < 16 implies text[#[trigger] isa_start(j) - 1]
        == m.element_separator && text.subrange(isa_start(j), isa_start(j) + isa_width(j))
        == m.elements[j] by {
        lemma_isa_prefix_extends(m, j + 1, 16);
        lemma_isa_prefix_len(m, j + 1);
        lemma_isa_prefix_len(m, j);
        lemma_isa_bounds(j);
        let p = isa_prefix(m, j + 1);
        let q = isa_prefix(m, j);
        assert(p == q + seq![m.element_separator] + m.elements[j]);
        assert(p[isa_start(j) - 1] == m.element_separator);
        assert(text[isa_start(j) - 1] == p[isa_start(j) - 1]);
        assert(text.subrange(isa_start(j), isa_start(j) + isa_width(j)) =~= p.subrange(
            isa_start(j),
            isa_start(j) + isa_width(j),
        ));
        assert(p.subrange(isa_start(j), isa_start(j) + isa_width(j)) =~= m.elements[j]);
    }
    assert(text[isa_start(0) - 1] == m.element_separator);
    lemma_first_bad(text, 0);
    if first_bad(text, 0) < 16 {
        assert(text[isa_start(first_bad(text, 0)) - 1] == m.element_separator);
    }
    assert(isa_elements(text) =~= m.elements);
    assert(text[105] == m.segment_terminator);
}

/// The text of the header read from a text is the first 106 bytes of that
/// text, and the header is well formed.
pub proof fn lemma_encode_decode_isa(text: Seq<u8>)
    requires
        decode_isa(text) is Ok,
    ensures
        encode_isa(decode_isa(text)->Ok_0) == text.take(isa_len()),
        wf_isa(decode_isa(text)->Ok_0),
{
    let m = decode_isa(text)->Ok_0;
    lemma_isa_layout();
    lemma_first_bad(text, 0);
    assert forall|i: int| 0 <= i < 16 implies (#[trigger] m.elements[i]).len() == isa_width(
        i,
    ) by {
        lemma_isa_bounds(i);
    }
    lemma_encode_decode_prefix(text, m, 16);
    assert(isa_prefix(m, 16) + seq![m.segment_terminator] =~= text.take(isa_len()));
}

/// The text of the tag and the first `n` elements of the header read from a
/// text is the beginning of that text.
pub proof fn lemma_encode_decode_prefix(text: Seq<u8>, m: IsaModel, n: int)
    requires
        decode_isa(text) == Ok::<IsaModel, ParseError>(m),
        0 <= n <= 16,
    ensures
        isa_prefix(m, n) == text.take(isa_start(n) - 1),
    decreases n,
{
    lemma_isa_layout();
    if n == 0 {
        assert(text.take(3) =~= isa_tag());
    } else {
        lemma_encode_decode_prefix(text, m, n - 1);
        lemma_isa_bounds(n - 1);
        lemma_first_bad(text, 0);
        assert(text[isa_start(n - 1) - 1] == text[3]);
        assert(m.elements[n - 1] == text.subrange(
            isa_start(n - 1),
            isa_start(n - 1) + isa_width(n - 1),
        ));
        assert(text.take(isa_start(n - 1) - 1) + seq![text[3]] + text.subrange(
            isa_start(n - 1),
            isa_start(n - 1) + isa_width(n - 1),
        ) =~= text.take(isa_start(n) - 1));
    }
}

/// The width of element `i` (counted from 0).
pub fn element_width(i: usize) -> (w: usize)
    requires
        i < 16,
    ensures
        w == isa_width(i as int),
{
    if i == 0 || i == 2 || i == 4 || i == 6 {
        2
    } else if i == 1 || i == 3 {
        10
    } else if i == 5 || i == 7 {
        15
    } else if i == 8 {
        6
    } else if i == 9 {
        4
    } else if i == 11 {
        5
    } else if i == 12 {
        9
    } else {
        1
    }
}

/// Reads the interchange header at the start of `text` by position.
pub fn read_isa(text: &[u8]) -> (r: Result<Isa, ParseError>)
    ensures
        match r {
            Ok(isa) => decode_isa(text@) == Ok::<IsaModel, ParseError>(isa@),
            Err(e) => decode_isa(text@) == Err::<IsaModel, ParseError>(e),
        },
{
    if text.len() < 3 || text[0] != 73 || text[1] != 83 || text[2] != 65 {
        proof {
            if text.len() >= 3 {
                assert(text@.take(3)[0] == text@[0]);
                assert(text@.take(3)[1] == text@[1]);
                assert(text@.take(3)[2] == text@[2]);
            }
        }
        return Err(ParseError { kind: ErrorKind::MissingMandatorySegment, offset: 0 });
    }
    proof {
        assert(text@.take(3) =~= isa_tag());
        lemma_isa_layout();
    }
    if text.len() < 106 {
        return Err(ParseError { kind: ErrorKind::MalformedSegment, offset: text.len() });
    }
    let sep = text[3];
    let mut elements: Vec<Vec<u8>> = Vec::new();
    let mut i: usize = 0;
    let mut pos: usize = 4;
    while i < 16
        invariant
            i <= 16,
            text.len() >= 106,
            text@.take(3) == isa_tag(),
            sep == text@[3],
            pos == isa_start(i as int),
            first_bad(text@, 0) == first_bad(text@, i as int),
            rows(elements@) == isa_elements(text@).take(i as int),
        decreases 16 - i,
    {
        proof {
            lemma_isa_bounds(i as int);
        }
        if text[pos - 1] != sep {
            return Err(ParseError { kind: ErrorKind::MalformedSegment, offset: pos - 1 });
        }
        let w = element_width(i);
        let ghost prev = elements@;
        let element = copy_range(text, pos, pos + w);
        elements.push(element);
        proof {
            assert(rows(elements@) =~= rows(prev).push(element@));
            assert(isa_elements(text@).take(i + 1) =~= isa_elements(text@).take(i as int).push(
                element@,
            ));
        }
        pos = pos + w + 1;
        i += 1;
    }
    proof {
        assert(isa_elements(text@).take(16) =~= isa_elements(text@));
    }
    Ok(Isa { elements, element_separator: sep, segment_terminator: text[105] })
}

/// The delimiters that a header declares.
pub fn delimiters(isa: &Isa) -> (d: Delimiters)
    ensures
        d == delimiters_of(isa@),
{
    let sub: u8 = if isa.elements.len() >= 16 && isa.elements[15].len() >= 1 {
        proof {
            assert(isa@.elements[15] == isa.elements[15]@);
        }
        isa.elements[15][0]
    } else {
        proof {
            if isa.elements.len() >= 16 {
                assert(isa@.elements[15] == isa.elements[15]@);
            }
        }
        58
    };
    Delimiters {
        element: isa.element_separator,
        sub_element: sub,
        terminator: isa.segment_terminator,
    }
}

/// Appends the text of a header, with its terminator, to `out`.
pub fn write_isa(out: &mut Vec<u8>, isa: &Isa)
    ensures
        final(out)@ == old(out)@ + encode_isa(isa@),
{
    out.push(73);
    out.push(83);
    out.push(65);
    proof {
        assert(out@ =~= old(out)@ + isa_prefix(isa@, 0));
    }
    let mut i: usize = 0;
    while i < isa.elements.len()
        invariant
            i <= isa.elements.len(),
            out@ == old(out)@ + isa_prefix(isa@, i as int),
        decreases isa.elements.len() - i,
    {
        out.push(isa.element_separator);
        append_bytes(out, isa.elements[i].as_slice());
        proof {
            assert(isa@.elements[i as int] == isa.elements[i as int]@);
            assert(out@ =~= old(out)@ + (isa_prefix(isa@, i as int) + seq![
                isa@.element_separator,
            ] + isa@.elements[i as int]));
        }
        i += 1;
    }
    out.push(isa.segment_terminator);
    proof {
        assert(out@ =~= old(out)@ + encode_isa(isa@));
    }
}

/// Copies a header.
pub fn copy_isa(isa: &Isa) -> (r: Isa)
    ensures
        r@ == isa@,
{
    let mut elements: Vec<Vec<u8>> = Vec::new();
    let mut i: usize = 0;
    proof {
        assert(rows(elements@) =~= rows(isa.elements@).take(0));
    }
    while i < isa.elements.len()
        invariant
            i <= isa.elements.len(),
            rows(elements@) == rows(isa.elements@).take(i as int),
        decreases isa.elements.len() - i,
    {
        let ghost prev = elements@;
        elements.push(copy_bytes(isa.elements[i].as_slice()));
        proof {
            assert(rows(elements@) =~= rows(prev).push(isa.elements[i as int]@));
            assert(rows(isa.elements@).take(i + 1) =~= rows(isa.elements@).take(i as int).push(
                isa.elements[i as int]@,
            ));
        }
        i += 1;
    }
    proof {
        assert(rows(isa.elements@).take(isa.elements.len() as int) =~= rows(isa.elements@));
    }
    Isa {
        elements,
        element_separator: isa.element_separator,
        segment_terminator: isa.segment_terminator,
    }
}

impl Clone for Isa {
    fn clone(&self) -> (r: Self)
        ensures
            r@ == self@,
    {
        copy_isa(self)
    }
}

/// The header without elements, with the conventional `*` and `~`.
pub open spec fn empty_isa() -> IsaModel {
    IsaModel { elements: Seq::empty(), element_separator: 42, segment_terminator: 126 }
}

impl Default for Isa {
    /// The header without elements, with the conventional `*` and `~`.
    fn default() -> (r: Self)
        ensures
            r@ == empty_isa(),
    {
        let r = Isa { elements: Vec::new(), element_separator: 42, segment_terminator: 126 };
        proof {
            assert(r@.elements =~= Seq::<Seq<u8>>::empty());
        }
        r
    }
}

/// Compares two headers: their elements and their delimiters.
pub fn isa_eq(a: &Isa, b: &Isa) -> (r: bool)
    ensures
        r == (a@ == b@),
{
    a.element_separator == b.element_separator && a.segment_terminator == b.segment_terminator
        && crate::segment::rows_eq(&a.elements, &b.elements)
}

impl PartialEq for Isa {
    fn eq(&self, other: &Self) -> (r: bool) {
        isa_eq(self, other)
    }
}

impl vstd::std_specs::cmp::PartialEqSpecImpl for Isa {
    open spec fn obeys_eq_spec() -> bool {
        true
    }

    open spec fn eq_spec(&self, other: &Self) -> bool {
        self@ == other@
    }
}

impl Eq for Isa {

}

} // verus!
