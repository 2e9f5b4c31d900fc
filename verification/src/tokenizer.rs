//! The tokenizer: from text to the interchange header and the segments after
//! it, and back.

use crate::bytes::{find_byte, index_of, is_break, lemma_index_of, lemma_index_of_unique};
use crate::error::{error_at, ErrorKind, ParseError};
use crate::header::{
    decode_isa, delimiters, delimiters_of, encode_isa, isa_len, lemma_decode_encode_isa,
    lemma_encode_decode_isa, read_isa, wf_isa, write_isa, Isa, IsaModel,
};
use crate::segment::{
    decode_segment, distinct, encode_segment, legal_segment, legal_segments,
    lemma_decode_encode_segment, lemma_decoded_segment_legal, lemma_encode_decode_segment,
    lemma_encoded_segment_shape, read_segment, segment_models, write_segment, Delimiters,
    Segment, SegmentModel,
};
use vstd::prelude::*;
use vstd::slice::slice_subrange;

verus! {

/// The number of line-break bytes at the start of `s`.
pub open spec fn breaks(s: Seq<u8>) -> int
    decreases s.len(),
{
    if s.len() > 0 && is_break(s[0]) {
        1 + breaks(s.drop_first())
    } else {
        0
    }
}

/// `breaks` is the length of the longest prefix made of line breaks.
pub proof fn lemma_breaks(s: Seq<u8>)
    ensures
        0 <= breaks(s) <= s.len(),
        forall|j: int| 0 <= j < breaks(s) ==> is_break(s[j]),
        breaks(s) < s.len() ==> !is_break(s[breaks(s)]),
    decreases s.len(),
{
    if s.len() > 0 && is_break(s[0]) {
        let t = s.drop_first();
        lemma_breaks(t);
        assert forall|j: int| 0 <= j < breaks(s) implies is_break(s[j]) by {
            if j > 0 {
                assert(s[j] == t[j - 1]);
            }
        }
        if breaks(s) < s.len() {
            assert(s[breaks(s)] == t[breaks(t)]);
        }
    }
}

/// Any length with the defining property of `breaks` is `breaks`.
pub proof fn lemma_breaks_unique(s: Seq<u8>, n: int)
    requires
        0 <= n <= s.len(),
        forall|j: int| 0 <= j < n ==> is_break(s[j]),
        n < s.len() ==> !is_break(s[n]),
    ensures
        breaks(s) == n,
{
    lemma_breaks(s);
    let k = breaks(s);
    if k < n {
        assert(is_break(s[k]));
    } else if n < k {
        assert(is_break(s[n]));
    }
}

/// The segments that `s` holds, `s` being text that starts at byte `base` of
/// a document, right at the first byte of a segment. Each segment runs up to
/// the next terminator; line breaks after a terminator are skipped. Text
/// without a terminator, and a segment without a tag, are malformed at the
/// byte where the segment starts.
pub open spec fn tokenize_body(s: Seq<u8>, d: Delimiters, base: int) -> Result<
    Seq<SegmentModel>,
    ParseError,
>
    decreases s.len(),
{
    let i = index_of(s, d.terminator);
    if s.len() == 0 {
        Ok(Seq::empty())
    } else if i >= s.len() || i == 0 || s[0] == d.element {
        Err(error_at(ErrorKind::MalformedSegment, base))
    } else {
        let after = s.skip(i + 1);
        let n = breaks(after);
        proof {
            lemma_index_of(s, d.terminator);
            lemma_breaks(after);
        }
        match tokenize_body(after.skip(n), d, base + i + 1 + n) {
            Err(e) => Err(e),
            Ok(rest) => Ok(seq![decode_segment(s.take(i), d)] + rest),
        }
    }
}

/// The header and the segments that a document holds.
pub open spec fn tokenize(text: Seq<u8>) -> Result<(IsaModel, Seq<SegmentModel>), ParseError> {
    match decode_isa(text) {
        Err(e) => Err(e),
        Ok(isa) => {
            let after = text.skip(isa_len());
            let n = breaks(after);
            match tokenize_body(after.skip(n), delimiters_of(isa), isa_len() + n) {
                Err(e) => Err(e),
                Ok(segs) => Ok((isa, segs)),
            }
        },
    }
}

/// The text of a sequence of segments: each with its terminator and a line
/// feed behind it.
pub open spec fn render_body(segs: Seq<SegmentModel>, d: Delimiters) -> Seq<u8>
    decreases segs.len(),
{
    if segs.len() == 0 {
        Seq::empty()
    } else {
        encode_segment(segs[0], d) + seq![d.terminator, 10u8] + render_body(segs.drop_first(), d)
    }
}

/// The text of a document: the header, a line feed, and the segments.
pub open spec fn render(isa: IsaModel, segs: Seq<SegmentModel>) -> Seq<u8> {
    encode_isa(isa) + seq![10u8] + render_body(segs, delimiters_of(isa))
}

/// The text `s` with the line breaks after each terminator replaced by one
/// line feed. Text after the last terminator is kept as it is.
pub open spec fn canonical_body(s: Seq<u8>, terminator: u8) -> Seq<u8>
    decreases s.len(),
{
    let i = index_of(s, terminator);
    if s.len() == 0 || i >= s.len() {
        s
    } else {
        let after = s.skip(i + 1);
        proof {
            lemma_index_of(s, terminator);
            lemma_breaks(after);
        }
        s.take(i + 1) + seq![10u8] + canonical_body(after.skip(breaks(after)), terminator)
    }
}

/// The canonical form of a document whose header ends with `terminator`: the
/// same bytes, but with exactly one line feed after each terminator and no
/// other line break there.
pub open spec fn canonical(text: Seq<u8>, terminator: u8) -> Seq<u8> {
    let after = text.skip(isa_len());
    text.take(isa_len()) + seq![10u8] + canonical_body(after.skip(breaks(after)), terminator)
}

/// The outcome of tokenizing a document whose header is `isa` and whose
/// body tokenizes to `body`.
pub open spec fn with_header(isa: IsaModel, body: Result<Seq<SegmentModel>, ParseError>) -> Result<
    (IsaModel, Seq<SegmentModel>),
    ParseError,
> {
    match body {
        Ok(segs) => Ok((isa, segs)),
        Err(e) => Err(e),
    }
}

/// `done` put in front of the segments of a result.
pub open spec fn prepend_segments(
    done: Seq<SegmentModel>,
    r: Result<Seq<SegmentModel>, ParseError>,
) -> Result<Seq<SegmentModel>, ParseError> {
    match r {
        Ok(rest) => Ok(done + rest),
        Err(e) => Err(e),
    }
}

/// Rendering one more segment appends its text, its terminator and a line
/// feed.
pub proof fn lemma_render_body_push(segs: Seq<SegmentModel>, last: SegmentModel, d: Delimiters)
    ensures
        render_body(segs.push(last), d) == render_body(segs, d) + encode_segment(last, d) + seq![
            d.terminator,
            10u8,
        ],
    decreases segs.len(),
{
    let all = segs.push(last);
    if segs.len() == 0 {
        assert(all.drop_first() =~= Seq::<SegmentModel>::empty());
        assert(render_body(all.drop_first(), d) =~= Seq::<u8>::empty());
        assert(render_body(all, d) =~= render_body(segs, d) + encode_segment(last, d) + seq![
            d.terminator,
            10u8,
        ]);
    } else {
        lemma_render_body_push(segs.drop_first(), last, d);
        assert(all.drop_first() =~= segs.drop_first().push(last));
        assert(all[0] == segs[0]);
        assert(render_body(all, d) =~= render_body(segs, d) + encode_segment(last, d) + seq![
            d.terminator,
            10u8,
        ]);
    }
}

/// The text of legal segments is empty or begins with a byte that is not a
/// line break.
pub proof fn lemma_render_body_head(segs: Seq<SegmentModel>, d: Delimiters)
    requires
        legal_segments(segs, d),
        distinct(d),
    ensures
        breaks(render_body(segs, d)) == 0,
{
    if segs.len() > 0 {
        assert(legal_segment(segs[0], d));
        lemma_encoded_segment_shape(segs[0], d);
        let text = render_body(segs, d);
        assert(text[0] == segs[0].tag[0]);
    }
}

/// Tokenizing the text of legal segments gives back the segments.
pub proof fn lemma_tokenize_render_body(segs: Seq<SegmentModel>, d: Delimiters, base: int)
    requires
        legal_segments(segs, d),
        distinct(d),
    ensures
        tokenize_body(render_body(segs, d), d, base) == Ok::<Seq<SegmentModel>, ParseError>(segs),
    decreases segs.len(),
{
    if segs.len() == 0 {
        assert(segs =~= Seq::<SegmentModel>::empty());
    } else {
        let seg = segs[0];
        let rest = segs.drop_first();
        let e = encode_segment(seg, d);
        let tail = render_body(rest, d);
        let text = render_body(segs, d);
        assert(legal_segment(seg, d));
        assert forall|k: int| 0 <= k < rest.len() implies legal_segment(#[trigger] rest[k], d) by {
            assert(rest[k] == segs[k + 1]);
        }
        lemma_encoded_segment_shape(seg, d);
        lemma_decode_encode_segment(seg, d);
        assert(text == e + seq![d.terminator, 10u8] + tail);
        lemma_index_of_unique(text, d.terminator, e.len() as int);
        let i = e.len() as int;
        assert(text.take(i) =~= e);
        assert(text[0] == seg.tag[0]);
        assert(seg.tag[0] != d.element);
        let after = text.skip(i + 1);
        assert(after =~= seq![10u8] + tail);
        lemma_render_body_head(rest, d);
        lemma_breaks(tail);
        assert(after.drop_first() =~= tail);
        assert(breaks(after) == 1);
        assert(after.skip(1) =~= tail);
        lemma_tokenize_render_body(rest, d, base + i + 1 + 1);
        assert(seq![seg] + rest =~= segs);
    }
}

/// Tokenizing the text of a well-formed header and legal segments gives back
/// the header and the segments.
pub proof fn lemma_tokenize_render(isa: IsaModel, segs: Seq<SegmentModel>)
    requires
        wf_isa(isa),
        distinct(delimiters_of(isa)),
        legal_segments(segs, delimiters_of(isa)),
    ensures
        tokenize(render(isa, segs)) == Ok::<(IsaModel, Seq<SegmentModel>), ParseError>(
            (isa, segs),
        ),
{
    let d = delimiters_of(isa);
    let body = render_body(segs, d);
    let text = render(isa, segs);
    lemma_decode_encode_isa(isa, seq![10u8] + body);
    assert(text =~= encode_isa(isa) + (seq![10u8] + body));
    let after = text.skip(isa_len());
    assert(after =~= seq![10u8] + body);
    lemma_render_body_head(segs, d);
    assert(after.drop_first() =~= body);
    assert(breaks(after) == 1);
    assert(after.skip(1) =~= body);
    lemma_tokenize_render_body(segs, d, isa_len() + 1);
}

/// Rendering the segments tokenized from a text gives the canonical form of
/// that text.
pub proof fn lemma_render_tokenize_body(s: Seq<u8>, d: Delimiters, base: int)
    requires
        tokenize_body(s, d, base) is Ok,
    ensures
        render_body(tokenize_body(s, d, base)->Ok_0, d) == canonical_body(s, d.terminator),
    decreases s.len(),
{
    if s.len() == 0 {
    } else {
        lemma_index_of(s, d.terminator);
        let i = index_of(s, d.terminator);
        let after = s.skip(i + 1);
        lemma_breaks(after);
        let n = breaks(after);
        let next = after.skip(n);
        lemma_render_tokenize_body(next, d, base + i + 1 + n);
        let rest = tokenize_body(next, d, base + i + 1 + n)->Ok_0;
        let segs = tokenize_body(s, d, base)->Ok_0;
        lemma_encode_decode_segment(s.take(i), d);
        assert(segs.drop_first() =~= rest);
        assert(s.take(i) + seq![d.terminator, 10u8] =~= s.take(i + 1) + seq![10u8]);
        assert(render_body(segs, d) =~= canonical_body(s, d.terminator));
    }
}

/// Rendering what was tokenized from a document gives the canonical form of
/// the document.
pub proof fn lemma_render_tokenize(text: Seq<u8>)
    requires
        tokenize(text) is Ok,
    ensures
        render(tokenize(text)->Ok_0.0, tokenize(text)->Ok_0.1) == canonical(
            text,
            tokenize(text)->Ok_0.0.segment_terminator,
        ),
        wf_isa(tokenize(text)->Ok_0.0),
{
    let isa = decode_isa(text)->Ok_0;
    lemma_encode_decode_isa(text);
    let after = text.skip(isa_len());
    let n = breaks(after);
    lemma_render_tokenize_body(after.skip(n), delimiters_of(isa), isa_len() + n);
}

/// The segments tokenized from text that does not begin with a line break
/// are legal.
pub proof fn lemma_tokenized_body_legal(s: Seq<u8>, d: Delimiters, base: int)
    requires
        tokenize_body(s, d, base) is Ok,
        s.len() > 0 ==> !is_break(s[0]),
    ensures
        legal_segments(tokenize_body(s, d, base)->Ok_0, d),
    decreases s.len(),
{
    if s.len() > 0 {
        lemma_index_of(s, d.terminator);
        let i = index_of(s, d.terminator);
        let after = s.skip(i + 1);
        lemma_breaks(after);
        let n = breaks(after);
        let next = after.skip(n);
        if next.len() > 0 {
            assert(next[0] == after[n]);
        }
        lemma_tokenized_body_legal(next, d, base + i + 1 + n);
        let rest = tokenize_body(next, d, base + i + 1 + n)->Ok_0;
        let segs = tokenize_body(s, d, base)->Ok_0;
        let text = s.take(i);
        assert(crate::bytes::lacks(text, d.terminator)) by {
            assert forall|j: int| 0 <= j < text.len() implies text[j] != d.terminator by {
                assert(text[j] == s[j]);
            }
        }
        lemma_decoded_segment_legal(text, d);
        assert forall|k: int| 0 <= k < segs.len() implies legal_segment(#[trigger] segs[k], d) by {
            if k > 0 {
                assert(segs[k] == rest[k - 1]);
            }
        }
    }
}

/// The segments tokenized from a document are legal for the delimiters that
/// its header declares.
pub proof fn lemma_tokenized_legal(text: Seq<u8>)
    requires
        tokenize(text) is Ok,
    ensures
        legal_segments(tokenize(text)->Ok_0.1, delimiters_of(tokenize(text)->Ok_0.0)),
{
    let isa = decode_isa(text)->Ok_0;
    let after = text.skip(isa_len());
    lemma_breaks(after);
    let n = breaks(after);
    let body = after.skip(n);
    if body.len() > 0 {
        assert(body[0] == after[n]);
    }
    lemma_tokenized_body_legal(body, delimiters_of(isa), isa_len() + n);
}

/// The position of the first byte at or after `from` that is not a line
/// break.
pub fn skip_breaks(text: &[u8], from: usize) -> (r: usize)
    requires
        from <= text.len(),
    ensures
        r == from + breaks(text@.skip(from as int)),
        from <= r <= text.len(),
{
    let mut i: usize = from;
    while i < text.len() && (text[i] == 10 || text[i] == 13)
        invariant
            from <= i <= text.len(),
            forall|j: int| from <= j < i ==> is_break(text@[j]),
        decreases text.len() - i,
    {
        i += 1;
    }
    proof {
        let t = text@.skip(from as int);
        assert forall|j: int| 0 <= j < i - from implies is_break(t[j]) by {
            assert(t[j] == text@[from + j]);
        }
        lemma_breaks_unique(t, i - from);
    }
    i
}

/// Splits a document into its interchange header and the segments after it.
/// The delimiters are read from the header's fixed positions; every later
/// segment is cut at the terminator and split on the element separator.
pub fn tokenize_text(text: &[u8]) -> (r: Result<(Isa, Vec<Segment>), ParseError>)
    ensures
        match r {
            Ok((isa, segs)) => tokenize(text@) == Ok::<
                (IsaModel, Seq<SegmentModel>),
                ParseError,
            >((isa@, segment_models(segs@))),
            Err(e) => tokenize(text@) == Err::<(IsaModel, Seq<SegmentModel>), ParseError>(e),
        },
{
    let isa = match read_isa(text) {
        Ok(isa) => isa,
        Err(e) => {
            return Err(e);
        },
    };
    let d = delimiters(&isa);
    let start = skip_breaks(text, 106);
    let ghost whole = tokenize_body(text@.skip(start as int), d, start as int);
    proof {
        assert(text@.skip(106).skip(start - 106) =~= text@.skip(start as int));
    }
    let mut segs: Vec<Segment> = Vec::new();
    let mut pos: usize = start;
    proof {
        if whole is Ok {
            assert(Seq::<SegmentModel>::empty() + whole->Ok_0 =~= whole->Ok_0);
        }
        assert(tokenize(text@) == with_header(isa@, whole));
    }
    while pos < text.len()
        invariant
            pos <= text.len(),
            tokenize(text@) == with_header(isa@, whole),
            whole == prepend_segments(
                segment_models(segs@),
                tokenize_body(text@.skip(pos as int), d, pos as int),
            ),
        decreases text.len() - pos,
    {
        let ghost s = text@.skip(pos as int);
        let end = find_byte(text, pos, d.terminator);
        proof {
            lemma_index_of(s, d.terminator);
        }
        if end >= text.len() || end == pos || text[pos] == d.element {
            return Err(ParseError { kind: ErrorKind::MalformedSegment, offset: pos });
        }
        let seg = read_segment(slice_subrange(text, pos, end), &d);
        let next = skip_breaks(text, end + 1);
        let ghost prev = segs@;
        let ghost tail = tokenize_body(text@.skip(next as int), d, next as int);
        segs.push(seg);
        proof {
            let i = end - pos;
            let after = s.skip(i + 1);
            assert(after =~= text@.skip(end + 1));
            lemma_breaks(after);
            assert(after.skip(next - end - 1) =~= text@.skip(next as int));
            assert(s.take(i) =~= text@.subrange(pos as int, end as int));
            assert(segment_models(segs@) =~= segment_models(prev).push(seg@));
            if tail is Ok {
                assert(segment_models(prev) + (seq![seg@] + tail->Ok_0) =~= segment_models(
                    segs@,
                ) + tail->Ok_0);
            }
        }
        pos = next;
    }
    proof {
        assert(segment_models(segs@) + Seq::<SegmentModel>::empty() =~= segment_models(segs@));
    }
    Ok((isa, segs))
}

/// Writes a document: the header, then every segment, each followed by the
/// terminator and a line feed.
pub fn render_text(isa: &Isa, segs: &Vec<Segment>) -> (r: Vec<u8>)
    ensures
        r@ == render(isa@, segment_models(segs@)),
{
    let mut out: Vec<u8> = Vec::new();
    write_isa(&mut out, isa);
    out.push(10);
    let d = delimiters(isa);
    let ghost all = segment_models(segs@);
    let mut i: usize = 0;
    proof {
        assert(all.take(0) =~= Seq::<SegmentModel>::empty());
        assert(out@ =~= encode_isa(isa@) + seq![10u8] + render_body(all.take(0), d));
    }
    while i < segs.len()
        invariant
            i <= segs.len(),
            all == segment_models(segs@),
            d == delimiters_of(isa@),
            out@ == encode_isa(isa@) + seq![10u8] + render_body(all.take(i as int), d),
        decreases segs.len() - i,
    {
        write_segment(&mut out, &segs[i], &d);
        out.push(d.terminator);
        out.push(10);
        proof {
            lemma_render_body_push(all.take(i as int), all[i as int], d);
            assert(all.take(i as int).push(all[i as int]) =~= all.take(i + 1));
            assert(out@ =~= encode_isa(isa@) + seq![10u8] + render_body(all.take(i + 1), d));
        }
        i += 1;
    }
    proof {
        assert(all.take(segs.len() as int) =~= all);
    }
    out
}

} // verus!
