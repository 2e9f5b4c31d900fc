//! Byte-string primitives: comparison, copying, searching, splitting on a
//! separator and joining with one.

use vstd::prelude::*;

verus! {

/// Whether `b` is a line-break byte (line feed or carriage return).
pub open spec fn is_break(b: u8) -> bool {
    b == 10 || b == 13
}

/// The byte strings held by a vector of vectors.
pub open spec fn rows(v: Seq<Vec<u8>>) -> Seq<Seq<u8>> {
    v.map_values(|x: Vec<u8>| x@)
}

/// Whether `b` occurs nowhere in `s`.
pub open spec fn lacks(s: Seq<u8>, b: u8) -> bool {
    forall|i: int| 0 <= i < s.len() ==> s[i] != b
}

/// Index of the first occurrence of `b` in `s`, or `s.len()` when there is none.
pub open spec fn index_of(s: Seq<u8>, b: u8) -> int
    decreases s.len(),
{
    if s.len() == 0 || s[0] == b {
        0
    } else {
        1 + index_of(s.drop_first(), b)
    }
}

/// `index_of` is the least index holding `b`, bounded by the length.
pub proof fn lemma_index_of(s: Seq<u8>, b: u8)
    ensures
        0 <= index_of(s, b) <= s.len(),
        forall|j: int| 0 <= j < index_of(s, b) ==> s[j] != b,
        index_of(s, b) < s.len() ==> s[index_of(s, b)] == b,
    decreases s.len(),
{
    if s.len() == 0 || s[0] == b {
    } else {
        let t = s.drop_first();
        lemma_index_of(t, b);
        assert forall|j: int| 0 <= j < index_of(s, b) implies s[j] != b by {
            if j > 0 {
                assert(s[j] == t[j - 1]);
            }
        }
        if index_of(s, b) < s.len() {
            assert(s[index_of(s, b)] == t[index_of(t, b)]);
        }
    }
}

/// Any index with the defining property of `index_of` is `index_of`.
pub proof fn lemma_index_of_unique(s: Seq<u8>, b: u8, i: int)
    requires
        0 <= i <= s.len(),
        forall|j: int| 0 <= j < i ==> s[j] != b,
        i < s.len() ==> s[i] == b,
    ensures
        index_of(s, b) == i,
{
    lemma_index_of(s, b);
    let k = index_of(s, b);
    if k < i {
        assert(s[k] != b);
    } else if i < k {
        assert(s[i] != b);
    }
}

/// The pieces of `s` between occurrences of `sep`. There is always at least one
/// piece; `n` occurrences of `sep` give `n + 1` pieces.
pub open spec fn split(s: Seq<u8>, sep: u8) -> Seq<Seq<u8>>
    decreases s.len(),
{
    let i = index_of(s, sep);
    if 0 <= i < s.len() {
        seq![s.take(i)] + split(s.skip(i + 1), sep)
    } else {
        seq![s]
    }
}

/// The pieces written one after another with `sep` between neighbours.
pub open spec fn join(parts: Seq<Seq<u8>>, sep: u8) -> Seq<u8>
    decreases parts.len(),
{
    if parts.len() == 0 {
        Seq::empty()
    } else if parts.len() == 1 {
        parts[0]
    } else {
        parts[0] + seq![sep] + join(parts.drop_first(), sep)
    }
}

/// Splitting yields at least one piece, and no piece holds the separator.
pub proof fn lemma_split_pieces(s: Seq<u8>, sep: u8)
    ensures
        split(s, sep).len() >= 1,
        forall|k: int| 0 <= k < split(s, sep).len() ==> lacks(#[trigger] split(s, sep)[k], sep),
        split(s, sep).len() == 1 <==> lacks(s, sep),
        split(s, sep).len() == 1 ==> split(s, sep)[0] == s,
    decreases s.len(),
{
    lemma_index_of(s, sep);
    let i = index_of(s, sep);
    if 0 <= i < s.len() {
        let rest = s.skip(i + 1);
        lemma_split_pieces(rest, sep);
        let parts = split(s, sep);
        assert forall|k: int| 0 <= k < parts.len() implies lacks(#[trigger] parts[k], sep) by {
            if k == 0 {
                assert(parts[0] == s.take(i));
            } else {
                assert(parts[k] == split(rest, sep)[k - 1]);
            }
        }
    } else {
    }
}

/// A byte that the text lacks, every piece lacks.
pub proof fn lemma_split_lacks(s: Seq<u8>, sep: u8, b: u8)
    requires
        lacks(s, b),
    ensures
        forall|k: int| 0 <= k < split(s, sep).len() ==> lacks(#[trigger] split(s, sep)[k], b),
    decreases s.len(),
{
    lemma_index_of(s, sep);
    let i = index_of(s, sep);
    if 0 <= i < s.len() {
        let rest = s.skip(i + 1);
        assert(lacks(rest, b)) by {
            assert forall|j: int| 0 <= j < rest.len() implies rest[j] != b by {
                assert(rest[j] == s[i + 1 + j]);
            }
        }
        lemma_split_lacks(rest, sep, b);
        let parts = split(s, sep);
        assert forall|k: int| 0 <= k < parts.len() implies lacks(#[trigger] parts[k], b) by {
            if k == 0 {
                assert(parts[0] == s.take(i));
                assert forall|j: int| 0 <= j < parts[0].len() implies parts[0][j] != b by {
                    assert(parts[0][j] == s[j]);
                }
            } else {
                assert(parts[k] == split(rest, sep)[k - 1]);
            }
        }
    } else {
    }
}

/// Joining the pieces of a split gives back the text that was split.
pub proof fn lemma_join_split(s: Seq<u8>, sep: u8)
    ensures
        join(split(s, sep), sep) == s,
    decreases s.len(),
{
    lemma_index_of(s, sep);
    let i = index_of(s, sep);
    if 0 <= i < s.len() {
        let rest = s.skip(i + 1);
        lemma_join_split(rest, sep);
        lemma_split_pieces(rest, sep);
        let parts = split(s, sep);
        assert(parts.drop_first() =~= split(rest, sep));
        assert(parts[0] == s.take(i));
        assert(s.take(i) + seq![sep] + rest =~= s);
    } else {
    }
}

/// Splitting a join of separator-free pieces gives back the pieces.
pub proof fn lemma_split_join(parts: Seq<Seq<u8>>, sep: u8)
    requires
        parts.len() >= 1,
        forall|k: int| 0 <= k < parts.len() ==> lacks(#[trigger] parts[k], sep),
    ensures
        split(join(parts, sep), sep) == parts,
    decreases parts.len(),
{
    if parts.len() == 1 {
        let s = parts[0];
        assert(lacks(s, sep));
        lemma_index_of_unique(s, sep, s.len() as int);
        assert(split(s, sep) =~= parts);
    } else {
        let head = parts[0];
        let tail = parts.drop_first();
        assert forall|k: int| 0 <= k < tail.len() implies lacks(#[trigger] tail[k], sep) by {
            assert(tail[k] == parts[k + 1]);
        }
        lemma_split_join(tail, sep);
        let text = head + seq![sep] + join(tail, sep);
        assert(lacks(head, sep));
        lemma_index_of_unique(text, sep, head.len() as int);
        assert(text.take(head.len() as int) =~= head);
        assert(text.skip(head.len() as int + 1) =~= join(tail, sep));
        assert(split(text, sep) =~= parts);
    }
}

/// Compares two byte strings.
pub fn bytes_eq(a: &[u8], b: &[u8]) -> (r: bool)
    ensures
        r == (a@ == b@),
{
    if a.len() != b.len() {
        return false;
    }
    let mut i: usize = 0;
    while i < a.len()
        invariant
            a.len() == b.len(),
            i <= a.len(),
            forall|j: int| 0 <= j < i ==> a@[j] == b@[j],
        decreases a.len() - i,
    {
        if a[i] != b[i] {
            return false;
        }
        i += 1;
    }
    proof {
        assert(a@ =~= b@);
    }
    true
}

/// Copies the bytes of `a` at positions `from..to` into a fresh vector.
pub fn copy_range(a: &[u8], from: usize, to: usize) -> (r: Vec<u8>)
    requires
        from <= to <= a.len(),
    ensures
        r@ == a@.subrange(from as int, to as int),
{
    let mut r: Vec<u8> = Vec::new();
    let mut i: usize = from;
    while i < to
        invariant
            from <= i <= to <= a.len(),
            r@ == a@.subrange(from as int, i as int),
        decreases to - i,
    {
        r.push(a[i]);
        i += 1;
        proof {
            assert(r@ =~= a@.subrange(from as int, i as int));
        }
    }
    r
}

/// Copies a byte string into a fresh vector.
pub fn copy_bytes(a: &[u8]) -> (r: Vec<u8>)
    ensures
        r@ == a@,
{
    let r = copy_range(a, 0, a.len());
    proof {
        assert(a@.subrange(0, a.len() as int) =~= a@);
    }
    r
}

/// Appends the bytes of `a` to `out`.
pub fn append_bytes(out: &mut Vec<u8>, a: &[u8])
    ensures
        final(out)@ == old(out)@ + a@,
{
    let mut i: usize = 0;
    while i < a.len()
        invariant
            i <= a.len(),
            out@ == old(out)@ + a@.subrange(0, i as int),
        decreases a.len() - i,
    {
        out.push(a[i]);
        i += 1;
        proof {
            assert(out@ =~= old(out)@ + a@.subrange(0, i as int));
        }
    }
    proof {
        assert(a@.subrange(0, a.len() as int) =~= a@);
    }
}

/// Finds the first occurrence of `b` in `s` at or after `from`; returns
/// `s.len()` when there is none.
pub fn find_byte(s: &[u8], from: usize, b: u8) -> (r: usize)
    requires
        from <= s.len(),
    ensures
        r == from + index_of(s@.skip(from as int), b),
        from <= r <= s.len(),
{
    let mut i: usize = from;
    while i < s.len() && s[i] != b
        invariant
            from <= i <= s.len(),
            forall|j: int| from <= j < i ==> s@[j] != b,
        decreases s.len() - i,
    {
        i += 1;
    }
    proof {
        let t = s@.skip(from as int);
        assert forall|j: int| 0 <= j < i - from implies t[j] != b by {
            assert(t[j] == s@[from + j]);
        }
        lemma_index_of_unique(t, b, i - from);
    }
    i
}

/// Splits `s` on every occurrence of `sep`.
pub fn split_bytes(s: &[u8], sep: u8) -> (r: Vec<Vec<u8>>)
    ensures
        rows(r@) == split(s@, sep),
{
    let mut r: Vec<Vec<u8>> = Vec::new();
    let mut start: usize = 0;
    proof {
        assert(s@.skip(0) =~= s@);
        assert(rows(r@) + split(s@, sep) =~= split(s@, sep));
    }
    loop
        invariant
            start <= s.len(),
            split(s@, sep) == rows(r@) + split(s@.skip(start as int), sep),
        decreases s.len() - start,
    {
        let end = find_byte(s, start, sep);
        let piece = copy_range(s, start, end);
        let ghost before = rows(r@);
        let ghost tail = s@.skip(start as int);
        r.push(piece);
        proof {
            lemma_index_of(tail, sep);
            assert(piece@ =~= tail.take(end - start));
            assert(rows(r@) =~= before + seq![piece@]);
        }
        if end >= s.len() {
            proof {
                assert(tail.take(tail.len() as int) =~= tail);
                assert(split(tail, sep) =~= seq![tail]);
            }
            return r;
        }
        proof {
            assert(tail.skip(end - start + 1) =~= s@.skip(end + 1));
            assert(split(tail, sep) == seq![tail.take(end - start)] + split(
                s@.skip(end + 1),
                sep,
            ));
            assert(before + (seq![piece@] + split(s@.skip(end + 1), sep)) =~= (before
                + seq![piece@]) + split(s@.skip(end + 1), sep));
        }
        start = end + 1;
    }
}

/// Writes the pieces to `out`, one after another, with `sep` between neighbours.
pub fn join_bytes(out: &mut Vec<u8>, parts: &Vec<Vec<u8>>, sep: u8)
    ensures
        final(out)@ == old(out)@ + join(rows(parts@), sep),
{
    let ghost all = rows(parts@);
    let mut i: usize = 0;
    while i < parts.len()
        invariant
            i <= parts.len(),
            all == rows(parts@),
            out@ == old(out)@ + join(all.take(i as int), sep),
        decreases parts.len() - i,
    {
        if i > 0 {
            out.push(sep);
        }
        append_bytes(out, parts[i].as_slice());
        proof {
            lemma_join_push(all.take(i as int), all[i as int], sep);
            assert(all.take(i as int).push(all[i as int]) =~= all.take(i + 1));
            assert(all[i as int] == parts[i as int]@);
        }
        i += 1;
    }
    proof {
        assert(all.take(parts.len() as int) =~= all);
    }
}

/// Joining one more piece appends the separator (when something precedes it)
/// and the piece.
pub proof fn lemma_join_push(parts: Seq<Seq<u8>>, last: Seq<u8>, sep: u8)
    ensures
        join(parts.push(last), sep) == if parts.len() == 0 {
            last
        } else {
            join(parts, sep) + seq![sep] + last
        },
    decreases parts.len(),
{
    let all = parts.push(last);
    if parts.len() == 0 {
    } else if parts.len() == 1 {
        assert(all.drop_first() =~= seq![last]);
        assert(join(all.drop_first(), sep) == last);
    } else {
        let tail = parts.drop_first();
        lemma_join_push(tail, last, sep);
        assert(all.drop_first() =~= tail.push(last));
        assert(all[0] == parts[0]);
        assert(parts[0] + seq![sep] + (join(tail, sep) + seq![sep] + last) =~= (parts[0]
            + seq![sep] + join(tail, sep)) + seq![sep] + last);
    }
}

} // verus!
