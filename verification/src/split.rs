//! Splitting byte strings at a separator byte.

use vstd::prelude::*;

verus! {

/// How many bytes stand before the first `needle`; all of them if there is none.
pub open spec fn piece_len(haystack: Seq<u8>, needle: u8) -> nat
    decreases haystack.len(),
{
    if haystack.len() == 0 || haystack[0] == needle {
        0
    } else {
        1 + piece_len(haystack.drop_first(), needle)
    }
}

/// The bytes before the first `needle`.
pub open spec fn first_piece(haystack: Seq<u8>, needle: u8) -> Seq<u8> {
    haystack.take(piece_len(haystack, needle) as int)
}

/// The bytes after the first `needle`; none if there is no `needle`.
pub open spec fn after_piece(haystack: Seq<u8>, needle: u8) -> Seq<u8> {
    let n = piece_len(haystack, needle);
    if n < haystack.len() {
        haystack.skip(n as int + 1)
    } else {
        Seq::empty()
    }
}

/// The pieces of a byte string, each of which a `needle` or the end of the
/// string ends. An empty string has none.
pub open spec fn pieces(haystack: Seq<u8>, needle: u8) -> Seq<Seq<u8>>
    decreases haystack.len(),
{
    if haystack.len() == 0 {
        Seq::empty()
    } else {
        seq![first_piece(haystack, needle)] + pieces(after_piece(haystack, needle), needle)
    }
}

/// The pieces written one after the other, a `needle` behind each.
pub open spec fn joined(parts: Seq<Seq<u8>>, needle: u8) -> Seq<u8>
    decreases parts.len(),
{
    if parts.len() == 0 {
        Seq::empty()
    } else {
        parts[0] + seq![needle] + joined(parts.drop_first(), needle)
    }
}

/// The first piece holds no `needle`, and one stands behind it unless it is
/// all there is.
proof fn lemma_piece_len(haystack: Seq<u8>, needle: u8)
    ensures
        piece_len(haystack, needle) <= haystack.len(),
        forall|j: int| 0 <= j < piece_len(haystack, needle) ==> haystack[j] != needle,
        piece_len(haystack, needle) < haystack.len() ==> haystack[piece_len(
            haystack,
            needle,
        ) as int] == needle,
    decreases haystack.len(),
{
    if haystack.len() > 0 && haystack[0] != needle {
        let rest = haystack.drop_first();
        lemma_piece_len(rest, needle);
        assert forall|j: int| 0 <= j < piece_len(haystack, needle) implies haystack[j] != needle by {
            if j > 0 {
                assert(haystack[j] == rest[j - 1]);
            }
        }
    }
}

/// The place of the first `needle` is the length of the first piece.
proof fn lemma_first_needle(haystack: Seq<u8>, needle: u8, pos: int)
    requires
        0 <= pos <= haystack.len(),
        forall|j: int| 0 <= j < pos ==> haystack[j] != needle,
        pos < haystack.len() ==> haystack[pos] == needle,
    ensures
        piece_len(haystack, needle) == pos,
{
    lemma_piece_len(haystack, needle);
}

/// Splitting makes what is left shorter.
pub proof fn lemma_after_shorter(haystack: Seq<u8>, needle: u8)
    ensures
        haystack.len() > 0 ==> after_piece(haystack, needle).len() < haystack.len(),
        piece_len(haystack, needle) + after_piece(haystack, needle).len() <= haystack.len(),
{
    lemma_piece_len(haystack, needle);
}

/// `memchr::memchr`: it finds the first place where `needle` stands, and
/// nothing exactly if `needle` does not occur.
pub assume_specification[ memchr::memchr ](needle: u8, haystack: &[u8]) -> (r: Option<usize>)
    ensures
        match r {
            Some(pos) => {
                &&& pos < haystack@.len()
                &&& haystack@[pos as int] == needle
                &&& forall|j: int| 0 <= j < pos ==> haystack@[j] != needle
            },
            None => forall|j: int| 0 <= j < haystack@.len() ==> haystack@[j] != needle,
        },
;

/// What is left to split.
pub struct Split<'a> {
    haystack: &'a [u8],
    needle: u8,
}

impl<'a> Split<'a> {
    /// The bytes that are still to be split.
    pub closed spec fn rest(&self) -> Seq<u8> {
        self.haystack@
    }

    /// The byte at which they are split.
    pub closed spec fn needle(&self) -> u8 {
        self.needle
    }

    /// How many bytes are still to be split.
    pub fn rest_len(&self) -> (r: usize)
        ensures
            r == self.rest().len(),
    {
        self.haystack.len()
    }

    /// Takes the next piece off.
    pub fn next(&mut self) -> (r: Option<&'a [u8]>)
        ensures
            final(self).needle() == old(self).needle(),
            match r {
                Some(piece) => {
                    &&& old(self).rest().len() > 0
                    &&& piece@ == first_piece(old(self).rest(), old(self).needle())
                    &&& final(self).rest() == after_piece(old(self).rest(), old(self).needle())
                    &&& piece@.len() + final(self).rest().len() <= old(self).rest().len()
                    &&& final(self).rest().len() < old(self).rest().len()
                },
                None => old(self).rest().len() == 0 && final(self).rest() == old(self).rest(),
            },
    {
        if self.haystack.is_empty() {
            return None;
        }
        let haystack: &'a [u8] = self.haystack;
        let len: usize = haystack.len();
        let end: usize;
        let next: usize;
        match memchr::memchr(self.needle, haystack) {
            Some(pos) => {
                end = pos;
                next = pos + 1;
            },
            None => {
                end = len;
                next = len;
            },
        }
        proof {
            lemma_first_needle(haystack@, self.needle, end as int);
        }
        let piece = vstd::slice::slice_subrange(haystack, 0, end);
        self.haystack = vstd::slice::slice_subrange(haystack, next, len);
        Some(piece)
    }
}

/// Splits a byte string at each `needle`.
pub fn split<'a>(haystack: &'a [u8], needle: u8) -> (r: Split<'a>)
    ensures
        r.rest() == haystack@,
        r.needle() == needle,
{
    Split { haystack, needle }
}

/// No piece holds the separator.
pub proof fn law_pieces_hold_no_needle(haystack: Seq<u8>, needle: u8)
    ensures
        forall|i: int, j: int|
            0 <= i < pieces(haystack, needle).len() && 0 <= j < pieces(haystack, needle)[i].len()
                ==> #[trigger] pieces(haystack, needle)[i][j] != needle,
    decreases haystack.len(),
{
    if haystack.len() > 0 {
        lemma_piece_len(haystack, needle);
        let rest = after_piece(haystack, needle);
        law_pieces_hold_no_needle(rest, needle);
        let all = pieces(haystack, needle);
        assert forall|i: int, j: int|
            0 <= i < all.len() && 0 <= j < all[i].len() implies #[trigger] all[i][j] != needle by {
            if i > 0 {
                assert(all[i] == pieces(rest, needle)[i - 1]);
            }
        }
    }
}

/// The pieces with a separator behind each give the byte string back, but for
/// a separator at the end that the byte string may lack.
pub proof fn law_joined_pieces(haystack: Seq<u8>, needle: u8)
    ensures
        joined(pieces(haystack, needle), needle) == if haystack.len() > 0 && haystack.last()
            != needle {
            haystack.push(needle)
        } else {
            haystack
        },
    decreases haystack.len(),
{
    if haystack.len() > 0 {
        lemma_piece_len(haystack, needle);
        let rest = after_piece(haystack, needle);
        law_joined_pieces(rest, needle);
        let all = pieces(haystack, needle);
        assert(all.drop_first() =~= pieces(rest, needle));
    }
}

/// Splitting undoes joining: parts without the separator, each with one
/// behind it, come out as they went in.
pub proof fn law_pieces_of_joined(parts: Seq<Seq<u8>>, needle: u8)
    requires
        forall|i: int, j: int|
            0 <= i < parts.len() && 0 <= j < parts[i].len() ==> #[trigger] parts[i][j] != needle,
    ensures
        pieces(joined(parts, needle), needle) == parts,
    decreases parts.len(),
{
    if parts.len() > 0 {
        let tail = parts.drop_first();
        let rest = joined(tail, needle);
        law_pieces_of_joined(tail, needle);
        lemma_split_front(parts[0], rest, needle);
    }
}

/// The first piece of `part`, `needle`, `rest` is `part`, and `rest` is left.
pub proof fn lemma_split_front(part: Seq<u8>, rest: Seq<u8>, needle: u8)
    requires
        forall|j: int| 0 <= j < part.len() ==> part[j] != needle,
    ensures
        piece_len(part + seq![needle] + rest, needle) == part.len(),
        first_piece(part + seq![needle] + rest, needle) == part,
        after_piece(part + seq![needle] + rest, needle) == rest,
{
    let whole = part + seq![needle] + rest;
    lemma_first_needle(whole, needle, part.len() as int);
}

/// A byte string without a `needle` is one piece.
pub proof fn lemma_last_piece(part: Seq<u8>, needle: u8)
    requires
        forall|j: int| 0 <= j < part.len() ==> part[j] != needle,
    ensures
        piece_len(part, needle) == part.len(),
        first_piece(part, needle) == part,
        after_piece(part, needle) == Seq::<u8>::empty(),
{
    lemma_first_needle(part, needle, part.len() as int);
    assert(part.take(part.len() as int) =~= part);
}

} // verus!
