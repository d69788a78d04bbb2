//! The spellings of a name that differ in hyphens and underscores only.

use vstd::arithmetic::power2::*;
use vstd::bits::*;
use vstd::prelude::*;

verus! {

/// Whether a character is a hyphen or an underscore.
pub open spec fn is_separator(c: char) -> bool {
    c == '_' || c == '-'
}

/// How many hyphens and underscores a text holds.
pub open spec fn separators(text: Seq<char>) -> nat
    decreases text.len(),
{
    if text.len() == 0 {
        0
    } else {
        separators(text.drop_last()) + if is_separator(text.last()) {
            1nat
        } else {
            0nat
        }
    }
}

/// Whether bit `r` of `k` is set.
pub open spec fn bit(k: u16, r: nat) -> bool {
    k & (1u16 << (r as u16)) != 0
}

/// The underscore for a hyphen, the hyphen for anything else.
pub open spec fn switched(c: char) -> char {
    if c == '-' {
        '_'
    } else {
        '-'
    }
}

/// The character at place `i` of spelling `k`.
pub open spec fn spelled(text: Seq<char>, k: u16, i: int) -> char {
    let rank = separators(text.take(i));
    if is_separator(text[i]) && rank <= 15 && bit(k, rank) {
        switched(text[i])
    } else {
        text[i]
    }
}

/// Spelling `k` of a text: the separator of rank `r`, one of the first sixteen,
/// is switched where bit `r` of `k` is set.
pub open spec fn spelling(text: Seq<char>, k: u16) -> Seq<char> {
    Seq::new(text.len(), |i: int| spelled(text, k, i))
}

/// How many spellings there are with `n` separators, as far as sixteen bits
/// can count them.
pub open spec fn spelling_limit(n: nat) -> int {
    if n <= 15 {
        (1u16 << (n as u16)) as int
    } else {
        0x1_0000
    }
}

/// Crates.io treats hyphens and underscores as interchangeable, but the index
/// does not: it stores each name in one spelling. This hands out the
/// combinations of hyphens and underscores one after the other, the spelling
/// as given first.
pub struct UncanonicalizedIter<'s> {
    input: &'s str,
    num_hyphen_underscore: u32,
    hyphen_combination_num: u16,
}

impl<'s> UncanonicalizedIter<'s> {
    #[verifier::type_invariant]
    closed spec fn inv(self) -> bool {
        &&& self.num_hyphen_underscore == separators(self.input@) as u32
        &&& self.hyphen_combination_num <= spelling_limit(self.num_hyphen_underscore as nat)
    }

    /// The text whose spellings are handed out.
    pub closed spec fn input(&self) -> Seq<char> {
        self.input@
    }

    /// How many spellings were handed out.
    pub closed spec fn position(&self) -> int {
        self.hyphen_combination_num as int
    }

    /// How many spellings there are to hand out.
    pub open spec fn limit(&self) -> int {
        spelling_limit((separators(self.input()) as u32) as nat)
    }

    pub fn new(input: &'s str) -> (r: Self)
        ensures
            r.input() == input@,
            r.position() == 0,
    {
        let len: usize = input.unicode_len();
        let mut count: usize = 0;
        for c in it: input.chars()
            invariant
                it.seq() == input@,
                len == input@.len(),
                count <= it.index(),
                count == separators(input@.take(it.index() as int)),
        {
            proof {
                let i = it.index() as int;
                assert(input@.take(i + 1).drop_last() =~= input@.take(i));
            }
            if c == '_' || c == '-' {
                count += 1;
            }
        }
        assert(input@.take(len as int) =~= input@);
        UncanonicalizedIter {
            input,
            num_hyphen_underscore: #[verifier::truncate] (count as u32),
            hyphen_combination_num: 0,
        }
    }

    /// How many spellings were handed out.
    pub fn handed_out(&self) -> (r: u16)
        ensures
            r == self.position(),
    {
        self.hyphen_combination_num
    }

    /// The next spelling, until all were handed out.
    pub fn next(&mut self) -> (r: Option<String>)
        requires
            old(self).position() < u16::MAX,
        ensures
            final(self).input() == old(self).input(),
            old(self).position() <= old(self).limit(),
            match r {
                Some(s) => {
                    &&& old(self).position() < old(self).limit()
                    &&& s@ == spelling(old(self).input(), old(self).position() as u16)
                    &&& final(self).position() == old(self).position() + 1
                },
                None => {
                    &&& old(self).position() == old(self).limit()
                    &&& final(self).position() == old(self).position()
                },
            },
    {
        proof {
            use_type_invariant(&*self);
            lemma_last_combination(self.hyphen_combination_num, self.num_hyphen_underscore);
        }
        if self.hyphen_combination_num > 0 && self.hyphen_combination_num.trailing_zeros()
            >= self.num_hyphen_underscore {
            return None;
        }
        let mut out = String::new();
        let mut rank: u16 = 0;
        let input = self.input;
        let k: u16 = self.hyphen_combination_num;
        for c in it: input.chars()
            invariant
                it.seq() == input@,
                rank <= 16,
                rank == if separators(input@.take(it.index() as int)) <= 16 {
                    separators(input@.take(it.index() as int)) as int
                } else {
                    16
                },
                out@ == spelling(input@, k).take(it.index() as int),
        {
            proof {
                let i = it.index() as int;
                assert(input@.take(i + 1).drop_last() =~= input@.take(i));
            }
            // Only the first sixteen separators have a bit of their own.
            if (c == '_' || c == '-') && rank <= 15 {
                let switch = (k & (1u16 << rank)) > 0;
                let spelled = if (c == '_') ^ switch {
                    '_'
                } else {
                    '-'
                };
                rank += 1;
                out.push(spelled);
            } else {
                out.push(c);
            }
        }
        self.hyphen_combination_num = self.hyphen_combination_num + 1;
        Some(out)
    }
}

/// A combination within the limit has `n` trailing zeros only if it is the
/// limit itself.
proof fn lemma_last_combination(k: u16, n: u32)
    requires
        k <= spelling_limit(n as nat),
    ensures
        (k > 0 && vstd::std_specs::bits::u16_trailing_zeros(k) >= n) <==> k as int
            == spelling_limit(n as nat),
{
    vstd::std_specs::bits::axiom_u16_trailing_zeros(k);
    let t = vstd::std_specs::bits::u16_trailing_zeros(k) as u16;
    if n <= 15 {
        let m = n as u16;
        assert(m <= 15 ==> 1u16 << m > 0) by (bit_vector);
        if k > 0 && t >= m {
            assert(k == 1u16 << m) by (bit_vector)
                requires
                    m <= 15,
                    t >= m,
                    t < 16,
                    0 < k <= 1u16 << m,
                    k << ((16 - t) as u16) == 0,
            ;
        }
        if k == 1u16 << m {
            assert(t == m) by (bit_vector)
                requires
                    m <= 15,
                    t < 16,
                    k == 1u16 << m,
                    (k >> t) & 1u16 == 1u16,
            ;
        }
    }
}

/// What two spellings of one name have in common: the text with every
/// underscore turned into a hyphen.
pub open spec fn canonical(text: Seq<char>) -> Seq<char> {
    Seq::new(
        text.len(),
        |i: int|
            if is_separator(text[i]) {
                '-'
            } else {
                text[i]
            },
    )
}

/// The first spelling is the one that was given.
pub proof fn law_first_spelling(text: Seq<char>)
    ensures
        spelling(text, 0) == text,
{
    assert forall|r: u16| r <= 15 implies #[trigger] (0u16 & (1u16 << r)) == 0 by {
        assert(0u16 & (1u16 << r) == 0) by (bit_vector);
    }
}

/// A spelling differs from the text in hyphens and underscores only.
pub proof fn law_spelling_keeps_name(text: Seq<char>, k: u16)
    ensures
        canonical(spelling(text, k)) == canonical(text),
{
}

/// Each spelling within the limit is a different text.
pub proof fn law_spellings_differ(text: Seq<char>, j: u16, k: u16)
    requires
        j < spelling_limit(separators(text)),
        k < spelling_limit(separators(text)),
        j != k,
    ensures
        spelling(text, j) != spelling(text, k),
{
    let n = separators(text);
    let r = lemma_differing_bit(j, k);
    if r >= n {
        let m = n as u16;
        let s = r as u16;
        assert(j & (1u16 << s) == 0 && k & (1u16 << s) == 0) by (bit_vector)
            requires
                m <= s <= 15,
                j < 1u16 << m,
                k < 1u16 << m,
        ;
    }
    let i = lemma_place_of_rank(text, r);
    assert(spelling(text, j)[i] != spelling(text, k)[i]);
}

/// With no more than fifteen separators, every text that differs from the
/// given one in hyphens and underscores only is one of its spellings.
pub proof fn law_every_spelling(text: Seq<char>, other: Seq<char>) -> (k: u16)
    requires
        separators(text) <= 15,
        canonical(other) == canonical(text),
    ensures
        k < spelling_limit(separators(text)),
        spelling(text, k) == other,
{
    assert(text.take(text.len() as int) =~= text);
    let k = lemma_combination(text, other, text.len() as int);
    assert(canonical(text).len() == text.len());
    assert forall|i: int| 0 <= i < text.len() implies spelling(text, k)[i] == #[trigger] other[i] by {
        lemma_canonical(text, i);
        lemma_rank_below(text, i);
        if is_separator(text[i]) {
            assert(bit(k, separators(text.take(i))) == (text[i] != other[i]));
        }
    }
    k
}

/// What stands at a place of the canonical form of a text.
proof fn lemma_canonical(text: Seq<char>, i: int)
    requires
        0 <= i < text.len(),
    ensures
        canonical(text)[i] == if is_separator(text[i]) {
            '-'
        } else {
            text[i]
        },
{
}

/// A combination that switches, among the first `upto` characters, exactly the
/// separators in which two texts differ.
proof fn lemma_combination(text: Seq<char>, other: Seq<char>, upto: int) -> (k: u16)
    requires
        0 <= upto <= text.len(),
        separators(text.take(upto)) <= 15,
    ensures
        k < spelling_limit(separators(text.take(upto))),
        forall|i: int|
            0 <= i < upto && is_separator(text[i]) ==> bit(
                k,
                #[trigger] separators(text.take(i)),
            ) == (text[i] != other[i]),
    decreases upto,
{
    if upto == 0 {
        assert(1u16 << 0u16 == 1u16) by (bit_vector);
        0u16
    } else {
        let last = upto - 1;
        assert(text.take(upto).drop_last() =~= text.take(last));
        let rank = separators(text.take(last));
        let before = lemma_combination(text, other, last);
        if is_separator(text[last]) {
            let r = rank as u16;
            let k = if text[last] != other[last] {
                before | (1u16 << r)
            } else {
                before
            };
            let m = (r + 1) as u16;
            assert(before < 1u16 << m && (before | (1u16 << r)) < 1u16 << m && before & (1u16 << r)
                == 0 && (before | (1u16 << r)) & (1u16 << r) != 0) by (bit_vector)
                requires
                    r <= 14,
                    m == r + 1,
                    before < 1u16 << r,
            ;
            assert forall|i: int| 0 <= i < upto && is_separator(text[i]) implies bit(
                k,
                #[trigger] separators(text.take(i)),
            ) == (text[i] != other[i]) by {
                if i < last {
                    lemma_rank_order(text, i, last);
                    let s = separators(text.take(i)) as u16;
                    assert((before | (1u16 << r)) & (1u16 << s) == before & (1u16 << s))
                        by (bit_vector)
                        requires
                            s < r <= 14,
                    ;
                }
            }
            k
        } else {
            before
        }
    }
}

/// A separator has a lower rank than the places behind it.
proof fn lemma_rank_order(text: Seq<char>, i: int, j: int)
    requires
        0 <= i < j <= text.len(),
    ensures
        separators(text.take(i)) <= separators(text.take(j)),
        is_separator(text[i]) ==> separators(text.take(i)) < separators(text.take(j)),
    decreases j - i,
{
    assert(text.take(j).drop_last() =~= text.take(j - 1));
    if i < j - 1 {
        lemma_rank_order(text, i, j - 1);
    }
}

/// The rank of a separator is below the number of separators.
proof fn lemma_rank_below(text: Seq<char>, i: int)
    requires
        0 <= i < text.len(),
    ensures
        separators(text.take(i)) <= separators(text),
        is_separator(text[i]) ==> separators(text.take(i)) < separators(text),
{
    lemma_rank_order(text, i, text.len() as int);
    assert(text.take(text.len() as int) =~= text);
}

/// There is a separator of each rank below the number of separators.
proof fn lemma_place_of_rank(text: Seq<char>, r: nat) -> (i: int)
    requires
        r < separators(text),
    ensures
        0 <= i < text.len(),
        is_separator(text[i]),
        separators(text.take(i)) == r,
    decreases text.len(),
{
    let rest = text.drop_last();
    let last = text.len() - 1;
    if r < separators(rest) {
        let i = lemma_place_of_rank(rest, r);
        assert(rest.take(i) =~= text.take(i));
        i
    } else {
        last
    }
}

/// Different numbers differ in some bit.
proof fn lemma_differing_bit(j: u16, k: u16) -> (r: nat)
    requires
        j != k,
    ensures
        r <= 15,
        bit(j, r) != bit(k, r),
{
    if forall|r: nat| r <= 15 ==> bit(j, r) == bit(k, r) {
        assert(bit(j, 0) == bit(k, 0) && bit(j, 1) == bit(k, 1) && bit(j, 2) == bit(k, 2) && bit(
            j,
            3,
        ) == bit(k, 3) && bit(j, 4) == bit(k, 4) && bit(j, 5) == bit(k, 5) && bit(j, 6) == bit(k, 6)
            && bit(j, 7) == bit(k, 7) && bit(j, 8) == bit(k, 8) && bit(j, 9) == bit(k, 9) && bit(
            j,
            10,
        ) == bit(k, 10) && bit(j, 11) == bit(k, 11) && bit(j, 12) == bit(k, 12) && bit(j, 13)
            == bit(k, 13) && bit(j, 14) == bit(k, 14) && bit(j, 15) == bit(k, 15));
        assert(j == k) by (bit_vector)
            requires
                (j & (1u16 << 0u16) != 0) == (k & (1u16 << 0u16) != 0),
                (j & (1u16 << 1u16) != 0) == (k & (1u16 << 1u16) != 0),
                (j & (1u16 << 2u16) != 0) == (k & (1u16 << 2u16) != 0),
                (j & (1u16 << 3u16) != 0) == (k & (1u16 << 3u16) != 0),
                (j & (1u16 << 4u16) != 0) == (k & (1u16 << 4u16) != 0),
                (j & (1u16 << 5u16) != 0) == (k & (1u16 << 5u16) != 0),
                (j & (1u16 << 6u16) != 0) == (k & (1u16 << 6u16) != 0),
                (j & (1u16 << 7u16) != 0) == (k & (1u16 << 7u16) != 0),
                (j & (1u16 << 8u16) != 0) == (k & (1u16 << 8u16) != 0),
                (j & (1u16 << 9u16) != 0) == (k & (1u16 << 9u16) != 0),
                (j & (1u16 << 10u16) != 0) == (k & (1u16 << 10u16) != 0),
                (j & (1u16 << 11u16) != 0) == (k & (1u16 << 11u16) != 0),
                (j & (1u16 << 12u16) != 0) == (k & (1u16 << 12u16) != 0),
                (j & (1u16 << 13u16) != 0) == (k & (1u16 << 13u16) != 0),
                (j & (1u16 << 14u16) != 0) == (k & (1u16 << 14u16) != 0),
                (j & (1u16 << 15u16) != 0) == (k & (1u16 << 15u16) != 0),
        ;
    }
    choose|r: nat| r <= 15 && bit(j, r) != bit(k, r)
}

/// What counts as a separator: hyphens and underscores, each once, wherever they
/// stand.
pub proof fn law_separators(text: Seq<char>, c: char)
    ensures
        separators(Seq::empty()) == 0,
        separators(text.push(c)) == separators(text) + if c == '-' || c == '_' {
            1nat
        } else {
            0nat
        },
{
    assert(text.push(c).drop_last() =~= text);
}

/// How many spellings there are: twice as many with each separator, as far as
/// the first sixteen go.
pub proof fn law_number_of_spellings(n: nat)
    ensures
        n <= 16 ==> spelling_limit(n) == pow2(n),
        n >= 16 ==> spelling_limit(n) == pow2(16),
{
    lemma2_to64();
    if n <= 15 {
        lemma_u16_pow2_no_overflow(n);
        lemma_u16_shl_is_mul(1u16, n as u16);
    }
}

/// What stands at a place of a spelling: the separator of rank `r`, one of the
/// first sixteen, is replaced by the other one exactly if the binary digit of
/// rank `r` of `k` is a one. Everything else is kept.
pub proof fn law_spelling_of_a_place(text: Seq<char>, k: u16, i: int)
    requires
        0 <= i < text.len(),
    ensures
        spelling(text, k).len() == text.len(),
        ({
            let rank = separators(text.take(i));
            let is_set = rank < 16 && (k as int / pow2(rank) as int) % 2 == 1;
            spelling(text, k)[i] == if text[i] == '-' && is_set {
                '_'
            } else if text[i] == '_' && is_set {
                '-'
            } else {
                text[i]
            }
        }),
{
    let rank = separators(text.take(i));
    if rank <= 15 {
        let r = rank as u16;
        lemma_u16_shr_is_div(k, r);
        assert((k & (1u16 << r) != 0) == ((k >> r) % 2 == 1)) by (bit_vector)
            requires
                r <= 15,
        ;
    }
}

} // verus!
