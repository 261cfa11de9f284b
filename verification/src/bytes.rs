//! Zero-copy views over the digit text of a fixed-point literal.
//!
//! [`Bytes`] is a non-owning view over a contiguous byte run.  [`DigitsUnds`]
//! is a byte run trimmed of leading and trailing grouping separators, with a
//! cached digit count.  [`DigitsExp`] is a normalized digit sequence after an
//! exponent has shifted the radix point: counts of virtual leading and
//! trailing zeros around at most two borrowed digit sub-runs, so a huge
//! exponent never materializes its zero fill.

use vstd::prelude::*;

verus! {

use vstd::slice::{slice_index_get, slice_subrange};

use crate::digit_seq::digits_of;
use crate::digit_seq::is_sep;
use crate::digit_seq::lemma_lead_zeros_prefix;
use crate::digit_seq::lemma_lzc_zeros_prepend;
use crate::digit_seq::lemma_trail_zeros_suffix;
use crate::digit_seq::lemma_tzc_zeros_append;
use crate::digit_seq::lemma_zeros_add;
use crate::digit_seq::shift_padded;
use crate::digit_seq::shift_point;
use crate::digit_seq::zeros;
use crate::digit_seq::lemma_digits_of_all_seps;
use crate::digit_seq::lemma_digits_of_empty;
use crate::digit_seq::lemma_digits_of_len;
use crate::digit_seq::lemma_digits_of_split;
use crate::digit_seq::lemma_digits_of_uncons;
use crate::digit_seq::lemma_digits_of_unsnoc;
use crate::digit_seq::lemma_lzc;
use crate::digit_seq::lemma_tzc;
use crate::digit_seq::lzc;
use crate::digit_seq::strip_lead;
use crate::digit_seq::strip_trail;
use crate::digit_seq::tzc;
use crate::digit_seq::SEP;
use crate::digit_seq::ZERO_DIGIT;

/// A non-owning, indexable view over a contiguous byte run.
#[derive(Clone, Copy)]
pub struct Bytes<'a> {
    slice: &'a [u8],
}

impl<'a> View for Bytes<'a> {
    type V = Seq<u8>;

    closed spec fn view(&self) -> Seq<u8> {
        self.slice@
    }
}

impl<'a> Bytes<'a> {
    /// A view over the whole of `bytes`.
    pub fn new(bytes: &'a [u8]) -> (r: Bytes<'a>)
        ensures
            r@ == bytes@,
    {
        Bytes { slice: bytes }
    }

    /// An empty view.
    pub fn empty() -> (r: Bytes<'a>)
        ensures
            r@ == Seq::<u8>::empty(),
    {
        let s: &[u8] = &[];
        assert(s@ =~= Seq::<u8>::empty());
        Bytes { slice: s }
    }

    /// The number of bytes in the view.
    pub fn len(self) -> (r: usize)
        ensures
            r == self@.len(),
    {
        self.slice.len()
    }

    /// True when the view holds no bytes.
    pub fn is_empty(self) -> (r: bool)
        ensures
            r == (self@.len() == 0),
    {
        self.slice.len() == 0
    }

    /// The byte at position `index`.
    pub fn index(self, index: usize) -> (r: u8)
        requires
            index < self@.len(),
        ensures
            r == self@[index as int],
    {
        *slice_index_get(self.slice, index)
    }

    /// Splits the run at `mid` into the first `mid` bytes and the rest.
    pub fn split_at(self, mid: usize) -> (r: (Bytes<'a>, Bytes<'a>))
        requires
            mid <= self@.len(),
        ensures
            r.0@ == self@.take(mid as int),
            r.1@ == self@.skip(mid as int),
    {
        let n = self.slice.len();
        let first = slice_subrange(self.slice, 0, mid);
        let rest = slice_subrange(self.slice, mid, n);
        proof {
            assert(first@ =~= self@.take(mid as int));
            assert(rest@ =~= self@.skip(mid as int));
        }
        (Bytes { slice: first }, Bytes { slice: rest })
    }

    /// The first byte and the remainder, or nothing when empty.
    pub fn split_first(self) -> (r: Option<(u8, Bytes<'a>)>)
        ensures
            match r {
                Option::None => self@.len() == 0,
                Option::Some((b, rest)) => self@.len() > 0 && b == self@[0] && rest@ == self@.skip(
                    1,
                ),
            },
    {
        if self.is_empty() {
            Option::None
        } else {
            let (first, rest) = self.split_at(1);
            Option::Some((first.index(0), rest))
        }
    }

    /// The remainder and the last byte, or nothing when empty.
    pub fn split_last(self) -> (r: Option<(Bytes<'a>, u8)>)
        ensures
            match r {
                Option::None => self@.len() == 0,
                Option::Some((rest, b)) => self@.len() > 0 && b == self@.last() && rest@
                    == self@.drop_last(),
            },
    {
        if self.is_empty() {
            Option::None
        } else {
            let n = self.slice.len();
            let (rest, last) = self.split_at(n - 1);
            proof {
                assert(rest@ =~= self@.drop_last());
            }
            Option::Some((rest, last.index(0)))
        }
    }
}

/// A byte run carrying digits and interior grouping separators: never a
/// separator at either end, with a cached count of the digit bytes.
#[derive(Clone, Copy)]
pub struct DigitsUnds<'a> {
    bytes: Bytes<'a>,
    digits: usize,
}

impl<'a> DigitsUnds<'a> {
    /// The digit bytes of the run, separators skipped.
    pub closed spec fn digits_seq(self) -> Seq<u8> {
        digits_of(self.bytes@)
    }

    /// The trimming invariant: the run is separator-free at both ends and the
    /// cached count matches the digits actually present.
    pub closed spec fn wf(self) -> bool {
        &&& self.digits == self.digits_seq().len()
        &&& self.bytes@.len() > 0 ==> !is_sep(self.bytes@[0]) && !is_sep(self.bytes@.last())
    }

    /// Under the trimming invariant the run is empty exactly when it has no
    /// digits, and then its first and last bytes are its first and last
    /// digits.
    proof fn lemma_ends(self)
        requires
            self.wf(),
        ensures
            self.digits_seq().len() == 0 <==> self.bytes@.len() == 0,
            self.bytes@.len() > 0 ==> self.digits_seq()[0] == self.bytes@[0],
            self.bytes@.len() > 0 ==> self.digits_seq().last() == self.bytes@.last(),
    {
        let s = self.bytes@;
        if s.len() == 0 {
            assert(s =~= Seq::<u8>::empty());
            lemma_digits_of_empty();
        } else {
            lemma_digits_of_uncons(s);
            lemma_digits_of_unsnoc(s);
        }
    }

    /// An empty run.
    pub fn empty() -> (r: DigitsUnds<'a>)
        ensures
            r.wf(),
            r.digits_seq() == Seq::<u8>::empty(),
    {
        proof {
            lemma_digits_of_empty();
        }
        DigitsUnds { bytes: Bytes::empty(), digits: 0 }
    }

    /// Trims leading and trailing separators off `bytes` and counts its
    /// digits.  This is the only place the trimming invariant is established;
    /// the digits themselves are untouched.
    pub fn new(bytes: Bytes<'a>) -> (r: DigitsUnds<'a>)
        ensures
            r.wf(),
            r.digits_seq() == digits_of(bytes@),
    {
        let ghost s = bytes@;
        let n = bytes.len();
        let mut digits: usize = 0;
        let mut leading: usize = 0;
        let mut trailing: usize = 0;
        let mut i: usize = 0;
        while i < n
            invariant
                n == s.len(),
                s == bytes@,
                0 <= i <= n,
                digits == digits_of(s.take(i as int)).len(),
                trailing <= i,
                forall|j: int| i - trailing <= j < i ==> is_sep(#[trigger] s[j]),
                digits == 0 ==> trailing == i && leading == 0,
                digits > 0 ==> leading + trailing < i,
                digits > 0 ==> !is_sep(s[leading as int]),
                digits > 0 ==> forall|j: int| 0 <= j < leading ==> is_sep(#[trigger] s[j]),
                digits > 0 ==> !is_sep(s[i - trailing - 1]),
            decreases n - i,
        {
            let b = bytes.index(i);
            proof {
                let t = s.take(i + 1);
                assert(t.drop_last() =~= s.take(i as int));
                assert(t.last() == s[i as int]);
                lemma_digits_of_unsnoc(t);
                lemma_digits_of_len(s.take(i as int));
            }
            if b == SEP {
                trailing = trailing + 1;
            } else {
                if digits == 0 {
                    leading = trailing;
                }
                digits = digits + 1;
                trailing = 0;
            }
            i = i + 1;
        }
        proof {
            assert(s.take(n as int) =~= s);
        }
        let without_trailing = bytes.split_at(n - trailing).0;
        let trimmed = without_trailing.split_at(leading).1;
        proof {
            let cut = n - trailing;
            assert(trimmed@ =~= s.subrange(leading as int, cut));
            lemma_digits_of_split(s, cut);
            lemma_digits_of_all_seps(s.skip(cut));
            assert(digits_of(s) + Seq::<u8>::empty() =~= digits_of(s));
            lemma_digits_of_split(s.take(cut), leading as int);
            assert(s.take(cut).take(leading as int) =~= s.take(leading as int));
            if digits > 0 {
                lemma_digits_of_all_seps(s.take(leading as int));
            } else {
                assert(s.take(leading as int) =~= Seq::<u8>::empty());
                lemma_digits_of_empty();
            }
            assert(Seq::<u8>::empty() + digits_of(s.take(cut).skip(leading as int)) =~= digits_of(
                s.take(cut).skip(leading as int),
            ));
            assert(s.take(cut).skip(leading as int) =~= trimmed@);
            assert(digits_of(trimmed@) == digits_of(s));
            if trimmed@.len() > 0 {
                assert(trimmed@[0] == s[leading as int]);
                assert(trimmed@.last() == s[cut - 1]);
            }
        }
        DigitsUnds { bytes: trimmed, digits }
    }

    /// The number of digits in the run.
    pub fn len(self) -> (r: usize)
        requires
            self.wf(),
        ensures
            r == self.digits_seq().len(),
    {
        self.digits
    }

    /// True when the run has no digits.
    pub fn is_empty(self) -> (r: bool)
        requires
            self.wf(),
        ensures
            r == (self.digits_seq().len() == 0),
    {
        self.digits == 0
    }

    /// Splits the run at digit position `mid`: the first `mid` digits and the
    /// remaining ones, each again trimmed of boundary separators.  Reading
    /// both parts in order reproduces the run's digits exactly.
    pub fn split_at(self, mid: usize) -> (r: (DigitsUnds<'a>, DigitsUnds<'a>))
        requires
            self.wf(),
            mid <= self.digits_seq().len(),
        ensures
            r.0.wf(),
            r.1.wf(),
            r.0.digits_seq() == self.digits_seq().take(mid as int),
            r.1.digits_seq() == self.digits_seq().skip(mid as int),
            r.0.digits_seq().len() == mid,
            r.1.digits_seq().len() == self.digits_seq().len() - mid,
            r.0.digits_seq() + r.1.digits_seq() == self.digits_seq(),
    {
        let ghost ds = self.digits_seq();
        proof {
            assert(ds.take(mid as int) + ds.skip(mid as int) =~= ds);
        }
        if mid == 0 {
            proof {
                assert(ds.take(0) =~= Seq::<u8>::empty());
                assert(ds.skip(0) =~= ds);
            }
            return (DigitsUnds::empty(), self);
        }
        let ghost s = self.bytes@;
        let n = self.bytes.len();
        let mut i: usize = 0;
        let mut d: usize = 0;
        while d < mid
            invariant
                self.wf(),
                mid <= ds.len(),
                mid >= 1,
                ds == self.digits_seq(),
                s == self.bytes@,
                n == s.len(),
                0 <= i <= n,
                d <= mid,
                d == digits_of(s.take(i as int)).len(),
                d == mid ==> i > 0 && !is_sep(s[i - 1]),
            decreases n - i,
        {
            proof {
                lemma_digits_of_split(s, i as int);
                if i == n {
                    assert(s.skip(n as int) =~= Seq::<u8>::empty());
                    lemma_digits_of_empty();
                }
            }
            let b = self.bytes.index(i);
            proof {
                let t = s.take(i + 1);
                assert(t.drop_last() =~= s.take(i as int));
                assert(t.last() == s[i as int]);
                lemma_digits_of_unsnoc(t);
            }
            if b != SEP {
                d = d + 1;
            }
            i = i + 1;
        }
        proof {
            lemma_digits_of_split(s, i as int);
            assert(digits_of(s.take(i as int)) =~= ds.take(mid as int));
        }
        let first = DigitsUnds { bytes: self.bytes.split_at(i).0, digits: mid };
        proof {
            assert(first.bytes@ == s.take(i as int));
            assert(first.bytes@[0] == s[0]);
            assert(first.bytes@.last() == s[i - 1]);
        }
        let mut j: usize = i;
        while j < n && self.bytes.index(j) == SEP
            invariant
                s == self.bytes@,
                n == s.len(),
                i <= j <= n,
                forall|t: int| i <= t < j ==> is_sep(#[trigger] s[t]),
            decreases n - j,
        {
            j = j + 1;
        }
        proof {
            lemma_digits_of_split(s, j as int);
            lemma_digits_of_split(s.take(j as int), i as int);
            assert(s.take(j as int).take(i as int) =~= s.take(i as int));
            assert(s.take(j as int).skip(i as int) =~= s.subrange(i as int, j as int));
            lemma_digits_of_all_seps(s.subrange(i as int, j as int));
            assert(digits_of(s.take(i as int)) + Seq::<u8>::empty() =~= digits_of(
                s.take(i as int),
            ));
            assert(digits_of(s.skip(j as int)) =~= ds.skip(mid as int));
        }
        let rest_digits = self.digits - mid;
        let rest = DigitsUnds { bytes: self.bytes.split_at(j).1, digits: rest_digits };
        proof {
            assert(rest.bytes@ == s.skip(j as int));
            if rest.bytes@.len() > 0 {
                assert(rest.bytes@[0] == s[j as int]);
                assert(rest.bytes@.last() == s.last());
            }
        }
        (first, rest)
    }

    /// The first digit and the remaining run, or nothing when the run is
    /// empty.  Boundary separators exposed by the removal are stripped.
    pub fn split_first(self) -> (r: Option<(u8, DigitsUnds<'a>)>)
        requires
            self.wf(),
        ensures
            match r {
                Option::None => self.digits_seq().len() == 0,
                Option::Some((b, rest)) => self.digits_seq().len() > 0 && b
                    == self.digits_seq()[0] && rest.wf() && rest.digits_seq()
                    == self.digits_seq().skip(1),
            },
    {
        proof {
            self.lemma_ends();
        }
        let ghost s = self.bytes@;
        let ghost ds = self.digits_seq();
        let n = self.bytes.len();
        if n == 0 {
            return Option::None;
        }
        let first = self.bytes.index(0);
        let mut j: usize = 1;
        while j < n && self.bytes.index(j) == SEP
            invariant
                s == self.bytes@,
                n == s.len(),
                1 <= j <= n,
                forall|t: int| 1 <= t < j ==> is_sep(#[trigger] s[t]),
            decreases n - j,
        {
            j = j + 1;
        }
        proof {
            lemma_digits_of_uncons(s);
            lemma_digits_of_split(s.skip(1), j - 1);
            assert(s.skip(1).take(j - 1) =~= s.subrange(1, j as int));
            lemma_digits_of_all_seps(s.subrange(1, j as int));
            assert(Seq::<u8>::empty() + digits_of(s.skip(1).skip(j - 1)) =~= digits_of(
                s.skip(1).skip(j - 1),
            ));
            assert(s.skip(1).skip(j - 1) =~= s.skip(j as int));
            assert(seq![s[0]] + digits_of(s.skip(j as int)) == ds);
            assert(digits_of(s.skip(j as int)) =~= ds.skip(1));
        }
        let rest = DigitsUnds { bytes: self.bytes.split_at(j).1, digits: self.digits - 1 };
        proof {
            if rest.bytes@.len() > 0 {
                assert(rest.bytes@[0] == s[j as int]);
                assert(rest.bytes@.last() == s.last());
            }
        }
        Option::Some((first, rest))
    }

    /// The last digit and the remaining run, or nothing when the run is
    /// empty.  Boundary separators exposed by the removal are stripped.
    pub fn split_last(self) -> (r: Option<(DigitsUnds<'a>, u8)>)
        requires
            self.wf(),
        ensures
            match r {
                Option::None => self.digits_seq().len() == 0,
                Option::Some((rest, b)) => self.digits_seq().len() > 0 && b
                    == self.digits_seq().last() && rest.wf() && rest.digits_seq()
                    == self.digits_seq().drop_last(),
            },
    {
        proof {
            self.lemma_ends();
        }
        let ghost s = self.bytes@;
        let ghost ds = self.digits_seq();
        let n = self.bytes.len();
        if n == 0 {
            return Option::None;
        }
        let last = self.bytes.index(n - 1);
        let mut j: usize = n - 1;
        while j > 0 && self.bytes.index(j - 1) == SEP
            invariant
                s == self.bytes@,
                n == s.len(),
                0 <= j <= n - 1,
                forall|t: int| j <= t < n - 1 ==> is_sep(#[trigger] s[t]),
            decreases j,
        {
            j = j - 1;
        }
        proof {
            lemma_digits_of_unsnoc(s);
            lemma_digits_of_split(s.drop_last(), j as int);
            assert(s.drop_last().skip(j as int) =~= s.subrange(j as int, n - 1));
            lemma_digits_of_all_seps(s.subrange(j as int, n - 1));
            assert(digits_of(s.drop_last().take(j as int)) + Seq::<u8>::empty() =~= digits_of(
                s.drop_last().take(j as int),
            ));
            assert(s.drop_last().take(j as int) =~= s.take(j as int));
            assert(digits_of(s.take(j as int)) + seq![s.last()] == ds);
            assert(digits_of(s.take(j as int)) =~= ds.drop_last());
        }
        let rest = DigitsUnds { bytes: self.bytes.split_at(j).0, digits: self.digits - 1 };
        proof {
            if rest.bytes@.len() > 0 {
                assert(rest.bytes@[0] == s[0]);
                assert(rest.bytes@.last() == s[j - 1]);
            }
        }
        Option::Some((rest, last))
    }

    /// Peels the zero digits off the front of the run: their count and the
    /// remaining run, whose first digit (if any) is not zero.
    pub fn split_leading_zeros(self) -> (r: (usize, DigitsUnds<'a>))
        requires
            self.wf(),
        ensures
            r.0 == lzc(self.digits_seq()),
            r.1.wf(),
            r.1.digits_seq() == strip_lead(self.digits_seq()),
        decreases self.digits_seq().len(),
    {
        let ghost ds = self.digits_seq();
        match self.split_first() {
            Option::Some((b, rest)) => {
                if b == ZERO_DIGIT {
                    let (z, rem) = rest.split_leading_zeros();
                    proof {
                        lemma_lzc(ds.skip(1));
                        assert(ds.skip(1).skip(lzc(ds.skip(1)) as int) =~= ds.skip(
                            1 + lzc(ds.skip(1)) as int,
                        ));
                    }
                    (z + 1, rem)
                } else {
                    proof {
                        assert(ds.skip(0) =~= ds);
                    }
                    (0, self)
                }
            },
            Option::None => {
                proof {
                    assert(ds.skip(0) =~= ds);
                }
                (0, self)
            },
        }
    }

    /// Peels the zero digits off the back of the run: the remaining run,
    /// whose last digit (if any) is not zero, and their count.
    pub fn split_trailing_zeros(self) -> (r: (DigitsUnds<'a>, usize))
        requires
            self.wf(),
        ensures
            r.1 == tzc(self.digits_seq()),
            r.0.wf(),
            r.0.digits_seq() == strip_trail(self.digits_seq()),
        decreases self.digits_seq().len(),
    {
        let ghost ds = self.digits_seq();
        match self.split_last() {
            Option::Some((rest, b)) => {
                if b == ZERO_DIGIT {
                    let (rem, z) = rest.split_trailing_zeros();
                    proof {
                        let dl = ds.drop_last();
                        lemma_tzc(dl);
                        assert(dl.take(dl.len() - tzc(dl)) =~= ds.take(ds.len() - (1 + tzc(dl))));
                    }
                    (rem, z + 1)
                } else {
                    proof {
                        assert(ds.take(ds.len() - 0) =~= ds);
                    }
                    (self, 0)
                }
            },
            Option::None => {
                proof {
                    assert(ds.take(ds.len() - 0) =~= ds);
                }
                (self, 0)
            },
        }
    }
}

/// A digit sequence after the radix point has been shifted: `leading_zeros`
/// virtual zero digits, the digits of `part1` and `part2`, then
/// `trailing_zeros` virtual zero digits.  Huge zero runs are counts, never
/// materialized bytes.
#[derive(Clone, Copy)]
pub struct DigitsExp<'a> {
    leading_zeros: usize,
    part1: DigitsUnds<'a>,
    part2: DigitsUnds<'a>,
    trailing_zeros: usize,
}

impl<'a> DigitsExp<'a> {
    /// The whole logical digit sequence, zero runs included.
    pub closed spec fn digits_seq(self) -> Seq<u8> {
        zeros(self.leading_zeros as nat) + self.part1.digits_seq() + self.part2.digits_seq()
            + zeros(self.trailing_zeros as nat)
    }

    /// The digits actually borrowed from source text (the two sub-runs).
    pub closed spec fn parts_seq(self) -> Seq<u8> {
        self.part1.digits_seq() + self.part2.digits_seq()
    }

    /// The virtual leading-zero count.
    pub closed spec fn spec_leading_zeros(self) -> nat {
        self.leading_zeros as nat
    }

    /// The virtual trailing-zero count.
    pub closed spec fn spec_trailing_zeros(self) -> nat {
        self.trailing_zeros as nat
    }

    /// Structural invariant: the sub-runs are trimmed and the logical length
    /// is representable as an index.
    pub closed spec fn wf(self) -> bool {
        &&& self.part1.wf()
        &&& self.part2.wf()
        &&& self.leading_zeros + self.part1.digits_seq().len() + self.part2.digits_seq().len()
            + self.trailing_zeros <= usize::MAX
    }

    /// Normalization shape guaranteed by the constructors: the borrowed
    /// sub-runs carry no zero digit that could instead live in a count, and
    /// `part2` is populated only when `part1` is.
    pub closed spec fn parts_normalized(self) -> bool {
        &&& self.part1.digits_seq().len() == 0 ==> self.part2.digits_seq().len() == 0
        &&& self.part1.digits_seq().len() > 0 ==> self.part1.digits_seq()[0] != ZERO_DIGIT
        &&& self.part2.digits_seq().len() > 0 ==> self.part2.digits_seq().last() != ZERO_DIGIT
        &&& self.part2.digits_seq().len() == 0 && self.part1.digits_seq().len() > 0
            ==> self.part1.digits_seq().last() != ZERO_DIGIT
    }

    /// In a normalized value the leading-zero count is maximal: dropping it
    /// is exactly `strip_lead` on the logical sequence.
    proof fn lemma_strip_lead_of(self)
        requires
            self.wf(),
            self.parts_normalized(),
        ensures
            self.parts_seq().len() > 0 ==> lzc(self.digits_seq()) == self.spec_leading_zeros()
                && strip_lead(self.digits_seq()) == self.parts_seq() + zeros(
                self.spec_trailing_zeros(),
            ),
            self.parts_seq().len() == 0 ==> strip_lead(self.digits_seq()) == Seq::<u8>::empty(),
    {
        let lz = self.spec_leading_zeros();
        let tz = self.spec_trailing_zeros();
        let rest = self.parts_seq() + zeros(tz);
        assert(self.digits_seq() =~= zeros(lz) + rest);
        if self.parts_seq().len() > 0 {
            assert(self.part1.digits_seq().len() > 0);
            assert(rest[0] == self.part1.digits_seq()[0]);
            assert(lzc(rest) == 0);
            lemma_lzc_zeros_prepend(lz, rest);
            assert(strip_lead(zeros(lz) + rest) == strip_lead(rest));
            assert(strip_lead(rest) =~= rest);
        } else {
            assert(rest =~= zeros(tz));
            lemma_zeros_add(lz, tz);
            assert(self.digits_seq() =~= zeros(lz + tz) + Seq::<u8>::empty());
            assert(lzc(Seq::<u8>::empty()) == 0);
            lemma_lzc_zeros_prepend(lz + tz, Seq::<u8>::empty());
            assert(strip_lead(self.digits_seq()) =~= Seq::<u8>::empty());
        }
    }

    /// In a normalized value the trailing-zero count is maximal: dropping it
    /// is exactly `strip_trail` on the logical sequence.
    proof fn lemma_strip_trail_of(self)
        requires
            self.wf(),
            self.parts_normalized(),
        ensures
            self.parts_seq().len() > 0 ==> tzc(self.digits_seq()) == self.spec_trailing_zeros()
                && strip_trail(self.digits_seq()) == zeros(self.spec_leading_zeros())
                + self.parts_seq(),
            self.parts_seq().len() == 0 ==> strip_trail(self.digits_seq()) == Seq::<u8>::empty(),
    {
        let lz = self.spec_leading_zeros();
        let tz = self.spec_trailing_zeros();
        let front = zeros(lz) + self.parts_seq();
        assert(self.digits_seq() =~= front + zeros(tz));
        if self.parts_seq().len() > 0 {
            if self.part2.digits_seq().len() > 0 {
                assert(front.last() == self.part2.digits_seq().last());
            } else {
                assert(front.last() == self.part1.digits_seq().last());
            }
            assert(tzc(front) == 0);
            lemma_tzc_zeros_append(front, tz);
            assert(strip_trail(front + zeros(tz)) == strip_trail(front));
            assert(strip_trail(front) =~= front);
        } else {
            assert(front =~= zeros(lz));
            lemma_zeros_add(lz, tz);
            assert(self.digits_seq() =~= Seq::<u8>::empty() + zeros(lz + tz));
            assert(tzc(Seq::<u8>::empty()) == 0);
            lemma_tzc_zeros_append(Seq::<u8>::empty(), lz + tz);
            assert(strip_trail(self.digits_seq()) =~= Seq::<u8>::empty());
        }
    }

    /// An empty digit sequence.
    pub fn empty() -> (r: DigitsExp<'a>)
        ensures
            r.wf(),
            r.parts_normalized(),
            r.digits_seq() == Seq::<u8>::empty(),
            r.parts_seq() == Seq::<u8>::empty(),
            r.spec_leading_zeros() == 0,
            r.spec_trailing_zeros() == 0,
    {
        let r = DigitsExp {
            leading_zeros: 0,
            part1: DigitsUnds::empty(),
            part2: DigitsUnds::empty(),
            trailing_zeros: 0,
        };
        proof {
            assert(r.digits_seq() =~= Seq::<u8>::empty());
            assert(r.parts_seq() =~= Seq::<u8>::empty());
        }
        r
    }

    /// Single-source normalization: the leading and trailing zero digits of
    /// `digits` move into the zero counts; the digits themselves are kept.
    pub fn new1(digits: DigitsUnds<'a>) -> (r: DigitsExp<'a>)
        requires
            digits.wf(),
        ensures
            r.wf(),
            r.parts_normalized(),
            r.digits_seq() == digits.digits_seq(),
            r.parts_seq().len() <= digits.digits_seq().len(),
    {
        let ghost ds = digits.digits_seq();
        let (leading_zeros, rest) = digits.split_leading_zeros();
        let (core, trailing_zeros) = rest.split_trailing_zeros();
        let r = DigitsExp { leading_zeros, part1: core, part2: DigitsUnds::empty(), trailing_zeros };
        proof {
            lemma_lead_zeros_prefix(ds);
            lemma_trail_zeros_suffix(strip_lead(ds));
            lemma_lzc(ds);
            lemma_tzc(strip_lead(ds));
            assert(r.digits_seq() =~= zeros(lzc(ds)) + (strip_trail(strip_lead(ds)) + zeros(
                tzc(strip_lead(ds)),
            )));
            assert(r.digits_seq() == ds);
            let core_s = strip_trail(strip_lead(ds));
            if core_s.len() > 0 {
                assert(core_s[0] == strip_lead(ds)[0]);
                assert(strip_lead(ds)[0] != ZERO_DIGIT);
                assert(core_s.last() != ZERO_DIGIT);
            }
        }
        r
    }

    /// Two-source normalization for logically adjacent runs: zero stripping
    /// crosses the boundary, so the digits kept are exactly those of
    /// `digits1` followed by `digits2`.
    #[verifier::rlimit(60)]
    pub fn new2(digits1: DigitsUnds<'a>, digits2: DigitsUnds<'a>) -> (r: DigitsExp<'a>)
        requires
            digits1.wf(),
            digits2.wf(),
            digits1.digits_seq().len() + digits2.digits_seq().len() <= usize::MAX,
        ensures
            r.wf(),
            r.parts_normalized(),
            r.digits_seq() == digits1.digits_seq() + digits2.digits_seq(),
            r.parts_seq().len() <= digits1.digits_seq().len() + digits2.digits_seq().len(),
    {
        let ghost d1 = digits1.digits_seq();
        let ghost d2 = digits2.digits_seq();
        let ghost mid = d1 + d2;
        proof {
            lemma_lzc(d1);
            lemma_lzc(d2);
            lemma_lzc(mid);
        }
        let (mut leading_zeros, mut part1) = digits1.split_leading_zeros();
        let mut part2 = digits2;
        if part1.is_empty() {
            let (more, new_part1) = digits2.split_leading_zeros();
            proof {
                // all of digits1 was zeros, so the prefix count extends into
                // digits2
                lemma_lead_zeros_prefix(d1);
                assert(d1 =~= zeros(lzc(d1)));
                lemma_lzc_zeros_prepend(lzc(d1), d2);
                assert(mid =~= zeros(lzc(d1)) + d2);
            }
            leading_zeros = leading_zeros + more;
            part1 = new_part1;
            part2 = DigitsUnds::empty();
            proof {
                assert(part1.digits_seq() + part2.digits_seq() =~= strip_lead(d2));
                assert(strip_lead(mid) == strip_lead(d2));
            }
        } else {
            proof {
                lemma_lead_zeros_prefix(d1);
                assert(mid =~= zeros(lzc(d1)) + (strip_lead(d1) + d2));
                assert((strip_lead(d1) + d2)[0] == strip_lead(d1)[0]);
                assert(lzc(strip_lead(d1) + d2) == 0);
                lemma_lzc_zeros_prepend(lzc(d1), strip_lead(d1) + d2);
                assert(strip_lead(strip_lead(d1) + d2) =~= strip_lead(d1) + d2);
                assert(part1.digits_seq() + part2.digits_seq() =~= strip_lead(mid));
            }
        }
        let ghost rest = strip_lead(mid);
        let ghost lz = leading_zeros as nat;
        proof {
            assert(part1.digits_seq() + part2.digits_seq() == rest);
            assert(lz == lzc(mid));
            lemma_lead_zeros_prefix(mid);
            assert(rest.len() <= mid.len());
            assert(part1.digits_seq().len() > 0 ==> part1.digits_seq()[0] != ZERO_DIGIT);
            assert(part1.digits_seq().len() == 0 ==> part2.digits_seq().len() == 0
                && rest.len() == 0) by {
                if part1.digits_seq().len() == 0 {
                    assert(rest =~= part2.digits_seq());
                }
            }
        }
        let ghost p1a = part1.digits_seq();
        let ghost p2a = part2.digits_seq();
        let (p2core, mut trailing_zeros) = part2.split_trailing_zeros();
        part2 = p2core;
        proof {
            lemma_trail_zeros_suffix(p2a);
            lemma_tzc(p2a);
        }
        if part2.is_empty() {
            let (new_part1, more) = part1.split_trailing_zeros();
            proof {
                lemma_trail_zeros_suffix(p1a);
                lemma_tzc(p1a);
                assert(p2a =~= zeros(tzc(p2a)));
                lemma_zeros_add(tzc(p1a), tzc(p2a));
                assert(rest =~= strip_trail(p1a) + zeros(tzc(p1a) + tzc(p2a)));
            }
            trailing_zeros = trailing_zeros + more;
            part1 = new_part1;
            proof {
                if part1.digits_seq().len() > 0 {
                    assert(part1.digits_seq()[0] == p1a[0]);
                    assert(part1.digits_seq().last() != ZERO_DIGIT);
                }
            }
        } else {
            proof {
                assert(rest =~= p1a + (strip_trail(p2a) + zeros(tzc(p2a))));
            }
        }
        let r = DigitsExp { leading_zeros, part1, part2, trailing_zeros };
        proof {
            assert(rest =~= r.parts_seq() + zeros(r.spec_trailing_zeros()));
            assert(r.digits_seq() =~= zeros(lz) + (r.parts_seq() + zeros(
                r.spec_trailing_zeros(),
            )));
            assert(r.digits_seq() == zeros(lz) + rest);
            assert(zeros(lz) + rest == mid);
        }
        r
    }

    /// Normalizes a shift result into an integer part: leading zeros there
    /// are insignificant and dropped, and a part with no real digits carries
    /// no synthetic padding at all.
    fn force_int(self) -> (r: DigitsExp<'a>)
        requires
            self.wf(),
            self.parts_normalized(),
        ensures
            r.wf(),
            r.parts_normalized(),
            r.digits_seq() == strip_lead(self.digits_seq()),
            r.spec_leading_zeros() == 0,
            r.parts_seq() == self.parts_seq(),
    {
        let mut r = self;
        r.leading_zeros = 0;
        if r.part1.is_empty() && r.part2.is_empty() {
            r.trailing_zeros = 0;
        }
        proof {
            self.lemma_strip_lead_of();
            if self.parts_seq().len() > 0 {
                assert(r.digits_seq() =~= self.parts_seq() + zeros(self.spec_trailing_zeros()));
            } else {
                assert(r.digits_seq() =~= Seq::<u8>::empty());
            }
        }
        r
    }

    /// Normalizes a shift result into a fractional part: trailing zeros there
    /// are insignificant and dropped, and a part with no real digits carries
    /// no synthetic padding at all.
    fn force_frac(self) -> (r: DigitsExp<'a>)
        requires
            self.wf(),
            self.parts_normalized(),
        ensures
            r.wf(),
            r.parts_normalized(),
            r.digits_seq() == strip_trail(self.digits_seq()),
            r.spec_trailing_zeros() == 0,
            r.parts_seq() == self.parts_seq(),
    {
        let mut r = self;
        r.trailing_zeros = 0;
        if r.part1.is_empty() && r.part2.is_empty() {
            r.leading_zeros = 0;
        }
        proof {
            self.lemma_strip_trail_of();
            if self.parts_seq().len() > 0 {
                assert(r.digits_seq() =~= zeros(self.spec_leading_zeros()) + self.parts_seq());
            } else {
                assert(r.digits_seq() =~= Seq::<u8>::empty());
            }
        }
        r
    }

    /// The principal algorithm: treats the literal's digits as `int.frac`
    /// with the point after `int`, shifts the point `exp` positions rightward
    /// (negative `exp` shifts left), and returns the normalized integer and
    /// fractional digit sequences.  Zero fill demanded by a large exponent
    /// becomes a count, so the work is bounded by the digits actually
    /// present.  Returns nothing exactly when the exponent's magnitude plus
    /// the other run's length cannot be represented as an index.
    pub fn new_int_frac(int_digits: DigitsUnds<'a>, frac_digits: DigitsUnds<'a>, exp: i32) -> (r: Option<
        (DigitsExp<'a>, DigitsExp<'a>),
    >)
        requires
            int_digits.wf(),
            frac_digits.wf(),
        ensures
            match r {
                Option::None => (exp < 0 && frac_digits.digits_seq().len() + (-(exp as int))
                    > usize::MAX) || (exp > 0 && int_digits.digits_seq().len() + exp as int > usize::MAX),
                Option::Some((ipart, fpart)) => {
                    let p = shift_padded(int_digits.digits_seq(), frac_digits.digits_seq(), exp as int);
                    let pos = shift_point(int_digits.digits_seq(), exp as int);
                    &&& exp < 0 ==> frac_digits.digits_seq().len() + (-(exp as int)) <= usize::MAX
                    &&& exp > 0 ==> int_digits.digits_seq().len() + exp as int <= usize::MAX
                    &&& ipart.wf()
                    &&& fpart.wf()
                    &&& ipart.digits_seq() == strip_lead(p.take(pos))
                    &&& fpart.digits_seq() == strip_trail(p.skip(pos))
                    &&& ipart.spec_leading_zeros() == 0
                    &&& fpart.spec_trailing_zeros() == 0
                    &&& ipart.parts_seq().len() <= int_digits.digits_seq().len()
                        + frac_digits.digits_seq().len()
                    &&& fpart.parts_seq().len() <= int_digits.digits_seq().len()
                        + frac_digits.digits_seq().len()
                },
            },
    {
        let ghost iseq = int_digits.digits_seq();
        let ghost fseq = frac_digits.digits_seq();
        let ghost p = shift_padded(iseq, fseq, exp as int);
        let ghost pos = shift_point(iseq, exp as int);
        let int_len = int_digits.len();
        let frac_len = frac_digits.len();
        let (raw_int, raw_frac) = if exp == 0 {
            proof {
                assert(p.take(pos) =~= iseq);
                assert(p.skip(pos) =~= fseq);
            }
            (DigitsExp::new1(int_digits), DigitsExp::new1(frac_digits))
        } else if exp < 0 {
            let abs_exp = (-(exp as i64)) as usize;
            proof {
                assert(abs_exp == -(exp as int));
            }
            if abs_exp > usize::MAX - frac_len {
                return Option::None;
            }
            if abs_exp < int_len {
                let parts = int_digits.split_at(int_len - abs_exp);
                proof {
                    assert(p.take(pos) =~= iseq.take(pos));
                    assert(p.skip(pos) =~= iseq.skip(pos) + fseq);
                }
                (DigitsExp::new1(parts.0), DigitsExp::new2(parts.1, frac_digits))
            } else {
                let mut fr = DigitsExp::new2(int_digits, frac_digits);
                let pad = abs_exp - int_len;
                proof {
                    assert(fr.digits_seq().len() == fr.spec_leading_zeros()
                        + fr.parts_seq().len() + fr.spec_trailing_zeros());
                    assert(fr.spec_leading_zeros() <= iseq.len() + fseq.len());
                }
                fr.leading_zeros = fr.leading_zeros + pad;
                proof {
                    lemma_zeros_add(pad as nat, (fr.spec_leading_zeros() - pad) as nat);
                    assert(fr.digits_seq() =~= zeros(pad as nat) + (iseq + fseq));
                    assert(p =~= zeros(pad as nat) + (iseq + fseq));
                    assert(pos == 0);
                    assert(p.take(0) =~= Seq::<u8>::empty());
                    assert(p.skip(0) =~= p);
                }
                (DigitsExp::empty(), fr)
            }
        } else {
            let abs_exp = (exp as i64) as usize;
            proof {
                assert(abs_exp == exp as int);
            }
            if abs_exp > usize::MAX - int_len {
                return Option::None;
            }
            if abs_exp < frac_len {
                let parts = frac_digits.split_at(abs_exp);
                proof {
                    assert(p.take(pos) =~= iseq + fseq.take(abs_exp as int));
                    assert(p.skip(pos) =~= fseq.skip(abs_exp as int));
                }
                (DigitsExp::new2(int_digits, parts.0), DigitsExp::new1(parts.1))
            } else {
                let mut ip = DigitsExp::new2(int_digits, frac_digits);
                let pad = abs_exp - frac_len;
                proof {
                    assert(ip.digits_seq().len() == ip.spec_leading_zeros()
                        + ip.parts_seq().len() + ip.spec_trailing_zeros());
                    assert(ip.spec_trailing_zeros() <= iseq.len() + fseq.len());
                }
                ip.trailing_zeros = ip.trailing_zeros + pad;
                proof {
                    lemma_zeros_add((ip.spec_trailing_zeros() - pad) as nat, pad as nat);
                    assert(ip.digits_seq() =~= (iseq + fseq) + zeros(pad as nat));
                    assert(p =~= (iseq + fseq) + zeros(pad as nat));
                    assert(pos == p.len());
                    assert(p.take(pos) =~= p);
                    assert(p.skip(pos) =~= Seq::<u8>::empty());
                }
                (ip, DigitsExp::empty())
            }
        };
        proof {
            assert(raw_int.digits_seq() == p.take(pos));
            assert(raw_frac.digits_seq() == p.skip(pos));
        }
        let ipart = raw_int.force_int();
        let fpart = raw_frac.force_frac();
        Option::Some((ipart, fpart))
    }

    /// The logical digit count: both zero runs plus both sub-runs.
    pub fn len(self) -> (r: usize)
        requires
            self.wf(),
        ensures
            r == self.digits_seq().len(),
    {
        proof {
            assert(self.digits_seq().len() == self.spec_leading_zeros() + self.parts_seq().len()
                + self.spec_trailing_zeros());
        }
        self.leading_zeros + self.part1.len() + self.part2.len() + self.trailing_zeros
    }

    /// True when the logical digit sequence is empty.
    pub fn is_empty(self) -> (r: bool)
        requires
            self.wf(),
        ensures
            r == (self.digits_seq().len() == 0),
    {
        self.len() == 0
    }

    /// Splits the logical sequence at position `mid`, cutting inside
    /// whichever of the four segments contains it.  Reading both parts in
    /// order reproduces the sequence exactly.
    pub fn split_at(self, mid: usize) -> (r: (DigitsExp<'a>, DigitsExp<'a>))
        requires
            self.wf(),
            mid <= self.digits_seq().len(),
        ensures
            r.0.wf(),
            r.1.wf(),
            r.0.digits_seq() == self.digits_seq().take(mid as int),
            r.1.digits_seq() == self.digits_seq().skip(mid as int),
            r.0.digits_seq().len() == mid,
            r.1.digits_seq().len() == self.digits_seq().len() - mid,
            r.0.digits_seq() + r.1.digits_seq() == self.digits_seq(),
    {
        let ghost ds = self.digits_seq();
        let ghost m0 = mid as int;
        proof {
            assert(ds.take(m0) + ds.skip(m0) =~= ds);
            assert(ds.len() == self.spec_leading_zeros() + self.part1.digits_seq().len()
                + self.part2.digits_seq().len() + self.spec_trailing_zeros());
        }
        let mut mid = mid;
        let mut first = DigitsExp::empty();
        let mut last = self;
        if mid == 0 {
            proof {
                assert(first.digits_seq() =~= ds.take(m0));
                assert(last.digits_seq() =~= ds.skip(m0));
            }
            return (first, last);
        }
        if mid < self.leading_zeros {
            first.leading_zeros = mid;
            last.leading_zeros = self.leading_zeros - mid;
            proof {
                assert(first.digits_seq() =~= ds.take(m0));
                assert(last.digits_seq() =~= ds.skip(m0));
            }
            return (first, last);
        }
        first.leading_zeros = self.leading_zeros;
        last.leading_zeros = 0;
        mid = mid - self.leading_zeros;
        if mid == 0 {
            proof {
                assert(first.digits_seq() =~= ds.take(m0));
                assert(last.digits_seq() =~= ds.skip(m0));
            }
            return (first, last);
        }
        let p1len = self.part1.len();
        if mid < p1len {
            let parts = self.part1.split_at(mid);
            first.part1 = parts.0;
            last.part1 = parts.1;
            proof {
                assert(first.digits_seq() =~= ds.take(m0));
                assert(last.digits_seq() =~= ds.skip(m0));
            }
            return (first, last);
        }
        first.part1 = self.part1;
        last.part1 = self.part2;
        last.part2 = DigitsUnds::empty();
        mid = mid - p1len;
        if mid == 0 {
            proof {
                assert(first.digits_seq() =~= ds.take(m0));
                assert(last.digits_seq() =~= ds.skip(m0));
            }
            return (first, last);
        }
        let p2len = self.part2.len();
        if mid < p2len {
            let parts = self.part2.split_at(mid);
            first.part2 = parts.0;
            last.part1 = parts.1;
            proof {
                assert(first.digits_seq() =~= ds.take(m0));
                assert(last.digits_seq() =~= ds.skip(m0));
            }
            return (first, last);
        }
        first.part2 = self.part2;
        last.part1 = DigitsUnds::empty();
        last.leading_zeros = self.trailing_zeros;
        last.trailing_zeros = 0;
        mid = mid - p2len;
        if mid == 0 {
            proof {
                assert(first.digits_seq() =~= ds.take(m0));
                assert(last.digits_seq() =~= ds.skip(m0));
            }
            return (first, last);
        }
        first.trailing_zeros = mid;
        last.leading_zeros = self.trailing_zeros - mid;
        proof {
            assert(first.digits_seq() =~= ds.take(m0));
            assert(last.digits_seq() =~= ds.skip(m0));
        }
        (first, last)
    }

    /// The first logical digit and the remainder, or nothing when empty.
    /// Virtual zeros are yielded without being materialized; no
    /// re-normalization happens on the remainder.
    pub fn split_first(self) -> (r: Option<(u8, DigitsExp<'a>)>)
        requires
            self.wf(),
        ensures
            match r {
                Option::None => self.digits_seq().len() == 0,
                Option::Some((b, rest)) => self.digits_seq().len() > 0 && b
                    == self.digits_seq()[0] && rest.wf() && rest.digits_seq()
                    == self.digits_seq().skip(1),
            },
    {
        let ghost ds = self.digits_seq();
        if self.leading_zeros > 0 {
            let mut rest = self;
            rest.leading_zeros = self.leading_zeros - 1;
            proof {
                assert(ds[0] == ZERO_DIGIT);
                assert(rest.digits_seq() =~= ds.skip(1));
            }
            return Option::Some((ZERO_DIGIT, rest));
        }
        match self.part1.split_first() {
            Option::Some((b, p1rest)) => {
                let mut rest = self;
                rest.part1 = p1rest;
                proof {
                    assert(ds[0] == self.part1.digits_seq()[0]);
                    assert(rest.digits_seq() =~= ds.skip(1));
                }
                return Option::Some((b, rest));
            },
            Option::None => {},
        }
        match self.part2.split_first() {
            Option::Some((b, p2rest)) => {
                let mut rest = self;
                rest.part2 = p2rest;
                proof {
                    assert(ds[0] == self.part2.digits_seq()[0]);
                    assert(rest.digits_seq() =~= ds.skip(1));
                }
                return Option::Some((b, rest));
            },
            Option::None => {},
        }
        if self.trailing_zeros > 0 {
            let mut rest = self;
            rest.trailing_zeros = self.trailing_zeros - 1;
            proof {
                assert(ds[0] == ZERO_DIGIT);
                assert(rest.digits_seq() =~= ds.skip(1));
            }
            return Option::Some((ZERO_DIGIT, rest));
        }
        proof {
            assert(ds.len() == 0);
        }
        Option::None
    }
}

} // verus!
