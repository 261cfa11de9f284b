//! Specification model for digit runs.
//!
//! A literal's digit text is modelled as a `Seq<u8>`.  The byte `b'_'` is the
//! grouping separator; every other byte counts as a digit.  The engine is
//! radix-agnostic: it moves digit positions around and never interprets a
//! digit's value, except for recognizing the zero digit `b'0'` when
//! normalizing away insignificant leading and trailing zeros.

use vstd::prelude::*;

verus! {

/// The grouping separator byte, `b'_'`.
pub const SEP: u8 = 95;

/// The zero digit byte, `b'0'`.
pub const ZERO_DIGIT: u8 = 48;

/// True for the grouping separator; every other byte is a digit.
pub open spec fn is_sep(b: u8) -> bool {
    b == SEP
}

/// The digits of a byte run: the run with all separators removed.
pub open spec fn digits_of(s: Seq<u8>) -> Seq<u8> {
    s.filter(|b: u8| !is_sep(b))
}

/// A run of `n` zero digits.
pub open spec fn zeros(n: nat) -> Seq<u8> {
    Seq::new(n, |i: int| ZERO_DIGIT)
}

/// Length of the maximal prefix of zero digits.
pub open spec fn lzc(s: Seq<u8>) -> nat
    decreases s.len(),
{
    if s.len() > 0 && s[0] == ZERO_DIGIT {
        1 + lzc(s.skip(1))
    } else {
        0
    }
}

/// Length of the maximal suffix of zero digits.
pub open spec fn tzc(s: Seq<u8>) -> nat
    decreases s.len(),
{
    if s.len() > 0 && s.last() == ZERO_DIGIT {
        1 + tzc(s.drop_last())
    } else {
        0
    }
}

/// The run with its leading zero digits removed.
pub open spec fn strip_lead(s: Seq<u8>) -> Seq<u8> {
    s.skip(lzc(s) as int)
}

/// The run with its trailing zero digits removed.
pub open spec fn strip_trail(s: Seq<u8>) -> Seq<u8> {
    s.take(s.len() - tzc(s))
}

/// Removing separators cannot lengthen a run.
pub proof fn lemma_digits_of_len(s: Seq<u8>)
    ensures
        digits_of(s).len() <= s.len(),
    decreases s.len(),
{
    reveal(Seq::filter);
    if s.len() != 0 {
        lemma_digits_of_len(s.drop_last());
    }
}

/// The digit text of the literal `int.frac` after its point has been shifted
/// `exp` positions rightward, padded with explicit zero digits where the
/// point would otherwise fall outside the text.
pub open spec fn shift_padded(int_ds: Seq<u8>, frac_ds: Seq<u8>, exp: int) -> Seq<u8> {
    if int_ds.len() + exp < 0 {
        zeros((-exp - int_ds.len()) as nat) + int_ds + frac_ds
    } else if exp > frac_ds.len() {
        int_ds + frac_ds + zeros((exp - frac_ds.len()) as nat)
    } else {
        int_ds + frac_ds
    }
}

/// Where the shifted point falls inside `shift_padded(int_ds, frac_ds, exp)`:
/// everything before it is integer part, everything after it fraction.
pub open spec fn shift_point(int_ds: Seq<u8>, exp: int) -> int {
    if int_ds.len() + exp < 0 {
        0
    } else {
        int_ds.len() + exp
    }
}

pub proof fn lemma_digits_of_add(a: Seq<u8>, b: Seq<u8>)
    ensures
        digits_of(a + b) == digits_of(a) + digits_of(b),
{
    Seq::<u8>::filter_distributes_over_add(a, b, |x: u8| !is_sep(x));
}

/// Splitting a run splits its digits.
pub proof fn lemma_digits_of_split(s: Seq<u8>, i: int)
    requires
        0 <= i <= s.len(),
    ensures
        digits_of(s) == digits_of(s.take(i)) + digits_of(s.skip(i)),
{
    assert(s =~= s.take(i) + s.skip(i));
    lemma_digits_of_add(s.take(i), s.skip(i));
}

pub proof fn lemma_digits_of_empty()
    ensures
        digits_of(Seq::<u8>::empty()) == Seq::<u8>::empty(),
{
    reveal(Seq::filter);
}

pub proof fn lemma_digits_of_singleton(b: u8)
    ensures
        is_sep(b) ==> digits_of(seq![b]) == Seq::<u8>::empty(),
        !is_sep(b) ==> digits_of(seq![b]) == seq![b],
{
    reveal(Seq::filter);
    let s = seq![b];
    assert(s.drop_last() =~= Seq::<u8>::empty());
    lemma_digits_of_empty();
    if !is_sep(b) {
        assert(digits_of(s) == Seq::<u8>::empty().push(b));
        assert(Seq::<u8>::empty().push(b) =~= seq![b]);
    }
}

/// A run of separators has no digits.
pub proof fn lemma_digits_of_all_seps(s: Seq<u8>)
    requires
        forall|i: int| 0 <= i < s.len() ==> is_sep(#[trigger] s[i]),
    ensures
        digits_of(s) == Seq::<u8>::empty(),
    decreases s.len(),
{
    reveal(Seq::filter);
    if s.len() == 0 {
        assert(s == Seq::<u8>::empty());
    } else {
        lemma_digits_of_all_seps(s.drop_last());
    }
}

/// Peeling the first byte off a run peels it off the digit sequence too.
pub proof fn lemma_digits_of_uncons(s: Seq<u8>)
    requires
        s.len() > 0,
    ensures
        is_sep(s[0]) ==> digits_of(s) == digits_of(s.skip(1)),
        !is_sep(s[0]) ==> digits_of(s) == seq![s[0]] + digits_of(s.skip(1)),
{
    lemma_digits_of_split(s, 1);
    assert(s.take(1) =~= seq![s[0]]);
    lemma_digits_of_singleton(s[0]);
    if is_sep(s[0]) {
        assert(Seq::<u8>::empty() + digits_of(s.skip(1)) =~= digits_of(s.skip(1)));
    }
}

/// Peeling the last byte off a run peels it off the digit sequence too.
pub proof fn lemma_digits_of_unsnoc(s: Seq<u8>)
    requires
        s.len() > 0,
    ensures
        is_sep(s.last()) ==> digits_of(s) == digits_of(s.drop_last()),
        !is_sep(s.last()) ==> digits_of(s) == digits_of(s.drop_last()) + seq![s.last()],
{
    lemma_digits_of_split(s, s.len() - 1);
    assert(s.take(s.len() - 1) =~= s.drop_last());
    assert(s.skip(s.len() - 1) =~= seq![s.last()]);
    lemma_digits_of_singleton(s.last());
    if is_sep(s.last()) {
        assert(digits_of(s.drop_last()) + Seq::<u8>::empty() =~= digits_of(s.drop_last()));
    }
}

/// Characterization of the leading-zero count.
pub proof fn lemma_lzc(s: Seq<u8>)
    ensures
        lzc(s) <= s.len(),
        forall|i: int| 0 <= i < lzc(s) ==> s[i] == ZERO_DIGIT,
        lzc(s) < s.len() ==> s[lzc(s) as int] != ZERO_DIGIT,
    decreases s.len(),
{
    if s.len() > 0 && s[0] == ZERO_DIGIT {
        lemma_lzc(s.skip(1));
        assert forall|i: int| 0 <= i < lzc(s) implies s[i] == ZERO_DIGIT by {
            if i > 0 {
                assert(s.skip(1)[i - 1] == s[i]);
            }
        }
        if lzc(s) < s.len() {
            assert(s.skip(1)[lzc(s) - 1] == s[lzc(s) as int]);
        }
    }
}

/// Any count with the leading-zero property equals `lzc`.
pub proof fn lemma_lzc_unique(s: Seq<u8>, k: nat)
    requires
        k <= s.len(),
        forall|i: int| 0 <= i < k ==> s[i] == ZERO_DIGIT,
        k < s.len() ==> s[k as int] != ZERO_DIGIT,
    ensures
        lzc(s) == k,
    decreases s.len(),
{
    lemma_lzc(s);
    if lzc(s) < k {
        assert(s[lzc(s) as int] == ZERO_DIGIT);
    }
    if k < lzc(s) {
        assert(s[k as int] == ZERO_DIGIT);
    }
}

/// Characterization of the trailing-zero count.
pub proof fn lemma_tzc(s: Seq<u8>)
    ensures
        tzc(s) <= s.len(),
        forall|i: int| s.len() - tzc(s) <= i < s.len() ==> s[i] == ZERO_DIGIT,
        tzc(s) < s.len() ==> s[s.len() - tzc(s) - 1] != ZERO_DIGIT,
    decreases s.len(),
{
    if s.len() > 0 && s.last() == ZERO_DIGIT {
        lemma_tzc(s.drop_last());
        assert forall|i: int| s.len() - tzc(s) <= i < s.len() implies s[i] == ZERO_DIGIT by {
            if i < s.len() - 1 {
                assert(s.drop_last()[i] == s[i]);
            }
        }
        if tzc(s) < s.len() {
            assert(s.drop_last()[s.len() - tzc(s) - 1] == s[s.len() - tzc(s) - 1]);
        }
    }
}

/// Any count with the trailing-zero property equals `tzc`.
pub proof fn lemma_tzc_unique(s: Seq<u8>, k: nat)
    requires
        k <= s.len(),
        forall|i: int| s.len() - k <= i < s.len() ==> s[i] == ZERO_DIGIT,
        k < s.len() ==> s[s.len() - k - 1] != ZERO_DIGIT,
    ensures
        tzc(s) == k,
{
    lemma_tzc(s);
    if tzc(s) < k {
        assert(s[s.len() - tzc(s) - 1] == ZERO_DIGIT);
    }
    if k < tzc(s) {
        assert(s[s.len() - k - 1] == ZERO_DIGIT);
    }
}

/// Concatenating zero runs.
pub proof fn lemma_zeros_add(a: nat, b: nat)
    ensures
        zeros(a) + zeros(b) == zeros(a + b),
{
    assert(zeros(a) + zeros(b) =~= zeros(a + b));
}

/// The leading zeros of a run really are a zero run.
pub proof fn lemma_lead_zeros_prefix(s: Seq<u8>)
    ensures
        s == zeros(lzc(s)) + strip_lead(s),
{
    lemma_lzc(s);
    assert(s =~= zeros(lzc(s)) + s.skip(lzc(s) as int));
}

/// The trailing zeros of a run really are a zero run.
pub proof fn lemma_trail_zeros_suffix(s: Seq<u8>)
    ensures
        s == strip_trail(s) + zeros(tzc(s)),
{
    lemma_tzc(s);
    assert(s =~= s.take(s.len() - tzc(s)) + zeros(tzc(s)));
}

/// Prepending zero digits only grows the leading-zero count.
pub proof fn lemma_lzc_zeros_prepend(n: nat, s: Seq<u8>)
    ensures
        lzc(zeros(n) + s) == n + lzc(s),
        strip_lead(zeros(n) + s) == strip_lead(s),
{
    let t = zeros(n) + s;
    lemma_lzc(s);
    assert forall|i: int| 0 <= i < n + lzc(s) implies t[i] == ZERO_DIGIT by {
        if i >= n {
            assert(t[i] == s[i - n]);
        }
    }
    if n + lzc(s) < t.len() {
        assert(t[(n + lzc(s)) as int] == s[lzc(s) as int]);
    }
    lemma_lzc_unique(t, n + lzc(s));
    assert(t.skip(lzc(t) as int) =~= s.skip(lzc(s) as int));
}

/// Appending zero digits only grows the trailing-zero count.
pub proof fn lemma_tzc_zeros_append(s: Seq<u8>, n: nat)
    ensures
        tzc(s + zeros(n)) == tzc(s) + n,
        strip_trail(s + zeros(n)) == strip_trail(s),
{
    let t = s + zeros(n);
    lemma_tzc(s);
    assert forall|i: int| t.len() - (tzc(s) + n) <= i < t.len() implies t[i] == ZERO_DIGIT by {
        if i < s.len() {
            assert(t[i] == s[i]);
        }
    }
    if tzc(s) + n < t.len() {
        assert(t[t.len() - (tzc(s) + n) - 1] == s[s.len() - tzc(s) - 1]);
    }
    lemma_tzc_unique(t, tzc(s) + n);
    assert(t.take(t.len() - tzc(t)) =~= s.take(s.len() - tzc(s)));
}

/// A zero shift is the identity: when the integer run carries no leading
/// zeros and the fractional run no trailing zeros (no zero ambiguity), the
/// parts that `DigitsExp::new_int_frac` yields at exponent `0` are exactly
/// the two runs' digits — the same sequences single-source normalization
/// (`DigitsExp::new1`) yields for each run alone.
pub proof fn lemma_zero_shift_identity(int_ds: Seq<u8>, frac_ds: Seq<u8>)
    requires
        lzc(int_ds) == 0,
        tzc(frac_ds) == 0,
    ensures
        strip_lead(shift_padded(int_ds, frac_ds, 0).take(shift_point(int_ds, 0))) == int_ds,
        strip_trail(shift_padded(int_ds, frac_ds, 0).skip(shift_point(int_ds, 0))) == frac_ds,
{
    let p = shift_padded(int_ds, frac_ds, 0);
    assert(p.take(shift_point(int_ds, 0)) =~= int_ds);
    assert(p.skip(shift_point(int_ds, 0)) =~= frac_ds);
    assert(strip_lead(int_ds) =~= int_ds);
    assert(strip_trail(frac_ds) =~= frac_ds);
}

/// Shifting preserves the digits: when normalization has nothing to strip at
/// the shifted point (no zero ambiguity), the integer-part and
/// fractional-part sequences of a shift by `exp`, read in order, are exactly
/// the original digits with the zero fill the exponent demands — the same
/// digit values at every position, only the point has moved.
pub proof fn lemma_shift_preserves_digits(int_ds: Seq<u8>, frac_ds: Seq<u8>, exp: int)
    requires
        lzc(shift_padded(int_ds, frac_ds, exp).take(shift_point(int_ds, exp))) == 0,
        tzc(shift_padded(int_ds, frac_ds, exp).skip(shift_point(int_ds, exp))) == 0,
    ensures
        strip_lead(shift_padded(int_ds, frac_ds, exp).take(shift_point(int_ds, exp)))
            + strip_trail(shift_padded(int_ds, frac_ds, exp).skip(shift_point(int_ds, exp)))
            == shift_padded(int_ds, frac_ds, exp),
{
    let p = shift_padded(int_ds, frac_ds, exp);
    let pos = shift_point(int_ds, exp);
    assert(0 <= pos <= p.len());
    let a = p.take(pos);
    let b = p.skip(pos);
    assert(strip_lead(a) =~= a);
    assert(strip_trail(b) =~= b);
    assert(a + b =~= p);
}

/// A large negative exponent fills the fractional part with zeros by count:
/// as long as the runs hold a significant digit at all, the fractional part
/// is as long as the whole shifted text minus its insignificant tail, and in
/// particular at least as long as the zero fill `-exp - int_ds.len()`.
pub proof fn lemma_neg_exponent_zero_fill(int_ds: Seq<u8>, frac_ds: Seq<u8>, exp: int)
    requires
        exp < 0,
        int_ds.len() + exp <= 0,
        tzc(int_ds + frac_ds) < (int_ds + frac_ds).len(),
    ensures
        strip_trail(shift_padded(int_ds, frac_ds, exp).skip(shift_point(int_ds, exp))).len()
            == (-exp - int_ds.len()) + (int_ds + frac_ds).len() - tzc(int_ds + frac_ds),
        strip_lead(shift_padded(int_ds, frac_ds, exp).take(shift_point(int_ds, exp))).len() == 0,
{
    let all = int_ds + frac_ds;
    let pad = (-exp - int_ds.len()) as nat;
    let p = shift_padded(int_ds, frac_ds, exp);
    let pos = shift_point(int_ds, exp);
    assert(pos == 0);
    assert(p =~= zeros(pad) + all);
    assert(p.skip(0) =~= p);
    assert(p.take(0) =~= Seq::<u8>::empty());
    lemma_tzc(all);
    lemma_tzc_unique(zeros(pad) + all, tzc(all));
    assert(strip_lead(Seq::<u8>::empty()) =~= Seq::<u8>::empty());
}

/// A large positive exponent fills the integer part with zeros by count:
/// as long as the runs hold a significant digit at all, the integer part is
/// as long as the whole shifted text minus its insignificant head, and in
/// particular at least as long as the zero fill `exp - frac_ds.len()`.
pub proof fn lemma_pos_exponent_zero_fill(int_ds: Seq<u8>, frac_ds: Seq<u8>, exp: int)
    requires
        exp >= frac_ds.len(),
        lzc(int_ds + frac_ds) < (int_ds + frac_ds).len(),
    ensures
        strip_lead(shift_padded(int_ds, frac_ds, exp).take(shift_point(int_ds, exp))).len()
            == (exp - frac_ds.len()) + (int_ds + frac_ds).len() - lzc(int_ds + frac_ds),
        strip_trail(shift_padded(int_ds, frac_ds, exp).skip(shift_point(int_ds, exp))).len() == 0,
{
    let all = int_ds + frac_ds;
    let pad = (exp - frac_ds.len()) as nat;
    let p = shift_padded(int_ds, frac_ds, exp);
    let pos = shift_point(int_ds, exp);
    assert(p =~= all + zeros(pad));
    assert(pos == p.len());
    assert(p.take(pos) =~= p);
    assert(p.skip(pos) =~= Seq::<u8>::empty());
    lemma_lzc(all);
    lemma_lzc_unique(all + zeros(pad), lzc(all));
    assert(strip_trail(Seq::<u8>::empty()) =~= Seq::<u8>::empty());
}

} // verus!
