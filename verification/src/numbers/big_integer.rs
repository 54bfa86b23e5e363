use vstd::prelude::*;

verus! {

/// Error raised when a decimal string does not describe an integer.
#[derive(Debug)]
pub enum BigIntegerError {
    ParseError,
}

/// An immutable integer of arbitrary size, stored as a sequence of decimal
/// digits (least-significant digit first) together with a sign flag.
///
/// Canonical zero is the empty digit sequence; the sign flag is disregarded
/// while the digit sequence is empty, and no most-significant zero digits are
/// ever kept.
#[derive(Debug, Clone)]
pub struct BigInteger {
    digits: Vec<u8>,
    neg: bool,
}

/// 10 raised to the power `n`.
pub open spec fn pow10(n: nat) -> int
    decreases n,
{
    if n == 0 {
        1
    } else {
        10 * pow10((n - 1) as nat)
    }
}

/// The number denoted by a least-significant-first decimal digit sequence.
pub open spec fn digits_value(s: Seq<u8>) -> int
    decreases s.len(),
{
    if s.len() == 0 {
        0
    } else {
        digits_value(s.drop_last()) + s.last() * pow10((s.len() - 1) as nat)
    }
}

/// Every entry of the sequence is a decimal digit.
pub open spec fn digits_in_range(s: Seq<u8>) -> bool {
    forall|i: int| 0 <= i < s.len() ==> s[i] < 10
}

/// A digit sequence as stored: in range and without a most-significant zero,
/// so that zero is exactly the empty sequence.
pub open spec fn canonical_digits(s: Seq<u8>) -> bool {
    digits_in_range(s) && (s.len() > 0 ==> s.last() != 0)
}

/// True of a character that is a decimal digit.
pub open spec fn is_digit_char(c: char) -> bool {
    48 <= c as u32 <= 57
}

/// The digit denoted by a decimal digit character.
pub open spec fn digit_of_char(c: char) -> u8 {
    ((c as u32) - 48) as u8
}

/// The character that denotes a digit.
pub open spec fn char_of_digit(d: u8) -> char {
    ((d + 48) as u8) as char
}

/// Every character of the sequence is a decimal digit.
pub open spec fn all_digit_chars(s: Seq<char>) -> bool {
    forall|i: int| 0 <= i < s.len() ==> is_digit_char(s[i])
}

/// A string accepted by decimal parsing: the empty string, a nonempty run of
/// digits, or a minus sign followed by at least one digit.
pub open spec fn str_valid(s: Seq<char>) -> bool {
    ||| s.len() == 0
    ||| all_digit_chars(s)
    ||| (s.len() >= 2 && s[0] == '-' && all_digit_chars(s.subrange(1, s.len() as int)))
}

/// The number denoted by a most-significant-first run of digit characters.
pub open spec fn decimal_digits_int(s: Seq<char>) -> int
    decreases s.len(),
{
    if s.len() == 0 {
        0
    } else {
        10 * decimal_digits_int(s.drop_last()) + digit_of_char(s.last())
    }
}

/// The number denoted by an accepted decimal string.
pub open spec fn parse_int(s: Seq<char>) -> int {
    if s.len() == 0 {
        0
    } else if s[0] == '-' {
        -decimal_digits_int(s.subrange(1, s.len() as int))
    } else {
        decimal_digits_int(s)
    }
}

/// The canonical decimal rendering of a number that is not below zero.
pub open spec fn render_nat(n: nat) -> Seq<char>
    decreases n,
{
    if n < 10 {
        seq![char_of_digit(n as u8)]
    } else {
        render_nat(n / 10).push(char_of_digit((n % 10) as u8))
    }
}

/// The canonical decimal rendering of an integer: a minus sign for a number
/// below zero, then the digits, most significant first; zero renders as "0".
pub open spec fn render_int(v: int) -> Seq<char> {
    if v < 0 {
        seq!['-'] + render_nat((-v) as nat)
    } else {
        render_nat(v as nat)
    }
}

/// A decimal string in canonical form: "0", or a nonempty run of digits not
/// starting with a zero, optionally preceded by a minus sign.
pub open spec fn canonical_str(s: Seq<char>) -> bool {
    &&& str_valid(s)
    &&& s.len() > 0
    &&& (if s[0] == '-' {
        s[1] != '0'
    } else {
        s.len() == 1 || s[0] != '0'
    })
}

/// The digit sequence read off a most-significant-first run of digit
/// characters, least-significant digit first.
spec fn rev_digits(t: Seq<char>) -> Seq<u8> {
    Seq::new(t.len(), |k: int| digit_of_char(t[t.len() - 1 - k]))
}

/// The characters of a digit sequence, most-significant digit first.
spec fn digit_chars_rev(s: Seq<u8>) -> Seq<char> {
    Seq::new(s.len(), |k: int| char_of_digit(s[s.len() - 1 - k]))
}

proof fn lemma_pow10_pos(n: nat)
    ensures
        pow10(n) >= 1,
    decreases n,
{
    if n > 0 {
        lemma_pow10_pos((n - 1) as nat);
    }
}

proof fn lemma_pow10_mono(m: nat, n: nat)
    requires
        m <= n,
    ensures
        pow10(m) <= pow10(n),
    decreases n,
{
    if m < n {
        lemma_pow10_mono(m, (n - 1) as nat);
        lemma_pow10_pos((n - 1) as nat);
    }
}

proof fn lemma_pow10_adds(m: nat, n: nat)
    ensures
        pow10(m + n) == pow10(m) * pow10(n),
    decreases m,
{
    if m == 0 {
    } else {
        lemma_pow10_adds((m - 1) as nat, n);
        assert(((m + n) - 1) as nat == (m - 1) as nat + n);
        assert(10 * (pow10((m - 1) as nat) * pow10(n)) == (10 * pow10((m - 1) as nat)) * pow10(n))
            by (nonlinear_arith);
    }
}

proof fn lemma_digits_value_bounds(s: Seq<u8>)
    requires
        digits_in_range(s),
    ensures
        0 <= digits_value(s) < pow10(s.len()),
    decreases s.len(),
{
    if s.len() == 0 {
    } else {
        let dl = s.drop_last();
        assert(digits_in_range(dl));
        lemma_digits_value_bounds(dl);
        let p = pow10((s.len() - 1) as nat);
        lemma_pow10_pos((s.len() - 1) as nat);
        assert(s.last() * p <= 9 * p) by (nonlinear_arith)
            requires s.last() <= 9 && p >= 0;
        assert(s.last() * p >= 0) by (nonlinear_arith)
            requires s.last() >= 0 && p >= 0;
    }
}

proof fn lemma_digits_value_lower(s: Seq<u8>)
    requires
        canonical_digits(s),
        s.len() > 0,
    ensures
        digits_value(s) >= pow10((s.len() - 1) as nat),
    decreases s.len(),
{
    let dl = s.drop_last();
    assert(digits_in_range(dl));
    lemma_digits_value_bounds(dl);
    let p = pow10((s.len() - 1) as nat);
    lemma_pow10_pos((s.len() - 1) as nat);
    assert(s.last() * p >= 1 * p) by (nonlinear_arith)
        requires s.last() >= 1 && p >= 0;
}

proof fn lemma_canonical_len_le(s: Seq<u8>, k: nat)
    requires
        canonical_digits(s),
        digits_value(s) < pow10(k),
    ensures
        s.len() <= k,
{
    if s.len() > k {
        lemma_digits_value_lower(s);
        lemma_pow10_mono(k, (s.len() - 1) as nat);
    }
}

proof fn lemma_digits_value_prefix(s: Seq<u8>, i: int)
    requires
        0 <= i < s.len(),
    ensures
        digits_value(s.subrange(0, i + 1)) == digits_value(s.subrange(0, i)) + s[i] * pow10(
            i as nat,
        ),
{
    let t = s.subrange(0, i + 1);
    assert(t.drop_last() =~= s.subrange(0, i));
    assert(t.last() == s[i]);
}

proof fn lemma_digits_value_split(s: Seq<u8>, k: int)
    requires
        0 <= k <= s.len(),
    ensures
        digits_value(s) == digits_value(s.subrange(0, k)) + pow10(k as nat) * digits_value(
            s.subrange(k, s.len() as int),
        ),
    decreases s.len(),
{
    let n = s.len() as int;
    if k == n {
        assert(s.subrange(0, k) =~= s);
        assert(s.subrange(k, n).len() == 0);
        assert(pow10(k as nat) * 0 == 0) by (nonlinear_arith);
    } else {
        let dl = s.drop_last();
        lemma_digits_value_split(dl, k);
        assert(dl.subrange(0, k) =~= s.subrange(0, k));
        let hi = s.subrange(k, n);
        assert(hi.drop_last() =~= dl.subrange(k, n - 1));
        assert(hi.last() == s.last());
        assert(hi.len() == n - k);
        lemma_pow10_adds(k as nat, (n - 1 - k) as nat);
        let pk = pow10(k as nat);
        let ph = pow10((n - 1 - k) as nat);
        let d = s.last() as int;
        let lo_v = digits_value(dl.subrange(k, n - 1));
        // digits_value(hi) == lo_v + d * ph, and pow10(n - 1) == pk * ph.
        assert(pk * (lo_v + d * ph) == pk * lo_v + d * (pk * ph)) by (nonlinear_arith);
    }
}

proof fn lemma_digits_value_first(s: Seq<u8>)
    requires
        s.len() > 0,
    ensures
        digits_value(s) == s[0] + 10 * digits_value(s.subrange(1, s.len() as int)),
{
    lemma_digits_value_split(s, 1);
    let lo = s.subrange(0, 1);
    assert(lo.drop_last() =~= Seq::<u8>::empty());
    assert(lo.last() == s[0]);
    assert(digits_value(lo) == digits_value(Seq::<u8>::empty()) + s[0] * pow10(0));
    assert(digits_value(lo) == s[0]);
}

proof fn lemma_digits_unique(s1: Seq<u8>, s2: Seq<u8>)
    requires
        digits_in_range(s1),
        digits_in_range(s2),
        s1.len() == s2.len(),
        digits_value(s1) == digits_value(s2),
    ensures
        s1 =~= s2,
    decreases s1.len(),
{
    if s1.len() > 0 {
        let n = s1.len();
        let d1 = s1.drop_last();
        let d2 = s2.drop_last();
        assert(digits_in_range(d1));
        assert(digits_in_range(d2));
        lemma_digits_value_bounds(d1);
        lemma_digits_value_bounds(d2);
        let p = pow10((n - 1) as nat);
        lemma_pow10_pos((n - 1) as nat);
        if s1.last() != s2.last() {
            // A difference in the top digit outweighs the lower digits.
            assert(false) by (nonlinear_arith)
                requires
                    digits_value(s1) == digits_value(d1) + s1.last() * p,
                    digits_value(s2) == digits_value(d2) + s2.last() * p,
                    digits_value(s1) == digits_value(s2),
                    0 <= digits_value(d1) < p,
                    0 <= digits_value(d2) < p,
                    s1.last() != s2.last(),
            ;
        }
        assert(s1.last() * p == s2.last() * p);
        lemma_digits_unique(d1, d2);
        assert(s1 =~= d1.push(s1.last()));
        assert(s2 =~= d2.push(s2.last()));
    }
}

proof fn lemma_canonical_unique(s1: Seq<u8>, s2: Seq<u8>)
    requires
        canonical_digits(s1),
        canonical_digits(s2),
        digits_value(s1) == digits_value(s2),
    ensures
        s1 == s2,
{
    lemma_digits_value_bounds(s1);
    lemma_digits_value_bounds(s2);
    lemma_canonical_len_le(s1, s2.len());
    lemma_canonical_len_le(s2, s1.len());
    lemma_digits_unique(s1, s2);
    assert(s1 == s2);
}

impl View for BigInteger {
    type V = int;

    /// The integer this value denotes: the signed magnitude, with the sign
    /// flag disregarded on an empty (zero) digit sequence.
    closed spec fn view(&self) -> int {
        if self.neg {
            -digits_value(self.digits@)
        } else {
            digits_value(self.digits@)
        }
    }
}

impl BigInteger {
    /// The absolute value denoted by the stored digits.
    pub closed spec fn magnitude(self) -> int {
        digits_value(self.digits@)
    }

    /// The stored digit sequence is canonical: in range, and without a
    /// most-significant zero digit.
    pub closed spec fn well_formed(self) -> bool {
        canonical_digits(self.digits@)
    }

    /// The magnitude of a well-formed value is exactly the absolute value of
    /// the integer it denotes.
    pub proof fn lemma_magnitude_is_abs(self)
        ensures
            self.magnitude() >= 0,
            self@ == self.magnitude() || self@ == -self.magnitude(),
            self.magnitude() == if self@ >= 0 {
                self@
            } else {
                -self@
            },
    {
        lemma_digits_value_nonneg(self.digits@);
    }

    /// Returns the canonical zero value.
    pub fn zero() -> (r: Self)
        ensures
            r.well_formed(),
            r@ == 0,
    {
        BigInteger { digits: Vec::new(), neg: false }
    }

    /// True exactly when this value denotes zero.
    pub fn is_zero(&self) -> (r: bool)
        requires
            self.well_formed(),
        ensures
            r == (self@ == 0),
    {
        proof {
            if self.digits@.len() > 0 {
                lemma_digits_value_lower(self.digits@);
                lemma_pow10_pos((self.digits@.len() - 1) as nat);
            }
        }
        self.digits.len() == 0
    }

    /// True exactly when this value denotes a number below zero; zero is never
    /// negative, whatever the stored sign flag says.
    pub fn is_negative(&self) -> (r: bool)
        requires
            self.well_formed(),
        ensures
            r == (self@ < 0),
    {
        proof {
            if self.digits@.len() > 0 {
                lemma_digits_value_lower(self.digits@);
                lemma_pow10_pos((self.digits@.len() - 1) as nat);
            }
        }
        self.digits.len() > 0 && self.neg
    }

    /// Returns a new value with the same magnitude and the given sign.
    pub fn with_sign(&self, neg: bool) -> (r: Self)
        requires
            self.well_formed(),
        ensures
            r.well_formed(),
            r.magnitude() == self.magnitude(),
            r@ == if neg {
                -self.magnitude()
            } else {
                self.magnitude()
            },
    {
        let digits = clone_digits(&self.digits);
        BigInteger { digits, neg }
    }

    /// Returns a new value with the same magnitude and the opposite sign.
    pub fn negate(&self) -> (r: Self)
        requires
            self.well_formed(),
        ensures
            r.well_formed(),
            r.magnitude() == self.magnitude(),
            r@ == -self@,
    {
        proof {
            lemma_digits_value_nonneg(self.digits@);
        }
        self.with_sign(!self.neg)
    }

    /// Returns a new value with the same magnitude and a positive sign.
    pub fn as_positive(&self) -> (r: Self)
        requires
            self.well_formed(),
        ensures
            r.well_formed(),
            r.magnitude() == self.magnitude(),
            r@ == self.magnitude(),
    {
        self.with_sign(false)
    }

    /// Returns a new value with the same magnitude and a negative sign.
    pub fn as_negative(&self) -> (r: Self)
        requires
            self.well_formed(),
        ensures
            r.well_formed(),
            r.magnitude() == self.magnitude(),
            r@ == -self.magnitude(),
    {
        self.with_sign(true)
    }

    /// True exactly when this value denotes a larger number than `other`.
    pub fn greater_than(&self, other: &Self) -> (r: bool)
        requires
            self.well_formed(),
            other.well_formed(),
        ensures
            r == (self@ > other@),
    {
        let self_neg = self.is_negative();
        let other_neg = other.is_negative();
        proof {
            lemma_digits_value_nonneg(self.digits@);
            lemma_digits_value_nonneg(other.digits@);
        }
        if self_neg && other_neg {
            // Both below zero: compare magnitudes with the operands swapped.
            return mag_gt(&other.digits, &self.digits);
        } else if self_neg && !other_neg {
            return false;
        } else if other_neg && !self_neg {
            return true;
        }
        mag_gt(&self.digits, &other.digits)
    }

    /// True exactly when this value denotes the same number as `other`; the
    /// two zero representations are equal whatever their sign flags.
    pub fn equals(&self, other: &Self) -> (r: bool)
        requires
            self.well_formed(),
            other.well_formed(),
        ensures
            r == (self@ == other@),
    {
        proof {
            lemma_digits_value_nonneg(self.digits@);
            lemma_digits_value_nonneg(other.digits@);
            if self@ == other@ {
                lemma_canonical_unique(self.digits@, other.digits@);
            }
            if self.digits@.len() > 0 {
                lemma_digits_value_lower(self.digits@);
                lemma_pow10_pos((self.digits@.len() - 1) as nat);
            }
            if other.digits@.len() > 0 {
                lemma_digits_value_lower(other.digits@);
                lemma_pow10_pos((other.digits@.len() - 1) as nat);
            }
        }
        if self.digits.len() != other.digits.len() {
            return false;
        }
        if self.digits.len() != 0 && self.neg != other.neg {
            return false;
        }
        let n = self.digits.len();
        let mut same = true;
        let mut i = n;
        while i > 0
            invariant
                i <= n,
                n == self.digits@.len(),
                n == other.digits@.len(),
                same ==> forall|j: int| i <= j < n ==> self.digits@[j] == other.digits@[j],
                !same ==> self.digits@ != other.digits@,
            decreases i,
        {
            i -= 1;
            if self.digits[i] != other.digits[i] {
                proof {
                    assert(self.digits@[i as int] != other.digits@[i as int]);
                }
                same = false;
                i = 0;
            }
        }
        proof {
            if same {
                assert(self.digits@ =~= other.digits@);
            } else {
                if digits_value(self.digits@) == digits_value(other.digits@) {
                    lemma_digits_unique(self.digits@, other.digits@);
                }
            }
        }
        same
    }

    /// Shifts the decimal digits to the left by `n` places, multiplying the
    /// value by 10 to the power `n`; zero stays canonical zero.
    pub fn shift_left(&self, n: usize) -> (r: Self)
        requires
            self.well_formed(),
        ensures
            r.well_formed(),
            r@ == self@ * pow10(n as nat),
    {
        if self.is_zero() {
            proof {
                lemma_pow10_pos(n as nat);
                assert(self@ * pow10(n as nat) == 0) by (nonlinear_arith)
                    requires self@ == 0;
            }
            return Self::zero();
        }
        let digits = shift_digits(&self.digits, n);
        proof {
            let p = pow10(n as nat);
            let m = digits_value(self.digits@);
            assert(-(p * m) == (-m) * p && p * m == m * p) by (nonlinear_arith);
        }
        BigInteger { digits, neg: self.neg }
    }

    /// Adds two values, dispatching on the signs and reducing every case to a
    /// magnitude operation.
    pub fn add(&self, other: &Self) -> (r: Self)
        requires
            self.well_formed(),
            other.well_formed(),
        ensures
            r.well_formed(),
            r@ == self@ + other@,
        decreases (if self@ < 0 { 1int } else { 0int }) + (if other@ < 0 { 1int } else { 0int }),
    {
        let self_neg = self.is_negative();
        let other_neg = other.is_negative();
        proof {
            self.lemma_magnitude_is_abs();
            other.lemma_magnitude_is_abs();
        }
        if self_neg && other_neg {
            // (-a) + (-b) == -(a + b)
            let s = self.as_positive().add(&other.as_positive());
            proof {
                s.lemma_magnitude_is_abs();
            }
            return s.as_negative();
        } else if self_neg && !other_neg {
            // (-a) + b == b - a
            return other.sub(&self.as_positive());
        } else if other_neg && !self_neg {
            // a + (-b) == a - b
            return self.sub(&other.as_positive());
        }
        let sum = trim_digits(mag_add(&self.digits, &other.digits));
        BigInteger { digits: sum, neg: false }
    }

    /// Subtracts `other` from this value, dispatching on the signs and
    /// reducing every case to a magnitude operation.
    pub fn sub(&self, other: &Self) -> (r: Self)
        requires
            self.well_formed(),
            other.well_formed(),
        ensures
            r.well_formed(),
            r@ == self@ - other@,
        decreases (if self@ < 0 { 1int } else { 0int }) + (if other@ < 0 { 1int } else { 0int }),
    {
        let self_neg = self.is_negative();
        let other_neg = other.is_negative();
        proof {
            self.lemma_magnitude_is_abs();
            other.lemma_magnitude_is_abs();
        }
        if self_neg && other_neg {
            // (-a) - (-b) == (-a) + b
            return self.add(&other.as_positive());
        } else if self_neg && !other_neg {
            // (-a) - b == -(a + b)
            let s = self.as_positive().add(other);
            proof {
                s.lemma_magnitude_is_abs();
            }
            return s.as_negative();
        } else if !self_neg && other_neg {
            // a - (-b) == a + b
            return self.add(&other.as_positive());
        }
        if other.greater_than(self) {
            let diff = mag_sub(&other.digits, &self.digits);
            BigInteger { digits: diff, neg: true }
        } else {
            let diff = mag_sub(&self.digits, &other.digits);
            BigInteger { digits: diff, neg: false }
        }
    }

    /// Multiplies two values by Karatsuba multiplication on the absolute
    /// values; the result sign is negative exactly when the operand signs
    /// differ and the product is not zero.
    pub fn mul(&self, other: &BigInteger) -> (r: Self)
        requires
            self.well_formed(),
            other.well_formed(),
        ensures
            r.well_formed(),
            r@ == self@ * other@,
    {
        let self_neg = self.is_negative();
        let other_neg = other.is_negative();
        let prod = mag_mul(&self.digits, &other.digits);
        proof {
            self.lemma_magnitude_is_abs();
            other.lemma_magnitude_is_abs();
            let ms = self.magnitude();
            let mo = other.magnitude();
            assert((-ms) * mo == -(ms * mo) && ms * (-mo) == -(ms * mo) && (-ms) * (-mo) == ms
                * mo) by (nonlinear_arith);
        }
        BigInteger { digits: prod, neg: self_neg != other_neg }
    }

    /// Builds the value denoted by a machine unsigned integer.
    pub fn from_u64(value: u64) -> (r: Self)
        ensures
            r.well_formed(),
            r@ == value as int,
    {
        let mut digits: Vec<u8> = Vec::new();
        let mut v = value;
        while v > 0
            invariant
                digits_in_range(digits@),
                digits_value(digits@) + (v as int) * pow10(digits@.len() as nat) == value as int,
                (v == 0 && digits@.len() > 0) ==> digits@.last() != 0,
            decreases v,
        {
            let d = (v % 10) as u8;
            let new_v = v / 10;
            proof {
                lemma_digits_value_push(digits@, d);
                let n = digits@.len() as nat;
                let p = pow10(n);
                lemma_pow10_pos(n);
                assert(pow10(n + 1) == 10 * p);
                assert(v == 10 * new_v + d);
                assert((10 * (new_v as int) + d) * p == d * p + (new_v as int) * (10 * p))
                    by (nonlinear_arith);
            }
            digits.push(d);
            v = new_v;
        }
        proof {
            assert((0int) * pow10(digits@.len() as nat) == 0) by (nonlinear_arith);
        }
        BigInteger { digits, neg: false }
    }

    /// Renders the value canonically: a minus sign when the value is below
    /// zero, then the digits, most significant first; zero renders as "0".
    pub fn to_display_string(&self) -> (r: String)
        requires
            self.well_formed(),
        ensures
            r@ == render_int(self@),
    {
        let mut out = String::new();
        let neg = self.is_negative();
        proof {
            self.lemma_magnitude_is_abs();
        }
        if neg {
            out.append("-");
        }
        if self.digits.len() == 0 {
            out.append("0");
            proof {
                reveal_strlit("0");
                assert(char_of_digit(0) == '0');
                assert(render_nat(0) =~= seq!['0']);
                assert(out@ =~= seq!['0']);
            }
            return out;
        }
        let ghost sign: Seq<char> = if neg {
            seq!['-']
        } else {
            seq![]
        };
        proof {
            if neg {
                reveal_strlit("-");
            }
            assert(out@ =~= sign);
            assert(out@ == sign + digit_chars_rev(self.digits@).subrange(0, 0)) by {
                assert(sign + digit_chars_rev(self.digits@).subrange(0, 0) =~= sign);
            }
        }
        let n = self.digits.len();
        let mut i = n;
        while i > 0
            invariant
                i <= n,
                n == self.digits@.len(),
                digits_in_range(self.digits@),
                out@ == sign + digit_chars_rev(self.digits@).subrange(0, n - i),
            decreases i,
        {
            i -= 1;
            let d = self.digits[i];
            let ghost pre = out@;
            append_digit(&mut out, d);
            proof {
                let dcr = digit_chars_rev(self.digits@);
                assert(dcr[n - i - 1] == char_of_digit(d));
                assert(dcr.subrange(0, n - i) =~= dcr.subrange(0, n - i - 1).push(char_of_digit(
                    d,
                )));
                assert(out@ =~= sign + dcr.subrange(0, n - i));
            }
        }
        proof {
            let dcr = digit_chars_rev(self.digits@);
            assert(dcr.subrange(0, n as int) =~= dcr);
            lemma_render_digits(self.digits@);
            lemma_digits_value_lower(self.digits@);
            lemma_pow10_pos((self.digits@.len() - 1) as nat);
            if neg {
                assert(out@ =~= seq!['-'] + render_nat((-self@) as nat));
            } else {
                assert(out@ =~= render_nat(self@ as nat));
            }
        }
        out
    }

    /// Parses an optionally minus-signed decimal string. The empty string is
    /// accepted and denotes zero; any other string that is not an optional
    /// minus sign followed by at least one digit is rejected.
    pub fn from_str(value: &str) -> (r: Result<Self, BigIntegerError>)
        ensures
            r is Ok <==> str_valid(value@),
            r matches Ok(b) ==> b.well_formed() && b@ == parse_int(value@),
            r is Err ==> r matches Err(BigIntegerError::ParseError),
    {
        let n = value.unicode_len();
        if n == 0 {
            return Ok(Self::zero());
        }
        let mut digits: Vec<u8> = Vec::new();
        let mut i = n;
        while i > 1
            invariant
                1 <= i <= n,
                n == value@.len(),
                digits@.len() == n - i,
                forall|j: int| i <= j < n ==> is_digit_char(#[trigger] value@[j]),
                forall|k: int|
                    0 <= k < digits@.len() ==> digits@[k] == digit_of_char(value@[n - 1 - k]),
            decreases i,
        {
            i -= 1;
            let c = value.get_char(i);
            let code = c as u32;
            if code < 48 || code > 57 {
                proof {
                    assert(!is_digit_char(value@[i as int]));
                    assert(!all_digit_chars(value@));
                    if value@.len() >= 2 && value@[0] == '-' {
                        let t = value@.subrange(1, n as int);
                        assert(t[i - 1] == value@[i as int]);
                        assert(!all_digit_chars(t));
                    }
                }
                return Err(BigIntegerError::ParseError);
            }
            digits.push((code - 48) as u8);
        }
        let c0 = value.get_char(0);
        let code0 = c0 as u32;
        let neg: bool;
        proof {
            assert(('-') as u32 == 45);
        }
        if c0 == '-' {
            if n == 1 {
                proof {
                    assert(!is_digit_char(value@[0]));
                    assert(!all_digit_chars(value@));
                }
                return Err(BigIntegerError::ParseError);
            }
            neg = true;
        } else if 48 <= code0 && code0 <= 57 {
            digits.push((code0 - 48) as u8);
            neg = false;
        } else {
            proof {
                assert(!is_digit_char(value@[0]));
                assert(!all_digit_chars(value@));
            }
            return Err(BigIntegerError::ParseError);
        }
        proof {
            if neg {
                let t = value@.subrange(1, n as int);
                assert forall|j: int| 0 <= j < t.len() implies is_digit_char(#[trigger] t[j]) by {
                    assert(t[j] == value@[j + 1]);
                }
                assert(digits@ =~= rev_digits(t));
                lemma_rev_digits_value(t);
                assert(str_valid(value@));
                assert(parse_int(value@) == -decimal_digits_int(t));
            } else {
                assert(is_digit_char(value@[0]));
                assert(all_digit_chars(value@));
                assert(digits@ =~= rev_digits(value@));
                lemma_rev_digits_value(value@);
                assert(str_valid(value@));
                assert(value@[0] != '-');
                assert(parse_int(value@) == decimal_digits_int(value@));
            }
        }
        let digits = trim_digits(digits);
        Ok(BigInteger { digits, neg })
    }

    /// Builds the value denoted by a machine signed integer.
    pub fn from_i32(value: i32) -> (r: Self)
        ensures
            r.well_formed(),
            r@ == value as int,
    {
        if value < 0 {
            let m = -(value as i64);
            let b = Self::from_u64(m as u64);
            proof {
                b.lemma_magnitude_is_abs();
            }
            b.as_negative()
        } else {
            Self::from_u64(value as u64)
        }
    }
}

/// Copies the digit range `[from, to)` of a digit vector.
fn subvec(v: &Vec<u8>, from: usize, to: usize) -> (r: Vec<u8>)
    requires
        from <= to <= v@.len(),
    ensures
        r@ == v@.subrange(from as int, to as int),
{
    let mut out: Vec<u8> = Vec::new();
    let mut i = from;
    while i < to
        invariant
            from <= i <= to <= v@.len(),
            out@.len() == i - from,
            forall|k: int| 0 <= k < out@.len() ==> out@[k] == v@[from + k],
        decreases to - i,
    {
        out.push(v[i]);
        i += 1;
    }
    proof {
        assert(out@ =~= v@.subrange(from as int, to as int));
    }
    out
}

/// Karatsuba multiplication of two canonical digit magnitudes: the operands
/// are split in half, three half-size products are taken, and the pieces are
/// recombined with decimal shifts.
fn mag_mul(a: &Vec<u8>, b: &Vec<u8>) -> (r: Vec<u8>)
    requires
        canonical_digits(a@),
        canonical_digits(b@),
    ensures
        canonical_digits(r@),
        digits_value(r@) == digits_value(a@) * digits_value(b@),
    decreases a@.len() + b@.len(),
{
    let alen = a.len();
    let blen = b.len();
    if alen == 0 || blen == 0 {
        proof {
            let x = digits_value(a@);
            let y = digits_value(b@);
            assert(x == 0 || y == 0);
            assert(x * y == 0) by (nonlinear_arith)
                requires x == 0 || y == 0;
        }
        return Vec::new();
    }
    if alen == 1 && blen == 1 {
        let d0 = a[0];
        let d1 = b[0];
        proof {
            assert(a@.drop_last() =~= Seq::<u8>::empty());
            assert(b@.drop_last() =~= Seq::<u8>::empty());
            assert(digits_value(a@) == digits_value(a@.drop_last()) + a@.last() * pow10(0));
            assert(digits_value(b@) == digits_value(b@.drop_last()) + b@.last() * pow10(0));
            assert(digits_value(a@) == d0);
            assert(digits_value(b@) == d1);
            assert(1 <= d0 * d1 && d0 * d1 <= 81) by (nonlinear_arith)
                requires 1 <= d0 <= 9 && 1 <= d1 <= 9;
        }
        let p = d0 * d1;
        let mut out: Vec<u8> = Vec::new();
        if p < 10 {
            out.push(p);
            proof {
                assert(out@.drop_last() =~= Seq::<u8>::empty());
            }
        } else {
            out.push(p % 10);
            out.push(p / 10);
            proof {
                let t = out@;
                assert(t.drop_last() =~= seq![p % 10]);
                assert(t.drop_last().drop_last() =~= Seq::<u8>::empty());
                assert(digits_value(t.drop_last()) == p % 10);
                assert(digits_value(t) == p % 10 + (p / 10) * 10);
            }
        }
        return out;
    }
    let len = if alen > blen {
        alen
    } else {
        blen
    };
    let half = len / 2;
    let a_split = if half < alen {
        half
    } else {
        alen
    };
    let b_split = if half < blen {
        half
    } else {
        blen
    };
    let al = trim_digits(subvec(a, 0, a_split));
    let ah = subvec(a, a_split, alen);
    let bl = trim_digits(subvec(b, 0, b_split));
    let bh = subvec(b, b_split, blen);
    proof {
        // The halves are canonical, and each operand is its low half plus its
        // shifted high half.
        if ah@.len() > 0 {
            assert(ah@.last() == a@.last());
        }
        if bh@.len() > 0 {
            assert(bh@.last() == b@.last());
        }
        lemma_digits_value_split(a@, a_split as int);
        lemma_digits_value_split(b@, b_split as int);
        if a_split == alen {
            assert(a@.subrange(0, alen as int) =~= a@);
            assert(pow10(a_split as nat) * digits_value(ah@) == 0);
            assert(pow10(half as nat) * digits_value(ah@) == 0) by (nonlinear_arith)
                requires digits_value(ah@) == 0;
        } else {
            assert(a_split == half);
        }
        if b_split == blen {
            assert(b@.subrange(0, blen as int) =~= b@);
            assert(pow10(b_split as nat) * digits_value(bh@) == 0);
            assert(pow10(half as nat) * digits_value(bh@) == 0) by (nonlinear_arith)
                requires digits_value(bh@) == 0;
        } else {
            assert(b_split == half);
        }
        assert(digits_value(a@) == digits_value(al@) + pow10(half as nat) * digits_value(ah@));
        assert(digits_value(b@) == digits_value(bl@) + pow10(half as nat) * digits_value(bh@));
    }
    let h = mag_mul(&ah, &bh);
    let l = mag_mul(&al, &bl);
    let u_neg = mag_gt(&al, &ah);
    let du = if u_neg {
        mag_sub(&al, &ah)
    } else {
        mag_sub(&ah, &al)
    };
    let v_neg = mag_gt(&bh, &bl);
    let dv = if v_neg {
        mag_sub(&bh, &bl)
    } else {
        mag_sub(&bl, &bh)
    };
    proof {
        assert(du@.len() + dv@.len() < a@.len() + b@.len());
    }
    let m = mag_mul(&du, &dv);
    let m_neg = u_neg != v_neg;
    let ghost va = digits_value(a@);
    let ghost vb = digits_value(b@);
    let ghost vah = digits_value(ah@);
    let ghost val_ = digits_value(al@);
    let ghost vbh = digits_value(bh@);
    let ghost vbl = digits_value(bl@);
    proof {
        lemma_digits_value_nonneg(ah@);
        lemma_digits_value_nonneg(al@);
        lemma_digits_value_nonneg(bh@);
        lemma_digits_value_nonneg(bl@);
        // The signed middle product is (ah - al) * (bl - bh).
        assert((if m_neg {
            -digits_value(m@)
        } else {
            digits_value(m@)
        }) == (vah - val_) * (vbl - vbh)) by (nonlinear_arith)
            requires
                digits_value(m@) == digits_value(du@) * digits_value(dv@),
                digits_value(du@) == if u_neg { val_ - vah } else { vah - val_ },
                digits_value(dv@) == if v_neg { vbh - vbl } else { vbl - vbh },
                m_neg == (u_neg != v_neg),
                vah == digits_value(ah@) && val_ == digits_value(al@),
                vbh == digits_value(bh@) && vbl == digits_value(bl@),
        ;
        // h + l + (ah - al) * (bl - bh) == ah * bl + al * bh >= 0
        assert(vah * vbh + val_ * vbl + (vah - val_) * (vbl - vbh) == vah * vbl + val_ * vbh)
            by (nonlinear_arith);
        assert(vah * vbl + val_ * vbh >= 0) by (nonlinear_arith)
            requires vah >= 0 && val_ >= 0 && vbh >= 0 && vbl >= 0;
    }
    let hl = trim_digits(mag_add(&h, &l));
    let s = if m_neg {
        mag_sub(&hl, &m)
    } else {
        trim_digits(mag_add(&hl, &m))
    };
    proof {
        assert(digits_value(s@) == vah * vbl + val_ * vbh);
        assert(2 * half <= len);
    }
    let sh_h = shift_digits(&h, 2 * half);
    let sh_s = shift_digits(&s, half);
    let t1 = trim_digits(mag_add(&sh_h, &sh_s));
    let out = trim_digits(mag_add(&t1, &l));
    proof {
        lemma_pow10_adds(half as nat, half as nat);
        let p = pow10(half as nat);
        assert(pow10((2 * half) as nat) == p * p);
        assert(digits_value(out@) == p * p * (vah * vbh) + p * (vah * vbl + val_ * vbh) + val_
            * vbl);
        lemma_karatsuba_combine(p, val_, vah, vbl, vbh);
    }
    out
}

/// The algebraic identity behind the Karatsuba recombination.
proof fn lemma_karatsuba_combine(p: int, xl: int, xh: int, yl: int, yh: int)
    ensures
        (xl + p * xh) * (yl + p * yh) == p * p * (xh * yh) + p * (xh * yl + xl * yh) + xl * yl,
{
    assert((xl + p * xh) * (yl + p * yh) == (xl + p * xh) * yl + (xl + p * xh) * (p * yh))
        by (nonlinear_arith);
    assert((xl + p * xh) * yl == xl * yl + (p * xh) * yl) by (nonlinear_arith);
    assert((xl + p * xh) * (p * yh) == xl * (p * yh) + (p * xh) * (p * yh)) by (nonlinear_arith);
    assert((p * xh) * yl == p * (xh * yl)) by (nonlinear_arith);
    assert(xl * (p * yh) == p * (xl * yh)) by (nonlinear_arith);
    assert((p * xh) * (p * yh) == p * p * (xh * yh)) by (nonlinear_arith);
    assert(p * (xh * yl) + p * (xl * yh) == p * (xh * yl + xl * yh)) by (nonlinear_arith);
}

/// Prepends `n` zero digits to a digit vector, scaling its value by 10 to the
/// power `n`.
fn shift_digits(v: &Vec<u8>, n: usize) -> (r: Vec<u8>)
    requires
        digits_in_range(v@),
    ensures
        digits_in_range(r@),
        digits_value(r@) == pow10(n as nat) * digits_value(v@),
        r@.len() == v@.len() + n,
        v@.len() > 0 ==> r@.last() == v@.last(),
        canonical_digits(v@) && v@.len() > 0 ==> canonical_digits(r@),
{
    let mut out: Vec<u8> = Vec::new();
    let mut i: usize = 0;
    while i < n
        invariant
            i <= n,
            out@.len() == i,
            forall|j: int| 0 <= j < i ==> out@[j] == 0,
        decreases n - i,
    {
        out.push(0);
        i += 1;
    }
    let mut j: usize = 0;
    while j < v.len()
        invariant
            j <= v@.len(),
            out@.len() == n + j,
            forall|k: int| 0 <= k < n ==> out@[k] == 0,
            forall|k: int| 0 <= k < j ==> out@[n + k] == v@[k],
        decreases v@.len() - j,
    {
        out.push(v[j]);
        j += 1;
    }
    proof {
        lemma_digits_value_split(out@, n as int);
        let zeros = out@.subrange(0, n as int);
        lemma_all_zero_digits(zeros);
        assert(out@.subrange(n as int, out@.len() as int) =~= v@);
        assert forall|k: int| 0 <= k < out@.len() implies out@[k] < 10 by {
            if k >= n {
                assert(out@[k] == v@[k - n]);
            }
        }
        if v@.len() > 0 {
            assert(out@.last() == v@[v@.len() - 1]);
        }
    }
    out
}

proof fn lemma_digits_value_push(s: Seq<u8>, d: u8)
    ensures
        digits_value(s.push(d)) == digits_value(s) + d * pow10(s.len()),
{
    let t = s.push(d);
    assert(t.drop_last() =~= s);
    assert(t.last() == d);
}

proof fn lemma_all_zero_digits(s: Seq<u8>)
    requires
        forall|i: int| 0 <= i < s.len() ==> s[i] == 0,
    ensures
        digits_value(s) == 0,
    decreases s.len(),
{
    if s.len() > 0 {
        lemma_all_zero_digits(s.drop_last());
    }
}

proof fn lemma_digits_compare(a: Seq<u8>, b: Seq<u8>, i: int)
    requires
        digits_in_range(a),
        digits_in_range(b),
        a.len() == b.len(),
        0 <= i < a.len(),
        forall|j: int| i < j < a.len() ==> a[j] == b[j],
        a[i] > b[i],
    ensures
        digits_value(a) > digits_value(b),
{
    let n = a.len() as int;
    lemma_digits_value_split(a, i);
    lemma_digits_value_split(b, i);
    let ha = a.subrange(i, n);
    let hb = b.subrange(i, n);
    lemma_digits_value_first(ha);
    lemma_digits_value_first(hb);
    assert(ha.subrange(1, ha.len() as int) =~= hb.subrange(1, hb.len() as int));
    // so the high parts differ by exactly a[i] - b[i] >= 1
    assert(digits_value(ha) - digits_value(hb) == a[i] - b[i]);
    let la = a.subrange(0, i);
    let lb = b.subrange(0, i);
    assert(digits_in_range(la));
    assert(digits_in_range(lb));
    lemma_digits_value_bounds(la);
    lemma_digits_value_bounds(lb);
    let p = pow10(i as nat);
    lemma_pow10_pos(i as nat);
    assert(digits_value(a) > digits_value(b)) by (nonlinear_arith)
        requires
            digits_value(a) == digits_value(la) + p * digits_value(ha),
            digits_value(b) == digits_value(lb) + p * digits_value(hb),
            digits_value(ha) - digits_value(hb) >= 1,
            0 <= digits_value(la) < p,
            0 <= digits_value(lb) < p,
            p >= 1,
    ;
}

/// Drops most-significant zero digits until the sequence is canonical.
fn trim_digits(v: Vec<u8>) -> (r: Vec<u8>)
    requires
        digits_in_range(v@),
    ensures
        canonical_digits(r@),
        digits_value(r@) == digits_value(v@),
        r@.len() <= v@.len(),
{
    let mut v = v;
    let ghost orig = v@;
    while v.len() > 0 && v[v.len() - 1] == 0
        invariant
            digits_in_range(v@),
            digits_value(v@) == digits_value(orig),
            v@.len() <= orig.len(),
        decreases v@.len(),
    {
        proof {
            assert(v@.last() == 0);
            assert(digits_value(v@) == digits_value(v@.drop_last()) + v@.last() * pow10(
                (v@.len() - 1) as nat,
            ));
            assert(digits_value(v@.drop_last()) == digits_value(v@));
            assert(forall|j: int| 0 <= j < v@.len() - 1 ==> v@.drop_last()[j] == v@[j]);
        }
        v.pop();
    }
    v
}

/// Compares two canonical magnitudes.
fn mag_gt(a: &Vec<u8>, b: &Vec<u8>) -> (r: bool)
    requires
        canonical_digits(a@),
        canonical_digits(b@),
    ensures
        r == (digits_value(a@) > digits_value(b@)),
{
    if a.len() > b.len() {
        proof {
            lemma_digits_value_lower(a@);
            lemma_digits_value_bounds(b@);
            lemma_pow10_mono(b@.len(), (a@.len() - 1) as nat);
        }
        return true;
    }
    if b.len() > a.len() {
        proof {
            lemma_digits_value_lower(b@);
            lemma_digits_value_bounds(a@);
            lemma_pow10_mono(a@.len(), (b@.len() - 1) as nat);
        }
        return false;
    }
    let mut i = a.len();
    while i > 0
        invariant
            i <= a@.len(),
            a@.len() == b@.len(),
            digits_in_range(a@),
            digits_in_range(b@),
            forall|j: int| i <= j < a@.len() ==> a@[j] == b@[j],
        decreases i,
    {
        i -= 1;
        if a[i] > b[i] {
            proof {
                lemma_digits_compare(a@, b@, i as int);
            }
            return true;
        }
        if b[i] > a[i] {
            proof {
                lemma_digits_compare(b@, a@, i as int);
            }
            return false;
        }
    }
    proof {
        assert(a@ =~= b@);
    }
    false
}

/// Digit-wise addition of two magnitudes with carry propagation.
fn mag_add(a: &Vec<u8>, b: &Vec<u8>) -> (r: Vec<u8>)
    requires
        digits_in_range(a@),
        digits_in_range(b@),
    ensures
        digits_in_range(r@),
        digits_value(r@) == digits_value(a@) + digits_value(b@),
{
    let alen = a.len();
    let blen = b.len();
    let n = if alen > blen {
        alen
    } else {
        blen
    };
    let mut out: Vec<u8> = Vec::new();
    let mut carry: u8 = 0;
    let mut i: usize = 0;
    proof {
        assert(a@.subrange(0, 0) =~= Seq::<u8>::empty());
        assert(b@.subrange(0, 0) =~= Seq::<u8>::empty());
    }
    while i < n
        invariant
            i <= n,
            alen == a@.len(),
            blen == b@.len(),
            n >= alen && n >= blen && (n == alen || n == blen),
            carry <= 1,
            out@.len() == i,
            digits_in_range(a@),
            digits_in_range(b@),
            digits_in_range(out@),
            digits_value(out@) + carry * pow10(i as nat) == digits_value(
                a@.subrange(0, if i <= alen { i as int } else { alen as int }),
            ) + digits_value(b@.subrange(0, if i <= blen { i as int } else { blen as int })),
        decreases n - i,
    {
        let ghost pre_a = a@.subrange(0, if i <= alen { i as int } else { alen as int });
        let ghost pre_b = b@.subrange(0, if i <= blen { i as int } else { blen as int });
        let av: u8 = if i < alen {
            a[i]
        } else {
            0
        };
        let bv: u8 = if i < blen {
            b[i]
        } else {
            0
        };
        let sum = av + bv + carry;
        let d = sum % 10;
        let new_carry = sum / 10;
        proof {
            let p = pow10(i as nat);
            lemma_pow10_pos(i as nat);
            lemma_digits_value_push(out@, d);
            let post_a = a@.subrange(0, if i + 1 <= alen { i + 1 as int } else { alen as int });
            let post_b = b@.subrange(0, if i + 1 <= blen { i + 1 as int } else { blen as int });
            if i < alen {
                lemma_digits_value_prefix(a@, i as int);
            } else {
                assert(post_a =~= pre_a);
            }
            if i < blen {
                lemma_digits_value_prefix(b@, i as int);
            } else {
                assert(post_b =~= pre_b);
            }
            assert(d + 10 * new_carry == av + bv + carry);
            assert(digits_value(out@) + d * p + new_carry * (10 * p) == (digits_value(out@)
                + carry * p) + av * p + bv * p) by (nonlinear_arith)
                requires
                    d + 10 * new_carry == av + bv + carry,
            ;
            assert(pow10((i + 1) as nat) == 10 * p);
            assert(new_carry * (10 * p) == new_carry * pow10((i + 1) as nat));
        }
        out.push(d);
        carry = new_carry;
        i += 1;
    }
    proof {
        assert(a@.subrange(0, alen as int) =~= a@);
        assert(b@.subrange(0, blen as int) =~= b@);
    }
    if carry > 0 {
        proof {
            lemma_digits_value_push(out@, carry);
        }
        out.push(carry);
    }
    out
}

/// Digit-wise subtraction of a smaller magnitude from a larger one, with
/// borrow propagation; the result is trimmed to canonical form.
fn mag_sub(a: &Vec<u8>, b: &Vec<u8>) -> (r: Vec<u8>)
    requires
        canonical_digits(a@),
        canonical_digits(b@),
        digits_value(b@) <= digits_value(a@),
    ensures
        canonical_digits(r@),
        digits_value(r@) == digits_value(a@) - digits_value(b@),
        r@.len() <= a@.len(),
{
    let alen = a.len();
    let blen = b.len();
    proof {
        lemma_digits_value_bounds(a@);
        lemma_canonical_len_le(b@, a@.len());
    }
    let mut out: Vec<u8> = Vec::new();
    let mut borrow: u8 = 0;
    let mut i: usize = 0;
    proof {
        assert(a@.subrange(0, 0) =~= Seq::<u8>::empty());
        assert(b@.subrange(0, 0) =~= Seq::<u8>::empty());
    }
    while i < alen
        invariant
            i <= alen,
            alen == a@.len(),
            blen == b@.len(),
            blen <= alen,
            borrow <= 1,
            out@.len() == i,
            digits_in_range(a@),
            digits_in_range(b@),
            digits_in_range(out@),
            digits_value(out@) - borrow * pow10(i as nat) == digits_value(
                a@.subrange(0, i as int),
            ) - digits_value(b@.subrange(0, if i <= blen { i as int } else { blen as int })),
        decreases alen - i,
    {
        let ghost pre_b = b@.subrange(0, if i <= blen { i as int } else { blen as int });
        let av: u8 = a[i];
        let bv: u8 = if i < blen {
            b[i]
        } else {
            0
        };
        let need = bv + borrow;
        let d: u8;
        let new_borrow: u8;
        if av < need {
            d = av + 10 - need;
            new_borrow = 1;
        } else {
            d = av - need;
            new_borrow = 0;
        }
        proof {
            let p = pow10(i as nat);
            lemma_pow10_pos(i as nat);
            lemma_digits_value_push(out@, d);
            lemma_digits_value_prefix(a@, i as int);
            let post_b = b@.subrange(0, if i + 1 <= blen { i + 1 as int } else { blen as int });
            if i < blen {
                lemma_digits_value_prefix(b@, i as int);
            } else {
                assert(post_b =~= pre_b);
            }
            assert(d == av + 10 * new_borrow - bv - borrow);
            assert(digits_value(out@) + d * p - new_borrow * (10 * p) == (digits_value(out@)
                - borrow * p) + av * p - bv * p) by (nonlinear_arith)
                requires
                    d == av + 10 * new_borrow - bv - borrow,
            ;
            assert(pow10((i + 1) as nat) == 10 * p);
            assert(new_borrow * (10 * p) == new_borrow * pow10((i + 1) as nat));
        }
        out.push(d);
        borrow = new_borrow;
        i += 1;
    }
    proof {
        assert(a@.subrange(0, alen as int) =~= a@);
        assert(b@.subrange(0, blen as int) =~= b@);
        lemma_digits_value_bounds(out@);
        lemma_pow10_pos(alen as nat);
        if borrow != 0 {
            assert(digits_value(out@) == digits_value(a@) - digits_value(b@) + pow10(alen as nat));
            assert(false);
        }
    }
    trim_digits(out)
}

proof fn lemma_digits_value_nonneg(s: Seq<u8>)
    ensures
        digits_value(s) >= 0,
    decreases s.len(),
{
    if s.len() > 0 {
        lemma_digits_value_nonneg(s.drop_last());
        lemma_pow10_pos((s.len() - 1) as nat);
        let p = pow10((s.len() - 1) as nat);
        assert(s.last() * p >= 0) by (nonlinear_arith)
            requires s.last() >= 0 && p >= 0;
    }
}

proof fn lemma_digit_char_roundtrip(c: char)
    requires
        is_digit_char(c),
    ensures
        char_of_digit(digit_of_char(c)) == c,
        digit_of_char(c) < 10,
        c != '0' ==> digit_of_char(c) >= 1,
{
    assert(char_of_digit(digit_of_char(c)) == c);
    if digit_of_char(c) == 0 {
        assert(char_of_digit(0) == '0');
    }
}

proof fn lemma_ddi_bounds(t: Seq<char>)
    requires
        all_digit_chars(t),
    ensures
        0 <= decimal_digits_int(t) < pow10(t.len()),
    decreases t.len(),
{
    if t.len() > 0 {
        let dl = t.drop_last();
        assert(all_digit_chars(dl));
        lemma_ddi_bounds(dl);
        lemma_pow10_pos((t.len() - 1) as nat);
        assert(is_digit_char(t.last()));
        assert(digit_of_char(t.last()) <= 9);
    }
}

proof fn lemma_ddi_lower(t: Seq<char>)
    requires
        all_digit_chars(t),
        t.len() > 0,
        t[0] != '0',
    ensures
        decimal_digits_int(t) >= pow10((t.len() - 1) as nat),
    decreases t.len(),
{
    if t.len() == 1 {
        assert(t.last() == t[0]);
        assert(t.drop_last() =~= Seq::<char>::empty());
        assert(decimal_digits_int(Seq::<char>::empty()) == 0);
        assert(is_digit_char(t[0]));
        lemma_digit_char_roundtrip(t[0]);
        assert(digit_of_char(t[0]) >= 1);
        assert(decimal_digits_int(t) == digit_of_char(t[0]));
        assert(pow10(0) == 1);
    } else {
        let dl = t.drop_last();
        assert(all_digit_chars(dl));
        assert(dl[0] == t[0]);
        lemma_ddi_lower(dl);
        assert(is_digit_char(t.last()));
    }
}

proof fn lemma_rev_digits_value(t: Seq<char>)
    requires
        all_digit_chars(t),
    ensures
        digits_in_range(rev_digits(t)),
        digits_value(rev_digits(t)) == decimal_digits_int(t),
    decreases t.len(),
{
    let r = rev_digits(t);
    assert forall|k: int| 0 <= k < r.len() implies r[k] < 10 by {
        assert(is_digit_char(t[t.len() - 1 - k]));
    }
    if t.len() > 0 {
        let dl = t.drop_last();
        assert(all_digit_chars(dl));
        lemma_rev_digits_value(dl);
        lemma_digits_value_first(r);
        assert(r.subrange(1, r.len() as int) =~= rev_digits(dl));
        assert(r[0] == digit_of_char(t.last()));
    }
}

proof fn lemma_render_digits(s: Seq<u8>)
    requires
        canonical_digits(s),
        s.len() > 0,
    ensures
        render_nat(digits_value(s) as nat) == digit_chars_rev(s),
    decreases s.len(),
{
    lemma_digits_value_bounds(s);
    let n = digits_value(s);
    if s.len() == 1 {
        assert(s.drop_last() =~= Seq::<u8>::empty());
        assert(digits_value(Seq::<u8>::empty()) == 0);
        assert(s.last() == s[0]);
        assert(pow10(0) == 1);
        assert(n == s[0] * pow10(0));
        assert(s[0] * pow10(0) == s[0] * 1) by (nonlinear_arith)
            requires pow10(0) == 1;
        assert(n == s[0]);
        assert(render_nat(n as nat) =~= seq![char_of_digit(s[0])]);
        assert(digit_chars_rev(s) =~= seq![char_of_digit(s[0])]);
    } else {
        let tail = s.subrange(1, s.len() as int);
        assert(tail.last() == s.last());
        assert(canonical_digits(tail));
        lemma_digits_value_first(s);
        let dvt = digits_value(tail);
        lemma_digits_value_lower(tail);
        lemma_pow10_pos((tail.len() - 1) as nat);
        assert(dvt >= 1);
        assert(n == s[0] + 10 * dvt);
        assert(n >= 10);
        assert(n / 10 == dvt && n % 10 == s[0]) by (nonlinear_arith)
            requires
                n == s[0] + 10 * dvt,
                0 <= s[0] < 10,
                dvt >= 0,
        ;
        lemma_render_digits(tail);
        assert((n as nat) / 10 == dvt as nat);
        assert(render_nat(n as nat) == render_nat(dvt as nat).push(char_of_digit(s[0])));
        assert(digit_chars_rev(s) =~= digit_chars_rev(tail).push(char_of_digit(s[0])));
    }
}

proof fn lemma_render_decimal(t: Seq<char>)
    requires
        all_digit_chars(t),
        t.len() >= 1,
        t.len() == 1 || t[0] != '0',
    ensures
        0 <= decimal_digits_int(t),
        render_nat(decimal_digits_int(t) as nat) == t,
    decreases t.len(),
{
    lemma_ddi_bounds(t);
    let n = decimal_digits_int(t);
    if t.len() == 1 {
        assert(t.drop_last() =~= Seq::<char>::empty());
        assert(decimal_digits_int(Seq::<char>::empty()) == 0);
        assert(t.last() == t[0]);
        assert(is_digit_char(t[0]));
        lemma_digit_char_roundtrip(t[0]);
        assert(n == digit_of_char(t[0]));
        assert(char_of_digit(digit_of_char(t[0])) == t[0]);
        assert(render_nat(n as nat) =~= seq![t[0]]);
        assert(render_nat(n as nat) =~= t);
    } else {
        let dl = t.drop_last();
        assert(all_digit_chars(dl));
        assert(dl[0] == t[0]);
        lemma_render_decimal(dl);
        lemma_ddi_lower(dl);
        lemma_pow10_pos((dl.len() - 1) as nat);
        let m = decimal_digits_int(dl);
        assert(m >= 1);
        assert(is_digit_char(t.last()));
        let d = digit_of_char(t.last());
        assert(n == 10 * m + d);
        assert(n >= 10);
        assert(n / 10 == m && n % 10 == d) by (nonlinear_arith)
            requires
                n == 10 * m + d,
                0 <= d < 10,
                m >= 0,
        ;
        assert(render_nat(n as nat) == render_nat(m as nat).push(char_of_digit(d)));
        lemma_digit_char_roundtrip(t.last());
        assert(char_of_digit(digit_of_char(t.last())) == t.last());
        assert(dl.push(t.last()) =~= t);
    }
}

/// Round trip: parsing a canonical decimal string and rendering the result
/// gives back the same string. Together with the contracts of `from_str` and
/// `to_display_string`, this shows that for every valid decimal string
/// without leading zeros (other than "0" itself), parsing followed by
/// rendering is the identity.
pub proof fn lemma_parse_render_round_trip(s: Seq<char>)
    requires
        canonical_str(s),
    ensures
        render_int(parse_int(s)) == s,
{
    assert(('-') as u32 == 45);
    if s[0] == '-' {
        assert(!is_digit_char(s[0]));
        assert(!all_digit_chars(s));
        let t = s.subrange(1, s.len() as int);
        assert(s.len() >= 2 && all_digit_chars(t));
        assert(t[0] == s[1]);
        lemma_render_decimal(t);
        lemma_ddi_lower(t);
        lemma_pow10_pos((t.len() - 1) as nat);
        let n = decimal_digits_int(t);
        assert(parse_int(s) == -n && n >= 1);
        assert(render_int(-n) == seq!['-'] + render_nat(n as nat));
        assert(seq!['-'] + t =~= s);
    } else {
        assert(all_digit_chars(s)) by {
            if !all_digit_chars(s) {
                assert(s.len() >= 2 && s[0] == '-' && all_digit_chars(
                    s.subrange(1, s.len() as int),
                ));
            }
        }
        lemma_render_decimal(s);
        lemma_ddi_bounds(s);
    }
}

/// Addition is commutative: `a.add(b)` and `b.add(a)` denote the same number,
/// so `equals` returns true on the two results.
pub proof fn lemma_add_commutative(a: BigInteger, b: BigInteger)
    requires
        a.well_formed(),
        b.well_formed(),
    ensures
        a@ + b@ == b@ + a@,
{
}

/// Multiplication is commutative: `a.mul(b)` and `b.mul(a)` denote the same
/// number, so `equals` returns true on the two results.
pub proof fn lemma_mul_commutative(a: BigInteger, b: BigInteger)
    requires
        a.well_formed(),
        b.well_formed(),
    ensures
        a@ * b@ == b@ * a@,
{
}

/// Additive inverse: a value plus its negation denotes zero, so
/// `a.add(a.negate())` equals the zero value.
pub proof fn lemma_add_inverse(a: BigInteger)
    requires
        a.well_formed(),
    ensures
        a@ + (-a@) == 0,
{
}

/// Subtraction is consistent with addition of the negation: `a.sub(b)` and
/// `a.add(b.negate())` denote the same number.
pub proof fn lemma_sub_is_add_negate(a: BigInteger, b: BigInteger)
    requires
        a.well_formed(),
        b.well_formed(),
    ensures
        a@ - b@ == a@ + (-b@),
{
}

/// Zero absorbs multiplication: `a.mul(zero)` denotes zero.
pub proof fn lemma_mul_zero(a: BigInteger)
    requires
        a.well_formed(),
    ensures
        a@ * 0 == 0,
{
}

/// Appends the character of one decimal digit to a string.
fn append_digit(out: &mut String, d: u8)
    requires
        d < 10,
    ensures
        final(out)@ == old(out)@.push(char_of_digit(d)),
{
    let lit: &str = match d {
        0 => "0",
        1 => "1",
        2 => "2",
        3 => "3",
        4 => "4",
        5 => "5",
        6 => "6",
        7 => "7",
        8 => "8",
        _ => "9",
    };
    proof {
        reveal_strlit("0");
        reveal_strlit("1");
        reveal_strlit("2");
        reveal_strlit("3");
        reveal_strlit("4");
        reveal_strlit("5");
        reveal_strlit("6");
        reveal_strlit("7");
        reveal_strlit("8");
        reveal_strlit("9");
        assert(lit@ =~= seq![char_of_digit(d)]);
    }
    let ghost pre = out@;
    out.append(lit);
    proof {
        assert(out@ =~= pre.push(char_of_digit(d)));
    }
}

/// Copies a digit vector.
fn clone_digits(v: &Vec<u8>) -> (r: Vec<u8>)
    ensures
        r@ == v@,
{
    let r = v.clone();
    proof {
        assert(r@ =~= v@);
    }
    r
}

} // verus!
