use vstd::prelude::*;
use vstd::slice::slice_to_vec;
use vstd::std_specs::cmp::PartialEqSpecImpl;
use vstd::string::StringSliceAdditionalSpecFns;

verus! {

/// The plus sign.
pub const PLUS: u8 = 0x2b;

/// The minus sign.
pub const MINUS: u8 = 0x2d;

/// The decimal point.
pub const DOT: u8 = 0x2e;

/// An ASCII decimal digit.
pub open spec fn is_digit(b: u8) -> bool {
    0x30 <= b <= 0x39
}

/// A sign in front of a mantissa or an exponent.
pub open spec fn is_sign(b: u8) -> bool {
    b == PLUS || b == MINUS
}

/// `b` with an ASCII capital letter replaced by its small letter.
pub open spec fn lower(b: u8) -> u8 {
    if 0x41 <= b <= 0x5a {
        (b + 0x20) as u8
    } else {
        b
    }
}

/// The first position from `i` on that holds no digit, or the length of `s`.
pub open spec fn digits_end(s: Seq<u8>, i: int) -> int
    decreases s.len() - i,
{
    if 0 <= i < s.len() && is_digit(s[i]) {
        digits_end(s, i + 1)
    } else {
        i
    }
}

/// From `from` on, `s` is `word`, capital or small letters alike. `word` is given in
/// small letters.
pub open spec fn is_word(s: Seq<u8>, from: int, word: Seq<u8>) -> bool {
    &&& s.len() - from == word.len()
    &&& forall|i: int| 0 <= i < word.len() ==> lower(#[trigger] s[from + i]) == word[i]
}

/// The letters `inf`.
pub open spec fn word_inf() -> Seq<u8> {
    seq![0x69u8, 0x6eu8, 0x66u8]
}

/// The letters `infinity`.
pub open spec fn word_infinity() -> Seq<u8> {
    seq![0x69u8, 0x6eu8, 0x66u8, 0x69u8, 0x6eu8, 0x69u8, 0x74u8, 0x79u8]
}

/// The letters `nan`.
pub open spec fn word_nan() -> Seq<u8> {
    seq![0x6eu8, 0x61u8, 0x6eu8]
}

/// From `from` on, `s` is an exponent: the letter `e` or `E`, an optional sign, and one
/// digit or more up to the end of `s`.
pub open spec fn is_exponent(s: Seq<u8>, from: int) -> bool {
    let digits = if from + 1 < s.len() && is_sign(s[from + 1]) {
        from + 2
    } else {
        from + 1
    };
    &&& 0 <= from < s.len()
    &&& lower(s[from]) == 0x65
    &&& digits < s.len()
    &&& digits_end(s, digits) == s.len()
}

/// From `from` on, `s` is a decimal number: digits, optionally a point and more digits,
/// with one digit at least before or after the point, then optionally an exponent.
pub open spec fn is_decimal(s: Seq<u8>, from: int) -> bool {
    let point = digits_end(s, from);
    let pointed = point < s.len() && s[point] == DOT;
    let end = if pointed {
        digits_end(s, point + 1)
    } else {
        point
    };
    let digits = if pointed {
        end - from - 1
    } else {
        end - from
    };
    &&& digits >= 1
    &&& (end == s.len() || is_exponent(s, end))
}

/// `s` is a literal that the standard library reads as a floating-point number: an
/// optional sign, then `inf`, `infinity` or `nan` in any mix of capital and small
/// letters, or a decimal number.
pub open spec fn is_float_literal(s: Seq<u8>) -> bool {
    let from: int = if s.len() > 0 && is_sign(s[0]) {
        1
    } else {
        0
    };
    ||| is_word(s, from, word_inf())
    ||| is_word(s, from, word_infinity())
    ||| is_word(s, from, word_nan())
    ||| is_decimal(s, from)
}

/// The bytes of `s` read as characters, one for one.
pub open spec fn as_text(s: Seq<u8>) -> Seq<char> {
    Seq::new(s.len(), |i: int| s[i] as char)
}

/// `b` with an ASCII capital letter replaced by its small letter.
fn to_lower(b: u8) -> (r: u8)
    ensures
        r == lower(b),
{
    if 0x41 <= b && b <= 0x5a {
        b + 0x20
    } else {
        b
    }
}

/// The first position from `from` on that holds no digit.
fn scan_digits(s: &[u8], from: usize) -> (end: usize)
    requires
        from <= s.len(),
    ensures
        end == digits_end(s@, from as int),
        from <= end <= s.len(),
{
    let mut i: usize = from;
    while i < s.len() && 0x30 <= s[i] && s[i] <= 0x39
        invariant
            from <= i <= s.len(),
            digits_end(s@, i as int) == digits_end(s@, from as int),
        decreases s.len() - i,
    {
        i += 1;
    }
    i
}

/// Whether `s` from `from` on is `word`, capital or small letters alike.
fn spells(s: &[u8], from: usize, word: &[u8]) -> (ok: bool)
    requires
        from <= s.len(),
    ensures
        ok == is_word(s@, from as int, word@),
{
    if s.len() - from != word.len() {
        return false;
    }
    let mut i: usize = 0;
    while i < word.len()
        invariant
            from <= s.len(),
            s.len() - from == word.len(),
            0 <= i <= word.len(),
            forall|j: int| 0 <= j < i ==> lower(#[trigger] s@[from + j]) == word@[j],
        decreases word.len() - i,
    {
        if to_lower(s[from + i]) != word[i] {
            assert(lower(s@[from + i]) != word@[i as int]);
            return false;
        }
        i += 1;
    }
    true
}

/// Whether `s` from `from` on is an exponent.
fn exponent_at(s: &[u8], from: usize) -> (ok: bool)
    requires
        from <= s.len(),
    ensures
        ok == is_exponent(s@, from as int),
{
    if from >= s.len() || to_lower(s[from]) != 0x65 {
        return false;
    }
    let digits: usize = if from + 1 < s.len() && (s[from + 1] == PLUS || s[from + 1] == MINUS) {
        from + 2
    } else {
        from + 1
    };
    digits < s.len() && scan_digits(s, digits) == s.len()
}

/// Whether `s` from `from` on is a decimal number.
fn decimal_at(s: &[u8], from: usize) -> (ok: bool)
    requires
        from <= s.len(),
    ensures
        ok == is_decimal(s@, from as int),
{
    let point = scan_digits(s, from);
    let pointed = point < s.len() && s[point] == DOT;
    let end: usize = if pointed {
        scan_digits(s, point + 1)
    } else {
        point
    };
    let digits: usize = if pointed {
        end - from - 1
    } else {
        end - from
    };
    digits >= 1 && (end == s.len() || exponent_at(s, end))
}

/// Decides whether `s` is a literal of a floating-point number.
pub fn float_literal(s: &[u8]) -> (ok: bool)
    ensures
        ok == is_float_literal(s@),
{
    let from: usize = if s.len() > 0 && (s[0] == PLUS || s[0] == MINUS) {
        1
    } else {
        0
    };
    let inf: [u8; 3] = [0x69, 0x6e, 0x66];
    let infinity: [u8; 8] = [0x69, 0x6e, 0x66, 0x69, 0x6e, 0x69, 0x74, 0x79];
    let nan: [u8; 3] = [0x6e, 0x61, 0x6e];
    assert(inf@ =~= word_inf());
    assert(infinity@ =~= word_infinity());
    assert(nan@ =~= word_nan());
    spells(s, from, inf.as_slice()) || spells(s, from, infinity.as_slice()) || spells(
        s,
        from,
        nan.as_slice(),
    ) || decimal_at(s, from)
}

/// A JSON number, kept as its literal.
///
/// The literal is one that the standard library reads as a floating-point number, so a
/// caller can turn it into a double without a failure. The double itself is not computed
/// here.
#[derive(Debug)]
pub struct Number {
    literal: Vec<u8>,
}

impl View for Number {
    type V = Seq<u8>;

    closed spec fn view(&self) -> Seq<u8> {
        self.literal@
    }
}

impl Clone for Number {
    fn clone(&self) -> (r: Number)
        ensures
            r@ == self@,
    {
        Number { literal: slice_to_vec(self.literal.as_slice()) }
    }
}

impl PartialEq for Number {
    /// Two numbers are equal where their literals are.
    fn eq(&self, other: &Number) -> (r: bool) {
        let a = self.literal.as_slice();
        let b = other.literal.as_slice();
        if a.len() != b.len() {
            return false;
        }
        let mut i: usize = 0;
        while i < a.len()
            invariant
                a@ == self@,
                b@ == other@,
                a.len() == b.len(),
                i <= a.len(),
                forall|j: int| 0 <= j < i ==> a@[j] == b@[j],
            decreases a.len() - i,
        {
            if a[i] != b[i] {
                assert(a@[i as int] != b@[i as int]);
                return false;
            }
            i += 1;
        }
        assert(a@ =~= b@);
        true
    }
}

impl PartialEqSpecImpl for Number {
    open spec fn obeys_eq_spec() -> bool {
        true
    }

    open spec fn eq_spec(&self, other: &Number) -> bool {
        self@ == other@
    }
}

impl Number {
    /// The number with the literal `literal`, if that is a literal of a floating-point
    /// number.
    pub fn from_bytes(literal: &[u8]) -> (r: Option<Number>)
        ensures
            r is Some <==> is_float_literal(literal@),
            r matches Some(n) ==> n@ == literal@,
    {
        if float_literal(literal) {
            Some(Number { literal: slice_to_vec(literal) })
        } else {
            None
        }
    }

    /// The number with the literal `text`, if that is a literal of a floating-point
    /// number.
    pub fn new(text: &str) -> (r: Option<Number>)
        ensures
            r is Some <==> is_float_literal(text.spec_bytes()),
            r matches Some(n) ==> n@ == text.spec_bytes(),
    {
        Number::from_bytes(text.as_bytes())
    }

    /// The literal as text.
    pub fn to_text(&self) -> (r: String)
        ensures
            r@ == as_text(self@),
    {
        let mut r = String::new();
        let mut i: usize = 0;
        while i < self.literal.len()
            invariant
                i <= self.literal.len(),
                r@ == as_text(self.literal@.take(i as int)),
            decreases self.literal.len() - i,
        {
            r.push(self.literal[i] as char);
            assert(r@ =~= as_text(self.literal@.take(i + 1)));
            i += 1;
        }
        assert(self.literal@.take(i as int) =~= self.literal@);
        r
    }

    /// The bytes of the literal.
    pub fn as_bytes(&self) -> (r: &[u8])
        ensures
            r@ == self@,
    {
        self.literal.as_slice()
    }
}

} // verus!
