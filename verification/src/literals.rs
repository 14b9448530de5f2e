//! Number and text literals of the surface language.
//!
//! A number literal is digits with optional `_` separators, an optional
//! `0x`/`0b`/`0o` base prefix, an optional fraction and exponent, and an
//! optional type suffix such as `u8` or `f64`. Values are exact: integers are
//! held as their canonical decimal expansion, fractional values as a fraction
//! in lowest terms.

use vstd::prelude::*;
use crate::text::{
    all_ascii_digits,
    char_digit_value, digit_char,
    chars_of, digits_value, is_ascii_alpha, is_ascii_alpha_exec, is_ascii_digit, is_ascii_digit_exec,
    is_radix_digit, is_radix_digit_exec, is_unicode_whitespace, is_unicode_whitespace_exec,
    nat_decimal, push_all, push_str, string_from_chars, sub_chars, u64_decimal,
};

verus! {

/// The type suffix of a number literal.
#[derive(Debug, Clone, Copy, PartialEq, Eq, Hash, Structural)]
pub enum NumberSuffix {
    I8,
    I16,
    I32,
    I64,
    U8,
    U16,
    U32,
    U64,
    F32,
    F64,
}

impl NumberSuffix {
    pub open spec fn spec_is_float(self) -> bool {
        self == NumberSuffix::F32 || self == NumberSuffix::F64
    }

    /// The suffix's source spelling.
    pub open spec fn spec_text(self) -> Seq<char> {
        match self {
            NumberSuffix::I8 => seq!['i', '8'],
            NumberSuffix::I16 => seq!['i', '1', '6'],
            NumberSuffix::I32 => seq!['i', '3', '2'],
            NumberSuffix::I64 => seq!['i', '6', '4'],
            NumberSuffix::U8 => seq!['u', '8'],
            NumberSuffix::U16 => seq!['u', '1', '6'],
            NumberSuffix::U32 => seq!['u', '3', '2'],
            NumberSuffix::U64 => seq!['u', '6', '4'],
            NumberSuffix::F32 => seq!['f', '3', '2'],
            NumberSuffix::F64 => seq!['f', '6', '4'],
        }
    }

    /// Whether this suffix makes the literal a floating-point number.
    pub fn is_float(self) -> (r: bool)
        ensures
            r == self.spec_is_float(),
    {
        matches!(self, NumberSuffix::F32 | NumberSuffix::F64)
    }

    /// The suffix's source spelling, e.g. `"u16"`.
    pub fn as_str(self) -> (r: &'static str)
        ensures
            r@ == self.spec_text(),
    {
        match self {
            NumberSuffix::I8 => {
                proof { reveal_strlit("i8"); }
                "i8"
            },
            NumberSuffix::I16 => {
                proof { reveal_strlit("i16"); }
                "i16"
            },
            NumberSuffix::I32 => {
                proof { reveal_strlit("i32"); }
                "i32"
            },
            NumberSuffix::I64 => {
                proof { reveal_strlit("i64"); }
                "i64"
            },
            NumberSuffix::U8 => {
                proof { reveal_strlit("u8"); }
                "u8"
            },
            NumberSuffix::U16 => {
                proof { reveal_strlit("u16"); }
                "u16"
            },
            NumberSuffix::U32 => {
                proof { reveal_strlit("u32"); }
                "u32"
            },
            NumberSuffix::U64 => {
                proof { reveal_strlit("u64"); }
                "u64"
            },
            NumberSuffix::F32 => {
                proof { reveal_strlit("f32"); }
                "f32"
            },
            NumberSuffix::F64 => {
                proof { reveal_strlit("f64"); }
                "f64"
            },
        }
    }

    /// The suffix spelled `t`, if any.
    #[verifier::opaque]
    pub open spec fn spec_from_text(t: Seq<char>) -> Option<NumberSuffix> {
        if t == NumberSuffix::I8.spec_text() {
            Some(NumberSuffix::I8)
        } else if t == NumberSuffix::I16.spec_text() {
            Some(NumberSuffix::I16)
        } else if t == NumberSuffix::I32.spec_text() {
            Some(NumberSuffix::I32)
        } else if t == NumberSuffix::I64.spec_text() {
            Some(NumberSuffix::I64)
        } else if t == NumberSuffix::U8.spec_text() {
            Some(NumberSuffix::U8)
        } else if t == NumberSuffix::U16.spec_text() {
            Some(NumberSuffix::U16)
        } else if t == NumberSuffix::U32.spec_text() {
            Some(NumberSuffix::U32)
        } else if t == NumberSuffix::U64.spec_text() {
            Some(NumberSuffix::U64)
        } else if t == NumberSuffix::F32.spec_text() {
            Some(NumberSuffix::F32)
        } else if t == NumberSuffix::F64.spec_text() {
            Some(NumberSuffix::F64)
        } else {
            None
        }
    }

    /// Reads a suffix from its spelling; anything else is `InvalidSuffix`.
    pub fn from_chars(t: &[char]) -> (r: Result<NumberSuffix, NumberLiteralParsingError>)
        ensures
            match NumberSuffix::spec_from_text(t@) {
                Some(x) => r == Ok::<NumberSuffix, NumberLiteralParsingError>(x),
                None => r matches Err(e) && e@ == ParseErrorModel::InvalidSuffix(t@),
            },
    {
        let n = t.len();
        let r = if n == 2 && t[0] == 'i' && t[1] == '8' {
            Some(NumberSuffix::I8)
        } else if n == 3 && t[0] == 'i' && t[1] == '1' && t[2] == '6' {
            Some(NumberSuffix::I16)
        } else if n == 3 && t[0] == 'i' && t[1] == '3' && t[2] == '2' {
            Some(NumberSuffix::I32)
        } else if n == 3 && t[0] == 'i' && t[1] == '6' && t[2] == '4' {
            Some(NumberSuffix::I64)
        } else if n == 2 && t[0] == 'u' && t[1] == '8' {
            Some(NumberSuffix::U8)
        } else if n == 3 && t[0] == 'u' && t[1] == '1' && t[2] == '6' {
            Some(NumberSuffix::U16)
        } else if n == 3 && t[0] == 'u' && t[1] == '3' && t[2] == '2' {
            Some(NumberSuffix::U32)
        } else if n == 3 && t[0] == 'u' && t[1] == '6' && t[2] == '4' {
            Some(NumberSuffix::U64)
        } else if n == 3 && t[0] == 'f' && t[1] == '3' && t[2] == '2' {
            Some(NumberSuffix::F32)
        } else if n == 3 && t[0] == 'f' && t[1] == '6' && t[2] == '4' {
            Some(NumberSuffix::F64)
        } else {
            None
        };
        proof {
            lemma_suffix_texts(t@);
            reveal(NumberSuffix::spec_from_text);
        }
        match r {
            Some(x) => Ok(x),
            None => Err(NumberLiteralParsingError::InvalidSuffix(string_from_chars(t))),
        }
    }
}

/// Spelling a suffix and reading it back are inverse.
pub proof fn lemma_suffix_text_roundtrip(x: NumberSuffix)
    ensures
        NumberSuffix::spec_from_text(x.spec_text()) == Some(x),
{
    lemma_suffix_texts(x.spec_text());
    reveal(NumberSuffix::spec_from_text);
}

/// Reading a suffix: each suffix from its spelling, none from the empty
/// text, and any other text is an invalid suffix.
pub proof fn lemma_suffix_laws(x: NumberSuffix, t: Seq<char>)
    ensures
        spec_suffix(x.spec_text()) == Ok::<Option<NumberSuffix>, ParseErrorModel>(Some(x)),
        spec_suffix(Seq::empty()) == Ok::<Option<NumberSuffix>, ParseErrorModel>(None),
        t.len() > 0 && (forall|y: NumberSuffix| t != y.spec_text()) ==> spec_suffix(t) == Err::<
            Option<NumberSuffix>,
            ParseErrorModel,
        >(ParseErrorModel::InvalidSuffix(t)),
{
    lemma_suffix_text_roundtrip(x);
    reveal(NumberSuffix::spec_from_text);
    lemma_suffix_texts(x.spec_text());
    if t.len() > 0 && (forall|y: NumberSuffix| t != y.spec_text()) {
        assert(t != NumberSuffix::I8.spec_text());
        assert(t != NumberSuffix::I16.spec_text());
        assert(t != NumberSuffix::I32.spec_text());
        assert(t != NumberSuffix::I64.spec_text());
        assert(t != NumberSuffix::U8.spec_text());
        assert(t != NumberSuffix::U16.spec_text());
        assert(t != NumberSuffix::U32.spec_text());
        assert(t != NumberSuffix::U64.spec_text());
        assert(t != NumberSuffix::F32.spec_text());
        assert(t != NumberSuffix::F64.spec_text());
    }
}

proof fn lemma_suffix_texts(t: Seq<char>)
    ensures
        (t.len() == 2 && t[0] == 'i' && t[1] == '8') <==> t == NumberSuffix::I8.spec_text(),
        (t.len() == 3 && t[0] == 'i' && t[1] == '1' && t[2] == '6') <==> t
            == NumberSuffix::I16.spec_text(),
        (t.len() == 3 && t[0] == 'i' && t[1] == '3' && t[2] == '2') <==> t
            == NumberSuffix::I32.spec_text(),
        (t.len() == 3 && t[0] == 'i' && t[1] == '6' && t[2] == '4') <==> t
            == NumberSuffix::I64.spec_text(),
        (t.len() == 2 && t[0] == 'u' && t[1] == '8') <==> t == NumberSuffix::U8.spec_text(),
        (t.len() == 3 && t[0] == 'u' && t[1] == '1' && t[2] == '6') <==> t
            == NumberSuffix::U16.spec_text(),
        (t.len() == 3 && t[0] == 'u' && t[1] == '3' && t[2] == '2') <==> t
            == NumberSuffix::U32.spec_text(),
        (t.len() == 3 && t[0] == 'u' && t[1] == '6' && t[2] == '4') <==> t
            == NumberSuffix::U64.spec_text(),
        (t.len() == 3 && t[0] == 'f' && t[1] == '3' && t[2] == '2') <==> t
            == NumberSuffix::F32.spec_text(),
        (t.len() == 3 && t[0] == 'f' && t[1] == '6' && t[2] == '4') <==> t
            == NumberSuffix::F64.spec_text(),
{
    if t.len() == 2 {
        assert(t =~= seq![t[0], t[1]]);
    }
    if t.len() == 3 {
        assert(t =~= seq![t[0], t[1], t[2]]);
    }
}

/// Why a number literal was rejected.
#[derive(Debug, Clone, PartialEq, Eq)]
pub enum NumberLiteralParsingError {
    EmptyNumberLiteral,
    InvalidNumber(String),
    InvalidDigit { literal: String, radix: u32 },
    InvalidSeparator(String),
    InvalidSuffix(String),
    IntegerSuffixOnFloat(NumberSuffix),
    InvalidExponent(String),
    NumberTooLarge(String, NumberSuffix),
}

/// The mathematical content of a [`NumberLiteralParsingError`].
pub enum ParseErrorModel {
    EmptyNumberLiteral,
    InvalidNumber(Seq<char>),
    InvalidDigit(Seq<char>, u32),
    InvalidSeparator(Seq<char>),
    InvalidSuffix(Seq<char>),
    IntegerSuffixOnFloat(NumberSuffix),
    InvalidExponent(Seq<char>),
    NumberTooLarge(Seq<char>, NumberSuffix),
}

impl View for NumberLiteralParsingError {
    type V = ParseErrorModel;

    open spec fn view(&self) -> ParseErrorModel {
        match self {
            NumberLiteralParsingError::EmptyNumberLiteral => ParseErrorModel::EmptyNumberLiteral,
            NumberLiteralParsingError::InvalidNumber(s) => ParseErrorModel::InvalidNumber(s@),
            NumberLiteralParsingError::InvalidDigit { literal, radix } => ParseErrorModel::InvalidDigit(
                literal@,
                *radix,
            ),
            NumberLiteralParsingError::InvalidSeparator(s) => ParseErrorModel::InvalidSeparator(s@),
            NumberLiteralParsingError::InvalidSuffix(s) => ParseErrorModel::InvalidSuffix(s@),
            NumberLiteralParsingError::IntegerSuffixOnFloat(x) =>
                ParseErrorModel::IntegerSuffixOnFloat(*x),
            NumberLiteralParsingError::InvalidExponent(s) => ParseErrorModel::InvalidExponent(s@),
            NumberLiteralParsingError::NumberTooLarge(s, x) => ParseErrorModel::NumberTooLarge(s@, *x),
        }
    }
}

/// The message of a parse error.
pub open spec fn spec_parse_error_message(e: ParseErrorModel) -> Seq<char> {
    match e {
        ParseErrorModel::EmptyNumberLiteral => "empty number literal"@,
        ParseErrorModel::InvalidNumber(s) => "invalid number literal: "@ + s,
        ParseErrorModel::InvalidDigit(s, radix) => "invalid digit in base-"@ + nat_decimal(radix as nat)
            + " number literal: "@ + s,
        ParseErrorModel::InvalidSeparator(s) => "invalid digit separator in number literal: "@ + s,
        ParseErrorModel::InvalidSuffix(s) => "invalid number suffix: "@ + s,
        ParseErrorModel::IntegerSuffixOnFloat(x) => "integer suffix `"@ + x.spec_text()
            + "` cannot be used on a floating-point literal"@,
        ParseErrorModel::InvalidExponent(s) => "invalid exponent: "@ + s,
        ParseErrorModel::NumberTooLarge(s, x) => "number literal '"@ + s
            + "' is too large for the target type: "@ + x.spec_text(),
    }
}

impl NumberLiteralParsingError {
    /// The error's message.
    pub fn message(&self) -> (r: String)
        ensures
            r@ == spec_parse_error_message(self@),
    {
        let mut out: Vec<char> = Vec::new();
        match self {
            NumberLiteralParsingError::EmptyNumberLiteral => push_str(&mut out, "empty number literal"),
            NumberLiteralParsingError::InvalidNumber(s) => {
                push_str(&mut out, "invalid number literal: ");
                push_str(&mut out, s.as_str());
            },
            NumberLiteralParsingError::InvalidDigit { literal, radix } => {
                push_str(&mut out, "invalid digit in base-");
                let d = u64_decimal(*radix as u64);
                push_all(&mut out, &d);
                push_str(&mut out, " number literal: ");
                push_str(&mut out, literal.as_str());
            },
            NumberLiteralParsingError::InvalidSeparator(s) => {
                push_str(&mut out, "invalid digit separator in number literal: ");
                push_str(&mut out, s.as_str());
            },
            NumberLiteralParsingError::InvalidSuffix(s) => {
                push_str(&mut out, "invalid number suffix: ");
                push_str(&mut out, s.as_str());
            },
            NumberLiteralParsingError::IntegerSuffixOnFloat(x) => {
                push_str(&mut out, "integer suffix `");
                push_str(&mut out, x.as_str());
                push_str(&mut out, "` cannot be used on a floating-point literal");
            },
            NumberLiteralParsingError::InvalidExponent(s) => {
                push_str(&mut out, "invalid exponent: ");
                push_str(&mut out, s.as_str());
            },
            NumberLiteralParsingError::NumberTooLarge(s, x) => {
                push_str(&mut out, "number literal '");
                push_str(&mut out, s.as_str());
                push_str(&mut out, "' is too large for the target type: ");
                push_str(&mut out, x.as_str());
            },
        }
        string_from_chars(&out)
    }
}

/// The exact value of a number literal.
#[derive(Debug, Clone, PartialEq, Eq, Hash)]
pub enum NumberValue {
    /// A non-negative integer, as its decimal expansion without leading zeros.
    Integer(String),
    /// A non-negative rational `numer / denom` in lowest terms with `denom > 0`,
    /// both as decimal expansions without leading zeros.
    Float { numer: String, denom: String },
}

/// The mathematical content of a [`NumberValue`].
pub enum ValueModel {
    Integer(nat),
    Float(nat, nat),
}

/// A parsed number literal.
#[derive(Debug, Clone, PartialEq, Eq, Hash)]
pub struct NumberLiteral {
    pub value: NumberValue,
    pub suffix: Option<NumberSuffix>,
}

/// A literal of the surface language.
#[derive(Debug, Clone, PartialEq, Eq, Hash)]
pub enum Literal {
    Numeric(NumberLiteral),
    Text(String),
}

/// `v` holds exactly the value `m`, in canonical decimal form.
pub open spec fn value_holds(v: NumberValue, m: ValueModel) -> bool {
    match (v, m) {
        (NumberValue::Integer(s), ValueModel::Integer(n)) => s@ == nat_decimal(n),
        (NumberValue::Float { numer, denom }, ValueModel::Float(n, d)) => numer@ == nat_decimal(n)
            && denom@ == nat_decimal(d),
        _ => false,
    }
}

/// `r` is the outcome `m`: the same error, or a literal with the same value and suffix.
pub open spec fn outcome_holds(
    r: Result<NumberLiteral, NumberLiteralParsingError>,
    m: Result<(ValueModel, Option<NumberSuffix>), ParseErrorModel>,
) -> bool {
    match (r, m) {
        (Ok(lit), Ok((v, x))) => value_holds(lit.value, v) && lit.suffix == x,
        (Err(e), Err(em)) => e@ == em,
        _ => false,
    }
}

// ---------------------------------------------------------------------------
// Specification of the literal grammar.
/// Greatest common divisor.
pub open spec fn gcd(a: nat, b: nat) -> nat
    decreases b,
{
    if b == 0 {
        a
    } else {
        gcd(b, a % b)
    }
}

pub open spec fn pow10(k: nat) -> nat
    decreases k,
{
    if k == 0 {
        1
    } else {
        10 * pow10((k - 1) as nat)
    }
}

/// Every `_` sits strictly inside the literal and next to no other `_`.
pub open spec fn separators_ok(s: Seq<char>) -> bool {
    forall|i: int|
        0 <= i < s.len() && #[trigger] s[i] == '_' ==> 0 < i && i + 1 < s.len() && s[i - 1] != '_'
            && s[i + 1] != '_'
}

/// `s` with every `_` removed.
pub open spec fn strip_separators(s: Seq<char>) -> Seq<char>
    decreases s.len(),
{
    if s.len() == 0 {
        s
    } else if s.last() == '_' {
        strip_separators(s.drop_last())
    } else {
        strip_separators(s.drop_last()).push(s.last())
    }
}

/// Number of leading base-`radix` digits of `s`.
pub open spec fn digit_run(s: Seq<char>, radix: u32) -> nat
    decreases s.len(),
{
    if s.len() == 0 || !is_radix_digit(s[0], radix) {
        0
    } else {
        1 + digit_run(s.drop_first(), radix)
    }
}

/// Reading an optional suffix: empty text is no suffix.
pub open spec fn spec_suffix(t: Seq<char>) -> Result<Option<NumberSuffix>, ParseErrorModel> {
    if t.len() == 0 {
        Ok(None)
    } else {
        match NumberSuffix::spec_from_text(t) {
            Some(x) => Ok(Some(x)),
            None => Err(ParseErrorModel::InvalidSuffix(t)),
        }
    }
}

/// A literal with base prefix: `source` is the whole literal, `rest` what follows the prefix.
pub open spec fn spec_parse_based(source: Seq<char>, rest: Seq<char>, radix: u32) -> Result<
    (ValueModel, Option<NumberSuffix>),
    ParseErrorModel,
> {
    let k = digit_run(rest, radix);
    let digits = rest.take(k as int);
    let suffix_text = rest.skip(k as int);
    if k == 0 || (suffix_text.len() > 0 && is_ascii_digit(suffix_text[0])) {
        Err(ParseErrorModel::InvalidDigit(source, radix))
    } else {
        match spec_suffix(suffix_text) {
            Err(e) => Err(e),
            Ok(x) => if x is Some && x.unwrap().spec_is_float() {
                Err(ParseErrorModel::InvalidSuffix(suffix_text))
            } else {
                Ok((ValueModel::Integer(digits_value(digits, radix as nat)), x))
            },
        }
    }
}

/// Signed decimal integer text as `i64::from_str` reads it.
pub open spec fn spec_parse_i64(s: Seq<char>) -> Option<int> {
    let neg = s.len() > 0 && s[0] == '-';
    let digits = if s.len() > 0 && (s[0] == '-' || s[0] == '+') {
        s.drop_first()
    } else {
        s
    };
    if digits.len() == 0 || !all_ascii_digits(digits) {
        None
    } else {
        let v = digits_value(digits, 10);
        if neg {
            if v <= 0x8000_0000_0000_0000 {
                Some(-v)
            } else {
                None
            }
        } else {
            if v <= 0x7fff_ffff_ffff_ffff {
                Some(v as int)
            } else {
                None
            }
        }
    }
}

/// Index of the first character of `s` satisfying `e`/`E`, or `s.len()`.
pub open spec fn exponent_mark(s: Seq<char>) -> nat
    decreases s.len(),
{
    if s.len() == 0 || s[0] == 'e' || s[0] == 'E' {
        0
    } else {
        1 + exponent_mark(s.drop_first())
    }
}

/// Index of the first `.` of `s`, or `s.len()`.
pub open spec fn dot_mark(s: Seq<char>) -> nat
    decreases s.len(),
{
    if s.len() == 0 || s[0] == '.' {
        0
    } else {
        1 + dot_mark(s.drop_first())
    }
}

/// The exact rational value of decimal text `d.f[e±x]`, in lowest terms.
#[verifier::opaque]
pub open spec fn spec_decimal_rational(numeric: Seq<char>) -> Result<ValueModel, ParseErrorModel> {
    let ei = exponent_mark(numeric);
    let exponent = if ei < numeric.len() {
        spec_parse_i64(numeric.skip(ei + 1 as int))
    } else {
        Some(0)
    };
    let mantissa = numeric.take(ei as int);
    let di = dot_mark(mantissa);
    let integer = mantissa.take(di as int);
    let fraction = if di < mantissa.len() {
        mantissa.skip(di + 1 as int)
    } else {
        Seq::empty()
    };
    let n = digits_value(integer + fraction, 10);
    match exponent {
        None => Err(ParseErrorModel::InvalidExponent(numeric)),
        Some(e) => {
            let scale = fraction.len() - e;
            if fraction.len() > 0x7fff_ffff_ffff_ffff || scale < -0x8000_0000_0000_0000 || scale
                > 0x7fff_ffff_ffff_ffff {
                Err(ParseErrorModel::InvalidExponent(numeric))
            } else if scale >= 0 {
                if scale > 0xffff_ffff {
                    Err(ParseErrorModel::InvalidExponent(numeric))
                } else {
                    let d = pow10(scale as nat);
                    let g = gcd(n, d);
                    Ok(ValueModel::Float(n / g, d / g))
                }
            } else {
                if -scale > 0xffff_ffff {
                    Err(ParseErrorModel::InvalidExponent(numeric))
                } else {
                    Ok(ValueModel::Float(n * pow10((-scale) as nat), 1))
                }
            }
        },
    }
}

/// Where the numeric part of a decimal literal ends, and whether it is fractional.
pub open spec fn decimal_scan(t: Seq<char>) -> Result<(nat, bool), ParseErrorModel> {
    let n1 = digit_run(t, 10);
    if n1 == 0 {
        Err(ParseErrorModel::InvalidNumber(t))
    } else {
        let has_dot = n1 < t.len() && t[n1 as int] == '.';
        let n2 = if has_dot {
            digit_run(t.skip(n1 + 1 as int), 10)
        } else {
            0
        };
        if has_dot && n2 == 0 {
            Err(ParseErrorModel::InvalidNumber(t))
        } else {
            let c = if has_dot {
                n1 + 1 + n2
            } else {
                n1
            };
            let has_exp = c < t.len() && (t[c as int] == 'e' || t[c as int] == 'E');
            if has_exp {
                let c2 = if c + 1 < t.len() && (t[(c + 1) as int] == '+' || t[(c + 1) as int] == '-') {
                    c + 2
                } else {
                    c + 1
                };
                let n3 = digit_run(t.skip(c2 as int), 10);
                if n3 == 0 {
                    Err(ParseErrorModel::InvalidExponent(t))
                } else {
                    Ok(((c2 + n3) as nat, true))
                }
            } else {
                Ok((c, has_dot))
            }
        }
    }
}

/// A literal without base prefix.
pub open spec fn spec_parse_decimal(t: Seq<char>) -> Result<
    (ValueModel, Option<NumberSuffix>),
    ParseErrorModel,
> {
    match decimal_scan(t) {
        Err(e) => Err(e),
        Ok((c, is_float)) => {
            let numeric = t.take(c as int);
            let suffix_text = t.skip(c as int);
            if suffix_text.len() > 0 && !is_ascii_alpha(suffix_text[0]) {
                Err(ParseErrorModel::InvalidNumber(t))
            } else {
                match spec_suffix(suffix_text) {
                    Err(e) => Err(e),
                    Ok(x) => if is_float {
                        if x is Some && !x.unwrap().spec_is_float() {
                            Err(ParseErrorModel::IntegerSuffixOnFloat(x.unwrap()))
                        } else {
                            match spec_decimal_rational(numeric) {
                                Err(e) => Err(e),
                                Ok(v) => Ok((v, x)),
                            }
                        }
                    } else if x is Some && x.unwrap().spec_is_float() {
                        Ok((ValueModel::Float(digits_value(numeric, 10), 1), x))
                    } else {
                        Ok((ValueModel::Integer(digits_value(numeric, 10)), x))
                    },
                }
            }
        },
    }
}

pub open spec fn starts_with2(s: Seq<char>, a: char, b: char) -> bool {
    s.len() >= 2 && s[0] == a && s[1] == b
}

/// The meaning of a number literal's source text.
pub open spec fn spec_parse_number(s: Seq<char>) -> Result<
    (ValueModel, Option<NumberSuffix>),
    ParseErrorModel,
> {
    if s.len() == 0 {
        Err(ParseErrorModel::EmptyNumberLiteral)
    } else if is_unicode_whitespace(s[0]) || is_unicode_whitespace(s.last()) {
        Err(ParseErrorModel::InvalidNumber(s))
    } else if !separators_ok(s) {
        Err(ParseErrorModel::InvalidSeparator(s))
    } else {
        let t = strip_separators(s);
        if t.len() > 0 && (t[0] == '-' || t[0] == '+') {
            Err(ParseErrorModel::InvalidNumber(t))
        } else if starts_with2(t, '0', 'x') {
            spec_parse_based(t, t.skip(2), 16)
        } else if starts_with2(t, '0', 'b') {
            spec_parse_based(t, t.skip(2), 2)
        } else if starts_with2(t, '0', 'o') {
            spec_parse_based(t, t.skip(2), 8)
        } else {
            spec_parse_decimal(t)
        }
    }
}

// ---------------------------------------------------------------------------
// Calls into num-bigint and num-rational.
/// Base-`radix` digits to the decimal expansion of their value, through
/// `num_bigint::BigUint::parse_bytes` and `BigUint`'s `Display`. For a
/// non-empty run of valid digits `parse_bytes` returns the value they denote
/// and `Display` writes it in decimal without leading zeros.
#[verifier::external_body]
fn biguint_decimal(digits: &[char], radix: u32) -> (r: String)
    requires
        2 <= radix <= 36,
        digits@.len() > 0,
        forall|i: int| 0 <= i < digits@.len() ==> is_radix_digit(#[trigger] digits@[i], radix),
    ensures
        r@ == nat_decimal(digits_value(digits@, radix as nat)),
{
    let text: String = digits.iter().collect();
    num_bigint::BigUint::parse_bytes(text.as_bytes(), radix).unwrap().to_string()
}

/// The fraction `numer / denom` in lowest terms, through
/// `num_rational::BigRational::new`, which divides both parts by their greatest
/// common divisor and keeps the denominator positive; the parts are written
/// with `BigInt`'s `Display`.
#[verifier::external_body]
fn rational_lowest_terms(numer: &[char], denom: &[char]) -> (r: (String, String))
    requires
        numer@.len() > 0,
        denom@.len() > 0,
        forall|i: int| 0 <= i < numer@.len() ==> is_ascii_digit(#[trigger] numer@[i]),
        forall|i: int| 0 <= i < denom@.len() ==> is_ascii_digit(#[trigger] denom@[i]),
        digits_value(denom@, 10) > 0,
    ensures
        ({
            let n = digits_value(numer@, 10);
            let d = digits_value(denom@, 10);
            r.0@ == nat_decimal(n / gcd(n, d)) && r.1@ == nat_decimal(d / gcd(n, d))
        }),
{
    let n: String = numer.iter().collect();
    let d: String = denom.iter().collect();
    let n = num_bigint::BigInt::parse_bytes(n.as_bytes(), 10).unwrap();
    let d = num_bigint::BigInt::parse_bytes(d.as_bytes(), 10).unwrap();
    let r = num_rational::BigRational::new(n, d);
    (r.numer().to_string(), r.denom().to_string())
}


// ---------------------------------------------------------------------------
// Executable parser.
proof fn lemma_digit_run(s: Seq<char>, k: nat, radix: u32)
    requires
        k <= s.len(),
        forall|j: int| 0 <= j < k ==> is_radix_digit(#[trigger] s[j], radix),
        k == s.len() || !is_radix_digit(s[k as int], radix),
    ensures
        digit_run(s, radix) == k,
    decreases k,
{
    if k > 0 {
        assert forall|j: int| 0 <= j < k - 1 implies is_radix_digit(
            #[trigger] s.drop_first()[j],
            radix,
        ) by {
            assert(s.drop_first()[j] == s[j + 1]);
        }
        lemma_digit_run(s.drop_first(), (k - 1) as nat, radix);
    }
}

proof fn lemma_digit_run_facts(s: Seq<char>, radix: u32)
    ensures
        digit_run(s, radix) <= s.len(),
        forall|j: int| 0 <= j < digit_run(s, radix) ==> is_radix_digit(#[trigger] s[j], radix),
    decreases s.len(),
{
    if s.len() > 0 && is_radix_digit(s[0], radix) {
        lemma_digit_run_facts(s.drop_first(), radix);
        assert forall|j: int| 0 <= j < digit_run(s, radix) implies is_radix_digit(
            #[trigger] s[j],
            radix,
        ) by {
            if j > 0 {
                assert(s[j] == s.drop_first()[j - 1]);
            }
        }
    }
}

/// Length of the run of base-`radix` digits starting at `start`.
fn scan_digits(s: &[char], start: usize, radix: u32) -> (k: usize)
    requires
        start <= s@.len(),
        radix <= 36,
    ensures
        k == digit_run(s@.skip(start as int), radix),
        start + k <= s@.len(),
{
    let mut i = start;
    while i < s.len() && is_radix_digit_exec(s[i], radix)
        invariant
            start <= i <= s@.len(),
            radix <= 36,
            forall|j: int| start <= j < i ==> is_radix_digit(#[trigger] s@[j], radix),
        decreases s.len() - i,
    {
        i = i + 1;
    }
    proof {
        let t = s@.skip(start as int);
        assert forall|j: int| 0 <= j < i - start implies is_radix_digit(#[trigger] t[j], radix) by {
            assert(t[j] == s@[start + j]);
        }
        lemma_digit_run(t, (i - start) as nat, radix);
    }
    i - start
}

proof fn lemma_strip_push(s: Seq<char>, c: char)
    ensures
        strip_separators(s.push(c)) == if c == '_' {
            strip_separators(s)
        } else {
            strip_separators(s).push(c)
        },
{
    assert(s.push(c).drop_last() =~= s);
}

/// Rejects misplaced `_` separators, then drops them.
pub fn remove_separators(source: &[char]) -> (r: Result<Vec<char>, NumberLiteralParsingError>)
    ensures
        separators_ok(source@) ==> (r matches Ok(t) && t@ == strip_separators(source@)),
        !separators_ok(source@) ==> (r matches Err(e) && e@ == ParseErrorModel::InvalidSeparator(
            source@,
        )),
{
    let n = source.len();
    let mut i: usize = 0;
    while i < n
        invariant
            n == source@.len(),
            i <= n,
            forall|j: int|
                0 <= j < i && #[trigger] source@[j] == '_' ==> 0 < j && j + 1 < n && source@[j - 1] != '_'
                    && source@[j + 1] != '_',
        decreases n - i,
    {
        if source[i] == '_' && (i == 0 || i + 1 == n || source[i - 1] == '_' || source[i + 1]
            == '_') {
            return Err(NumberLiteralParsingError::InvalidSeparator(string_from_chars(source)));
        }
        i = i + 1;
    }
    let mut out: Vec<char> = Vec::new();
    let mut i: usize = 0;
    while i < n
        invariant
            n == source@.len(),
            i <= n,
            out@ == strip_separators(source@.take(i as int)),
        decreases n - i,
    {
        let c = source[i];
        proof {
            assert(source@.take(i + 1) =~= source@.take(i as int).push(c));
            lemma_strip_push(source@.take(i as int), c);
        }
        if c != '_' {
            out.push(c);
        }
        i = i + 1;
    }
    assert(source@.take(n as int) =~= source@);
    Ok(out)
}

/// An optional suffix: empty text means none.
pub fn parse_suffix(suffix: &[char]) -> (r: Result<Option<NumberSuffix>, NumberLiteralParsingError>)
    ensures
        match spec_suffix(suffix@) {
            Ok(x) => r == Ok::<Option<NumberSuffix>, NumberLiteralParsingError>(x),
            Err(em) => r matches Err(e) && e@ == em,
        },
{
    if suffix.len() == 0 {
        Ok(None)
    } else {
        match NumberSuffix::from_chars(suffix) {
            Ok(x) => Ok(Some(x)),
            Err(e) => Err(e),
        }
    }
}

/// A literal with a base prefix; `rest` is what follows the prefix in `source`.
fn parse_based_integer(source: &[char], rest: &[char], radix: u32) -> (r: Result<
    NumberLiteral,
    NumberLiteralParsingError,
>)
    requires
        radix == 2 || radix == 8 || radix == 16,
    ensures
        outcome_holds(r, spec_parse_based(source@, rest@, radix)),
{
    let k = scan_digits(rest, 0, radix);
    proof {
        assert(rest@.skip(0) =~= rest@);
        lemma_digit_run_facts(rest@, radix);
    }
    if k == 0 || (k < rest.len() && is_ascii_digit_exec(rest[k])) {
        proof {
            if k < rest@.len() {
                assert(rest@.skip(k as int)[0] == rest@[k as int]);
            }
        }
        return Err(NumberLiteralParsingError::InvalidDigit { literal: string_from_chars(source), radix });
    }
    let digits = sub_chars(rest, 0, k);
    let suffix_text = sub_chars(rest, k, rest.len());
    proof {
        assert(digits@ =~= rest@.take(k as int));
        assert(suffix_text@ =~= rest@.skip(k as int));
        if suffix_text@.len() > 0 {
            assert(suffix_text@[0] == rest@[k as int]);
        }
    }
    let suffix = match parse_suffix(&suffix_text) {
        Ok(x) => x,
        Err(e) => return Err(e),
    };
    if let Some(x) = suffix {
        if x.is_float() {
            return Err(NumberLiteralParsingError::InvalidSuffix(string_from_chars(&suffix_text)));
        }
    }
    let value = biguint_decimal(&digits, radix);
    Ok(NumberLiteral { value: NumberValue::Integer(value), suffix })
}


proof fn lemma_digits_value_push(s: Seq<char>, c: char, radix: nat)
    ensures
        digits_value(s.push(c), radix) == (digits_value(s, radix) * radix + char_digit_value(c)) as nat,
{
    assert(s.push(c).drop_last() =~= s);
}

proof fn lemma_digits_value_prefix(s: Seq<char>, j: int)
    requires
        0 <= j <= s.len(),
        forall|i: int| 0 <= i < s.len() ==> is_ascii_digit(#[trigger] s[i]),
    ensures
        digits_value(s.take(j), 10) <= digits_value(s, 10),
    decreases s.len(),
{
    if j < s.len() {
        let p = s.drop_last();
        assert forall|i: int| 0 <= i < p.len() implies is_ascii_digit(#[trigger] p[i]) by {
            assert(p[i] == s[i]);
        }
        lemma_digits_value_prefix(p, j);
        assert(p.take(j) =~= s.take(j));
        assert(is_ascii_digit(s.last()));
    } else {
        assert(s.take(j) =~= s);
    }
}

proof fn lemma_parse_i64_rejects(s: Seq<char>, digits: Seq<char>)
    requires
        digits == (if s.len() > 0 && (s[0] == '-' || s[0] == '+') {
            s.drop_first()
        } else {
            s
        }),
        digits.len() == 0 || !all_ascii_digits(digits) || (s.len() > 0 && s[0] == '-'
            && digits_value(digits, 10) > 0x8000_0000_0000_0000) || (!(s.len() > 0 && s[0] == '-')
            && digits_value(digits, 10) > 0x7fff_ffff_ffff_ffff),
    ensures
        spec_parse_i64(s) is None,
{
}

proof fn lemma_pow10_pos(k: nat)
    ensures
        pow10(k) > 0,
    decreases k,
{
    if k > 0 {
        lemma_pow10_pos((k - 1) as nat);
    }
}

/// Signed decimal integer text, as `i64::from_str` reads it.
fn parse_i64(s: &[char]) -> (r: Option<i64>)
    ensures
        match spec_parse_i64(s@) {
            Some(v) => r matches Some(x) && x as int == v,
            None => r is None,
        },
{
    let n = s.len();
    let neg = n > 0 && s[0] == '-';
    let start: usize = if n > 0 && (s[0] == '-' || s[0] == '+') {
        1
    } else {
        0
    };
    let ghost digits = if s@.len() > 0 && (s@[0] == '-' || s@[0] == '+') {
        s@.drop_first()
    } else {
        s@
    };
    assert(digits =~= s@.skip(start as int));
    if start == n {
        return None;
    }
    let limit: u128 = if neg {
        0x8000_0000_0000_0000
    } else {
        0x7fff_ffff_ffff_ffff
    };
    let mut acc: u128 = 0;
    let mut i = start;
    while i < n
        invariant
            start <= i <= n == s@.len(),
            start < n,
            digits =~= s@.skip(start as int),
            digits == (if s@.len() > 0 && (s@[0] == '-' || s@[0] == '+') {
                s@.drop_first()
            } else {
                s@
            }),
            neg == (s@.len() > 0 && s@[0] == '-'),
            limit == (if neg {
                0x8000_0000_0000_0000u128
            } else {
                0x7fff_ffff_ffff_ffffu128
            }),
            limit <= 0x8000_0000_0000_0000,
            acc <= limit,
            forall|j: int| start <= j < i ==> is_ascii_digit(#[trigger] s@[j]),
            acc == digits_value(s@.subrange(start as int, i as int), 10),
        decreases n - i,
    {
        let c = s[i];
        if !is_ascii_digit_exec(c) {
            proof {
                assert(digits[i - start] == c);
                assert(!is_ascii_digit(digits[i - start]));
                assert(!all_ascii_digits(digits));
                lemma_parse_i64_rejects(s@, digits);
            }
            return None;
        }
        proof {
            assert(s@.subrange(start as int, i + 1) =~= s@.subrange(start as int, i as int).push(c));
            lemma_digits_value_push(s@.subrange(start as int, i as int), c, 10);
        }
        acc = acc * 10 + ((c as u32) - ('0' as u32)) as u128;
        i = i + 1;
        if acc > limit {
            proof {
                let k = i - start;
                assert(digits.take(k) =~= s@.subrange(start as int, i as int));
                if all_ascii_digits(digits) {
                    lemma_digits_value_prefix(digits, k);
                    assert(digits_value(digits, 10) > limit);
                }
                lemma_parse_i64_rejects(s@, digits);
            }
            return None;
        }
    }
    proof {
        assert(s@.subrange(start as int, n as int) =~= digits);
        assert forall|j: int| 0 <= j < digits.len() implies is_ascii_digit(#[trigger] digits[j]) by {
            assert(digits[j] == s@[start + j]);
        }
    }
    if neg {
        if acc == 0x8000_0000_0000_0000 {
            Some(i64::MIN)
        } else {
            Some(-(acc as i64))
        }
    } else {
        Some(acc as i64)
    }
}

proof fn lemma_exponent_mark(s: Seq<char>, k: nat)
    requires
        k <= s.len(),
        forall|j: int| 0 <= j < k ==> #[trigger] s[j] != 'e' && s[j] != 'E',
        k == s.len() || s[k as int] == 'e' || s[k as int] == 'E',
    ensures
        exponent_mark(s) == k,
    decreases k,
{
    if k > 0 {
        assert forall|j: int| 0 <= j < k - 1 implies #[trigger] s.drop_first()[j] != 'e'
            && s.drop_first()[j] != 'E' by {
            assert(s.drop_first()[j] == s[j + 1]);
        }
        lemma_exponent_mark(s.drop_first(), (k - 1) as nat);
    }
}

proof fn lemma_dot_mark(s: Seq<char>, k: nat)
    requires
        k <= s.len(),
        forall|j: int| 0 <= j < k ==> #[trigger] s[j] != '.',
        k == s.len() || s[k as int] == '.',
    ensures
        dot_mark(s) == k,
    decreases k,
{
    if k > 0 {
        assert forall|j: int| 0 <= j < k - 1 implies #[trigger] s.drop_first()[j] != '.' by {
            assert(s.drop_first()[j] == s[j + 1]);
        }
        lemma_dot_mark(s.drop_first(), (k - 1) as nat);
    }
}

pub open spec fn zeros(k: nat) -> Seq<char> {
    Seq::new(k, |i: int| '0')
}

proof fn lemma_digits_value_zeros(s: Seq<char>, k: nat)
    ensures
        digits_value(s + zeros(k), 10) == digits_value(s, 10) * pow10(k),
    decreases k,
{
    if k == 0 {
        assert(s + zeros(0) =~= s);
        assert(pow10(0) == 1);
    } else {
        lemma_digits_value_zeros(s, (k - 1) as nat);
        assert(s + zeros(k) =~= (s + zeros((k - 1) as nat)).push('0'));
        lemma_digits_value_push(s + zeros((k - 1) as nat), '0', 10);
        let a = digits_value(s, 10);
        let p = pow10((k - 1) as nat);
        assert(char_digit_value('0') == 0);
        assert(digits_value(s + zeros((k - 1) as nat), 10) == a * p);
        assert(digits_value((s + zeros((k - 1) as nat)).push('0'), 10) == a * p * 10);
        assert(digits_value(s + zeros(k), 10) == a * p * 10);
        assert(pow10(k) == 10 * p);
        assert(a * p * 10 == a * (10 * p)) by (nonlinear_arith);
    }
}

/// `1` followed by `k` zeros: the decimal digits of `10^k`.
fn ten_pow_digits(k: u32) -> (r: Vec<char>)
    ensures
        r@ == seq!['1'] + zeros(k as nat),
{
    let mut r: Vec<char> = Vec::new();
    r.push('1');
    let mut i: u32 = 0;
    while i < k
        invariant
            i <= k,
            r@ == seq!['1'] + zeros(i as nat),
        decreases k - i,
    {
        r.push('0');
        i = i + 1;
        assert(r@ =~= seq!['1'] + zeros(i as nat));
    }
    r
}

/// The digits of a decimal literal before and after its point are all decimal digits,
/// and there is at least one before it.
pub open spec fn rational_text_ok(numeric: Seq<char>) -> bool {
    let mantissa = numeric.take(exponent_mark(numeric) as int);
    let di = dot_mark(mantissa);
    let integer = mantissa.take(di as int);
    let fraction = if di < mantissa.len() {
        mantissa.skip(di + 1 as int)
    } else {
        Seq::empty()
    };
    &&& exponent_mark(numeric) <= numeric.len()
    &&& di <= mantissa.len()
    &&& integer.len() > 0
    &&& all_ascii_digits(integer + fraction)
}

proof fn lemma_marks_bounded(s: Seq<char>)
    ensures
        exponent_mark(s) <= s.len(),
        dot_mark(s) <= s.len(),
        exponent_mark(s) < s.len() ==> s[exponent_mark(s) as int] == 'e' || s[exponent_mark(s) as int] == 'E',
        dot_mark(s) < s.len() ==> s[dot_mark(s) as int] == '.',
    decreases s.len(),
{
    if s.len() > 0 {
        lemma_marks_bounded(s.drop_first());
    }
}

/// The exact value of decimal text `digits[.digits][(e|E)[+|-]digits]`.
fn decimal_to_rational(numeric: &[char]) -> (r: Result<NumberValue, NumberLiteralParsingError>)
    requires
        rational_text_ok(numeric@),
    ensures
        match spec_decimal_rational(numeric@) {
            Ok(v) => r matches Ok(x) && value_holds(x, v),
            Err(em) => r matches Err(e) && e@ == em,
        },
{
    reveal(spec_decimal_rational);
    let n = numeric.len();
    let mut ei: usize = 0;
    while ei < n && numeric[ei] != 'e' && numeric[ei] != 'E'
        invariant
            ei <= n == numeric@.len(),
            forall|j: int| 0 <= j < ei ==> #[trigger] numeric@[j] != 'e' && numeric@[j] != 'E',
        decreases n - ei,
    {
        ei = ei + 1;
    }
    proof {
        lemma_exponent_mark(numeric@, ei as nat);
    }
    let exponent: i64 = if ei < n {
        let text = sub_chars(numeric, ei + 1, n);
        assert(text@ =~= numeric@.skip(ei + 1 as int));
        match parse_i64(&text) {
            Some(e) => e,
            None => {
                return Err(NumberLiteralParsingError::InvalidExponent(string_from_chars(numeric)));
            },
        }
    } else {
        0
    };
    let mantissa = sub_chars(numeric, 0, ei);
    assert(mantissa@ =~= numeric@.take(ei as int));
    let mut di: usize = 0;
    while di < ei && mantissa[di] != '.'
        invariant
            di <= ei == mantissa@.len(),
            forall|j: int| 0 <= j < di ==> #[trigger] mantissa@[j] != '.',
        decreases ei - di,
    {
        di = di + 1;
    }
    proof {
        lemma_dot_mark(mantissa@, di as nat);
    }
    let mut digits = sub_chars(&mantissa, 0, di);
    let fraction = if di < ei {
        sub_chars(&mantissa, di + 1, ei)
    } else {
        Vec::new()
    };
    proof {
        if di < ei {
            assert(fraction@ =~= mantissa@.skip(di + 1 as int));
        } else {
            assert(fraction@ =~= Seq::<char>::empty());
        }
    }
    push_all(&mut digits, &fraction);
    let places = fraction.len();
    if places as u128 > 0x7fff_ffff_ffff_ffff {
        return Err(NumberLiteralParsingError::InvalidExponent(string_from_chars(numeric)));
    }
    let scale: i128 = places as i128 - exponent as i128;
    if scale < i64::MIN as i128 || scale > i64::MAX as i128 {
        return Err(NumberLiteralParsingError::InvalidExponent(string_from_chars(numeric)));
    }
    if scale >= 0 {
        if scale > 0xffff_ffff {
            return Err(NumberLiteralParsingError::InvalidExponent(string_from_chars(numeric)));
        }
        let denom = ten_pow_digits(scale as u32);
        proof {
            lemma_digits_value_zeros(seq!['1'], scale as nat);
            lemma_pow10_pos(scale as nat);
            assert(digits_value(seq!['1'], 10) == 1) by {
                let one = seq!['1'];
                assert(digits_value(Seq::<char>::empty(), 10) == 0);
                assert(one.drop_last() =~= Seq::<char>::empty());
                assert(one.last() == '1');
                assert(char_digit_value('1') == 1);
            }
            assert forall|i: int| 0 <= i < denom@.len() implies is_ascii_digit(#[trigger] denom@[i]) by {
                if i > 0 {
                    assert(denom@[i] == zeros(scale as nat)[i - 1]);
                }
            }
        }
        proof {
            let m = numeric@.take(exponent_mark(numeric@) as int);
            assert(m =~= mantissa@);
            assert(digits@ =~= m.take(di as int) + fraction@);
        }
        let (numer, denom) = rational_lowest_terms(&digits, &denom);
        Ok(NumberValue::Float { numer, denom })
    } else {
        if -scale > 0xffff_ffff {
            return Err(NumberLiteralParsingError::InvalidExponent(string_from_chars(numeric)));
        }
        let k = (-scale) as u32;
        let mut i: u32 = 0;
        let ghost base = digits@;
        while i < k
            invariant
                i <= k,
                digits@ == base + zeros(i as nat),
            decreases k - i,
        {
            digits.push('0');
            i = i + 1;
            assert(digits@ =~= base + zeros(i as nat));
        }
        proof {
            lemma_digits_value_zeros(base, k as nat);
            assert forall|j: int| 0 <= j < digits@.len() implies is_radix_digit(#[trigger] digits@[j], 10) by {
                if j >= base.len() {
                    assert(digits@[j] == zeros(k as nat)[j - base.len()]);
                } else {
                    assert(is_ascii_digit(base[j]));
                }
            }
        }
        let numer = biguint_decimal(&digits, 10);
        let mut one: Vec<char> = Vec::new();
        one.push('1');
        proof {
            assert(nat_decimal(1) == seq![digit_char(1)]);
            assert(one@ =~= nat_decimal(1));
        }
        Ok(NumberValue::Float { numer, denom: string_from_chars(&one) })
    }
}


proof fn lemma_scan_rational(t: Seq<char>, n1: nat, has_dot: bool, n2: nat, c_pre: nat, c: nat)
    requires
        0 < n1 <= c_pre <= c <= t.len(),
        forall|j: int| 0 <= j < n1 ==> is_radix_digit(#[trigger] t[j], 10),
        has_dot ==> t[n1 as int] == '.' && c_pre == n1 + 1 + n2,
        has_dot ==> forall|j: int| n1 + 1 <= j < n1 + 1 + n2 ==> is_radix_digit(#[trigger] t[j], 10),
        !has_dot ==> c_pre == n1,
        c_pre < c ==> t[c_pre as int] == 'e' || t[c_pre as int] == 'E',
    ensures
        rational_text_ok(t.take(c as int)),
{
    let nm = t.take(c as int);
    assert forall|j: int| 0 <= j < c_pre implies #[trigger] nm[j] != 'e' && nm[j] != 'E' by {
        if j < n1 {
            assert(is_radix_digit(t[j], 10));
        } else if j > n1 {
            assert(is_radix_digit(t[j], 10));
        }
    }
    lemma_exponent_mark(nm, c_pre);
    let mantissa = nm.take(c_pre as int);
    assert forall|j: int| 0 <= j < n1 implies #[trigger] mantissa[j] != '.' by {
        assert(is_radix_digit(t[j], 10));
    }
    lemma_dot_mark(mantissa, n1);
    let integer = mantissa.take(n1 as int);
    let fraction = if n1 < mantissa.len() {
        mantissa.skip(n1 + 1 as int)
    } else {
        Seq::<char>::empty()
    };
    assert forall|j: int| 0 <= j < (integer + fraction).len() implies is_ascii_digit(
        #[trigger] (integer + fraction)[j],
    ) by {
        if j < n1 {
            assert((integer + fraction)[j] == t[j]);
            assert(is_radix_digit(t[j], 10));
        } else {
            let k = j + 1;
            assert((integer + fraction)[j] == t[k]);
            assert(is_radix_digit(t[k], 10));
        }
    }
}

/// A literal without base prefix: digits, optional fraction and exponent, optional suffix.
fn parse_decimal(t: &[char]) -> (r: Result<NumberLiteral, NumberLiteralParsingError>)
    ensures
        outcome_holds(r, spec_parse_decimal(t@)),
{
    let n = t.len();
    let n1 = scan_digits(t, 0, 10);
    proof {
        assert(t@.skip(0) =~= t@);
        lemma_digit_run_facts(t@, 10);
    }
    if n1 == 0 {
        return Err(NumberLiteralParsingError::InvalidNumber(string_from_chars(t)));
    }
    let mut c = n1;
    let mut is_float = false;
    let has_dot = n1 < n && t[n1] == '.';
    let mut n2: usize = 0;
    if has_dot {
        is_float = true;
        n2 = scan_digits(t, n1 + 1, 10);
        proof {
            lemma_digit_run_facts(t@.skip(n1 + 1 as int), 10);
        }
        if n2 == 0 {
            return Err(NumberLiteralParsingError::InvalidNumber(string_from_chars(t)));
        }
        c = n1 + 1 + n2;
    }
    let c_pre = c;
    let has_exp = c < n && (t[c] == 'e' || t[c] == 'E');
    if has_exp {
        is_float = true;
        let mut c2 = c + 1;
        if c2 < n && (t[c2] == '+' || t[c2] == '-') {
            c2 = c2 + 1;
        }
        let n3 = scan_digits(t, c2, 10);
        if n3 == 0 {
            return Err(NumberLiteralParsingError::InvalidExponent(string_from_chars(t)));
        }
        c = c2 + n3;
    }
    assert(decimal_scan(t@) == Ok::<(nat, bool), ParseErrorModel>((c as nat, is_float)));
    let numeric = sub_chars(t, 0, c);
    let suffix_text = sub_chars(t, c, n);
    proof {
        assert(numeric@ =~= t@.take(c as int));
        assert(suffix_text@ =~= t@.skip(c as int));
        if suffix_text@.len() > 0 {
            assert(suffix_text@[0] == t@[c as int]);
        }
    }
    if suffix_text.len() > 0 && !is_ascii_alpha_exec(suffix_text[0]) {
        return Err(NumberLiteralParsingError::InvalidNumber(string_from_chars(t)));
    }
    let suffix = match parse_suffix(&suffix_text) {
        Ok(x) => x,
        Err(e) => return Err(e),
    };
    proof {
        assert forall|j: int| 0 <= j < n1 implies is_ascii_digit(#[trigger] numeric@[j]) by {
            assert(numeric@[j] == t@[j]);
        }
    }
    if is_float {
        if let Some(x) = suffix {
            if !x.is_float() {
                return Err(NumberLiteralParsingError::IntegerSuffixOnFloat(x));
            }
        }
        proof {
            assert forall|j: int| n1 + 1 <= j < n1 + 1 + n2 implies is_radix_digit(#[trigger] t@[j], 10) by {
                assert(t@.skip(n1 + 1 as int)[j - n1 - 1] == t@[j]);
            }
            lemma_scan_rational(t@, n1 as nat, has_dot, n2 as nat, c_pre as nat, c as nat);
        }
        let value = match decimal_to_rational(&numeric) {
            Ok(v) => v,
            Err(e) => return Err(e),
        };
        Ok(NumberLiteral { value, suffix })
    } else {
        proof {
            assert(c == n1);
            assert forall|j: int| 0 <= j < numeric@.len() implies is_radix_digit(
                #[trigger] numeric@[j],
                10,
            ) by {
                assert(numeric@[j] == t@[j]);
            }
        }
        let value = biguint_decimal(&numeric, 10);
        let is_float_suffix = match suffix {
            Some(x) => x.is_float(),
            None => false,
        };
        if is_float_suffix {
            let mut one: Vec<char> = Vec::new();
            one.push('1');
            proof {
                assert(one@ =~= nat_decimal(1));
            }
            Ok(NumberLiteral {
                value: NumberValue::Float { numer: value, denom: string_from_chars(&one) },
                suffix,
            })
        } else {
            Ok(NumberLiteral { value: NumberValue::Integer(value), suffix })
        }
    }
}

impl NumberLiteral {
    /// Parses the source text of a number literal.
    pub fn from_chars(source: &[char]) -> (r: Result<NumberLiteral, NumberLiteralParsingError>)
        ensures
            outcome_holds(r, spec_parse_number(source@)),
    {
        let n = source.len();
        if n == 0 {
            return Err(NumberLiteralParsingError::EmptyNumberLiteral);
        }
        if is_unicode_whitespace_exec(source[0]) || is_unicode_whitespace_exec(source[n - 1]) {
            return Err(NumberLiteralParsingError::InvalidNumber(string_from_chars(source)));
        }
        let t = match remove_separators(source) {
            Ok(t) => t,
            Err(e) => return Err(e),
        };
        let m = t.len();
        if m > 0 && (t[0] == '-' || t[0] == '+') {
            return Err(NumberLiteralParsingError::InvalidNumber(string_from_chars(&t)));
        }
        if m >= 2 && t[0] == '0' && (t[1] == 'x' || t[1] == 'b' || t[1] == 'o') {
            let rest = sub_chars(&t, 2, m);
            assert(rest@ =~= t@.skip(2));
            let radix: u32 = if t[1] == 'x' {
                16
            } else if t[1] == 'b' {
                2
            } else {
                8
            };
            parse_based_integer(&t, &rest, radix)
        } else {
            parse_decimal(&t)
        }
    }
}

impl core::str::FromStr for NumberLiteral {
    type Err = NumberLiteralParsingError;

    fn from_str(source: &str) -> (r: Result<NumberLiteral, NumberLiteralParsingError>)
        ensures
            outcome_holds(r, spec_parse_number(source@)),
    {
        NumberLiteral::from_chars(&chars_of(source))
    }
}

impl core::str::FromStr for NumberSuffix {
    type Err = NumberLiteralParsingError;

    fn from_str(text: &str) -> (r: Result<NumberSuffix, NumberLiteralParsingError>)
        ensures
            match NumberSuffix::spec_from_text(text@) {
                Some(x) => r == Ok::<NumberSuffix, NumberLiteralParsingError>(x),
                None => r matches Err(e) && e@ == ParseErrorModel::InvalidSuffix(text@),
            },
    {
        NumberSuffix::from_chars(&chars_of(text))
    }
}

} // verus!
