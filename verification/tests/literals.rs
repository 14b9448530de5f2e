use lotus::literals::{NumberLiteral, NumberLiteralParsingError, NumberSuffix, NumberValue};

fn int_lit(s: &str, suffix: Option<NumberSuffix>) -> NumberLiteral {
    NumberLiteral { value: NumberValue::Integer(s.to_string()), suffix }
}

fn float_lit(n: &str, d: &str, suffix: Option<NumberSuffix>) -> NumberLiteral {
    NumberLiteral { value: NumberValue::Float { numer: n.to_string(), denom: d.to_string() }, suffix }
}

#[test]
fn decimal_integer() {
    assert_eq!("42".parse::<NumberLiteral>(), Ok(int_lit("42", None)));
    assert_eq!("0".parse::<NumberLiteral>(), Ok(int_lit("0", None)));
    assert_eq!("007".parse::<NumberLiteral>(), Ok(int_lit("7", None)));
}

#[test]
fn separators_are_removed() {
    assert_eq!("1_000_000".parse::<NumberLiteral>(), Ok(int_lit("1000000", None)));
}

#[test]
fn bad_separators() {
    for s in ["_1", "1_", "1__0"] {
        assert_eq!(
            s.parse::<NumberLiteral>(),
            Err(NumberLiteralParsingError::InvalidSeparator(s.to_string()))
        );
    }
}

#[test]
fn based_integers() {
    assert_eq!("0x1F".parse::<NumberLiteral>(), Ok(int_lit("31", None)));
    assert_eq!("0b101".parse::<NumberLiteral>(), Ok(int_lit("5", None)));
    assert_eq!("0o17".parse::<NumberLiteral>(), Ok(int_lit("15", None)));
    assert_eq!("0xffu8".parse::<NumberLiteral>(), Ok(int_lit("255", Some(NumberSuffix::U8))));
    assert_eq!(
        "0xFFFFFFFFFFFFFFFFFFFF".parse::<NumberLiteral>(),
        Ok(int_lit("1208925819614629174706175", None))
    );
}

#[test]
fn based_integer_errors() {
    assert_eq!(
        "0x".parse::<NumberLiteral>(),
        Err(NumberLiteralParsingError::InvalidDigit { literal: "0x".to_string(), radix: 16 })
    );
    assert_eq!(
        "0b12".parse::<NumberLiteral>(),
        Err(NumberLiteralParsingError::InvalidDigit { literal: "0b12".to_string(), radix: 2 })
    );
    assert_eq!(
        "0x1f32".parse::<NumberLiteral>(),
        Ok(int_lit("7986", None))
    );
    assert_eq!(
        "0b1f32".parse::<NumberLiteral>(),
        Err(NumberLiteralParsingError::InvalidSuffix("f32".to_string()))
    );
}

#[test]
fn fractions_are_exact() {
    assert_eq!("1.5".parse::<NumberLiteral>(), Ok(float_lit("3", "2", None)));
    assert_eq!("0.25f32".parse::<NumberLiteral>(), Ok(float_lit("1", "4", Some(NumberSuffix::F32))));
    assert_eq!("2e3".parse::<NumberLiteral>(), Ok(float_lit("2000", "1", None)));
    assert_eq!("25e-1".parse::<NumberLiteral>(), Ok(float_lit("5", "2", None)));
    assert_eq!("1.0".parse::<NumberLiteral>(), Ok(float_lit("1", "1", None)));
}

#[test]
fn float_suffix_on_integer() {
    assert_eq!("3f64".parse::<NumberLiteral>(), Ok(float_lit("3", "1", Some(NumberSuffix::F64))));
}

#[test]
fn integer_suffix_on_float() {
    assert_eq!(
        "1.5u8".parse::<NumberLiteral>(),
        Err(NumberLiteralParsingError::IntegerSuffixOnFloat(NumberSuffix::U8))
    );
}

#[test]
fn decimal_errors() {
    assert_eq!("".parse::<NumberLiteral>(), Err(NumberLiteralParsingError::EmptyNumberLiteral));
    assert_eq!(
        " 1".parse::<NumberLiteral>(),
        Err(NumberLiteralParsingError::InvalidNumber(" 1".to_string()))
    );
    assert_eq!(
        "-1".parse::<NumberLiteral>(),
        Err(NumberLiteralParsingError::InvalidNumber("-1".to_string()))
    );
    assert_eq!(
        "1.".parse::<NumberLiteral>(),
        Err(NumberLiteralParsingError::InvalidNumber("1.".to_string()))
    );
    assert_eq!(
        "1e".parse::<NumberLiteral>(),
        Err(NumberLiteralParsingError::InvalidExponent("1e".to_string()))
    );
    assert_eq!(
        "12abc".parse::<NumberLiteral>(),
        Err(NumberLiteralParsingError::InvalidSuffix("abc".to_string()))
    );
    assert_eq!(
        "1.5.2".parse::<NumberLiteral>(),
        Err(NumberLiteralParsingError::InvalidNumber("1.5.2".to_string()))
    );
}

#[test]
fn suffixes() {
    assert_eq!("u16".parse::<NumberSuffix>(), Ok(NumberSuffix::U16));
    assert_eq!(
        "u7".parse::<NumberSuffix>(),
        Err(NumberLiteralParsingError::InvalidSuffix("u7".to_string()))
    );
    for s in [
        NumberSuffix::I8,
        NumberSuffix::I16,
        NumberSuffix::I32,
        NumberSuffix::I64,
        NumberSuffix::U8,
        NumberSuffix::U16,
        NumberSuffix::U32,
        NumberSuffix::U64,
        NumberSuffix::F32,
        NumberSuffix::F64,
    ] {
        assert_eq!(s.as_str().parse::<NumberSuffix>(), Ok(s));
    }
    assert!(NumberSuffix::F32.is_float());
    assert!(!NumberSuffix::I64.is_float());
}

#[test]
fn printed_literals() {
    assert_eq!("1.5f64".parse::<NumberLiteral>().unwrap().to_text(), "3/2f64");
    assert_eq!("2e3".parse::<NumberLiteral>().unwrap().to_text(), "2000");
    assert_eq!("0x10u32".parse::<NumberLiteral>().unwrap().to_text(), "16u32");
}
