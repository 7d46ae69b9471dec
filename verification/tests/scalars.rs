use json_pretty::decimal::push_decimal;
use json_pretty::Json;

fn decimal_text(x: i32) -> String {
    let mut out = String::new();
    push_decimal(x, &mut out);
    out
}

#[test]
fn null_is_the_quoted_word() {
    assert_eq!(Json::Null.to_string(), "\"Null\"");
    assert_eq!(Json::Null.to_string().len(), 6);
}

#[test]
fn null_renders_like_the_text_null() {
    assert_eq!(
        Json::Null.to_string(),
        Json::Str("Null".to_string()).to_string()
    );
}

#[test]
fn booleans_are_quoted_words() {
    assert_eq!(Json::Bool(true).to_string(), "\"true\"");
    assert_eq!(Json::Bool(false).to_string(), "\"false\"");
}

#[test]
fn numbers_are_not_quoted() {
    assert_eq!(Json::Number(1).to_string(), "1");
    assert_eq!(Json::Number(0).to_string(), "0");
    assert_eq!(Json::Number(-1).to_string(), "-1");
    assert_eq!(Json::Number(42).to_string(), "42");
    assert!(!Json::Number(-2048).to_string().contains('"'));
}

#[test]
fn numbers_at_the_ends_of_the_range() {
    assert_eq!(Json::Number(i32::MAX).to_string(), "2147483647");
    assert_eq!(Json::Number(i32::MIN).to_string(), "-2147483648");
}

#[test]
fn decimal_notation_has_no_leading_zeros() {
    assert_eq!(decimal_text(0), "0");
    assert_eq!(decimal_text(7), "7");
    assert_eq!(decimal_text(10), "10");
    assert_eq!(decimal_text(100), "100");
    assert_eq!(decimal_text(1005), "1005");
    assert_eq!(decimal_text(-10), "-10");
    assert_eq!(decimal_text(-907), "-907");
    assert_eq!(decimal_text(1_000_000_000), "1000000000");
}

#[test]
fn decimal_notation_agrees_with_the_standard_library() {
    let mut samples: Vec<i32> = vec![i32::MIN, i32::MIN + 1, i32::MAX, i32::MAX - 1];
    for x in -1100..1100 {
        samples.push(x);
    }
    let mut x: i32 = 1;
    for _ in 0..30 {
        samples.push(x);
        samples.push(-x);
        samples.push(x - 1);
        samples.push(x + 1);
        x = x.wrapping_mul(2);
    }
    let mut p: i32 = 1;
    for _ in 0..9 {
        p *= 10;
        samples.push(p);
        samples.push(p - 1);
        samples.push(-p);
        samples.push(1 - p);
    }
    for x in samples {
        assert_eq!(decimal_text(x), x.to_string());
    }
}

#[test]
fn decimal_is_appended() {
    let mut out = String::from("n=");
    push_decimal(-35, &mut out);
    push_decimal(0, &mut out);
    assert_eq!(out, "n=-350");
}

#[test]
fn text_is_quoted() {
    assert_eq!(Json::Str("foo".to_string()).to_string(), "\"foo\"");
    assert_eq!(Json::Str(String::new()).to_string(), "\"\"");
}

#[test]
fn text_is_not_escaped() {
    assert_eq!(
        Json::Str("say \"hi\"".to_string()).to_string(),
        "\"say \"hi\"\""
    );
    assert_eq!(Json::Str("a\\b".to_string()).to_string(), "\"a\\b\"");
    assert_eq!(
        Json::Str("line\nbreak\ttab".to_string()).to_string(),
        "\"line\nbreak\ttab\""
    );
}

#[test]
fn text_beyond_ascii_is_kept() {
    assert_eq!(
        Json::Str("gr\u{fc}\u{df}e \u{4e16}\u{754c} \u{1f600}".to_string()).to_string(),
        "\"gr\u{fc}\u{df}e \u{4e16}\u{754c} \u{1f600}\""
    );
}

#[test]
fn scalars_need_no_margin_at_any_level() {
    let mut out = String::new();
    Json::Number(5).pretty(usize::MAX, &mut out);
    Json::Null.pretty(usize::MAX, &mut out);
    Json::Bool(true).pretty(usize::MAX - 1, &mut out);
    Json::Str("s".to_string()).pretty(usize::MAX / 2, &mut out);
    assert_eq!(out, "5\"Null\"\"true\"\"s\"");
}
