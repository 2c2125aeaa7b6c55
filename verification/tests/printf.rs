use on9log::float::FloatField;
use on9log::printf::{
    fill, float_fields, format_float_fields, has_printf_conversion, is_printable, prepare, rewrite,
    try_render_format, Slot, Value, MAX_RENDER_COUNT,
};
use on9log::Arg;

fn text(field: &FloatField) -> String {
    match field {
        FloatField::Printf { conversion, bits } => {
            let x = f64::from_bits(*bits);
            sprintf::vsprintf(conversion, &[&x]).unwrap()
        }
        other => panic!("not a printf field: {other:?}"),
    }
}

fn render(fmt: &str, args: &[Arg]) -> String {
    let floats: Vec<String> = float_fields(fmt, args).iter().map(text).collect();
    on9log::printf::render(fmt, args, &floats)
}

#[test]
fn has_printf_conversion_detects_active_conversions() {
    assert!(has_printf_conversion("n=%d"));
    assert!(has_printf_conversion("v=0x%04x s=%s"));
    assert!(has_printf_conversion("%llu %c %p %f %%trailer"));
    // length modifiers and mixed flags
    assert!(has_printf_conversion("%hhd %ld %lf"));
    assert!(has_printf_conversion("%*d %.*s"));
    // escaped percent is not a conversion
    assert!(!has_printf_conversion("load=50%%"));
    // bare trailing percent (no conversion char after) is not a conversion
    assert!(!has_printf_conversion("100%"));
    // `% d` (space flag + d) IS a real conversion, so this is true
    assert!(has_printf_conversion("100% done"));
    // `%` followed by a non-conversion letter is not a conversion
    assert!(!has_printf_conversion("foo %bar"));
}

#[test]
fn simple_int_and_string() {
    let s = render(
        "count=%d name=%s",
        &[Arg::U32(42), Arg::Str(Some(b"foo".to_vec()))],
    );
    assert_eq!(s, "count=42 name=foo");
}

#[test]
fn hex_and_padding() {
    let s = render("v=0x%04x", &[Arg::U32(255)]);
    assert_eq!(s, "v=0x00ff");
}

#[test]
fn precision_string() {
    // %.*s consumes a precision arg then the string.
    let s = render("s=%.*s", &[Arg::U32(3), Arg::Str(Some(b"hello".to_vec()))]);
    assert_eq!(s, "s=hel");
}

#[test]
fn width_star_string() {
    // %*s consumes a width arg then the string.
    let s = render("[%*s]", &[Arg::U32(10), Arg::Str(Some(b"hi".to_vec()))]);
    assert_eq!(s, "[        hi]");
}

#[test]
fn mixed_star_widths_and_precision_strings() {
    let s = render(
        "widths [%*s] [%-*s] [%.*s]",
        &[
            Arg::U32(10),
            Arg::Str(Some(b"right".to_vec())),
            Arg::U32((-8i32) as u32),
            Arg::Str(Some(b"left".to_vec())),
            Arg::U32(5),
            Arg::Str(Some(b"truncate-me".to_vec())),
        ],
    );
    assert_eq!(s, "widths [     right] [left    ] [trunc]");
}

#[test]
fn null_string() {
    let s = render("s=%s", &[Arg::Str(None)]);
    assert_eq!(s, "s=(null)");
}

#[test]
fn long_long_unsigned() {
    let s = render("n=%llu", &[Arg::U64(u64::MAX)]);
    assert_eq!(s, "n=18446744073709551615");
}

#[test]
fn signed_vs_unsigned_32bit() {
    // Same 32-bit pattern, interpreted by the conversion specifier.
    let s_d = render("%d", &[Arg::U32(0xffff_ffff)]);
    let s_u = render("%u", &[Arg::U32(0xffff_ffff)]);
    let s_x = render("%x", &[Arg::U32(0xffff_ffff)]);
    assert_eq!(s_d, "-1");
    assert_eq!(s_u, "4294967295");
    assert_eq!(s_x, "ffffffff");
}

#[test]
fn literal_percent() {
    let s = render("load=50%%", &[]);
    assert_eq!(s, "load=50%");
}

#[test]
fn short_and_char_length_modifiers() {
    assert_eq!(render("%hhd", &[Arg::U32(0xff)]), "-1");
    assert_eq!(render("%hhu", &[Arg::U32(0xff)]), "255");
    assert_eq!(render("%hd", &[Arg::U32(0xffff)]), "-1");
    assert_eq!(render("%hu", &[Arg::U32(0xffff)]), "65535");
}

#[test]
fn negative_star_width_with_minus_flag() {
    let s = render(
        "[%-*s]",
        &[Arg::U32((-5i32) as u32), Arg::Str(Some(b"x".to_vec()))],
    );
    assert_eq!(s, "[x    ]");
}

#[test]
fn dynamic_width_is_bounded() {
    let s = render("[%*d]", &[Arg::U32(0x8000_0000), Arg::U32(7)]);
    assert_eq!(s.len(), MAX_RENDER_COUNT + 2);
    assert!(s.starts_with("[7"));
    assert!(s.ends_with(']'));
}

#[test]
fn dynamic_precision_is_bounded() {
    let s = render(
        "[%.*f]",
        &[Arg::U64(i64::MAX as u64), Arg::U64(1.0f64.to_bits())],
    );
    assert_eq!(s.len(), MAX_RENDER_COUNT + 4);
    assert!(s.starts_with("[1."));
    assert!(s.ends_with(']'));
}

#[test]
fn pointer() {
    let s = render("p=%p", &[Arg::Ptr(0x4002_1234)]);
    assert!(!s.contains("<render error"), "got {s}");
    assert!(s.contains("40021234"), "got {s}");
}

#[test]
fn float_from_64bit_bits() {
    let pi = std::f64::consts::PI.to_bits();
    let s = render("pi=%.2f", &[Arg::U64(pi)]);
    assert_eq!(s, "pi=3.14");
}

#[test]
fn text_without_percent_is_unchanged() {
    assert_eq!(render("plain {braces} text", &[]), "plain {braces} text");
    // Arguments that no conversion takes are not handed over.
    assert_eq!(render("plain", &[Arg::U32(1)]), "plain");
    assert_eq!(render("", &[]), "");
}

#[test]
fn errors_keep_the_format_string() {
    assert_eq!(
        render("a=%d b=%d", &[Arg::U32(1)]),
        "<render error: Too few arguments passed> a=%d b=%d"
    );
    assert_eq!(
        render("%d", &[Arg::Str(None)]),
        "<render error: Incorrect type passed as an argument> %d"
    );
    assert_eq!(
        render("100%", &[]),
        "<render error: Error parsing the format string> 100%"
    );
    assert_eq!(
        render("%n", &[Arg::U32(1)]),
        "<render error: Error parsing the format string> %n"
    );
}

#[test]
fn huge_literal_counts_are_errors() {
    let fmt = "%99999999999d";
    assert_eq!(
        render(fmt, &[Arg::U32(1)]),
        "<render error: Error parsing the format string> %99999999999d"
    );
    let fmt = "%.4294967296f";
    assert_eq!(
        render(fmt, &[Arg::U64(0)]),
        "<render error: Error parsing the format string> %.4294967296f"
    );
    // A long number in the text is no count.
    assert_eq!(render("%%99999999999", &[]), "%99999999999");
    assert_eq!(render("99999999999 %d", &[Arg::U32(3)]), "99999999999 3");
}

#[test]
fn least_integer_is_printed() {
    let min = Arg::U64(i64::MIN as u64);
    assert_eq!(render("%lld", &[min.clone()]), "-9223372036854775808");
    assert_eq!(render("[%22lld]", &[min.clone()]), "[  -9223372036854775808]");
    assert_eq!(render("[%-22jd]", &[min.clone()]), "[-9223372036854775808  ]");
    assert_eq!(render("[%022lld]", &[min.clone()]), "[-009223372036854775808]");
    assert_eq!(render("%llx", &[min]), "8000000000000000");
}

#[test]
fn rewriting_resolves_stars_and_types() {
    let r = rewrite(
        "%-*.*hhd %p %s",
        &[
            Arg::U32(6),
            Arg::U32((-1i32) as u32),
            Arg::U32(0x1ff),
            Arg::Ptr(16),
            Arg::Str(Some(b"t".to_vec())),
        ],
    );
    assert_eq!(r.fmt, "%-6hhd %p %s");
    assert_eq!(
        r.values,
        vec![Value::I8(-1), Value::Ptr(16), Value::Str("t".to_string())]
    );
    assert!(is_printable(&r));
}

#[test]
fn float_conversions_ask_for_texts() {
    let args = [Arg::U32(1), Arg::U64(2.5f64.to_bits()), Arg::U32(8), Arg::U64(0.5f64.to_bits())];
    let fields = float_fields("%d %+.1f %*e", &args);
    assert_eq!(
        fields,
        vec![
            FloatField::Printf { conversion: "%+.1f".to_string(), bits: 2.5f64.to_bits() },
            FloatField::Printf { conversion: "%8e".to_string(), bits: 0.5f64.to_bits() },
        ]
    );
    let r = rewrite("%d %+.1f %*e", &args);
    assert_eq!(r.fmt, "%d %+.1f %8e");
    assert_eq!(
        r.values,
        vec![
            Value::I32(1),
            Value::Float(2.5f64.to_bits()),
            Value::Float(0.5f64.to_bits())
        ]
    );
    assert!(!is_printable(&r));
    let p = prepare(&r);
    assert_eq!(p.fmt, "%d %s %s");
    assert_eq!(
        p.slots,
        vec![
            Slot::Value(Value::I32(1)),
            Slot::Text(fields[0].clone()),
            Slot::Text(fields[1].clone())
        ]
    );
    let r = fill(&p, &["A".to_string(), "B".to_string()]);
    assert_eq!(r.fmt, "%d %s %s");
    assert_eq!(
        r.values,
        vec![Value::I32(1), Value::Str("A".to_string()), Value::Str("B".to_string())]
    );
    assert!(is_printable(&r));
    assert_eq!(
        render("%d %+.1f %*e", &args),
        "1 +2.5 5.000000e-01"
    );
}

#[test]
fn texts_must_match_the_fields() {
    let args = [Arg::U64(2.5f64.to_bits())];
    assert_eq!(format_float_fields("%f", &args).len(), 1);
    assert_eq!(try_render_format("%f", &args, &[]), None);
    assert_eq!(
        try_render_format("%f", &args, &["x".to_string()]),
        Some("x".to_string())
    );
}

#[test]
fn ill_formed_text_is_replaced() {
    let s = render("%s", &[Arg::Str(Some(vec![b'a', 0xff, b'b']))]);
    assert_eq!(s, "a\u{fffd}b");
}

#[test]
fn upper_case_f_is_no_marker_of_a_printf_string() {
    assert!(!has_printf_conversion("%F"));
    assert!(!has_printf_conversion("%5.1lF"));
    assert!(has_printf_conversion("%F %f"));
    // It stays a conversion of a floating-point value on the printf path.
    assert_eq!(render("%.1F", &[Arg::U64(2.5f64.to_bits())]), "2.5");
    // A string with braces and no other conversion goes to the other renderer.
    assert_eq!(
        try_render_format("{} %F", &[Arg::U32(7)], &[]),
        Some("7 %F".to_string())
    );
}

#[test]
fn stars_that_are_left_take_values() {
    let u = Arg::U32;
    // The first star is resolved to nothing, the second takes the values of the
    // conversions in their order.
    let args = [u(0), u(1), u(0), u(1), u(0x8000_0000), u(0xffff_ffff)];
    assert_eq!(
        render("%**d%**d%d%d", &args),
        "<render error: Too few arguments passed> %**d%**d%d%d"
    );
    assert_eq!(
        render("%**d", &[u(0), u(5)]),
        "<render error: Too few arguments passed> %**d"
    );
    // A percent sign with a width takes an argument and prints without it.
    assert_eq!(render("[%**d]%5%", &[u(0), u(4), u(7)]), "[   7]%");
    assert_eq!(render("[%**x]%5%", &[u(0), u(4), u(255)]), "[  ff]%");
    // A value that is no 32-bit integer is no width.
    assert_eq!(
        render("[%**d]%5%", &[u(0), u(0x8000_0000), u(7)]),
        "<render error: Incorrect type passed as an argument> [%**d]%5%"
    );
    // The least width counts as none.
    assert_eq!(
        render("%5%%d[%**d]%5%", &[u(3), u(0x8000_0000), u(0), u(9), u(8)]),
        "<render error: Too many arguments passed> %5%%d[%**d]%5%"
    );
    assert_eq!(
        render("%5%%d%d[%**d]", &[u(3), u(4), u(0x8000_0000), u(0), u(9)]),
        "%34[9]"
    );
}

#[test]
fn an_address_is_no_width() {
    let args = [Arg::U32(1), Arg::Ptr(2), Arg::U32(0), Arg::U32(3)];
    assert_eq!(
        render("%5% %p %**d", &args),
        "<render error: Incorrect type passed as an argument> %5% %p %**d"
    );
}

#[test]
fn shifted_floating_point_values_have_the_wrong_type() {
    let pi = Arg::U64(std::f64::consts::PI.to_bits());
    let args = [Arg::Str(Some(b"x".to_vec())), pi.clone()];
    assert!(float_fields("%5% %f", &args).is_empty());
    assert_eq!(
        render("%5% %f", &args),
        "<render error: Incorrect type passed as an argument> %5% %f"
    );
    assert_eq!(
        render("%5% %s %f", &[Arg::Str(None), pi.clone(), pi]),
        "<render error: Incorrect type passed as an argument> %5% %s %f"
    );
    // A value that no conversion takes is one too many.
    assert_eq!(
        render("%5%", &[Arg::U64(i64::MIN as u64)]),
        "<render error: Too many arguments passed> %5%"
    );
}
