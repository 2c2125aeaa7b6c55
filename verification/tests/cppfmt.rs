use on9log::cppfmt::{float_fields, looks_like_cpp, parse, parse_spec, Align, Count, Piece, Spec};
use on9log::float::FloatField;
use on9log::printf::format_float_fields;
use on9log::Arg;

fn text(field: &FloatField) -> String {
    match field {
        FloatField::Printf { conversion, bits } => {
            let x = f64::from_bits(*bits);
            sprintf::vsprintf(conversion, &[&x]).unwrap()
        }
        FloatField::Fixed { bits, precision } => {
            format!("{:.*}", *precision, f64::from_bits(*bits))
        }
        FloatField::LowerExp { bits, precision } => {
            format!("{:.*e}", *precision, f64::from_bits(*bits))
        }
        FloatField::UpperExp { bits, precision } => {
            format!("{:.*E}", *precision, f64::from_bits(*bits))
        }
        FloatField::Shortest { bits } => format!("{:?}", f64::from_bits(*bits)),
    }
}

fn render(fmt: &str, args: &[Arg]) -> String {
    let floats: Vec<String> = float_fields(fmt, args).iter().map(text).collect();
    on9log::cppfmt::render(fmt, args, &floats)
}

fn render_format(fmt: &str, args: &[Arg]) -> String {
    let floats: Vec<String> = format_float_fields(fmt, args).iter().map(text).collect();
    on9log::render_format(fmt, args, &floats)
}

fn s(b: &str) -> Arg {
    Arg::Str(Some(b.as_bytes().to_vec()))
}

fn f(x: f64) -> Arg {
    Arg::U64(x.to_bits())
}

#[test]
fn defaults_by_type() {
    assert_eq!(render("n={}", &[Arg::U32(42)]), "n=42");
    assert_eq!(
        render("n={}", &[Arg::U64(u64::MAX)]),
        "n=18446744073709551615"
    );
    assert_eq!(render("p={}", &[Arg::Ptr(0x4002_1234)]), "p=0x40021234");
    assert_eq!(render("x={}", &[s("hi")]), "x=hi");
    assert_eq!(render("x={}", &[Arg::Str(None)]), "x=(null)");
}

#[test]
fn d_and_s_explicit() {
    assert_eq!(render("{:d}", &[Arg::U32(255)]), "255");
    assert_eq!(render("{:s}", &[s("foo")]), "foo");
    assert_eq!(render("c={:c}", &[Arg::U32(65)]), "c=A");
    assert_eq!(render("{:c}", &[Arg::U32(0x1f600)]), "😀");
}

#[test]
fn hex_oct_bin_and_alt() {
    assert_eq!(render("{:x}", &[Arg::U32(255)]), "ff");
    assert_eq!(render("{:X}", &[Arg::U32(255)]), "FF");
    assert_eq!(render("{:o}", &[Arg::U32(8)]), "10");
    assert_eq!(render("{:b}", &[Arg::U32(5)]), "101");
    assert_eq!(render("{:B}", &[Arg::U32(5)]), "101");
    assert_eq!(render("{:#x}", &[Arg::U32(255)]), "0xff");
    assert_eq!(render("{:#o}", &[Arg::U32(8)]), "010");
    assert_eq!(render("{:#b}", &[Arg::U32(5)]), "0b101");
}

#[test]
fn pointer_explicit() {
    let r = render("at {:p}", &[Arg::Ptr(0x4002_1234)]);
    assert_eq!(r, "at 0x40021234");
}

#[test]
fn width_align_fill() {
    assert_eq!(render("[{:>10}]", &[Arg::U32(5)]), "[         5]");
    assert_eq!(render("[{:<10}]", &[s("hi")]), "[hi        ]");
    assert_eq!(render("[{:^10}]", &[Arg::U32(5)]), "[    5     ]");
    assert_eq!(render("[{:*>10}]", &[Arg::U32(5)]), "[*********5]");
    assert_eq!(render("[{:*<10}]", &[s("hi")]), "[hi********]");
}

#[test]
fn zero_pad_and_sign() {
    assert_eq!(render("{:08x}", &[Arg::U32(255)]), "000000ff");
    assert_eq!(render("{:#08x}", &[Arg::U32(255)]), "0x0000ff");
    assert_eq!(render("{:+d}", &[Arg::U32(5)]), "+5");
    assert_eq!(render("{: d}", &[Arg::U32(5)]), " 5");
    assert_eq!(render("{:-d}", &[Arg::U32(5)]), "5");
    // zero ignored when align present
    assert_eq!(render("[{:>08}]", &[Arg::U32(5)]), "[       5]");
}

#[test]
fn string_precision() {
    assert_eq!(render("{:.3s}", &[s("foobar")]), "foo");
    assert_eq!(render("{:.0s}", &[s("foobar")]), "");
    assert_eq!(render("{:.100s}", &[s("hi")]), "hi");
}

#[test]
fn integer_precision() {
    // min-digits zero pad
    assert_eq!(render("{:.4d}", &[Arg::U32(5)]), "0005");
    assert_eq!(render("{:.4x}", &[Arg::U32(0xff)]), "00ff");
    // prefix goes before precision zeros
    assert_eq!(render("{:#.4x}", &[Arg::U32(0xff)]), "0x00ff");
    assert_eq!(render("{:+.4d}", &[Arg::U32(5)]), "+0005");
    // precision 0 with value 0 -> empty
    assert_eq!(render("[{:.0}]", &[Arg::U32(0)]), "[]");
    // precision 0 with non-zero -> digits unchanged
    assert_eq!(render("[{:.0}]", &[Arg::U32(7)]), "[7]");
    // `0` flag ignored when precision is set for integers
    assert_eq!(render("[{:08.4d}]", &[Arg::U32(5)]), "[    0005]");
}

#[test]
fn floats() {
    let pi = std::f64::consts::PI.to_bits();
    assert_eq!(render("{:.2f}", &[Arg::U64(pi)]), "3.14");
    assert_eq!(render("{:.2F}", &[Arg::U64(pi)]), "3.14");
    // C++ `{:e}` default precision is 6. Rust's LowerExp uses a 1-digit
    // exponent (`e0`) instead of C++'s `e+00`; that's a known difference.
    assert_eq!(render("{:e}", &[f(1.0)]), "1.000000e0");
    assert_eq!(render("{:E}", &[f(1.0)]), "1.000000E0");
    assert_eq!(render("{:.2e}", &[f(1.0)]), "1.00e0");
    // default precision for f is 6
    assert_eq!(render("{:f}", &[f(1.0)]), "1.000000");
    // negative
    assert_eq!(render("{:.1f}", &[f(-3.5)]), "-3.5");
    // `+`/` ` sign flags on non-negative floats
    assert_eq!(render("{:+.1f}", &[f(3.5)]), "+3.5");
    assert_eq!(render("{: .1f}", &[f(3.5)]), " 3.5");
    assert_eq!(render("{:+.1f}", &[f(-3.5)]), "-3.5");
    // inf / nan casing
    assert_eq!(render("{:f}", &[f(f64::INFINITY)]), "inf");
    assert_eq!(render("{:F}", &[f(f64::INFINITY)]), "INF");
    assert_eq!(render("{:f}", &[f(f64::NAN)]), "nan");
    assert_eq!(render("{:F}", &[f(f64::NAN)]), "NAN");
}

#[test]
fn dynamic_width_auto() {
    // value=arg0, width=arg1
    assert_eq!(render("[{:{}}]", &[Arg::U32(42), Arg::U32(5)]), "[   42]");
    assert_eq!(render("[{:<{}}]", &[s("hi"), Arg::U32(5)]), "[hi   ]");
}

#[test]
fn dynamic_precision_auto() {
    // value=arg0, precision=arg1. The float case needs an explicit `:f`
    // type char — plain `{}` on a U64 renders the raw bits as an integer
    // (the wire carries no int/float distinction; see known limitations).
    assert_eq!(
        render("{:.{}f}", &[f(std::f64::consts::PI), Arg::U32(2)]),
        "3.14"
    );
    assert_eq!(render("{:.{}s}", &[s("foobar"), Arg::U32(3)]), "foo");
    // value=arg0 (float via :f), width=arg1, precision=arg2
    assert_eq!(
        render(
            "[{:{}.{}f}]",
            &[f(std::f64::consts::PI), Arg::U32(8), Arg::U32(2)]
        ),
        "[    3.14]"
    );
    // value=arg0 (int), width=arg1, precision=arg2 (min digits)
    assert_eq!(
        render("[{:{}.{}}]", &[Arg::U32(42), Arg::U32(8), Arg::U32(4)]),
        "[    0042]"
    );
}

#[test]
fn dynamic_width_precision_explicit() {
    assert_eq!(render("{0:{1}}", &[Arg::U32(42), Arg::U32(5)]), "   42");
    assert_eq!(
        render("{0:.{1}f}", &[f(std::f64::consts::PI), Arg::U32(2)]),
        "3.14"
    );
    // reuse: value and width both reference arg 0
    assert_eq!(render("{0:{0}}", &[Arg::U32(5)]), "    5");
}

#[test]
fn dynamic_count_negative_is_error() {
    let r = render("[{:{}}]", &[Arg::U32(1), Arg::U32(0xffff_ffff)]);
    assert!(r.starts_with("<render error"), "got {r}");
}

#[test]
fn dynamic_count_string_is_error() {
    let r = render("[{:{}}]", &[Arg::U32(1), s("x")]);
    assert!(r.starts_with("<render error"), "got {r}");
}

#[test]
fn dynamic_count_missing_is_error() {
    let r = render("[{:{}}]", &[Arg::U32(1)]);
    assert!(r.starts_with("<render error"), "got {r}");
}

#[test]
fn positional_and_auto() {
    assert_eq!(render("{0}-{1}-{0}", &[Arg::U32(7), Arg::U32(8)]), "7-8-7");
    assert_eq!(render("{}-{}", &[Arg::U32(7), Arg::U32(8)]), "7-8");
}

#[test]
fn brace_escapes() {
    assert_eq!(render("{{}} and {}", &[Arg::U32(1)]), "{} and 1");
    assert_eq!(render("{{literal}}", &[]), "{literal}");
}

#[test]
fn mixing_auto_and_explicit_is_error() {
    let r = render("{} {0}", &[Arg::U32(1), Arg::U32(2)]);
    assert!(r.starts_with("<render error"), "got {r}");
    // mixed via nested ref
    let r = render("{:{0}}", &[Arg::U32(1), Arg::U32(5)]);
    assert!(r.starts_with("<render error"), "got {r}");
}

#[test]
fn missing_arg_is_error() {
    let r = render("{} {}", &[Arg::U32(1)]);
    assert!(r.starts_with("<render error"), "got {r}");
}

#[test]
fn unsupported_types_are_errors() {
    // Excluded: L (locale), a/A (hex float)
    let r = render("{:Ld}", &[Arg::U32(1)]);
    assert!(r.starts_with("<render error"), "got {r}");
    let r = render("{:a}", &[Arg::U64(0)]);
    assert!(r.starts_with("<render error"), "got {r}");
    let r = render("{:A}", &[Arg::U64(0)]);
    assert!(r.starts_with("<render error"), "got {r}");
}

#[test]
fn type_mismatch_is_error() {
    let r = render("{:d}", &[s("foo")]);
    assert!(r.starts_with("<render error"), "got {r}");
    let r = render("{:s}", &[Arg::U32(1)]);
    assert!(r.starts_with("<render error"), "got {r}");
    let r = render("{:f}", &[Arg::U32(1)]);
    assert!(r.starts_with("<render error"), "got {r}");
}

#[test]
fn detection() {
    assert!(looks_like_cpp("count={:d}"));
    assert!(looks_like_cpp("n={}"));
    assert!(looks_like_cpp("{0:>10.2f}"));
    assert!(!looks_like_cpp("count=%d"));
    // literal braces that are not field-ish stay printf
    assert!(!looks_like_cpp("json {key=%d}"));
    // escaped braces are not fields
    assert!(!looks_like_cpp("{{not a field}}"));
}

#[test]
fn complex_combined() {
    let r = render(
        "[{:>8.2f}] {:s}={:#06x}",
        &[f(std::f64::consts::PI), s("id"), Arg::U32(0xab)],
    );
    assert_eq!(r, "[    3.14] id=0x00ab");
}


#[test]
fn dispatcher_prefers_printf_when_percent_conversion_present() {
    // Mixed string: has both {} and %d. Must route to printf so `status`
    // is consumed by %d and {} stays literal — NOT to cppfmt where {}
    // would steal status.
    let r = render_format("payload={} status=%d", &[Arg::U32(7)]);
    assert!(r.contains("status=7"), "got {r}");
    assert!(r.contains("payload={}"), "got {r}");
    assert!(!r.starts_with("<render error"), "got {r}");
}

#[test]
fn dispatcher_prefers_printf_for_dynamic_width_precision() {
    let r = render_format("payload={} value=%*d", &[Arg::U32(5), Arg::U32(7)]);
    assert!(r.contains("payload={}"), "got {r}");
    assert!(r.contains("value=    7"), "got {r}");
    assert!(!r.starts_with("<render error"), "got {r}");

    let r = render_format("payload={} text=%.*s", &[Arg::U32(3), s("foobar")]);
    assert!(r.contains("payload={}"), "got {r}");
    assert!(r.contains("text=foo"), "got {r}");
    assert!(!r.starts_with("<render error"), "got {r}");
}

#[test]
fn dispatcher_routes_pure_cpp() {
    assert_eq!(render_format("n={:d}", &[Arg::U32(7)]), "n=7");
    assert_eq!(render_format("n={}", &[Arg::U32(7)]), "n=7");
}

#[test]
fn dispatcher_routes_pure_printf() {
    assert_eq!(render_format("n=%d", &[Arg::U32(7)]), "n=7");
}

#[test]
fn dispatcher_treats_literal_percent_in_cpp_as_cpp() {
    // A literal `%` that is NOT followed by a conversion-looking sequence
    // (here `% ` then `|`) leaves has_printf_conversion false, so the C++
    // field routes to cppfmt. NB: a `%` directly followed by a letter such
    // as `%d` or even `% d` (space flag + d) IS a printf conversion and
    // wins the dispatch — that is intentional and matches the firmware's
    // format(printf) annotation.
    let r = render_format("progress: 100% | val={:d}", &[Arg::U32(7)]);
    assert_eq!(r, "progress: 100% | val=7");
}

#[test]
fn dispatcher_single_percent_with_field_routes_to_cpp() {
    // Single `%` (no `%%` printf escape needed in C++ strings) followed by
    // a space and a non-conversion char -> no printf conversion -> cppfmt.
    let r = render_format("load=50% val={}", &[Arg::U32(7)]);
    assert_eq!(r, "load=50% val=7");
}

#[test]
fn render_errors_are_exact() {
    let one = [Arg::U32(1)];
    assert_eq!(render("a}", &one), "<render error: unmatched '}'> a}");
    assert_eq!(render("{", &one), "<render error: unterminated field> {");
    assert_eq!(render("{:", &one), "<render error: unterminated field> {:");
    assert_eq!(
        render("{x}", &one),
        "<render error: expected ':' or '}' in field> {x}"
    );
    assert_eq!(
        render("{99999999999999999999999}", &one),
        "<render error: bad arg id> {99999999999999999999999}"
    );
    assert_eq!(
        render("{:{99999999999999999999999}}", &one),
        "<render error: bad nested arg id> {:{99999999999999999999999}}"
    );
    assert_eq!(
        render("{:99999999999999999999999}", &one),
        "<render error: bad width/precision> {:99999999999999999999999}"
    );
    assert_eq!(
        render("{:{x}}", &one),
        "<render error: unterminated nested width/precision ref> {:{x}}"
    );
    assert_eq!(
        render("{:.}", &one),
        "<render error: precision without digits> {:.}"
    );
    assert_eq!(render("{:}<5}", &one), "<render error: unmatched '}'> {:}<5}");
    assert_eq!(
        render("{:{<5}}", &one),
        "<render error: invalid fill character> {:{<5}}"
    );
    assert_eq!(
        render("{:q}", &one),
        "<render error: unsupported type 'q'> {:q}"
    );
    assert_eq!(
        render("{:dd}", &one),
        "<render error: invalid type 'dd'> {:dd}"
    );
    assert_eq!(
        render("{:é}", &one),
        "<render error: invalid type 'é'> {:é}"
    );
    assert_eq!(
        render("{} {0}", &one),
        "<render error: mixed auto and explicit args> {} {0}"
    );
    assert_eq!(render("{1}", &one), "<render error: missing arg 1> {1}");
    assert_eq!(
        render("{:{}}", &one),
        "<render error: missing width/precision arg 1> {:{}}"
    );
    assert_eq!(
        render("{:{}}", &[Arg::U32(1), s("x")]),
        "<render error: string used as width/precision> {:{}}"
    );
    assert_eq!(
        render("{:{}}", &[Arg::U32(1), Arg::U64(u64::MAX)]),
        "<render error: negative dynamic width/precision> {:{}}"
    );
    assert_eq!(
        render("{:d}", &[s("x")]),
        "<render error: cannot format string as Some('d')> {:d}"
    );
    assert_eq!(
        render("{:s}", &one),
        "<render error: cannot format integer as string> {:s}"
    );
    assert_eq!(
        render("{:f}", &one),
        "<render error: cannot format 32-bit integer as float> {:f}"
    );
    assert_eq!(
        render("{:f}", &[Arg::Ptr(1)]),
        "<render error: unsupported type 'f'> {:f}"
    );
}

#[test]
fn specs_are_parsed() {
    let chars: Vec<char> = "*^+#012.{3}x".chars().collect();
    assert_eq!(
        parse_spec(&chars),
        Ok(Spec {
            fill: Some('*'),
            align: Some(Align::Center),
            sign: Some('+'),
            alt: true,
            zero: true,
            width: Count::Literal(12),
            precision: Count::Explicit(3),
            type_char: Some('x'),
        })
    );
    let pieces = parse("a{{{1}").unwrap();
    assert_eq!(pieces.len(), 3);
    assert_eq!(pieces[0], Piece::Literal('a'));
    assert_eq!(pieces[1], Piece::Literal('{'));
    match pieces[2] {
        Piece::Field(field) => assert_eq!(field.arg_id, Some(1)),
        _ => panic!("expected a field"),
    }
}

#[test]
fn escaped_text_comes_back() {
    let text = "a {b} }{ {} %d";
    let escaped = text.replace('{', "{{").replace('}', "}}");
    assert_eq!(render(&escaped, &[Arg::U32(1)]), text);
}

#[test]
fn fields_are_at_least_as_wide_as_asked() {
    for fmt in ["{:12}", "{:<12}", "{:^12}", "{:012}", "{:#012x}"] {
        assert_eq!(render(fmt, &[Arg::U32(77)]).chars().count(), 12);
    }
    assert_eq!(render("{:^6}", &[s("ab")]), "  ab  ");
    assert_eq!(render("{:^7}", &[s("ab")]), "  ab   ");
    assert_eq!(render("{:-^7}", &[s("ab")]), "--ab---");
}

#[test]
fn float_fields_follow_the_type() {
    let bits = 1.5f64.to_bits();
    let neg = (-1.5f64).to_bits();
    let args = [Arg::U64(neg)];
    assert_eq!(
        float_fields("{0:f} {0:.1F} {0:e} {0:.3E} {0:g} {0:d}", &args),
        vec![
            FloatField::Fixed { bits, precision: 6 },
            FloatField::Fixed { bits, precision: 1 },
            FloatField::LowerExp { bits, precision: 6 },
            FloatField::UpperExp { bits, precision: 3 },
            FloatField::Shortest { bits },
        ]
    );
    // What stands behind an error is not asked for.
    assert_eq!(float_fields("{0:s} {0:f}", &args), vec![]);
    assert_eq!(render("{:g}", &args), "-1.5");
    assert_eq!(render("{:G}", &[f(1e300)]), "1E300");
    assert_eq!(render("{:010.2f}", &args), "-000001.50");
    assert_eq!(render("{:f}", &[f(-f64::NAN)]), "nan");
    assert_eq!(render("{:f}", &[f(f64::NEG_INFINITY)]), "-inf");
    assert_eq!(render("{:f}", &[f(-0.0)]), "-0.000000");
}

#[test]
fn code_points_without_a_character_are_replaced() {
    assert_eq!(render("{:c}", &[Arg::U32(0xd800)]), "\u{fffd}");
    assert_eq!(render("{:c}", &[Arg::U32(0x11_0000)]), "\u{fffd}");
}

#[test]
fn binary_prefixes() {
    assert_eq!(render("{:#B}", &[Arg::U32(5)]), "0B101");
    assert_eq!(render("{:#X}", &[Arg::U32(0xab)]), "0XAB");
}

#[test]
fn detector_and_parser_agree() {
    for fmt in ["", "plain", "{{}}", "{{{}}}", "a {} b", "{0:>{1}}", "}} {{ {:x}", "{{0}}"] {
        let pieces = parse(fmt).unwrap();
        let fields = pieces.iter().any(|p| matches!(p, Piece::Field(_)));
        assert_eq!(looks_like_cpp(fmt), fields, "{fmt}");
    }
    // What cannot be parsed may look like a field all the same.
    assert!(looks_like_cpp("{:y}"));
    assert!(parse("{:y}").is_err());
}
