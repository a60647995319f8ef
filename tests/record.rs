use approx::AbsDiffEq;
use fc_record::number::{check_float_literal, parse_index};
use fc_record::text::{chars_of, is_space_char, token_spans};
use fc_record::{parse_line, Fc, ParseError};

fn read(line: &str) -> Result<Fc<f64>, ParseError> {
    let f = parse_line(line)?;
    let w = f.4.parse::<f64>().map_err(|_| ParseError)?;
    Ok(Fc(f.0, f.1, f.2, f.3, w))
}

fn close(eps: f64) -> impl Fn(&f64, &f64) -> bool {
    move |a: &f64, b: &f64| a.abs_diff_eq(b, eps)
}

#[test]
fn parses_plain_line() {
    assert_eq!(parse_line("1 2 3 4 0.5"), Ok(Fc(1, 2, 3, 4, "0.5")));
    assert_eq!(read("1 2 3 4 0.5"), Ok(Fc(1, 2, 3, 4, 0.5)));
}

#[test]
fn round_trip_of_formatted_values() {
    let cases: Vec<(usize, usize, usize, usize, f64)> = vec![
        (0, 0, 0, 0, 0.0),
        (1, 2, 3, 4, 0.5),
        (10, 200, 3000, 40000, -1.25e-7),
        (usize::MAX, 7, 0, 99, 123456789.0),
        (5, 6, 7, 8, f64::MAX),
        (5, 6, 7, 8, f64::MIN_POSITIVE),
        (5, 6, 7, 8, -0.0),
        (1, 1, 1, 1, 1.0 / 3.0),
    ];
    for (a, b, c, d, f) in cases {
        let line = format!("{} {} {} {} {}", a, b, c, d, f);
        let r = read(&line).unwrap();
        assert_eq!(r, Fc(a, b, c, d, f));
        assert_eq!(r.4.to_bits(), f.to_bits());
    }
}

#[test]
fn too_few_or_too_many_tokens() {
    assert_eq!(parse_line("1 2 3"), Err(ParseError));
    assert_eq!(parse_line("1 2 3 4 5 6"), Err(ParseError));
    assert_eq!(parse_line(""), Err(ParseError));
    assert_eq!(parse_line("   \t "), Err(ParseError));
    assert_eq!(parse_line("1 2 3 4"), Err(ParseError));
}

#[test]
fn non_numeric_tokens() {
    assert_eq!(parse_line("a 2 3 4 0.5"), Err(ParseError));
    assert_eq!(parse_line("1 2 3 4 x"), Err(ParseError));
    assert_eq!(parse_line("1 2 3 4x 0.5"), Err(ParseError));
    assert_eq!(parse_line("1 2 3.0 4 0.5"), Err(ParseError));
}

#[test]
fn negative_index() {
    assert_eq!(parse_line("-1 2 3 4 0.5"), Err(ParseError));
    assert_eq!(parse_line("1 2 3 -0 0.5"), Err(ParseError));
}

#[test]
fn index_range_and_sign() {
    let max = format!("{} 0 0 0 1", usize::MAX);
    assert_eq!(parse_line(&max), Ok(Fc(usize::MAX, 0, 0, 0, "1")));
    let over = format!("{}0 0 0 0 1", usize::MAX);
    assert_eq!(parse_line(&over), Err(ParseError));
    assert_eq!(parse_line("+7 007 0 0 1"), Ok(Fc(7, 7, 0, 0, "1")));
    assert_eq!(parse_line("+ 1 2 3 1"), Err(ParseError));
    assert_eq!(parse_line("++1 1 2 3 1"), Err(ParseError));
}

#[test]
fn parse_index_agrees_with_std() {
    let tokens = [
        "0", "42", "+42", "-42", "", "+", "4a", "18446744073709551615", "18446744073709551616",
        "99999999999999999999999", "0000000000000000000000012",
    ];
    for t in tokens {
        let cs: Vec<char> = t.chars().collect();
        assert_eq!(parse_index(&cs), t.parse::<usize>().ok(), "token {:?}", t);
    }
}

#[test]
fn float_literal_agrees_with_std() {
    let tokens = [
        "0.5", "1", "1.", ".5", "-.5", "+3", "1e5", "1E-3", "2.5e+10", "inf", "-inf", "+INF",
        "Infinity", "-infinity", "NaN", "nan", "-nan", "1e", ".", "e5", "1.2.3", "in", "infin",
        "", "+", "-", "1e+", "0x10", "1_0", "nana", "1e5.0", "5.e3", ".e3",
    ];
    for t in tokens {
        let cs: Vec<char> = t.chars().collect();
        assert_eq!(check_float_literal(&cs), t.parse::<f64>().is_ok(), "token {:?}", t);
    }
}

#[test]
fn special_weights() {
    assert!(read("1 2 3 4 inf").unwrap().4.is_infinite());
    assert!(read("1 2 3 4 NaN").unwrap().4.is_nan());
    assert_eq!(read("1 2 3 4 1e-3"), Ok(Fc(1, 2, 3, 4, 0.001)));
}

#[test]
fn whitespace_between_tokens() {
    assert_eq!(parse_line("1  2\t3 4 0.5"), parse_line("1 2 3 4 0.5"));
    assert_eq!(read("1  2\t3 4 0.5"), Ok(Fc(1, 2, 3, 4, 0.5)));
    assert_eq!(parse_line("  1 2 3 4 0.5\n"), Ok(Fc(1, 2, 3, 4, "0.5")));
    assert_eq!(parse_line("1\u{3000}2\u{a0}3\u{2003}4\r\n0.5"), Ok(Fc(1, 2, 3, 4, "0.5")));
}

#[test]
fn approximate_equality_boundary() {
    let a = Fc(1, 2, 3, 4, 1.0);
    let near = Fc(1, 2, 3, 4, 1.0 + 5e-13);
    let far = Fc(1, 2, 3, 4, 1.0 + 5e-12);
    assert!(a.approx_eq_by(&near, close(1e-12)));
    assert!(near.approx_eq_by(&a, close(1e-12)));
    assert!(!a.approx_eq_by(&far, close(1e-12)));
    assert!(!far.approx_eq_by(&a, close(1e-12)));
}

#[test]
fn differing_index_is_never_close() {
    let a = Fc(1, 2, 3, 4, 1.0);
    let others = [
        Fc(9, 2, 3, 4, 1.0),
        Fc(1, 9, 3, 4, 1.0),
        Fc(1, 2, 9, 4, 1.0),
        Fc(1, 2, 3, 5, 1.0),
    ];
    for b in others {
        assert!(!a.same_indices(&b));
        assert!(!a.approx_eq_by(&b, close(1.0)));
        assert!(!a.approx_eq_by(&b, |_: &f64, _: &f64| true));
    }
    assert!(a.same_indices(&Fc(1, 2, 3, 4, 7.0)));
}

#[test]
fn nan_is_not_close_to_itself() {
    let a = Fc(1, 2, 3, 4, f64::NAN);
    assert!(!a.approx_eq_by(&a, close(1e-12)));
    assert!(!a.approx_eq_by(&a, close(f64::INFINITY)));
}

#[test]
fn exact_equality_is_structural() {
    assert_eq!(Fc(1, 2, 3, 4, 0.5), Fc(1, 2, 3, 4, 0.5));
    assert_ne!(Fc(1, 2, 3, 4, 0.5), Fc(1, 2, 3, 4, 0.5 + 1e-15));
}

#[test]
fn error_message() {
    assert_eq!(ParseError.message(), "failed to parse record from string");
}

#[test]
fn splitting_into_tokens() {
    let text = chars_of(" ab\tc  d ");
    assert_eq!(text.len(), 9);
    assert_eq!(token_spans(&text), vec![(1, 3), (4, 5), (7, 8)]);
    assert_eq!(token_spans(&chars_of("")), vec![]);
    assert_eq!(token_spans(&chars_of("x")), vec![(0, 1)]);
    assert!(is_space_char('\u{85}'));
    assert!(is_space_char('\u{205f}'));
    assert!(!is_space_char('\u{200b}'));
    assert!(!is_space_char('a'));
}
