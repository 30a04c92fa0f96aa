use puzzle_solvers::decimal::{decimal_string, digit_to_char, digits_of, parse_i64};
use puzzle_solvers::text::{chars_of, field_spans, find_from, line_spans, span_slice, Span};

fn chars(s: &str) -> Vec<char> {
    s.chars().collect()
}

fn pieces(text: &str, spans: Vec<Span>) -> Vec<String> {
    let all = chars(text);
    spans.iter().map(|span| span_slice(&all, span).iter().collect()).collect()
}

fn parse(s: &str) -> Option<i64> {
    parse_i64(&chars(s))
}

#[test]
fn chars_of_gives_every_character() {
    assert_eq!(chars_of(""), Vec::<char>::new());
    assert_eq!(chars_of("L68"), vec!['L', '6', '8']);
    assert_eq!(chars_of("a\u{e9}\u{1f600}b"), vec!['a', '\u{e9}', '\u{1f600}', 'b']);
}

#[test]
fn find_from_gives_first_place_or_length() {
    let text = chars("ab-cd-e");
    assert_eq!(find_from(&text, 0, '-'), 2);
    assert_eq!(find_from(&text, 2, '-'), 2);
    assert_eq!(find_from(&text, 3, '-'), 5);
    assert_eq!(find_from(&text, 6, '-'), 7);
    assert_eq!(find_from(&text, 7, '-'), 7);
    assert_eq!(find_from(&text, 0, 'z'), 7);
}

#[test]
fn lines_are_split_as_std_splits_them() {
    for text in [
        "", "a", "a\n", "a\nb", "a\nb\n", "\n", "\n\n", "a\n\nb", "a\r\nb\r\n", "a\r", "a\r\n",
        "\r\n", "a\rb\n", "a\r\r\n", "\ra", "a\n\r", "x\u{e9}\ny",
    ] {
        let want: Vec<String> = text.lines().map(|l| l.to_string()).collect();
        assert_eq!(pieces(text, line_spans(&chars(text))), want);
    }
}

#[test]
fn line_spans_by_position() {
    let spans = line_spans(&chars("ab\r\ncd\n"));
    assert_eq!(spans.len(), 2);
    assert_eq!((spans[0].start, spans[0].end), (0, 2));
    assert_eq!((spans[1].start, spans[1].end), (4, 6));
}

#[test]
fn fields_are_split_as_std_splits_them() {
    for text in ["", "a", "a,b", "a,", ",a", ",", ",,", "11-22,33-44", "a,b\n", "a, b"] {
        let want: Vec<String> = text.split(',').map(|l| l.to_string()).collect();
        assert_eq!(pieces(text, field_spans(&chars(text), ',')), want);
    }
}

#[test]
fn parse_i64_reads_signed_decimals() {
    assert_eq!(parse("0"), Some(0));
    assert_eq!(parse("68"), Some(68));
    assert_eq!(parse("+5"), Some(5));
    assert_eq!(parse("-5"), Some(-5));
    assert_eq!(parse("-0"), Some(0));
    assert_eq!(parse("00012"), Some(12));
    assert_eq!(parse("9223372036854775807"), Some(i64::MAX));
    assert_eq!(parse("-9223372036854775808"), Some(i64::MIN));
    assert_eq!(parse("0000000000000000000000000000000000000000001"), Some(1));
}

#[test]
fn parse_i64_refuses_everything_else() {
    for bad in [
        "", "+", "-", "--1", "+-1", "1+", "1-", " 1", "1 ", "1_000", "0x10", "1.0", "1e3", "a",
        "9223372036854775808", "-9223372036854775809", "99999999999999999999999999",
        "-99999999999999999999999999", "99999999999999999999999999x", "\u{663}",
    ] {
        assert_eq!(parse(bad), None);
    }
}

#[test]
fn parse_i64_agrees_with_std() {
    for text in ["7", "+7", "-7", "007", "", "-", "+", "12a", "9223372036854775808", "१"] {
        assert_eq!(parse(text), text.parse::<i64>().ok());
    }
}

#[test]
fn digits_of_writes_decimal() {
    assert_eq!(digits_of(0), vec!['0']);
    assert_eq!(digits_of(7), vec!['7']);
    assert_eq!(digits_of(10), vec!['1', '0']);
    assert_eq!(digits_of(-5), vec!['-', '5']);
    assert_eq!(digits_of(1212), vec!['1', '2', '1', '2']);
}

#[test]
fn decimal_string_agrees_with_std() {
    for n in [0, 1, 9, 10, 99, 100, 101, 1212, -1, -10, -1212, i64::MAX, i64::MIN, i64::MIN + 1] {
        assert_eq!(decimal_string(n), n.to_string());
        assert_eq!(digits_of(n).iter().collect::<String>(), n.to_string());
    }
}

#[test]
fn written_numbers_read_back() {
    for n in [0, 5, -5, 100, 1_000_000_007, i64::MAX, i64::MIN] {
        assert_eq!(parse_i64(&digits_of(n)), Some(n));
    }
}

#[test]
fn digit_to_char_for_each_digit() {
    let want = ['0', '1', '2', '3', '4', '5', '6', '7', '8', '9'];
    for d in 0..10u8 {
        assert_eq!(digit_to_char(d), want[usize::from(d)]);
    }
}
