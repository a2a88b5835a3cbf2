use zonemap::text::chars_of;
use zonemap::text::find_last;
use zonemap::text::parse_i32;
use zonemap::text::parse_u32;
use zonemap::text::split_fields;
use zonemap::text::trim_range;

fn cs(text: &str) -> Vec<char> {
    text.chars().collect()
}

fn fields(text: &str, sep: char, quoting: bool) -> Vec<String> {
    let chars = cs(text);
    split_fields(&chars, sep, quoting)
        .iter()
        .map(|&(from, to)| chars[from..to].iter().collect())
        .collect()
}

#[test]
fn chars_of_lists_characters() {
    assert_eq!(chars_of("aé漢"), vec!['a', 'é', '漢']);
    assert_eq!(chars_of(""), Vec::<char>::new());
}

#[test]
fn parse_u32_agrees_with_std() {
    let samples = [
        "0", "7", "42", "+42", "-42", "", "+", "-", "4294967295", "4294967296", "00012", " 12",
        "12 ", "1_000", "٣", "99999999999999999999", "+0", "1e3", "0x10", "++1", "+-1",
    ];
    for sample in samples.iter() {
        assert_eq!(parse_u32(&cs(sample)), sample.parse::<u32>().ok(), "{:?}", sample);
    }
}

#[test]
fn parse_i32_agrees_with_std() {
    let samples = [
        "0", "-0", "7", "-7", "+7", "", "+", "-", "2147483647", "2147483648", "-2147483648",
        "-2147483649", "00012", "-00012", " 12", "12 ", "--1", "-+1", "99999999999999999999",
        "-99999999999999999999",
    ];
    for sample in samples.iter() {
        assert_eq!(parse_i32(&cs(sample)), sample.parse::<i32>().ok(), "{:?}", sample);
    }
}

#[test]
fn split_without_quoting() {
    assert_eq!(fields("a,b,c", ',', false), vec!["a", "b", "c"]);
    assert_eq!(fields("", ',', false), vec![""]);
    assert_eq!(fields(",", ',', false), vec!["", ""]);
    assert_eq!(fields("a,,b,", ',', false), vec!["a", "", "b", ""]);
    assert_eq!(fields("\"a,b\",c", ',', false), vec!["\"a", "b\"", "c"]);
    assert_eq!(fields("x_1_2", '_', false), vec!["x", "1", "2"]);
}

#[test]
fn split_with_quoting() {
    assert_eq!(fields("1,\"a,b\",c", ',', true), vec!["1", "\"a,b\"", "c"]);
    assert_eq!(fields("\"a\"\"b\",c", ',', true), vec!["\"a\"\"b\"", "c"]);
    assert_eq!(fields("\"open,1,2", ',', true), vec!["\"open,1,2"]);
    assert_eq!(fields("a,b", ',', true), vec!["a", "b"]);
}

#[test]
fn find_last_finds_the_last() {
    assert_eq!(find_last(&cs("a.b.c"), '.'), Some(3));
    assert_eq!(find_last(&cs(".abc"), '.'), Some(0));
    assert_eq!(find_last(&cs("abc"), '.'), None);
    assert_eq!(find_last(&cs(""), '.'), None);
}

fn trim(text: &str, spaces: bool) -> String {
    let chars = cs(text);
    let (from, to) = trim_range(&chars, 0, chars.len(), spaces);
    chars[from..to].iter().collect()
}

#[test]
fn trimming_agrees_with_std() {
    let samples = [
        "", " ", "  a  ", "a", "\ta b\r\n", "\u{a0}x\u{3000}", "\u{200b}x", "\"q\"", "\"\"",
        "\"\"\"a\"b\"\"", " \"a\" ", "\u{85}\u{1680}\u{2000}\u{200a}\u{2028}\u{2029}\u{202f}\u{205f}z",
        "\u{1c}a",
    ];
    for sample in samples.iter() {
        assert_eq!(trim(sample, true), sample.trim(), "{:?}", sample);
        assert_eq!(trim(sample, false), sample.trim_matches('"'), "{:?}", sample);
    }
}

#[test]
fn trimming_a_part_stays_inside_it() {
    let chars = cs("  ab  cd  ");
    assert_eq!(trim_range(&chars, 1, 5, true), (2, 4));
    assert_eq!(trim_range(&chars, 4, 6, true), (6, 6));
}
