use face_auth_core::text::{
    chars_of, first_line_of, i32_to_text, join_lines_of, lines_of, parse_u32, split_chars,
    string_of, trim_chars,
};

fn cs(s: &str) -> Vec<char> {
    s.chars().collect()
}

fn text(v: &[char]) -> String {
    v.iter().collect()
}

#[test]
fn characters_round_trip() {
    let s = "añb€\u{1F600}";
    assert_eq!(chars_of(s), cs(s));
    assert_eq!(string_of(&cs(s)), s);
    assert_eq!(string_of(&[]), "");
}

#[test]
fn trimming_matches_str_trim() {
    for s in ["  a b \n", "\u{3000}x\u{85}", "", "   ", "\tq"] {
        assert_eq!(text(&trim_chars(&cs(s))), s.trim());
    }
}

#[test]
fn parsing_matches_str_parse() {
    for s in ["0", "42", "4294967295", "4294967296", "", "+7", "-1", "12a", "007"] {
        assert_eq!(parse_u32(&cs(s)), s.parse::<u32>().ok(), "{s:?}");
    }
}

#[test]
fn splitting_and_lines_match_std() {
    for s in ["a:b::c", "", ":", "x"] {
        let ours: Vec<String> = split_chars(&cs(s), ':').iter().map(|p| text(p)).collect();
        let std: Vec<String> = s.split(':').map(str::to_string).collect();
        assert_eq!(ours, std);
    }
    for s in ["a\nb\r\nc", "a\n", "\n", "", "x\r", "a\n\nb\n"] {
        let ours: Vec<String> = lines_of(&cs(s)).iter().map(|l| text(l)).collect();
        let std: Vec<String> = s.lines().map(str::to_string).collect();
        assert_eq!(ours, std, "{s:?}");
        assert_eq!(first_line_of(&cs(s)).map(|l| text(&l)), s.lines().next().map(str::to_string));
    }
}

#[test]
fn joined_lines_read_back() {
    let lines = vec![cs("one"), cs(""), cs("three")];
    let mut joined = join_lines_of(&lines);
    assert_eq!(text(&joined), "one\n\nthree");
    joined.push('\n');
    assert_eq!(lines_of(&joined), lines);
}

#[test]
fn decimal_text() {
    for v in [0, 7, -1, 126, i32::MAX, i32::MIN] {
        assert_eq!(text(&i32_to_text(v)), v.to_string());
    }
}
