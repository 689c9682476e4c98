use mut_gen::text::{
    byte_offset_chars, chars_of, join_range, push_decimal, split_by_exec, string_of, trim_end_char_exec,
    trim_exec, trim_start_exec, trim_start_pattern_exec, utf8_width_exec,
};

fn chars(s: &str) -> Vec<char> {
    s.chars().collect()
}

fn text(v: &[char]) -> String {
    v.iter().collect()
}

#[test]
fn split_and_join_lines() {
    let parts = split_by_exec(&chars("a\r\nbc\r\n\r\nd"), &chars("\r\n"));
    let texts: Vec<String> = parts.iter().map(|p| text(p)).collect();
    assert_eq!(texts, vec!["a", "bc", "", "d"]);
    assert_eq!(text(&join_range(&parts, 0, 4, &chars("\r\n"))), "a\r\nbc\r\n\r\nd");
    assert_eq!(text(&join_range(&parts, 1, 3, &chars("\r\n"))), "bc\r\n");
    assert_eq!(text(&join_range(&parts, 2, 2, &chars("\r\n"))), "");
}

#[test]
fn split_keeps_empty_pieces_at_the_ends() {
    let parts = split_by_exec(&chars("=a=="), &chars("="));
    let texts: Vec<String> = parts.iter().map(|p| text(p)).collect();
    assert_eq!(texts, vec!["", "a", "", ""]);
}

#[test]
fn trimming() {
    assert_eq!(text(&trim_exec(&chars(" \t x y \u{3000}"))), "x y");
    assert_eq!(text(&trim_start_exec(&chars("  x "))), "x ");
    assert_eq!(text(&trim_end_char_exec(&chars("x;;;"), ';')), "x");
    assert_eq!(text(&trim_start_pattern_exec(&chars("returnreturn x"), &chars("return"))), " x");
}

#[test]
fn byte_offsets() {
    assert_eq!(utf8_width_exec('a'), 1);
    assert_eq!(utf8_width_exec('é'), 2);
    assert_eq!(utf8_width_exec('黑'), 3);
    assert_eq!(utf8_width_exec('👨'), 4);
    let s = chars("é+1");
    assert_eq!(byte_offset_chars(&s, 0), Some(0));
    assert_eq!(byte_offset_chars(&s, 1), None);
    assert_eq!(byte_offset_chars(&s, 2), Some(1));
    assert_eq!(byte_offset_chars(&s, 4), Some(3));
    assert_eq!(byte_offset_chars(&s, 5), None);
}

#[test]
fn decimal_digits() {
    let mut out = Vec::new();
    push_decimal(&mut out, 0);
    out.push(',');
    push_decimal(&mut out, 1907);
    assert_eq!(text(&out), "0,1907");
}

#[test]
fn string_round_trip() {
    let s = "let x = \"é\";";
    assert_eq!(string_of(&chars_of(s)), s);
}

#[test]
fn widths_add_up_to_the_encoding_length() {
    for s in ["", "abc", "é黑👨", "let x = \"\u{3000}\";"] {
        let total: usize = s.chars().map(utf8_width_exec).sum();
        assert_eq!(total, s.len());
    }
}
