use log_print::layout::{page_height, render, DrawCall, Label};
use log_print::sections::{label_color, parse_logs, same_text, Rgb, Section};
use log_print::text::{apply_captures, font_path, split_on, style_word, StyledWord};

fn words_of(s: &Section, line: usize) -> Vec<String> {
    s.lines[line].words.iter().map(|w: &StyledWord| w.text.clone()).collect()
}

#[test]
fn two_tagged_lines_give_two_sections() {
    let secs = parse_logs("@fix hello **world**\n@new next *line*");
    assert_eq!(secs.len(), 2);
    assert_eq!(secs[0].header, "fix");
    assert_eq!(secs[0].color, Rgb { r: 125, g: 223, b: 100 });
    assert_eq!(secs[0].lines.len(), 1);
    assert_eq!(words_of(&secs[0], 0), vec!["hello ".to_string(), "world ".to_string()]);
    assert!(!secs[0].lines[0].words[0].bold);
    assert!(secs[0].lines[0].words[1].bold);
    assert!(!secs[0].lines[0].words[1].italic);
    assert_eq!(secs[1].header, "new");
    assert_eq!(secs[1].color, Rgb { r: 125, g: 100, b: 223 });
    assert_eq!(words_of(&secs[1], 0), vec!["next ".to_string(), "line ".to_string()]);
    assert!(secs[1].lines[0].words[1].italic);
    assert!(!secs[1].lines[0].words[1].bold);
}

#[test]
fn bold_word_is_stripped() {
    let w = style_word("**x**");
    assert!(w.bold && !w.italic);
    assert_eq!(w.text, "x ");
    let u = style_word("__abc__");
    assert!(u.bold && !u.italic);
    assert_eq!(u.text, "abc ");
}

#[test]
fn italic_word_is_stripped() {
    let w = style_word("*x*");
    assert!(!w.bold && w.italic);
    assert_eq!(w.text, "x ");
    let u = style_word("_y_");
    assert!(!u.bold && u.italic);
    assert_eq!(u.text, "y ");
}

#[test]
fn bold_around_italic_is_both() {
    let w = style_word("**_x_**");
    assert!(w.bold && w.italic);
    assert_eq!(w.text, "x ");
}

#[test]
fn plain_word_keeps_text() {
    let w = style_word("plain");
    assert!(!w.bold && !w.italic);
    assert_eq!(w.text, "plain ");
    let e = style_word("");
    assert!(!e.bold && !e.italic);
    assert_eq!(e.text, " ");
}

#[test]
fn captures_decide_style() {
    let w = apply_captures("**_q_**", Some("_q_".to_string()), Some("q".to_string()));
    assert!(w.bold && w.italic);
    assert_eq!(w.text, "q ");
    let p = apply_captures("raw", None, None);
    assert!(!p.bold && !p.italic);
    assert_eq!(p.text, "raw ");
}

#[test]
fn tag_colors() {
    assert_eq!(label_color("fix"), Rgb { r: 125, g: 223, b: 100 });
    assert_eq!(label_color("new"), Rgb { r: 125, g: 100, b: 223 });
    assert_eq!(label_color("bug"), Rgb { r: 223, g: 100, b: 125 });
    assert_eq!(label_color("other"), Rgb { r: 0, g: 0, b: 0 });
    assert_eq!(label_color(""), Rgb { r: 0, g: 0, b: 0 });
}

#[test]
fn text_comparison() {
    assert!(same_text("abc", "abc"));
    assert!(!same_text("abc", "abd"));
    assert!(!same_text("ab", "abc"));
}

#[test]
fn split_keeps_empty_pieces() {
    assert_eq!(split_on("a  b", ' '), vec!["a".to_string(), "".to_string(), "b".to_string()]);
    assert_eq!(split_on("", '\n'), vec!["".to_string()]);
    assert_eq!(split_on("x\n", '\n'), vec!["x".to_string(), "".to_string()]);
}

#[test]
fn empty_input_has_one_blank_section() {
    let secs = parse_logs("");
    assert_eq!(secs.len(), 1);
    assert_eq!(secs[0].header, "");
    assert_eq!(secs[0].color, Rgb { r: 0, g: 0, b: 0 });
    assert_eq!(secs[0].lines.len(), 1);
    assert_eq!(secs[0].lines[0].words.len(), 1);
}

#[test]
fn leading_content_keeps_placeholder_section() {
    let secs = parse_logs("hello\n@fix a\n@fix b\n@new c\n@odd d");
    assert_eq!(secs.len(), 4);
    assert_eq!(secs[0].header, "");
    assert_eq!(secs[0].lines.len(), 1);
    assert_eq!(secs[1].header, "fix");
    assert_eq!(secs[1].lines.len(), 2);
    assert_eq!(secs[2].header, "new");
    assert_eq!(secs[3].header, "odd");
    assert_eq!(secs[3].color, Rgb { r: 0, g: 0, b: 0 });
}

#[test]
fn tags_on_first_line_replace_placeholder() {
    let secs = parse_logs("hello @fix\n@bug x");
    assert_eq!(secs.len(), 2);
    assert_eq!(secs[0].header, "fix");
    assert_eq!(words_of(&secs[0], 0), vec!["hello ".to_string()]);
    assert_eq!(secs[1].header, "bug");
    assert_eq!(secs[1].color, Rgb { r: 223, g: 100, b: 125 });
}

#[test]
fn page_height_sums_sections() {
    let secs = parse_logs("@fix hello **world**\n@new next *line*");
    assert_eq!(page_height(&secs), Some(74));
    let one = parse_logs("a\nb\nc");
    assert_eq!(page_height(&one), Some(14 + 3 * 19 + 11));
}

#[test]
fn render_draws_banners_sections_and_lines() {
    let secs = parse_logs("@fix hello **world**\n@new next *line*");
    let h = page_height(&secs).unwrap();
    let calls = render(&secs, h);
    assert_eq!(calls.len(), 13);
    let gray = Rgb { r: 204, g: 204, b: 204 };
    let white = Rgb { r: 255, g: 255, b: 255 };
    assert_eq!(calls[0], DrawCall::Fill { x0: 0, y0: 54, x1: 420, y1: 74, color: gray });
    assert_eq!(calls[1], DrawCall::Text { label: Label::Begin, x: 10, y: 59, size: 22, color: white });
    assert_eq!(calls[2], DrawCall::Fill { x0: 416, y0: 74, x1: 420, y1: 0, color: gray });
    let fix = Rgb { r: 125, g: 223, b: 100 };
    assert_eq!(calls[3], DrawCall::Fill { x0: 0, y0: 34, x1: 210, y1: 54, color: fix });
    assert_eq!(calls[4], DrawCall::Text { label: Label::Header(0), x: 10, y: 39, size: 22, color: white });
    let ink = Rgb { r: 0, g: 0, b: 0 };
    assert_eq!(calls[5], DrawCall::Words { section: 0, line: 0, x: 5, y: 36, size: 12, color: ink });
    assert_eq!(calls[6], DrawCall::Fill { x0: 0, y0: 34, x1: 4, y1: 26, color: fix });
    assert_eq!(calls[7], DrawCall::Fill { x0: 0, y0: 6, x1: 210, y1: 26, color: Rgb { r: 125, g: 100, b: 223 } });
    assert_eq!(calls[11], DrawCall::Fill { x0: 0, y0: -3, x1: 420, y1: 17, color: Rgb { r: 153, g: 153, b: 153 } });
    assert_eq!(calls[12], DrawCall::Text { label: Label::End, x: 10, y: 2, size: 22, color: white });
}

#[test]
fn pipeline_is_repeatable() {
    let text = "@bug a *b*\n\nc @new __d__";
    let first = parse_logs(text);
    let second = parse_logs(text);
    let h1 = page_height(&first).unwrap();
    let h2 = page_height(&second).unwrap();
    assert_eq!(h1, h2);
    assert_eq!(render(&first, h1), render(&second, h2));
}

#[test]
fn font_paths() {
    assert_eq!(font_path(false, false), "static/fonts/roboto/regular-normal.ttf");
    assert_eq!(font_path(true, true), "static/fonts/roboto/bold-italic.ttf");
    assert_eq!(font_path(true, false), "static/fonts/roboto/bold-normal.ttf");
}

#[test]
fn two_tags_on_first_line_keep_both_sections() {
    let secs = parse_logs("@fix @new");
    assert_eq!(secs.len(), 2);
    assert_eq!(secs[0].header, "fix");
    assert_eq!(secs[0].lines.len(), 0);
    assert_eq!(secs[1].header, "new");
    assert_eq!(secs[1].lines.len(), 1);
    let more = parse_logs("@fix @new\nx\n@new y");
    assert_eq!(more.len(), 2);
    assert_eq!(more[1].lines.len(), 3);
}

#[test]
fn bold_match_takes_leftmost_and_last_delimiters() {
    let w = style_word("a**b**c");
    assert!(w.bold && !w.italic);
    assert_eq!(w.text, "b ");
    let g = style_word("**a**b**");
    assert!(g.bold && !g.italic);
    assert_eq!(g.text, "a**b ");
    let m = style_word("**_");
    assert!(!m.bold && m.italic);
    assert_eq!(m.text, "* ");
}
