use dinamika::{
    classify, color_line, compute_colors, Category, ColorU8, Grammars, Language, LineOps, Palette, ScopeTrack,
};

fn char_index_of(text: &str, needle: &str) -> usize {
    let byte = text.find(needle).expect("the substring is present in the text");
    text[..byte].chars().count()
}

fn rgb(r: u8, g: u8, b: u8) -> ColorU8 {
    ColorU8::from_rgba(r, g, b, 255)
}

#[test]
fn plain_language_paints_everything_with_foreground() {
    let grammars = Grammars::builtin();
    let fg = rgb(10, 20, 30);
    let palette = Palette::new(fg).keyword(rgb(200, 0, 0));
    let text = "fn main() {}";
    let colors = compute_colors(text, Language::PlainText, &palette, &grammars);
    assert_eq!(colors.len(), text.chars().count());
    assert!(colors.iter().all(|c| *c == fg), "only the base color was expected");
}

#[test]
fn empty_palette_skips_highlighting() {
    let grammars = Grammars::builtin();
    let fg = rgb(1, 2, 3);
    let colors = compute_colors("fn main() {}", Language::Rust, &Palette::new(fg), &grammars);
    assert!(colors.iter().all(|c| *c == fg));
}

#[test]
fn rust_keyword_string_and_comment_take_palette_colors() {
    let grammars = Grammars::builtin();
    let fg = rgb(212, 212, 212);
    let kw = rgb(197, 134, 192);
    let st = rgb(206, 145, 120);
    let cm = rgb(106, 153, 85);
    let palette = Palette::new(fg).keyword(kw).string(st).comment(cm);
    let text = "let x = \"hi\"; // note";
    let colors = compute_colors(text, Language::Rust, &palette, &grammars);
    assert_eq!(colors.len(), text.chars().count());
    assert_eq!(colors[char_index_of(text, "let")], kw);
    assert_eq!(colors[char_index_of(text, "hi")], st);
    assert_eq!(colors[char_index_of(text, "// note")], cm);
    assert_eq!(colors[char_index_of(text, "note")], cm);
}

#[test]
fn unset_category_falls_back_to_foreground() {
    let grammars = Grammars::builtin();
    let fg = rgb(50, 50, 50);
    let kw = rgb(0, 100, 200);
    let palette = Palette::new(fg).keyword(kw);
    let text = "let n = 42;";
    let colors = compute_colors(text, Language::Rust, &palette, &grammars);
    assert_eq!(colors[char_index_of(text, "let")], kw);
    assert_eq!(colors[char_index_of(text, "42")], fg, "a number without a rule — in the base color");
}

#[test]
fn colors_align_with_multiline_chars() {
    let grammars = Grammars::builtin();
    let palette = Palette::new(rgb(0, 0, 0)).keyword(rgb(255, 255, 255));
    let text = "fn a() {}\nfn b() {}\n";
    let colors = compute_colors(text, Language::Rust, &palette, &grammars);
    assert_eq!(colors.len(), text.chars().count());
}

#[test]
fn classify_takes_the_first_matching_prefix() {
    assert_eq!(classify("keyword.operator.assignment"), Some(Category::Operator));
    assert_eq!(classify("keyword.control.rust"), Some(Category::Keyword));
    assert_eq!(classify("storage.type.rust"), Some(Category::Keyword));
    assert_eq!(classify("constant.numeric.integer"), Some(Category::Number));
    assert_eq!(classify("constant.language"), Some(Category::Constant));
    assert_eq!(classify("meta.function-call.rust"), Some(Category::Function));
    assert_eq!(classify("entity.name.struct"), Some(Category::Type));
    assert_eq!(classify("variable.function"), Some(Category::Function));
    assert_eq!(classify("variable.other"), Some(Category::Variable));
    assert_eq!(classify("punctuation.section"), Some(Category::Punctuation));
    assert_eq!(classify("source.rust"), None);
    assert_eq!(classify("key"), None);
}

#[test]
fn color_for_prefers_comments_and_strings_then_inner_scopes() {
    let fg = 0u32;
    let p = Palette::new(fg).keyword(1).string(2).comment(3).variable(4);
    let names = |xs: &[&str]| xs.iter().map(|s| s.to_string()).collect::<Vec<String>>();
    assert_eq!(p.color_for(&names(&[])), 0);
    assert_eq!(p.color_for(&names(&["source.rust", "keyword.control"])), 1);
    assert_eq!(p.color_for(&names(&["string.quoted", "keyword.control"])), 2);
    assert_eq!(p.color_for(&names(&["keyword.control", "comment.line"])), 3);
    assert_eq!(p.color_for(&names(&["keyword.control", "variable.other"])), 4);
    assert_eq!(p.color_for(&names(&["variable.other", "constant.numeric"])), 4);
    assert_eq!(Palette::new(7u32).color_for(&names(&["comment.line"])), 7);
}

#[test]
fn palette_builders_set_one_category_each() {
    let p = Palette::new(0u32)
        .keyword(1)
        .number(2)
        .function(3)
        .type_(4)
        .constant(5)
        .operator(6)
        .variable(7)
        .punctuation(8);
    assert!(!p.is_plain());
    assert!(Palette::new(0u32).is_plain());
    assert_eq!(p.foreground(), 0);
    assert_eq!(p.category_color(Category::Keyword), Some(1));
    assert_eq!(p.category_color(Category::Number), Some(2));
    assert_eq!(p.category_color(Category::Function), Some(3));
    assert_eq!(p.category_color(Category::Type), Some(4));
    assert_eq!(p.category_color(Category::Constant), Some(5));
    assert_eq!(p.category_color(Category::Operator), Some(6));
    assert_eq!(p.category_color(Category::Variable), Some(7));
    assert_eq!(p.category_color(Category::Punctuation), Some(8));
    assert_eq!(Palette::new(0u32).string(9).category_color(Category::Keyword), None);
}

#[test]
fn languages_map_to_grammar_tokens() {
    assert_eq!(Language::default(), Language::PlainText);
    assert_eq!(Language::PlainText.token(), None);
    assert_eq!(Language::Rust.token(), Some("rust"));
    assert_eq!(Language::Cpp.token(), Some("c++"));
    assert_eq!(Language::Bash.token(), Some("sh"));
    assert_eq!(Language::JavaScript.token(), Some("js"));
}

#[test]
fn block_comment_carries_over_to_the_next_line() {
    let grammars = Grammars::builtin();
    let fg = rgb(1, 1, 1);
    let kw = rgb(2, 2, 2);
    let cm = rgb(3, 3, 3);
    let palette = Palette::new(fg).keyword(kw).comment(cm);
    let text = "/* one\ntwo */ let";
    let colors = compute_colors(text, Language::Rust, &palette, &grammars);
    assert_eq!(colors.len(), text.chars().count());
    assert_eq!(colors[char_index_of(text, "two")], cm);
    assert_eq!(colors[char_index_of(text, "let")], kw);
}

#[test]
fn empty_text_has_no_colors() {
    let grammars = Grammars::builtin();
    let palette = Palette::new(0u32).keyword(1);
    assert!(compute_colors("", Language::Rust, &palette, &grammars).is_empty());
}

#[test]
fn color_line_without_changes_keeps_the_stack_color() {
    let palette = Palette::new(0u32).keyword(1);
    let line: Vec<char> = "aé\"b\n".chars().collect();
    let mut stack = ScopeTrack::new();
    let mut colors = vec![7u32];
    color_line(&line, &LineOps::empty(), &palette, &mut stack, &mut colors);
    assert_eq!(colors, vec![7, 0, 0, 0, 0, 0]);
}

#[test]
fn highlighted_colors_follow_the_scopes_across_multibyte_text() {
    let grammars = Grammars::builtin();
    let fg = rgb(1, 1, 1);
    let st = rgb(2, 2, 2);
    let cm = rgb(3, 3, 3);
    let palette = Palette::new(fg).string(st).comment(cm);
    let text = "let é = \"ü\"; // ö";
    let colors = compute_colors(text, Language::Rust, &palette, &grammars);
    assert_eq!(colors.len(), text.chars().count());
    assert_eq!(colors[char_index_of(text, "ü")], st);
    assert_eq!(colors[char_index_of(text, "ö")], cm);
    assert_eq!(colors[char_index_of(text, "é")], fg);
}
