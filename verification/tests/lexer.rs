use rust_min::lexer::separates;
use rust_min::tokenize;

fn strings(tokens: &[&str]) -> Vec<String> {
    tokens.iter().map(|t| t.to_string()).collect()
}

#[test]
fn comment_runs_to_the_end_of_its_line() {
    assert_eq!(tokenize("a # c\nb c"), strings(&["a", "b", "c"]));
}

#[test]
fn empty_text_has_no_tokens() {
    assert_eq!(tokenize(""), Vec::<String>::new());
    assert_eq!(tokenize("   \n\t \r\n"), Vec::<String>::new());
}

#[test]
fn text_of_comments_has_no_tokens() {
    assert_eq!(tokenize("# one\n# two"), Vec::<String>::new());
    assert_eq!(tokenize("#"), Vec::<String>::new());
}

#[test]
fn comment_marker_ends_a_token() {
    assert_eq!(tokenize("a#b\nc"), strings(&["a", "c"]));
    assert_eq!(tokenize("main{#}\n+}"), strings(&["main{", "+}"]));
}

#[test]
fn comment_at_the_end_needs_no_line_end() {
    assert_eq!(tokenize("x y # z"), strings(&["x", "y"]));
}

#[test]
fn second_marker_in_a_comment_changes_nothing() {
    assert_eq!(tokenize("a # b # c\nd"), strings(&["a", "d"]));
}

#[test]
fn carriage_return_alone_does_not_end_a_comment() {
    assert_eq!(tokenize("a # b\rc\nd"), strings(&["a", "d"]));
    assert_eq!(tokenize("a\r\nb # c\r\nd"), strings(&["a", "b", "d"]));
}

#[test]
fn runs_of_whitespace_separate_once() {
    assert_eq!(tokenize("  a \t\t b\n\n\nc  "), strings(&["a", "b", "c"]));
}

#[test]
fn symbols_are_tokens_only_when_set_apart() {
    assert_eq!(tokenize("main = { + - | f }"), strings(&["main", "=", "{", "+", "-", "|", "f", "}"]));
    assert_eq!(tokenize("{+}"), strings(&["{+}"]));
}

#[test]
fn unicode_whitespace_separates() {
    assert_eq!(
        tokenize("a\u{00A0}b\u{3000}c\u{0085}d\u{2003}e\u{2028}f"),
        strings(&["a", "b", "c", "d", "e", "f"])
    );
}

#[test]
fn other_unicode_characters_are_kept() {
    assert_eq!(tokenize("größe \u{200B}x é"), strings(&["größe", "\u{200B}x", "é"]));
}

#[test]
fn tokens_are_those_of_the_lines_without_their_comments() {
    let texts = [
        "a # c\nb c",
        "main { - main | }\n# done",
        "f{ + }#x\r\n\r\ng { f f } # y # z\n",
        "\u{1680}p\u{205F}q#\u{2029}r\u{202F}s",
        "###\n#\n\n a#\n#b\nc",
    ];
    for text in texts {
        let expected: Vec<String> = text
            .lines()
            .flat_map(|line| line.split('#').next())
            .flat_map(|line| line.split_whitespace())
            .map(String::from)
            .collect();
        assert_eq!(tokenize(text), expected);
    }
}

#[test]
fn separators_are_the_whitespace_characters() {
    let mut code: u32 = 0;
    while code <= 0x10FFFF {
        if let Some(c) = char::from_u32(code) {
            assert_eq!(separates(c), c.is_whitespace(), "U+{:04X}", code);
        }
        code += 1;
    }
}
