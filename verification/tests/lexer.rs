use md_to_html::chars::{is_special_char, is_whitespace};
use md_to_html::lexer::{tokenize, Token};
use md_to_html::parser::create_parser;
use md_to_html::strings::to_chars;

fn tokens(text: &str) -> Vec<(String, usize, usize)> {
    create_parser(text.to_string())
        .tokens
        .iter()
        .map(|t| (t.data.clone(), t.line, t.col))
        .collect()
}

fn texts(text: &str) -> Vec<String> {
    create_parser(text.to_string()).tokens.iter().map(|t| t.data.clone()).collect()
}

fn token(data: &str, line: usize, col: usize) -> (String, usize, usize) {
    (data.to_string(), line, col)
}

#[test]
fn special_characters_are_the_nine() {
    for c in "_*`#[]()!".chars() {
        assert!(is_special_char(c));
    }
    for c in "a Z0\n\r\t-+<>{}.,:/\\\"'~^é".chars() {
        assert!(!is_special_char(c));
    }
}

#[test]
fn whitespace_is_that_of_the_standard_library() {
    let mut code: u32 = 0;
    while code <= 0x10FFFF {
        if let Some(c) = char::from_u32(code) {
            assert_eq!(is_whitespace(c), c.is_whitespace());
        }
        code += 1;
    }
}

#[test]
fn characters_of_a_string() {
    assert_eq!(to_chars("aé\n"), vec!['a', 'é', '\n']);
    assert_eq!(to_chars(""), Vec::<char>::new());
}

#[test]
fn runs_of_plain_and_special_characters() {
    assert_eq!(texts("ab**cd__"), vec!["ab", "**", "cd", "__", "\n"]);
    assert_eq!(texts("a*_`b"), vec!["a", "*_`", "b", "\n"]);
}

#[test]
fn openers_always_begin_a_token() {
    assert_eq!(texts("###"), vec!["#", "#", "#", "\n"]);
    assert_eq!(texts("[[(("), vec!["[", "[", "(", "(", "\n"]);
    assert_eq!(texts("!!"), vec!["!", "!", "\n"]);
    assert_eq!(texts("*#*"), vec!["*", "#*", "\n"]);
    assert_eq!(texts("a\n\nb"), vec!["a", "\n", "\n", "b", "\n"]);
    assert_eq!(texts("a\r\nb"), vec!["a", "\r", "\n", "b", "\n"]);
}

#[test]
fn closers_join_the_run_before_them() {
    assert_eq!(texts("*]"), vec!["*]", "\n"]);
    assert_eq!(texts("a])b"), vec!["a", "])", "b", "\n"]);
}

#[test]
fn whitespace_after_a_hash_is_dropped() {
    assert_eq!(texts("# x"), vec!["#", "x", "\n"]);
    assert_eq!(texts("#\tx"), vec!["#", "x", "\n"]);
    assert_eq!(texts("#  x"), vec!["#", " x", "\n"]);
    assert_eq!(texts("#\nx"), vec!["#", "", "x", "\n"]);
    assert_eq!(texts("#"), vec!["#", "\n"]);
    assert_eq!(texts("a# b"), vec!["a", "#", "b", "\n"]);
    assert_eq!(texts(" #x"), vec![" ", "#", "x", "\n"]);
}

#[test]
fn empty_text_gives_an_empty_token_and_the_sentinel() {
    assert_eq!(tokens(""), vec![token("", 1, 1), token("\n", 1, 1)]);
}

#[test]
fn tokens_carry_the_place_of_their_first_character() {
    assert_eq!(
        tokens("# Hi\n*a*"),
        vec![
            token("#", 1, 1),
            token("Hi", 1, 2),
            token("\n", 1, 5),
            token("*", 2, 1),
            token("a", 2, 2),
            token("*", 2, 3),
            token("\n", 2, 3),
        ]
    );
}

#[test]
fn columns_start_again_after_a_line_feed() {
    assert_eq!(
        tokens("ab\n\ncd"),
        vec![
            token("ab", 1, 1),
            token("\n", 1, 3),
            token("\n", 2, 1),
            token("cd", 3, 1),
            token("\n", 3, 1),
        ]
    );
}

#[test]
fn carriage_return_does_not_count_as_a_line() {
    assert_eq!(
        tokens("a\rb"),
        vec![token("a", 1, 1), token("\r", 1, 2), token("b", 1, 3), token("\n", 1, 3)]
    );
}

#[test]
fn sentinel_is_always_last() {
    for text in ["", "a", "a\n", "# a", "```", "*a*\n\n"] {
        let all = texts(text);
        assert_eq!(all.last().map(|s| s.as_str()), Some("\n"));
    }
    assert_eq!(texts("a\n"), vec!["a", "\n", "\n"]);
}

#[test]
fn tokenize_works_on_characters() {
    let chars = vec!['a', '*'];
    let found: Vec<Token> = tokenize(&chars);
    assert_eq!(found.len(), 3);
    assert_eq!(found[0].data, "a");
    assert_eq!(found[1].data, "*");
    assert_eq!((found[1].line, found[1].col), (1, 2));
    assert_eq!(found[2].data, "\n");
    let copy = found[1].clone();
    assert_eq!((copy.data.as_str(), copy.line, copy.col), ("*", 1, 2));
}
