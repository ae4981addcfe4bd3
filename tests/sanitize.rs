use expert_system::sanitize::{remove_comment, remove_spaces, sanitize_lines};

#[test]
fn sanitize_only_whitespace() {
    let input = " \t\n\r";
    let result: String = remove_spaces(input);
    assert_eq!(result, "");
}

#[test]
fn sanitize_no_whitespace() {
    let input = "hello-world";
    let result: String = remove_spaces(input);
    assert_eq!(result, input);
}

#[test]
fn sanitize_mixed() {
    let input = "  h e l l o\nw o r l d  ";
    let result: String = remove_spaces(input);
    assert_eq!(result, "helloworld");
}

#[test]
fn mixed() {
    let input = "hello #world";
    let result: String = remove_comment(input);
    assert_eq!(result, "hello ");
}

#[test]
fn sanitize_only_comment() {
    let input = "#hello world";
    let result: String = remove_comment(input);
    assert_eq!(result, "");
}

#[test]
fn sanitize_no_comment() {
    let input = "hello world";
    let result: String = remove_comment(input);
    assert_eq!(result, input);
}

#[test]
fn sanitize_empty_lines() {
    let input: Vec<&str> = vec!["  ", "", "\t"];
    let result: Vec<String> = sanitize_lines(&input);
    assert_eq!(result, Vec::<String>::new());
}

#[test]
fn sanitize_empty_lines_at_end() {
    let input: Vec<&str> = vec!["hello", "  ", "", "\t"];
    let result: Vec<String> = sanitize_lines(&input);
    assert_eq!(result, vec!["hello"]);
}

#[test]
fn sanitize_merge_empty_lines() {
    let input: Vec<&str> = vec!["hello", "  ", "", "\t", "world"];
    let result: Vec<String> = sanitize_lines(&input);
    assert_eq!(result, vec!["hello", "", "world"]);
}

#[test]
fn sanitize_every_other_empty() {
    let input: Vec<&str> = vec!["f", "", "o", "", "o"];
    let result: Vec<String> = sanitize_lines(&input);
    assert_eq!(result, vec!["f", "", "o", "", "o"]);
}

#[test]
fn sanitize_lines_only_whitespace() {
    let input = " \t\n\r";
    let result: String = remove_spaces(input);
    assert_eq!(result, "");
}

#[test]
fn sanitize_lines_no_whitespace() {
    let input = "hello-world";
    let result: String = remove_spaces(input);
    assert_eq!(result, input);
}

#[test]
fn sanitize_lines_mixed() {
    let input = "  h e l l o\nw o r l d  ";
    let result: String = remove_spaces(input);
    assert_eq!(result, "helloworld");

    let input = "hello #world";
    let result: String = remove_comment(input);
    assert_eq!(result, "hello ");
}

#[test]
fn sanitize_lines_only_comment() {
    let input = "#hello world";
    let result: String = remove_comment(input);
    assert_eq!(result, "");
}

#[test]
fn sanitize_lines_no_comment() {
    let input = "hello world";
    let result: String = remove_comment(input);
    assert_eq!(result, input);
}

#[test]
fn sanitize_lines_empty_lines() {
    let input: Vec<&str> = vec!["  ", "", "\t"];
    let result: Vec<String> = sanitize_lines(&input);
    assert_eq!(result, Vec::<String>::new());
}

#[test]
fn sanitize_lines_empty_lines_at_end() {
    let input: Vec<&str> = vec!["hello", "  ", "", "\t"];
    let result: Vec<String> = sanitize_lines(&input);
    assert_eq!(result, vec!["hello"]);
}

#[test]
fn sanitize_lines_merge_empty_lines() {
    let input: Vec<&str> = vec!["hello", "  ", "", "\t", "world"];
    let result: Vec<String> = sanitize_lines(&input);
    assert_eq!(result, vec!["hello", "", "world"]);
}

#[test]
fn sanitize_lines_every_other_empty() {
    let input: Vec<&str> = vec!["f", "", "o", "", "o"];
    let result: Vec<String> = sanitize_lines(&input);
    assert_eq!(result, vec!["f", "", "o", "", "o"]);
}

#[test]
fn comments_and_unicode_space() {
    let input: Vec<&str> = vec!["A => B # first", "#only a comment", "", "C\u{3000}=> D", "=A"];
    let result: Vec<String> = sanitize_lines(&input);
    assert_eq!(result, vec!["A=>B", "", "C=>D", "=A"]);
    assert_eq!(remove_comment("a#b#c"), "a");
    assert_eq!(remove_spaces("x\u{85}y\u{2028}z"), "xyz");
}
