use pm64::bgm::text_form::{cut_command_lists, indent_command_list, splice_command_lists};

fn indent_by_lines(pretty: &str) -> String {
    let mut s = "[\n".to_owned();
    for line in pretty.lines().skip(1) {
        s.push_str("        ");
        s.push_str(line);
        s.push('\n');
    }
    s[..s.len() - 1].to_string()
}

#[test]
fn indenting_a_list_puts_each_item_on_an_indented_line() {
    assert_eq!(
        indent_command_list("[\n  Delay(1),\n  End,\n]"),
        "[\n          Delay(1),\n          End,\n        ]"
    );
    for text in ["[\n  A,\n]", "[\r\n  A,\r\n]\r\n", "[", "", "[\n\n  x\n", "[\n  é,\n]\r"] {
        assert_eq!(indent_command_list(text), indent_by_lines(text), "{:?}", text);
    }
}

#[test]
fn cutting_at_command_lists_and_splicing_back_gives_the_text() {
    let text = "(tracks: [\n(name: \"a\", x: 1, commands: [Delay(1), End]),\n(name: \"b\",\ncommands: [\n  End,\n])])";
    let (pieces, lists) = cut_command_lists(text);
    assert_eq!(lists, vec!["[Delay(1), End]".to_string(), "[\n  End,\n]".to_string()]);
    assert_eq!(pieces.len(), 3);
    assert_eq!(splice_command_lists(&pieces, &lists), text);
    let replaced = splice_command_lists(&pieces, &vec!["[]".to_string(), "[X]".to_string()]);
    assert_eq!(replaced, "(tracks: [\n(name: \"a\", x: 1, commands: []),\n(name: \"b\",\ncommands: [X])])");
}

#[test]
fn text_without_command_lists_is_one_piece() {
    let (pieces, lists) = cut_command_lists("(name: \"x\")");
    assert!(lists.is_empty());
    assert_eq!(pieces, vec!["(name: \"x\")".to_string()]);
}
