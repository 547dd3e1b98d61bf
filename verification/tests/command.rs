use crdt_lib::command::{parse_command, Command};

fn parse(line: &str) -> Command {
    let chars: Vec<char> = line.chars().collect();
    parse_command(&chars)
}

fn chars(s: &str) -> Vec<char> {
    s.chars().collect()
}

#[test]
fn add_takes_the_trimmed_rest_of_the_line() {
    assert_eq!(parse("add milk"), Command::Add(chars("milk")));
    assert_eq!(parse("  add   oat milk  "), Command::Add(chars("oat milk")));
    assert_eq!(parse("add\tbread"), Command::Add(chars("bread")));
    assert_eq!(parse("add\u{3000}tea"), Command::Add(chars("tea")));
}

#[test]
fn remove_has_two_spellings() {
    assert_eq!(parse("remove milk"), Command::Remove(chars("milk")));
    assert_eq!(parse("rm  milk "), Command::Remove(chars("milk")));
}

#[test]
fn add_or_remove_without_item_is_unknown() {
    assert_eq!(parse("add"), Command::Unknown);
    assert_eq!(parse("add    "), Command::Unknown);
    assert_eq!(parse("rm"), Command::Unknown);
}

#[test]
fn list_and_quit_ignore_an_argument() {
    assert_eq!(parse("list"), Command::List);
    assert_eq!(parse("ls all"), Command::List);
    assert_eq!(parse(" quit"), Command::Quit);
    assert_eq!(parse("exit now"), Command::Quit);
}

#[test]
fn blank_and_unknown_lines() {
    assert_eq!(parse(""), Command::Blank);
    assert_eq!(parse(" \t \n"), Command::Blank);
    assert_eq!(parse("hello world"), Command::Unknown);
    assert_eq!(parse("ADD milk"), Command::Unknown);
    assert_eq!(parse("additem"), Command::Unknown);
}
