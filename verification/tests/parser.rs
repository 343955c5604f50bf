use staff_directory::command::{help, is_white_space, parse_input, splits, Command};

fn parse(line: &str) -> Option<Command> {
    parse_input(String::from(line))
}

#[test]
fn parse_add_with_both_names() {
    assert_eq!(
        parse(":add Alice Eng"),
        Some(Command::Add(String::from("Alice"), String::from("Eng")))
    );
}

#[test]
fn parse_list_with_department() {
    assert_eq!(parse(":list Eng"), Some(Command::List(String::from("Eng"))));
}

#[test]
fn parse_all() {
    assert_eq!(parse(":all"), Some(Command::All));
}

#[test]
fn parse_quit_in_both_forms() {
    assert_eq!(parse(":q"), Some(Command::Quit));
    assert_eq!(parse(":quit"), Some(Command::Quit));
    assert_eq!(parse(":q"), parse(":quit"));
}

#[test]
fn parse_help_in_both_forms() {
    assert_eq!(parse(":h"), Some(Command::Help));
    assert_eq!(parse(":help"), Some(Command::Help));
    assert_eq!(parse(":h"), parse(":help"));
}

#[test]
fn parse_rejects_empty_line() {
    assert_eq!(parse(""), None);
    assert_eq!(parse("\n"), None);
    assert_eq!(parse("   \t \r\n"), None);
}

#[test]
fn parse_rejects_unknown_verb() {
    assert_eq!(parse(":bogus"), None);
    assert_eq!(parse("add Alice Eng"), None);
    assert_eq!(parse(":ADD Alice Eng"), None);
    assert_eq!(parse(":adds Alice Eng"), None);
    assert_eq!(parse(":ad"), None);
}

#[test]
fn parse_rejects_add_without_department() {
    assert_eq!(parse(":add Alice"), None);
    assert_eq!(parse(":add"), None);
    assert_eq!(parse(":add Alice   "), None);
}

#[test]
fn parse_rejects_list_without_department() {
    assert_eq!(parse(":list"), None);
    assert_eq!(parse(":list \n"), None);
}

#[test]
fn parse_ignores_extra_tokens() {
    assert_eq!(
        parse(":add Alice Eng and more"),
        Some(Command::Add(String::from("Alice"), String::from("Eng")))
    );
    assert_eq!(parse(":list Eng Sales"), Some(Command::List(String::from("Eng"))));
    assert_eq!(parse(":all now"), Some(Command::All));
    assert_eq!(parse(":q please"), Some(Command::Quit));
    assert_eq!(parse(":help me"), Some(Command::Help));
}

#[test]
fn parse_takes_line_with_line_feed() {
    assert_eq!(
        parse(":add Alice Eng\n"),
        Some(Command::Add(String::from("Alice"), String::from("Eng")))
    );
    assert_eq!(parse(":all\r\n"), Some(Command::All));
}

#[test]
fn parse_splits_on_runs_of_white_space() {
    assert_eq!(
        parse("  \t:add \t Alice\x0C\r  Eng  "),
        Some(Command::Add(String::from("Alice"), String::from("Eng")))
    );
}

#[test]
fn parse_trims_wide_spaces_at_the_ends() {
    assert_eq!(parse("\u{a0}:all\u{3000}"), Some(Command::All));
    assert_eq!(parse("\u{b}:q\u{2003}\u{85}"), Some(Command::Quit));
    assert_eq!(
        parse("\u{2028}:list Eng\u{1680}"),
        Some(Command::List(String::from("Eng")))
    );
}

#[test]
fn parse_does_not_split_on_wide_spaces() {
    assert_eq!(
        parse(":list Eng\u{a0}West"),
        Some(Command::List(String::from("Eng\u{a0}West")))
    );
    assert_eq!(parse(":list\u{a0}Eng"), None);
    assert_eq!(parse(":list\u{b}Eng"), None);
    assert_eq!(
        parse(":add Zoë Café"),
        Some(Command::Add(String::from("Zoë"), String::from("Café")))
    );
}

#[test]
fn parse_agrees_with_the_standard_splitter() {
    let lines = [
        ":add a b",
        " :add  a\tb c ",
        "\u{a0} :list x\u{a0}",
        ":list",
        ":q\u{b}",
        "\u{b}\u{b}",
        ":help\u{2009}",
    ];
    for line in lines {
        let words: Vec<&str> = line.trim().split_ascii_whitespace().collect();
        let expected = match words.as_slice() {
            [":add", e, d, ..] => Some(Command::Add(e.to_string(), d.to_string())),
            [":list", d, ..] => Some(Command::List(d.to_string())),
            [":all", ..] => Some(Command::All),
            [":quit", ..] | [":q", ..] => Some(Command::Quit),
            [":help", ..] | [":h", ..] => Some(Command::Help),
            _ => None,
        };
        assert_eq!(parse(line), expected);
    }
}

#[test]
fn splitting_characters() {
    for c in [' ', '\t', '\n', '\x0C', '\r'] {
        assert!(splits(c));
    }
    for c in ['\u{b}', '\u{a0}', 'a', ':', '\u{3000}', '\0'] {
        assert!(!splits(c));
    }
}

#[test]
fn white_space_is_what_char_says() {
    let mut code: u32 = 0;
    while code <= 0x3100 {
        if let Some(c) = char::from_u32(code) {
            assert_eq!(is_white_space(c), c.is_whitespace());
        }
        code += 1;
    }
    assert!(!is_white_space('\u{10ffff}'));
    assert!(!is_white_space('\u{feff}'));
}

#[test]
fn help_text_is_exact() {
    assert_eq!(
        help(),
        "* :add <Person> <Department>\n* :list <Department>\n* :all\n* :quit (:q)\n* :help (:h)\n"
    );
}
