use staff_directory::command::{help, Command};
use staff_directory::session::{handle_command, Event, Session};
use staff_directory::store::{NaiveStore, Outcome};

fn line(text: &str) -> Event {
    Event::Line(String::from(text))
}

fn strings(list: &[&str]) -> Vec<String> {
    list.iter().map(|n| n.to_string()).collect()
}

#[test]
fn session_starts_with_the_greeting() {
    let (session, lines) = Session::start();
    assert!(session.running);
    assert_eq!(session.store.query_all(), Outcome::Nothing);
    assert_eq!(
        lines,
        vec![format!(
            "Welcome to the system. You can perform the following operations:\n{}",
            help()
        )]
    );
    assert_eq!(
        lines[0],
        "Welcome to the system. You can perform the following operations:\n* :add <Person> <Department>\n* :list <Department>\n* :all\n* :quit (:q)\n* :help (:h)\n"
    );
}

#[test]
fn add_is_confirmed() {
    let (mut session, _) = Session::start();
    assert_eq!(session.step(line(":add Bob Eng\n")), strings(&["true"]));
    assert!(session.running);
    assert_eq!(
        session.store.query_department("Eng"),
        Outcome::Employees(strings(&["Bob"]))
    );
}

#[test]
fn list_and_all_show_the_directory() {
    let (mut session, _) = Session::start();
    session.step(line(":add Bob Eng\n"));
    session.step(line(":add Ann Eng\n"));
    session.step(line(":add Cy Art\n"));
    assert_eq!(session.step(line(":list Eng\n")), strings(&["  * Ann", "  * Bob"]));
    assert_eq!(
        session.step(line(":list Ops\n")),
        strings(&["  Incorrect department name:", "    * Eng", "    * Art"])
    );
    assert_eq!(
        session.step(line(":all\n")),
        strings(&["  # Eng", "    * Ann", "    * Bob", "  # Art", "    * Cy"])
    );
    assert!(session.running);
}

#[test]
fn list_on_an_empty_directory() {
    let (mut session, _) = Session::start();
    assert_eq!(
        session.step(line(":list Eng\n")),
        strings(&["  Nothing to show yet, make sure to add a new entry with :add"])
    );
    assert_eq!(
        session.step(line(":all\n")),
        strings(&["  Nothing to show yet, make sure to add a new entry with :add"])
    );
}

#[test]
fn help_prints_the_help_text_and_goes_on() {
    let (mut session, _) = Session::start();
    assert_eq!(session.step(line(":h\n")), vec![help()]);
    assert_eq!(session.step(line(":help\n")), vec![help()]);
    assert!(session.running);
}

#[test]
fn bad_input_is_answered_and_the_session_goes_on() {
    let (mut session, _) = Session::start();
    for text in ["\n", ":bogus\n", ":add Alice\n", ":list\n", "hello\n"] {
        assert_eq!(session.step(line(text)), strings(&["  Incorrect given input (:help)"]));
        assert!(session.running);
    }
    assert_eq!(session.store.query_all(), Outcome::Nothing);
}

#[test]
fn quit_ends_the_session() {
    for text in [":q\n", ":quit\n", "  :quit now\n"] {
        let (mut session, _) = Session::start();
        assert_eq!(session.step(line(text)), strings(&["The session is being terminated..."]));
        assert!(!session.running);
    }
}

#[test]
fn end_of_input_ends_the_session() {
    let (mut session, _) = Session::start();
    session.step(line(":add Bob Eng\n"));
    assert_eq!(
        session.step(Event::EndOfInput),
        strings(&["The session is being terminated..."])
    );
    assert!(!session.running);
}

#[test]
fn an_ended_session_stays_ended() {
    let (mut session, _) = Session::start();
    session.step(line(":add Bob Eng\n"));
    session.step(line(":q\n"));
    assert_eq!(session.step(line(":add Ann Eng\n")), Vec::<String>::new());
    assert_eq!(session.step(line(":all\n")), Vec::<String>::new());
    assert_eq!(session.step(Event::EndOfInput), Vec::<String>::new());
    assert!(!session.running);
    assert_eq!(
        session.store.query_department("Eng"),
        Outcome::Employees(strings(&["Bob"]))
    );
}

#[test]
fn handle_command_carries_out_add_list_and_all() {
    let mut store = NaiveStore::new();
    assert_eq!(
        handle_command(&mut store, Command::Add(String::from("Bob"), String::from("Eng"))),
        strings(&["true"])
    );
    assert_eq!(
        handle_command(&mut store, Command::List(String::from("Eng"))),
        strings(&["  * Bob"])
    );
    assert_eq!(handle_command(&mut store, Command::All), strings(&["  # Eng", "    * Bob"]));
}

#[test]
fn handle_command_does_not_take_quit_or_help() {
    let mut store = NaiveStore::new();
    store.add(String::from("Bob"), String::from("Eng"));
    for command in [Command::Quit, Command::Help] {
        assert_eq!(
            handle_command(&mut store, command),
            strings(&["Could not handle the given command! (:help)"])
        );
    }
    assert_eq!(store.query_department("Eng"), Outcome::Employees(strings(&["Bob"])));
}
