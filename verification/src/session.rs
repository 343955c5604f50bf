//! A session: a directory, and what each line of input does to it and
//! makes it say.
//!
//! The session itself reads and prints nothing. Its caller hands it one
//! event at a time and prints the lines that come back, each followed by a
//! line feed.

use crate::command::{help, help_text, parse, parse_input, Command, CommandView};
use crate::render::rendered;
use crate::store::{added, all_outcome, department_outcome, well_formed, Directory, NaiveStore};
use crate::text::{indent, indented, names};
use vstd::prelude::*;
use vstd::string::*;

verus! {

/// The directory after a command was carried out: only `Add` changes it.
pub open spec fn handled_store(dir: Directory, command: CommandView) -> Directory {
    match command {
        CommandView::Add(employee, department) => added(dir, employee, department),
        _ => dir,
    }
}

/// What carrying out a command on `dir` prints.
pub open spec fn handled_lines(dir: Directory, command: CommandView) -> Seq<Seq<char>> {
    match command {
        CommandView::Add(_, _) => seq!["true"@],
        CommandView::List(department) => rendered(department_outcome(dir, department)),
        CommandView::All => rendered(all_outcome(dir)),
        _ => seq!["Could not handle the given command! (:help)"@],
    }
}

/// Carries out a command on the directory and returns the lines to print.
/// `Quit` and `Help` are the session's business; here they only yield a
/// line that says so.
pub fn handle_command(store: &mut NaiveStore, command: Command) -> (lines: Vec<String>)
    ensures
        final(store)@ == handled_store(old(store)@, command@),
        names(lines@) == handled_lines(old(store)@, command@),
        well_formed(final(store)@),
{
    proof {
        use_type_invariant(&*store);
    }
    match command {
        Command::Add(employee, department) => {
            store.add(employee, department);
            one_line(String::from_str("true"))
        },
        Command::List(department) => store.print_by_department(department),
        Command::All => store.print_all(),
        _ => one_line(String::from_str("Could not handle the given command! (:help)")),
    }
}

/// A single line.
fn one_line(line: String) -> (lines: Vec<String>)
    ensures
        names(lines@) == seq![line@],
{
    let mut lines: Vec<String> = Vec::new();
    lines.push(line);
    proof {
        assert(names(lines@) =~= seq![line@]);
    }
    lines
}

/// What reaches a session from its input.
#[derive(Debug, PartialEq, Eq)]
pub enum Event {
    /// One line was read.
    Line(String),
    /// The input has ended.
    EndOfInput,
}

/// The text that greets the user: a heading, then the help text.
pub open spec fn welcome_text() -> Seq<char> {
    "Welcome to the system. You can perform the following operations:\n"@ + help_text()
}

/// The line that closes a session.
pub open spec fn farewell_line() -> Seq<char> {
    "The session is being terminated..."@
}

/// The line that answers input which is no command.
pub open spec fn rejection_line() -> Seq<char> {
    indented("Incorrect given input (:help)"@, 2)
}

/// Whether a session that reads `line` goes on running: all but `Quit` do.
pub open spec fn runs_on(line: Seq<char>) -> bool {
    parse(line) != Some(CommandView::Quit)
}

/// The directory after a running session has read `line`.
pub open spec fn store_after(dir: Directory, line: Seq<char>) -> Directory {
    match parse(line) {
        Some(command) => handled_store(dir, command),
        None => dir,
    }
}

/// What a running session prints when it has read `line`.
pub open spec fn lines_after(dir: Directory, line: Seq<char>) -> Seq<Seq<char>> {
    match parse(line) {
        Some(CommandView::Help) => seq![help_text()],
        Some(CommandView::Quit) => seq![farewell_line()],
        Some(command) => handled_lines(dir, command),
        None => seq![rejection_line()],
    }
}

/// A directory together with whether the session still runs.
pub struct Session {
    pub store: NaiveStore,
    pub running: bool,
}

impl Session {
    /// A running session on an empty directory, and the greeting to print.
    pub fn start() -> (r: (Session, Vec<String>))
        ensures
            r.0.running,
            r.0.store@ == Seq::<(Seq<char>, Seq<Seq<char>>)>::empty(),
            well_formed(r.0.store@),
            names(r.1@) == seq![welcome_text()],
    {
        let mut text = String::from_str(
            "Welcome to the system. You can perform the following operations:\n",
        );
        let body = help();
        text.append(body.as_str());
        (Session { store: NaiveStore::new(), running: true }, one_line(text))
    }

    /// Takes one event and returns the lines to print.
    ///
    /// A session that has ended stays as it is and prints nothing. A running
    /// one ends on `Quit` and at the end of the input, with the same closing
    /// line; any other line is parsed and carried out, and the session runs
    /// on.
    pub fn step(&mut self, event: Event) -> (lines: Vec<String>)
        ensures
            well_formed(final(self).store@),
            !old(self).running ==> *final(self) == *old(self) && lines@.len() == 0,
            old(self).running ==> match event {
                Event::Line(line) => {
                    &&& final(self).running == runs_on(line@)
                    &&& final(self).store@ == store_after(old(self).store@, line@)
                    &&& names(lines@) == lines_after(old(self).store@, line@)
                },
                Event::EndOfInput => {
                    &&& !final(self).running
                    &&& final(self).store@ == old(self).store@
                    &&& names(lines@) == seq![farewell_line()]
                },
            },
    {
        proof {
            use_type_invariant(&self.store);
        }
        if !self.running {
            return Vec::new();
        }
        match event {
            Event::Line(line) => match parse_input(line) {
                Some(Command::Help) => one_line(help()),
                Some(Command::Quit) => {
                    self.running = false;
                    one_line(String::from_str("The session is being terminated..."))
                },
                Some(command) => handle_command(&mut self.store, command),
                None => one_line(indent("Incorrect given input (:help)", 2)),
            },
            Event::EndOfInput => {
                self.running = false;
                one_line(String::from_str("The session is being terminated..."))
            },
        }
    }
}

} // verus!
