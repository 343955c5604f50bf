//! The command language: one line of text is one command, or is rejected.

use crate::text::to_chars;
use vstd::prelude::*;
use vstd::string::*;

verus! {

/// The five characters at which a line is split into tokens: space, tab,
/// line feed, form feed and carriage return.
pub open spec fn is_ascii_space(c: char) -> bool {
    c == ' ' || c == '\t' || c == '\n' || c == '\x0C' || c == '\r'
}

/// The characters that are trimmed from both ends of a line: those with the
/// Unicode property `White_Space`.
pub open spec fn is_space(c: char) -> bool {
    ||| '\u{9}' <= c <= '\u{d}'
    ||| c == ' '
    ||| c == '\u{85}'
    ||| c == '\u{a0}'
    ||| c == '\u{1680}'
    ||| '\u{2000}' <= c <= '\u{200a}'
    ||| c == '\u{2028}'
    ||| c == '\u{2029}'
    ||| c == '\u{202f}'
    ||| c == '\u{205f}'
    ||| c == '\u{3000}'
}

/// `s` without its leading white space.
pub open spec fn trim_start(s: Seq<char>) -> Seq<char>
    decreases s.len(),
{
    if s.len() > 0 && is_space(s[0]) {
        trim_start(s.drop_first())
    } else {
        s
    }
}

/// `s` without its trailing white space.
pub open spec fn trim_end(s: Seq<char>) -> Seq<char>
    decreases s.len(),
{
    if s.len() > 0 && is_space(s.last()) {
        trim_end(s.drop_last())
    } else {
        s
    }
}

/// `s` without white space at either end.
pub open spec fn trimmed(s: Seq<char>) -> Seq<char> {
    trim_end(trim_start(s))
}

/// The length of the longest prefix of `s` that holds no splitting character.
pub open spec fn word_len(s: Seq<char>) -> nat
    decreases s.len(),
{
    if s.len() == 0 || is_ascii_space(s[0]) {
        0
    } else {
        1 + word_len(s.drop_first())
    }
}

/// A word is no longer than the text it starts, and not empty where the text
/// starts with a character that does not split.
pub proof fn lemma_word_len_bounds(s: Seq<char>)
    ensures
        word_len(s) <= s.len(),
        s.len() > 0 && !is_ascii_space(s[0]) ==> word_len(s) >= 1,
    decreases s.len(),
{
    if s.len() > 0 && !is_ascii_space(s[0]) {
        lemma_word_len_bounds(s.drop_first());
    }
}

/// The tokens of `s`: its maximal runs of characters that do not split.
pub open spec fn tokens(s: Seq<char>) -> Seq<Seq<char>>
    decreases s.len(),
    via tokens_decreases
{
    if s.len() == 0 {
        Seq::empty()
    } else if is_ascii_space(s[0]) {
        tokens(s.drop_first())
    } else {
        let n = word_len(s) as int;
        seq![s.take(n)] + tokens(s.skip(n))
    }
}

#[via_fn]
proof fn tokens_decreases(s: Seq<char>) {
    lemma_word_len_bounds(s);
}

/// A command, as character sequences.
pub enum CommandView {
    Add(Seq<char>, Seq<char>),
    List(Seq<char>),
    All,
    Quit,
    Help,
}

/// A command of the directory's language.
#[derive(Debug, PartialEq, Eq)]
pub enum Command {
    /// `:add <employee> <department>`
    Add(String, String),
    /// `:list <department>`
    List(String),
    /// `:all`
    All,
    /// `:quit` or `:q`
    Quit,
    /// `:help` or `:h`
    Help,
}

impl View for Command {
    type V = CommandView;

    open spec fn view(&self) -> CommandView {
        match self {
            Command::Add(employee, department) => CommandView::Add(employee@, department@),
            Command::List(department) => CommandView::List(department@),
            Command::All => CommandView::All,
            Command::Quit => CommandView::Quit,
            Command::Help => CommandView::Help,
        }
    }
}

/// The command that a sequence of tokens stands for. The first token selects
/// it; tokens behind the ones it needs are ignored.
pub open spec fn command_of(t: Seq<Seq<char>>) -> Option<CommandView> {
    if t.len() == 0 {
        None
    } else if t[0] == ":add"@ {
        if t.len() >= 3 {
            Some(CommandView::Add(t[1], t[2]))
        } else {
            None
        }
    } else if t[0] == ":list"@ {
        if t.len() >= 2 {
            Some(CommandView::List(t[1]))
        } else {
            None
        }
    } else if t[0] == ":all"@ {
        Some(CommandView::All)
    } else if t[0] == ":quit"@ || t[0] == ":q"@ {
        Some(CommandView::Quit)
    } else if t[0] == ":help"@ || t[0] == ":h"@ {
        Some(CommandView::Help)
    } else {
        None
    }
}

/// The command that a line stands for, if any.
pub open spec fn parse(line: Seq<char>) -> Option<CommandView> {
    command_of(tokens(trimmed(line)))
}

/// The view of an optional command.
pub open spec fn parsed_view(r: Option<Command>) -> Option<CommandView> {
    match r {
        Some(c) => Some(c@),
        None => None,
    }
}

/// Whether `c` splits a line into tokens.
pub fn splits(c: char) -> (r: bool)
    ensures
        r == is_ascii_space(c),
{
    c == ' ' || c == '\t' || c == '\n' || c == '\x0C' || c == '\r'
}

/// Whether `c` is trimmed from the ends of a line.
pub fn is_white_space(c: char) -> (r: bool)
    ensures
        r == is_space(c),
{
    ('\u{9}' <= c && c <= '\u{d}') || c == ' ' || c == '\u{85}' || c == '\u{a0}' || c
        == '\u{1680}' || ('\u{2000}' <= c && c <= '\u{200a}') || c == '\u{2028}' || c
        == '\u{2029}' || c == '\u{202f}' || c == '\u{205f}' || c == '\u{3000}'
}

/// The bounds of what is left of `chars` when it is trimmed.
fn trim_bounds(chars: &Vec<char>) -> (r: (usize, usize))
    ensures
        r.0 <= r.1 <= chars.len(),
        chars@.subrange(r.0 as int, r.1 as int) == trimmed(chars@),
{
    let mut lo: usize = 0;
    proof {
        assert(chars@.skip(0) =~= chars@);
    }
    while lo < chars.len() && is_white_space(chars[lo])
        invariant
            lo <= chars.len(),
            trim_start(chars@) == trim_start(chars@.skip(lo as int)),
        decreases chars.len() - lo,
    {
        proof {
            assert(chars@.skip(lo as int).drop_first() =~= chars@.skip(lo + 1));
        }
        lo += 1;
    }
    let mut hi: usize = chars.len();
    proof {
        assert(chars@.skip(lo as int) =~= chars@.subrange(lo as int, hi as int));
    }
    while hi > lo && is_white_space(chars[hi - 1])
        invariant
            lo <= hi <= chars.len(),
            trimmed(chars@) == trim_end(chars@.subrange(lo as int, hi as int)),
        decreases hi,
    {
        proof {
            assert(chars@.subrange(lo as int, hi as int).drop_last() =~= chars@.subrange(
                lo as int,
                hi - 1,
            ));
        }
        hi -= 1;
    }
    (lo, hi)
}

/// The bounds of the first token of `chars` between `from` and `to`; the two
/// bounds are equal where there is none.
fn next_token(chars: &Vec<char>, from: usize, to: usize) -> (r: (usize, usize))
    requires
        from <= to <= chars.len(),
    ensures
        from <= r.0 <= r.1 <= to,
        r.0 == r.1 ==> tokens(chars@.subrange(from as int, to as int)).len() == 0,
        r.0 < r.1 ==> tokens(chars@.subrange(from as int, to as int)) == seq![
            chars@.subrange(r.0 as int, r.1 as int),
        ] + tokens(chars@.subrange(r.1 as int, to as int)),
{
    let mut a: usize = from;
    while a < to && splits(chars[a])
        invariant
            from <= a <= to <= chars.len(),
            tokens(chars@.subrange(from as int, to as int)) == tokens(
                chars@.subrange(a as int, to as int),
            ),
        decreases to - a,
    {
        proof {
            assert(chars@.subrange(a as int, to as int).drop_first() =~= chars@.subrange(
                a + 1,
                to as int,
            ));
        }
        a += 1;
    }
    let mut b: usize = a;
    while b < to && !splits(chars[b])
        invariant
            a <= b <= to <= chars.len(),
            word_len(chars@.subrange(a as int, to as int)) == (b - a) + word_len(
                chars@.subrange(b as int, to as int),
            ),
        decreases to - b,
    {
        proof {
            assert(chars@.subrange(b as int, to as int).drop_first() =~= chars@.subrange(
                b + 1,
                to as int,
            ));
        }
        b += 1;
    }
    proof {
        let rest = chars@.subrange(a as int, to as int);
        if a < b {
            assert(rest.take(b - a) =~= chars@.subrange(a as int, b as int));
            assert(rest.skip(b - a) =~= chars@.subrange(b as int, to as int));
        }
    }
    (a, b)
}

/// The characters of `line` from `from` up to `to`, as a string.
fn piece(line: &str, from: usize, to: usize) -> (r: String)
    requires
        from <= to <= line@.len(),
    ensures
        r@ == line@.subrange(from as int, to as int),
{
    String::from_str(line.substring_char(from, to))
}

/// Whether `token` reads as `word`.
fn reads(token: &String, word: &str) -> (r: bool)
    ensures
        r == (token@ == word@),
{
    *token == String::from_str(word)
}

/// Reads one line as a command. `None` stands for a line that is no command:
/// an empty one, an unknown first word, or too few words behind it.
pub fn parse_input(input: String) -> (r: Option<Command>)
    ensures
        parsed_view(r) == parse(input@),
{
    let line = input.as_str();
    let chars = to_chars(line);
    let (lo, hi) = trim_bounds(&chars);
    let (a0, b0) = next_token(&chars, lo, hi);
    if a0 == b0 {
        return None;
    }
    let first = piece(line, a0, b0);
    let (a1, b1) = next_token(&chars, b0, hi);
    let (a2, b2) = next_token(&chars, b1, hi);
    let ghost t = tokens(trimmed(input@));
    proof {
        assert(t[0] == first@);
        assert(a1 < b1 ==> t.len() >= 2 && t[1] == chars@.subrange(a1 as int, b1 as int));
        assert(a1 == b1 ==> t.len() == 1);
        assert(a1 < b1 && a2 < b2 ==> t.len() >= 3 && t[2] == chars@.subrange(
            a2 as int,
            b2 as int,
        ));
        assert(a1 < b1 && a2 == b2 ==> t.len() == 2);
    }
    if reads(&first, ":add") {
        if a1 < b1 && a2 < b2 {
            Some(Command::Add(piece(line, a1, b1), piece(line, a2, b2)))
        } else {
            None
        }
    } else if reads(&first, ":list") {
        if a1 < b1 {
            Some(Command::List(piece(line, a1, b1)))
        } else {
            None
        }
    } else if reads(&first, ":all") {
        Some(Command::All)
    } else if reads(&first, ":quit") || reads(&first, ":q") {
        Some(Command::Quit)
    } else if reads(&first, ":help") || reads(&first, ":h") {
        Some(Command::Help)
    } else {
        None
    }
}

/// One line of the help text: a usage behind `* `, with a line feed.
pub open spec fn help_line(usage: Seq<char>) -> Seq<char> {
    "* "@ + usage + "\n"@
}

/// The help text: one line for each command, in a fixed order.
pub open spec fn help_text() -> Seq<char> {
    help_line(":add <Person> <Department>"@) + help_line(":list <Department>"@) + help_line(
        ":all"@,
    ) + help_line(":quit (:q)"@) + help_line(":help (:h)"@)
}

/// Appends the help line for one usage.
fn push_help_line(text: &mut String, usage: &str)
    ensures
        final(text)@ == old(text)@ + help_line(usage@),
{
    text.append("* ");
    text.append(usage);
    text.append("\n");
    proof {
        assert(text@ =~= old(text)@ + help_line(usage@));
    }
}

/// The help text.
pub fn help() -> (text: String)
    ensures
        text@ == help_text(),
{
    let mut text = String::new();
    push_help_line(&mut text, ":add <Person> <Department>");
    push_help_line(&mut text, ":list <Department>");
    push_help_line(&mut text, ":all");
    push_help_line(&mut text, ":quit (:q)");
    push_help_line(&mut text, ":help (:h)");
    proof {
        assert(text@ =~= help_text());
    }
    text
}

} // verus!
