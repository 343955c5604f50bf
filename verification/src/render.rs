//! How the outcome of a query is laid out as lines of text.

use crate::store::{
    all_outcome, department_outcome, listing, Directory, NaiveStore, Outcome,
    OutcomeView,
};
use crate::text::{indent, indented, names, prefixed};
use vstd::prelude::*;

verus! {

/// The line shown for a directory that holds nothing.
pub open spec fn nothing_line() -> Seq<char> {
    indented("Nothing to show yet, make sure to add a new entry with :add"@, 2)
}

/// The line that opens the answer for an unknown department.
pub open spec fn unknown_line() -> Seq<char> {
    indented("Incorrect department name:"@, 2)
}

/// One line per item: the item behind `* `, indented by `level` spaces.
pub open spec fn bullets(items: Seq<Seq<char>>, level: nat) -> Seq<Seq<char>> {
    Seq::new(items.len(), |i: int| indented("* "@ + items[i], level))
}

/// For each department its name behind `# ` at two spaces, then its
/// employees as bullets at four.
pub open spec fn sections(dir: Directory) -> Seq<Seq<char>>
    decreases dir.len(),
{
    if dir.len() == 0 {
        Seq::empty()
    } else {
        sections(dir.drop_last()) + seq![indented("# "@ + dir.last().0, 2)] + bullets(
            dir.last().1,
            4,
        )
    }
}

/// The lines that show an outcome.
pub open spec fn rendered(outcome: OutcomeView) -> Seq<Seq<char>> {
    match outcome {
        OutcomeView::Nothing => seq![nothing_line()],
        OutcomeView::Employees(v) => bullets(v, 2),
        OutcomeView::UnknownDepartment(v) => seq![unknown_line()] + bullets(v, 4),
        OutcomeView::Everything(dir) => sections(dir),
    }
}

/// Appends one bullet line per item.
fn push_bullets(lines: &mut Vec<String>, items: &Vec<String>, level: usize)
    ensures
        names(final(lines)@) == names(old(lines)@) + bullets(names(items@), level as nat),
{
    let mut i: usize = 0;
    while i < items.len()
        invariant
            i <= items.len(),
            names(lines@) == names(old(lines)@) + bullets(names(items@), level as nat).take(
                i as int,
            ),
        decreases items.len() - i,
    {
        let ghost before = names(lines@);
        let text = prefixed("* ", items[i].as_str());
        lines.push(indent(text.as_str(), level));
        proof {
            let all = bullets(names(items@), level as nat);
            assert(names(lines@) =~= before.push(all[i as int]));
            assert(all.take(i + 1) =~= all.take(i as int).push(all[i as int]));
            assert(names(lines@) =~= names(old(lines)@) + all.take(i + 1));
        }
        i += 1;
    }
    proof {
        let all = bullets(names(items@), level as nat);
        assert(all.take(i as int) =~= all);
    }
}

/// Lays an outcome out as lines of text.
pub fn render(outcome: &Outcome) -> (lines: Vec<String>)
    ensures
        names(lines@) == rendered(outcome@),
{
    let mut lines: Vec<String> = Vec::new();
    proof {
        assert(names(lines@) =~= Seq::empty());
    }
    match outcome {
        Outcome::Nothing => {
            lines.push(indent("Nothing to show yet, make sure to add a new entry with :add", 2));
            proof {
                assert(names(lines@) =~= seq![nothing_line()]);
            }
        },
        Outcome::Employees(v) => {
            push_bullets(&mut lines, v, 2);
            proof {
                assert(names(lines@) =~= bullets(names(v@), 2));
            }
        },
        Outcome::UnknownDepartment(v) => {
            lines.push(indent("Incorrect department name:", 2));
            proof {
                assert(names(lines@) =~= seq![unknown_line()]);
            }
            push_bullets(&mut lines, v, 4);
        },
        Outcome::Everything(all) => {
            let mut i: usize = 0;
            proof {
                assert(listing(all@).take(0) =~= Seq::empty());
            }
            while i < all.len()
                invariant
                    i <= all.len(),
                    names(lines@) == sections(listing(all@).take(i as int)),
                decreases all.len() - i,
            {
                let ghost before = names(lines@);
                let text = prefixed("# ", all[i].0.as_str());
                lines.push(indent(text.as_str(), 2));
                proof {
                    assert(names(lines@) =~= before + seq![indented("# "@ + all@[i as int].0@, 2)]);
                }
                push_bullets(&mut lines, &all[i].1, 4);
                proof {
                    let next = listing(all@).take(i + 1);
                    assert(next.drop_last() =~= listing(all@).take(i as int));
                    assert(next.last() == listing(all@)[i as int]);
                }
                i += 1;
            }
            proof {
                assert(listing(all@).take(i as int) =~= listing(all@));
            }
        },
    }
    lines
}

impl NaiveStore {
    /// The lines that answer a request for one department.
    pub fn print_by_department(&self, department: String) -> (lines: Vec<String>)
        ensures
            names(lines@) == rendered(department_outcome(self@, department@)),
    {
        let outcome = self.query_department(department.as_str());
        render(&outcome)
    }

    /// The lines that show the whole directory.
    pub fn print_all(&self) -> (lines: Vec<String>)
        ensures
            names(lines@) == rendered(all_outcome(self@)),
    {
        let outcome = self.query_all();
        render(&outcome)
    }
}

} // verus!
