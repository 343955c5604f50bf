//! The directory itself: departments in the order in which they first
//! appeared, each with its employees kept in ascending lexicographic order.

use crate::text::{chars_le, lemma_lex_le_total, lemma_lex_le_transitive, lemma_name_order_total, lex_le, name_order, names, to_chars};
use vstd::prelude::*;
use vstd::relations::*;
use vstd::seq_lib::*;

verus! {

/// The mathematical model of a directory: `(department, employees)` pairs in
/// enumeration order.
pub type Directory = Seq<(Seq<char>, Seq<Seq<char>>)>;

/// The department names of `dir`, in enumeration order.
pub open spec fn departments(dir: Directory) -> Seq<Seq<char>> {
    Seq::new(dir.len(), |i: int| dir[i].0)
}

/// Whether `dir` has an entry for `department`.
pub open spec fn has_department(dir: Directory, department: Seq<char>) -> bool {
    exists|i: int| 0 <= i < dir.len() && (#[trigger] dir[i]).0 == department
}

/// The position of the entry for `department`, where there is one.
pub open spec fn index_of(dir: Directory, department: Seq<char>) -> int {
    choose|i: int| 0 <= i < dir.len() && (#[trigger] dir[i]).0 == department
}

/// The employees of `department`; empty where the department is unknown.
pub open spec fn employees_of(dir: Directory, department: Seq<char>) -> Seq<Seq<char>> {
    if has_department(dir, department) {
        dir[index_of(dir, department)].1
    } else {
        Seq::empty()
    }
}

/// No department occurs twice, none is empty, and each one's employees are in
/// ascending lexicographic order.
pub open spec fn well_formed(dir: Directory) -> bool {
    &&& forall|i: int, j: int|
        0 <= i < j < dir.len() ==> (#[trigger] dir[i]).0 != (#[trigger] dir[j]).0
    &&& forall|i: int| 0 <= i < dir.len() ==> (#[trigger] dir[i]).1.len() > 0
    &&& forall|i: int| 0 <= i < dir.len() ==> sorted_by((#[trigger] dir[i]).1, name_order())
}

/// The directory after `employee` joined `department`: the employee is
/// appended to the department's list, which is then sorted again; a
/// department seen for the first time goes to the end of the enumeration.
pub open spec fn added(dir: Directory, employee: Seq<char>, department: Seq<char>) -> Directory {
    if has_department(dir, department) {
        let i = index_of(dir, department);
        dir.update(i, (department, dir[i].1.push(employee).sort_by(name_order())))
    } else {
        dir.push((department, seq![employee]))
    }
}

/// What a query yields, as character sequences.
pub enum OutcomeView {
    Nothing,
    Employees(Seq<Seq<char>>),
    UnknownDepartment(Seq<Seq<char>>),
    Everything(Directory),
}

/// What asking for one department yields.
pub open spec fn department_outcome(dir: Directory, department: Seq<char>) -> OutcomeView {
    if dir.len() == 0 {
        OutcomeView::Nothing
    } else if has_department(dir, department) {
        OutcomeView::Employees(employees_of(dir, department))
    } else {
        OutcomeView::UnknownDepartment(departments(dir))
    }
}

/// What asking for the whole directory yields.
pub open spec fn all_outcome(dir: Directory) -> OutcomeView {
    if dir.len() == 0 {
        OutcomeView::Nothing
    } else {
        OutcomeView::Everything(dir)
    }
}

/// The views of a listing of departments with their employees.
pub open spec fn listing(v: Seq<(String, Vec<String>)>) -> Directory {
    Seq::new(v.len(), |i: int| (v[i].0@, names(v[i].1@)))
}

/// The result of a query.
#[derive(Debug, PartialEq, Eq)]
pub enum Outcome {
    /// The directory holds nothing at all.
    Nothing,
    /// The employees of the department asked for, in ascending order.
    Employees(Vec<String>),
    /// The department asked for is unknown; these are the known ones.
    UnknownDepartment(Vec<String>),
    /// Every department with its employees, in enumeration order.
    Everything(Vec<(String, Vec<String>)>),
}

impl View for Outcome {
    type V = OutcomeView;

    open spec fn view(&self) -> OutcomeView {
        match self {
            Outcome::Nothing => OutcomeView::Nothing,
            Outcome::Employees(v) => OutcomeView::Employees(names(v@)),
            Outcome::UnknownDepartment(v) => OutcomeView::UnknownDepartment(names(v@)),
            Outcome::Everything(v) => OutcomeView::Everything(listing(v@)),
        }
    }
}

/// Inserting `e` at position `k` of a sorted `s`, where everything before
/// `k` is at most `e` and the element at `k` is greater, is the same as
/// appending `e` and sorting.
proof fn lemma_sorted_insert(s: Seq<Seq<char>>, k: int, e: Seq<char>)
    requires
        sorted_by(s, name_order()),
        0 <= k <= s.len(),
        forall|j: int| 0 <= j < k ==> lex_le(#[trigger] s[j], e),
        k < s.len() ==> !lex_le(s[k], e),
    ensures
        s.insert(k, e) == s.push(e).sort_by(name_order()),
        sorted_by(s.insert(k, e), name_order()),
{
    let r = s.insert(k, e);
    let ord = name_order();
    lemma_name_order_total();
    assert forall|i: int, j: int| 0 <= i < j < r.len() implies #[trigger] ord(r[i], r[j]) by {
        if j < k {
            assert(ord(s[i], s[j]));
        } else if j == k {
            assert(lex_le(s[i], e));
        } else if i == k {
            lemma_lex_le_total(s[k], e);
            if j - 1 > k {
                assert(ord(s[k], s[j - 1]));
                lemma_lex_le_transitive(e, s[k], s[j - 1]);
            }
        } else if i < k {
            assert(ord(s[i], s[j - 1]));
        } else {
            assert(ord(s[i - 1], s[j - 1]));
        }
    }
    to_multiset_insert(s, k, e);
    to_multiset_build(s, e);
    s.push(e).lemma_sort_by_ensures(ord);
    lemma_sorted_unique(r, s.push(e).sort_by(ord), ord);
}

/// Puts `employee` into the sorted `list`, keeping it sorted.
fn insert_name(list: &mut Vec<String>, employee: String)
    requires
        sorted_by(names(old(list)@), name_order()),
    ensures
        names(final(list)@) == names(old(list)@).push(employee@).sort_by(name_order()),
        sorted_by(names(final(list)@), name_order()),
{
    let key = to_chars(employee.as_str());
    let mut k: usize = 0;
    while k < list.len()
        invariant
            k <= list.len(),
            *list == *old(list),
            key@ == employee@,
            forall|j: int| 0 <= j < k ==> lex_le(#[trigger] names(list@)[j], employee@),
        ensures
            k <= list.len(),
            k < list.len() ==> !lex_le(names(list@)[k as int], employee@),
        decreases list.len() - k,
    {
        let here = to_chars(list[k].as_str());
        if !chars_le(&here, &key) {
            break;
        }
        k += 1;
    }
    proof {
        lemma_sorted_insert(names(list@), k as int, employee@);
        assert(names(list@.insert(k as int, employee)) =~= names(list@).insert(
            k as int,
            employee@,
        ));
    }
    list.insert(k, employee);
}

/// A copy of `list`.
fn clone_names(list: &Vec<String>) -> (r: Vec<String>)
    ensures
        names(r@) == names(list@),
{
    let mut r: Vec<String> = Vec::new();
    let mut i: usize = 0;
    while i < list.len()
        invariant
            i <= list.len(),
            r@.len() == i,
            forall|j: int| 0 <= j < i ==> (#[trigger] r@[j])@ == list@[j]@,
        decreases list.len() - i,
    {
        r.push(list[i].clone());
        i += 1;
    }
    proof {
        assert(names(r@) =~= names(list@));
    }
    r
}

/// One department with its employees.
struct Entry {
    name: String,
    employees: Vec<String>,
}

/// The directory of employees by department.
pub struct NaiveStore {
    state: Vec<Entry>,
}

/// What a list of entries stands for.
spec fn directory_of(state: Seq<Entry>) -> Directory {
    Seq::new(state.len(), |i: int| (state[i].name@, names(state[i].employees@)))
}

impl View for NaiveStore {
    type V = Directory;

    closed spec fn view(&self) -> Directory {
        directory_of(self.state@)
    }
}

impl NaiveStore {
    /// Every directory is well formed, at all times.
    #[verifier::type_invariant]
    pub open spec fn inv(&self) -> bool {
        well_formed(self@)
    }

    /// An empty directory.
    pub fn new() -> (store: NaiveStore)
        ensures
            store@ == Seq::<(Seq<char>, Seq<Seq<char>>)>::empty(),
            well_formed(store@),
    {
        let store = NaiveStore { state: Vec::new() };
        proof {
            assert(store@ =~= Seq::empty());
        }
        store
    }

    /// The position of `department` among the entries.
    fn find(&self, department: &str) -> (r: Option<usize>)
        ensures
            match r {
                Some(i) => i < self@.len() && self@[i as int].0 == department@,
                None => !has_department(self@, department@),
            },
    {
        let wanted = String::from_str(department);
        let mut i: usize = 0;
        while i < self.state.len()
            invariant
                i <= self.state.len(),
                wanted@ == department@,
                forall|j: int| 0 <= j < i ==> (#[trigger] self@[j]).0 != department@,
            decreases self.state.len() - i,
        {
            if self.state[i].name == wanted {
                return Some(i);
            }
            i += 1;
        }
        None
    }

    /// Records that `employee` belongs to `department`.
    pub fn add(&mut self, employee: String, department: String)
        ensures
            final(self)@ == added(old(self)@, employee@, department@),
            well_formed(final(self)@),
    {
        let ghost before = self@;
        proof {
            use_type_invariant(&*self);
            lemma_added_well_formed(before, employee@, department@);
        }
        let found = self.find(department.as_str());
        // The entries leave the directory while they change, and an empty
        // list stands in for them.
        let mut state: Vec<Entry> = Vec::new();
        proof {
            assert(directory_of(state@) =~= Seq::empty());
        }
        core::mem::swap(&mut self.state, &mut state);
        match found {
            Some(i) => {
                proof {
                    assert(before[i as int].0 == department@);
                    assert(index_of(before, department@) == i);
                    assert(sorted_by(before[i as int].1, name_order()));
                }
                insert_name(&mut state[i].employees, employee);
            },
            None => {
                let mut employees: Vec<String> = Vec::new();
                employees.push(employee);
                proof {
                    assert(names(employees@) =~= seq![employee@]);
                }
                state.push(Entry { name: department, employees });
            },
        }
        proof {
            assert(directory_of(state@) =~= added(before, employee@, department@));
        }
        core::mem::swap(&mut self.state, &mut state);
    }

    /// Asks for the employees of one department.
    pub fn query_department(&self, department: &str) -> (outcome: Outcome)
        ensures
            outcome@ == department_outcome(self@, department@),
            outcome matches Outcome::Employees(v) ==> sorted_by(names(v@), name_order()),
    {
        proof {
            use_type_invariant(self);
        }
        if self.state.len() == 0 {
            return Outcome::Nothing;
        }
        match self.find(department) {
            Some(i) => {
                proof {
                    assert(self@[i as int].0 == department@);
                    assert(index_of(self@, department@) == i);
                }
                Outcome::Employees(clone_names(&self.state[i].employees))
            },
            None => {
                let mut known: Vec<String> = Vec::new();
                let mut i: usize = 0;
                while i < self.state.len()
                    invariant
                        i <= self.state.len(),
                        known@.len() == i,
                        forall|j: int| 0 <= j < i ==> (#[trigger] known@[j])@ == self@[j].0,
                    decreases self.state.len() - i,
                {
                    known.push(self.state[i].name.clone());
                    i += 1;
                }
                proof {
                    assert(names(known@) =~= departments(self@));
                }
                Outcome::UnknownDepartment(known)
            },
        }
    }

    /// Asks for every department with its employees.
    pub fn query_all(&self) -> (outcome: Outcome)
        ensures
            outcome@ == all_outcome(self@),
    {
        if self.state.len() == 0 {
            return Outcome::Nothing;
        }
        let mut all: Vec<(String, Vec<String>)> = Vec::new();
        let mut i: usize = 0;
        while i < self.state.len()
            invariant
                i <= self.state.len(),
                all@.len() == i,
                forall|j: int|
                    0 <= j < i ==> (#[trigger] all@[j]).0@ == self@[j].0 && names(all@[j].1@)
                        == self@[j].1,
            decreases self.state.len() - i,
        {
            let employees = clone_names(&self.state[i].employees);
            all.push((self.state[i].name.clone(), employees));
            i += 1;
        }
        proof {
            assert(listing(all@) =~= self@);
        }
        Outcome::Everything(all)
    }
}

/// Adding an employee keeps a directory well formed.
pub proof fn lemma_added_well_formed(dir: Directory, employee: Seq<char>, department: Seq<char>)
    requires
        well_formed(dir),
    ensures
        well_formed(added(dir, employee, department)),
{
    let after = added(dir, employee, department);
    if has_department(dir, department) {
        let i = index_of(dir, department);
        let list = dir[i].1.push(employee);
        lemma_name_order_total();
        list.lemma_sort_by_ensures(name_order());
        to_multiset_len(list);
        to_multiset_len(list.sort_by(name_order()));
        assert forall|a: int, b: int| 0 <= a < b < after.len() implies (#[trigger] after[a]).0 != (
        #[trigger] after[b]).0 by {
            assert(dir[a].0 != dir[b].0);
        }
        assert forall|a: int| 0 <= a < after.len() implies (#[trigger] after[a]).1.len() > 0
            && sorted_by(after[a].1, name_order()) by {
            if a != i {
                assert(after[a] == dir[a]);
            }
        }
    } else {
        assert forall|a: int, b: int| 0 <= a < b < after.len() implies (#[trigger] after[a]).0 != (
        #[trigger] after[b]).0 by {
            if b < dir.len() {
                assert(dir[a].0 != dir[b].0);
            } else {
                assert(dir[a].0 != department);
            }
        }
        assert forall|a: int| 0 <= a < after.len() implies (#[trigger] after[a]).1.len() > 0
            && sorted_by(after[a].1, name_order()) by {
            if a < dir.len() {
                assert(after[a] == dir[a]);
            }
        }
    }
}

} // verus!
