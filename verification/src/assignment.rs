//! Assignments of truth values to variables.

use vstd::prelude::*;

verus! {

/// The map that comes of inserting the entries one after the other.
pub open spec fn as_map(entries: Seq<(char, bool)>) -> Map<char, bool>
    decreases entries.len(),
{
    if entries.len() == 0 {
        Map::empty()
    } else {
        as_map(entries.drop_last()).insert(entries.last().0, entries.last().1)
    }
}

/// No variable stands in two entries.
pub open spec fn distinct_variables(entries: Seq<(char, bool)>) -> bool {
    forall|i: int, j: int|
        0 <= i < j < entries.len() ==> (#[trigger] entries[i]).0 != (#[trigger] entries[j]).0
}

/// Whether some entry is about `var`.
pub open spec fn mentions(entries: Seq<(char, bool)>, var: char) -> bool {
    exists|j: int| 0 <= j < entries.len() && (#[trigger] entries[j]).0 == var
}

/// The map of some entries has the variables of the entries for its domain,
/// and holds the value of each entry where no variable stands twice.
pub proof fn lemma_as_map(entries: Seq<(char, bool)>)
    ensures
        forall|c: char|
            #![trigger as_map(entries).dom().contains(c)]
            #![trigger mentions(entries, c)]
            as_map(entries).dom().contains(c) <==> mentions(entries, c),
        distinct_variables(entries) ==> forall|j: int|
            0 <= j < entries.len() ==> as_map(entries)[(#[trigger] entries[j]).0] == entries[j].1,
    decreases entries.len(),
{
    if entries.len() > 0 {
        let before = entries.drop_last();
        let last = entries.last();
        lemma_as_map(before);
        assert forall|c: char| as_map(entries).dom().contains(c) <==> mentions(entries, c) by {
            if mentions(entries, c) {
                let j = choose|j: int| 0 <= j < entries.len() && (#[trigger] entries[j]).0 == c;
                if j < entries.len() - 1 {
                    assert(before[j].0 == c);
                    assert(mentions(before, c));
                }
            }
            if as_map(entries).dom().contains(c) {
                if c == last.0 {
                    assert(entries[entries.len() - 1].0 == c);
                } else {
                    assert(mentions(before, c));
                    let j = choose|j: int| 0 <= j < before.len() && (#[trigger] before[j]).0 == c;
                    assert(entries[j].0 == c);
                }
            }
        }
        if distinct_variables(entries) {
            assert(distinct_variables(before)) by {
                assert forall|i: int, j: int| 0 <= i < j < before.len() implies (
                #[trigger] before[i]).0 != (#[trigger] before[j]).0 by {
                    assert(before[i] == entries[i] && before[j] == entries[j]);
                }
            }
            assert forall|j: int| 0 <= j < entries.len() implies as_map(entries)[(
            #[trigger] entries[j]).0] == entries[j].1 by {
                if j < entries.len() - 1 {
                    assert(before[j] == entries[j]);
                    assert(entries[j].0 != entries[entries.len() - 1].0);
                }
            }
        }
    }
}

/// A truth value for each of some variables, kept in the order in which the
/// variables were first given one.
#[derive(Debug, PartialEq, Eq)]
pub struct Assignment {
    entries: Vec<(char, bool)>,
}

/// An assignment is viewed as the map from its variables to their values.
/// The view leaves out the order of the entries, which `entries()` gives.
impl View for Assignment {
    type V = Map<char, bool>;

    open spec fn view(&self) -> Map<char, bool> {
        as_map(self.entries())
    }
}

impl Assignment {
    /// The variables with their values, in order. No variable occurs twice.
    pub closed spec fn entries(&self) -> Seq<(char, bool)> {
        self.entries@
    }

    #[verifier::type_invariant]
    spec fn no_variable_twice(&self) -> bool {
        distinct_variables(self.entries@)
    }

    /// The assignment of no variable.
    pub fn new() -> (assignment: Assignment)
        ensures
            assignment.entries() == Seq::<(char, bool)>::empty(),
    {
        Assignment { entries: Vec::new() }
    }

    /// The number of variables that have a value.
    pub fn len(&self) -> (n: usize)
        ensures
            n == self.entries().len(),
    {
        self.entries.len()
    }

    /// The variables with their values, in order.
    pub fn as_slice(&self) -> (entries: &[(char, bool)])
        ensures
            entries@ == self.entries(),
            distinct_variables(self.entries()),
    {
        proof {
            use_type_invariant(self);
        }
        self.entries.as_slice()
    }

    /// The index of the entry about `var`.
    fn find(&self, var: char) -> (found: Option<usize>)
        ensures
            match found {
                Some(j) => j < self.entries().len() && self.entries()[j as int].0 == var,
                None => !mentions(self.entries(), var),
            },
    {
        let mut j: usize = 0;
        while j < self.entries.len()
            invariant
                j <= self.entries.len(),
                forall|i: int| 0 <= i < j ==> (#[trigger] self.entries@[i]).0 != var,
            decreases self.entries.len() - j,
        {
            if self.entries[j].0 == var {
                return Some(j);
            }
            j = j + 1;
        }
        None
    }

    /// The value of `var`, if it has one.
    pub fn get(&self, var: char) -> (value: Option<bool>)
        ensures
            value == if self@.dom().contains(var) {
                Some(self@[var])
            } else {
                None
            },
            value is Some <==> mentions(self.entries(), var),
    {
        proof {
            use_type_invariant(self);
            lemma_as_map(self.entries@);
        }
        match self.find(var) {
            Some(j) => {
                assert(self.entries@[j as int].0 == var);
                Some(self.entries[j].1)
            },
            None => None,
        }
    }

    /// Gives `var` the value `value` and returns the value that it had. A
    /// variable that had one keeps its place; a new one comes last.
    pub fn insert(&mut self, var: char, value: bool) -> (previous: Option<bool>)
        ensures
            final(self)@ == old(self)@.insert(var, value),
            previous == if old(self)@.dom().contains(var) {
                Some(old(self)@[var])
            } else {
                None
            },
            match previous {
                Some(_) => exists|j: int|
                    0 <= j < old(self).entries().len() && (#[trigger] old(self).entries()[j]).0
                        == var && final(self).entries() == old(self).entries().update(
                        j,
                        (var, value),
                    ),
                None => final(self).entries() == old(self).entries().push((var, value)),
            },
    {
        proof {
            use_type_invariant(&*self);
            lemma_as_map(self.entries@);
        }
        let ghost before = self.entries@;
        match self.find(var) {
            Some(j) => {
                let previous = self.entries[j].1;
                let mut entries: Vec<(char, bool)> = Vec::new();
                std::mem::swap(&mut self.entries, &mut entries);
                entries.set(j, (var, value));
                self.entries = entries;
                proof {
                    let after = self.entries@;
                    assert(distinct_variables(after)) by {
                        assert forall|a: int, b: int| 0 <= a < b < after.len() implies (
                        #[trigger] after[a]).0 != (#[trigger] after[b]).0 by {
                            assert(after[a].0 == before[a].0 && after[b].0 == before[b].0);
                        }
                    }
                    lemma_as_map(after);
                    assert(as_map(after) =~= as_map(before).insert(var, value)) by {
                        assert forall|c: char| as_map(after).dom().contains(c) <==> as_map(
                            before,
                        ).insert(var, value).dom().contains(c) by {
                            if mentions(after, c) {
                                let i = choose|i: int|
                                    0 <= i < after.len() && (#[trigger] after[i]).0 == c;
                                assert(before[i].0 == c);
                            }
                            if mentions(before, c) {
                                let i = choose|i: int|
                                    0 <= i < before.len() && (#[trigger] before[i]).0 == c;
                                assert(after[i].0 == c);
                            }
                        }
                        assert forall|c: char| as_map(after).dom().contains(c) implies as_map(
                            after,
                        )[c] == as_map(before).insert(var, value)[c] by {
                            assert(mentions(after, c));
                            let i = choose|i: int|
                                0 <= i < after.len() && (#[trigger] after[i]).0 == c;
                            if i == j {
                                assert(after[i] == (var, value));
                            } else {
                                assert(before[i].0 == c);
                                assert(after[i] == before[i]);
                                assert(before[i].0 != before[j as int].0);
                            }
                        }
                    }
                }
                Some(previous)
            },
            None => {
                let mut entries: Vec<(char, bool)> = Vec::new();
                std::mem::swap(&mut self.entries, &mut entries);
                entries.push((var, value));
                proof {
                    let after = entries@;
                    assert(after.drop_last() =~= before);
                    assert(distinct_variables(after)) by {
                        assert forall|a: int, b: int| 0 <= a < b < after.len() implies (
                        #[trigger] after[a]).0 != (#[trigger] after[b]).0 by {
                            if b < before.len() {
                                assert(after[a] == before[a] && after[b] == before[b]);
                            } else {
                                assert(after[a] == before[a]);
                                assert(before[a].0 != var);
                            }
                        }
                    }
                }
                self.entries = entries;
                None
            },
        }
    }
}

} // verus!
