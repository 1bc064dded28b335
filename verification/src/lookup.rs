//! Finding an entry of a list by its name. A later entry hides an earlier one
//! of the same name, as in a map that is filled in file order.

use vstd::prelude::*;
use crate::attributes::Attribute;
use crate::dimension::Dimension;
use crate::variable::Variable;

verus! {

/// The index of the last of `names` that equals `name`, if there is one.
pub open spec fn last_index_of(names: Seq<Seq<char>>, name: Seq<char>) -> Option<int>
    decreases names.len(),
{
    if names.len() == 0 {
        None
    } else if names.last() == name {
        Some(names.len() - 1)
    } else {
        last_index_of(names.drop_last(), name)
    }
}

/// What [`last_index_of`] finds is an entry of that name, and no later entry
/// has the name.
pub proof fn lemma_last_index_of(names: Seq<Seq<char>>, name: Seq<char>)
    ensures
        match last_index_of(names, name) {
            Some(i) => 0 <= i < names.len() && names[i] == name && forall|j: int|
                i < j < names.len() ==> names[j] != name,
            None => forall|j: int| 0 <= j < names.len() ==> names[j] != name,
        },
    decreases names.len(),
{
    if names.len() > 0 && names.last() != name {
        let front = names.drop_last();
        lemma_last_index_of(front, name);
        assert(forall|j: int| 0 <= j < front.len() ==> front[j] == names[j]);
        match last_index_of(front, name) {
            Some(i) => {
                assert forall|j: int| i < j < names.len() implies names[j] != name by {
                    if j < front.len() {
                        assert(front[j] != name);
                    }
                }
            },
            None => {
                assert forall|j: int| 0 <= j < names.len() implies names[j] != name by {
                    if j < front.len() {
                        assert(front[j] != name);
                    }
                }
            },
        }
    }
}

/// Something that has a name.
pub trait Named {
    /// The name, as a mathematical value.
    spec fn spec_name(&self) -> Seq<char>;

    /// Returns the name.
    fn name(&self) -> (name: &String)
        ensures
            name@ == self.spec_name(),
    ;
}

impl Named for Dimension {
    open spec fn spec_name(&self) -> Seq<char> {
        self.name@
    }

    fn name(&self) -> (name: &String) {
        &self.name
    }
}

impl Named for Attribute {
    open spec fn spec_name(&self) -> Seq<char> {
        self.name@
    }

    fn name(&self) -> (name: &String) {
        &self.name
    }
}

impl Named for Variable {
    open spec fn spec_name(&self) -> Seq<char> {
        self.name@
    }

    fn name(&self) -> (name: &String) {
        &self.name
    }
}

/// The names of a sequence of items.
pub open spec fn names<T: Named>(items: Seq<T>) -> Seq<Seq<char>> {
    Seq::new(items.len(), |i: int| items[i].spec_name())
}

/// The index that an optional machine index stands for.
pub open spec fn as_int(index: Option<usize>) -> Option<int> {
    match index {
        Some(i) => Some(i as int),
        None => None,
    }
}

/// Finds the last of `items` that is called `name`.
pub fn find_last<T: Named>(items: &Vec<T>, name: &String) -> (found: Option<usize>)
    ensures
        as_int(found) == last_index_of(names(items@), name@),
{
    let mut i: usize = items.len();
    assert(names(items@).take(i as int) =~= names(items@));
    while i > 0
        invariant
            i <= items.len(),
            last_index_of(names(items@), name@) == last_index_of(names(items@).take(i as int), name@),
        decreases i,
    {
        let ghost upto = names(items@).take(i as int);
        i = i - 1;
        proof {
            assert(upto.last() == items@[i as int].spec_name());
            assert(upto.drop_last() =~= names(items@).take(i as int));
        }
        if *items[i].name() == *name {
            return Some(i);
        }
    }
    None
}

} // verus!
