//! The list of collection ids that a visitor has saved.

use crate::catalog::texts;
use vstd::prelude::*;

verus! {

/// Whether `at` is the first position of `id` in `list`.
pub open spec fn is_first_position(list: Seq<String>, at: int, id: Seq<char>) -> bool {
    &&& 0 <= at < list.len()
    &&& list[at]@ == id
    &&& forall|k: int| 0 <= k < at ==> (#[trigger] list[k])@ != id
}

/// The first position of `id` in `list`; `None` exactly when the list does
/// not hold it.
pub fn position(list: &Vec<String>, id: &String) -> (r: Option<usize>)
    ensures
        r is None <==> !texts(list@).contains(id@),
        r matches Some(at) ==> is_first_position(list@, at as int, id@),
{
    let mut i: usize = 0;
    while i < list.len()
        invariant
            i <= list@.len(),
            forall|k: int| 0 <= k < i ==> (#[trigger] list@[k])@ != id@,
        decreases list@.len() - i,
    {
        if list[i] == *id {
            assert(texts(list@)[i as int] == id@);
            return Some(i);
        }
        i = i + 1;
    }
    assert forall|k: int| 0 <= k < texts(list@).len() implies texts(list@)[k] != id@ by {
        assert(list@[k]@ != id@);
    }
    None
}

/// Saves a collection id: an id that is not empty and not yet in the list
/// is appended. Says whether the list changed.
pub fn remember(list: &mut Vec<String>, id: String) -> (added: bool)
    ensures
        added == (id@.len() > 0 && !texts(old(list)@).contains(id@)),
        added ==> final(list)@ == old(list)@.push(id),
        !added ==> final(list)@ == old(list)@,
{
    if id.as_str().unicode_len() == 0 {
        return false;
    }
    match position(list, &id) {
        Some(_) => false,
        None => {
            list.push(id);
            true
        },
    }
}

/// Drops a collection id: its first occurrence leaves the list. Says
/// whether the list held it.
pub fn forget(list: &mut Vec<String>, id: &String) -> (removed: bool)
    ensures
        removed == texts(old(list)@).contains(id@),
        !removed ==> final(list)@ == old(list)@,
        removed ==> exists|at: int| #[trigger]
            is_first_position(old(list)@, at, id@) && final(list)@ == old(list)@.remove(at),
{
    match position(list, id) {
        None => false,
        Some(at) => {
            list.remove(at);
            true
        },
    }
}

} // verus!
