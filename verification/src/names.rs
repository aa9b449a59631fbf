//! Lists of names, as the supervisor keeps them.

use crate::search::{first_index, lemma_first_index};
use vstd::prelude::*;

verus! {

/// The names that the strings spell, in their order.
pub open spec fn names_of(strings: Seq<String>) -> Seq<Seq<char>> {
    strings.map_values(|name: String| name@)
}

/// No name occurs twice.
pub open spec fn distinct(names: Seq<Seq<char>>) -> bool {
    forall|i: int, j: int| 0 <= i < j < names.len() ==> names[i] != names[j]
}

/// The list without the first occurrence of `name`.
pub open spec fn without(names: Seq<Seq<char>>, name: Seq<char>) -> Seq<Seq<char>> {
    match first_index(names, name, 0) {
        Some(i) => names.remove(i),
        None => names,
    }
}

/// The list with `name` at its end, unless it holds the name already.
pub open spec fn with(names: Seq<Seq<char>>, name: Seq<char>) -> Seq<Seq<char>> {
    if names.contains(name) {
        names
    } else {
        names.push(name)
    }
}

/// A list of distinct names stays one when a name joins or leaves it; the
/// name is in it after it joined and not after it left, and every other name
/// is in it exactly if it was before.
pub proof fn lemma_with_without(names: Seq<Seq<char>>, name: Seq<char>)
    requires
        distinct(names),
    ensures
        distinct(with(names, name)),
        distinct(without(names, name)),
        with(names, name).contains(name),
        !without(names, name).contains(name),
        forall|other: Seq<char>|
            other != name ==> (#[trigger] with(names, name).contains(other)) == names.contains(
                other,
            ),
        forall|other: Seq<char>|
            other != name ==> (#[trigger] without(names, name).contains(other)) == names.contains(
                other,
            ),
{
    let more = with(names, name);
    let less = without(names, name);
    lemma_first_index(names, name, 0);
    if !names.contains(name) {
        assert(more[names.len() as int] == name);
    }
    assert forall|other: Seq<char>| other != name implies (#[trigger] more.contains(other))
        == names.contains(other) by {
        if names.contains(other) {
            let i = choose|i: int| 0 <= i < names.len() && names[i] == other;
            assert(more[i] == other);
        }
    }
    match first_index(names, name, 0) {
        Some(at) => {
            assert forall|i: int| 0 <= i < less.len() implies less[i] == names[if i < at {
                i
            } else {
                i + 1
            }] by {}
            if less.contains(name) {
                let i = choose|i: int| 0 <= i < less.len() && less[i] == name;
            }
            assert forall|other: Seq<char>| other != name implies (#[trigger] less.contains(other))
                == names.contains(other) by {
                if names.contains(other) {
                    let i = choose|i: int| 0 <= i < names.len() && names[i] == other;
                    assert(less[if i < at {
                        i
                    } else {
                        i - 1
                    }] == other);
                }
                if less.contains(other) {
                    let i = choose|i: int| 0 <= i < less.len() && less[i] == other;
                    assert(names[if i < at {
                        i
                    } else {
                        i + 1
                    }] == other);
                }
            }
        },
        None => {},
    }
}

/// The names of a list of strings with one more string are the names of the
/// list with the name of that string.
pub proof fn lemma_names_push(strings: Seq<String>, name: String)
    ensures
        names_of(strings.push(name)) == names_of(strings).push(name@),
{
    assert(names_of(strings.push(name)) =~= names_of(strings).push(name@));
}

/// The names of a list of strings without one of them are the names of the
/// list without the name at that place.
pub proof fn lemma_names_remove(strings: Seq<String>, i: int)
    requires
        0 <= i < strings.len(),
    ensures
        names_of(strings.remove(i)) == names_of(strings).remove(i),
{
    assert(names_of(strings.remove(i)) =~= names_of(strings).remove(i));
}

/// Where the name stands in the list, if it does.
pub(crate) fn position(names: &Vec<String>, name: &String) -> (place: Option<usize>)
    ensures
        match place {
            Some(i) => first_index(names_of(names@), name@, 0) == Some(i as int),
            None => first_index(names_of(names@), name@, 0) is None,
        },
        place is Some == names_of(names@).contains(name@),
        place matches Some(i) ==> i < names.len() && names@[i as int]@ == name@,
{
    let n: usize = names.len();
    let mut i: usize = 0;
    while i < n
        invariant
            i <= n,
            n == names.len(),
            first_index(names_of(names@), name@, 0) == first_index(
                names_of(names@),
                name@,
                i as int,
            ),
        decreases n - i,
    {
        if names[i] == *name {
            proof {
                lemma_first_index(names_of(names@), name@, 0);
            }
            return Some(i);
        }
        i += 1;
    }
    proof {
        lemma_first_index(names_of(names@), name@, 0);
    }
    None
}

/// A copy of the list.
pub(crate) fn clone_names(names: &Vec<String>) -> (copy: Vec<String>)
    ensures
        names_of(copy@) == names_of(names@),
{
    let n: usize = names.len();
    let mut copy: Vec<String> = Vec::new();
    let mut i: usize = 0;
    while i < n
        invariant
            i <= n,
            n == names.len(),
            names_of(copy@) == names_of(names@).take(i as int),
        decreases n - i,
    {
        let ghost before = copy@;
        let name = names[i].clone();
        copy.push(name);
        proof {
            let wanted = names_of(names@).take(i + 1);
            assert(names_of(before).len() == before.len());
            assert(names_of(copy@).len() == wanted.len());
            assert forall|j: int| 0 <= j < i + 1 implies names_of(copy@)[j] == wanted[j] by {
                if j < i {
                    assert(copy@[j] == before[j]);
                    assert(names_of(before)[j] == names_of(names@).take(i as int)[j]);
                }
            }
            assert(names_of(copy@) =~= wanted);
        }
        i += 1;
    }
    proof {
        assert(names_of(names@).take(n as int) =~= names_of(names@));
    }
    copy
}

} // verus!
