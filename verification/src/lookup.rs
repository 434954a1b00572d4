//! Finding a name in a sequence of names.

use vstd::prelude::*;

verus! {

/// Index of the first occurrence of `name` in `names`, or the length of
/// `names` where it does not occur.
pub open spec fn position(names: Seq<Seq<char>>, name: Seq<char>) -> nat
    decreases names.len(),
{
    if names.len() == 0 || names[0] == name {
        0
    } else {
        1 + position(names.drop_first(), name)
    }
}

/// Whether `name` occurs in `names`.
pub open spec fn has_name(names: Seq<Seq<char>>, name: Seq<char>) -> bool {
    position(names, name) < names.len()
}

/// `position` is the least index that holds the name.
pub proof fn lemma_position_first(names: Seq<Seq<char>>, name: Seq<char>)
    ensures
        position(names, name) <= names.len(),
        has_name(names, name) ==> names[position(names, name) as int] == name,
        forall|k: int| 0 <= k < position(names, name) ==> names[k] != name,
    decreases names.len(),
{
    if names.len() == 0 || names[0] == name {
    } else {
        let rest = names.drop_first();
        lemma_position_first(rest, name);
        assert forall|k: int| 0 <= k < position(names, name) implies names[k] != name by {
            if k > 0 {
                assert(names[k] == rest[k - 1]);
            }
        }
    }
}

/// An index before which the name does not occur, and which holds it or is
/// the length, is the position.
pub proof fn lemma_position_found(names: Seq<Seq<char>>, name: Seq<char>, i: int)
    requires
        0 <= i <= names.len(),
        forall|k: int| 0 <= k < i ==> names[k] != name,
        i == names.len() || names[i] == name,
    ensures
        position(names, name) == i,
{
    lemma_position_first(names, name);
    let p = position(names, name) as int;
    if p < i {
        assert(names[p] == name);
    }
}

/// A name occurs exactly when some index holds it.
pub proof fn lemma_has_name_contains(names: Seq<Seq<char>>, name: Seq<char>)
    ensures
        has_name(names, name) <==> names.contains(name),
{
    lemma_position_first(names, name);
    if names.contains(name) {
        let i = choose|i: int| 0 <= i < names.len() && names[i] == name;
        assert(names[i] == name);
    }
    if has_name(names, name) {
        assert(names[position(names, name) as int] == name);
    }
}

/// Where a name stands once another name is appended: where it stood, or at
/// the appended name where that is its first occurrence.
pub proof fn lemma_position_push(names: Seq<Seq<char>>, last: Seq<char>, name: Seq<char>)
    ensures
        position(names.push(last), name) == if has_name(names, name) {
            position(names, name)
        } else if last == name {
            names.len()
        } else {
            names.len() + 1
        },
{
    lemma_position_first(names, name);
    let q = position(names, name) as int;
    let after = names.push(last);
    if q < names.len() {
        lemma_position_found(after, name, q);
    } else if last == name {
        lemma_position_found(after, name, names.len() as int);
    } else {
        lemma_position_found(after, name, after.len() as int);
    }
}

/// A name that occurs still occurs once another name was taken out.
pub proof fn lemma_has_name_after_remove(names: Seq<Seq<char>>, i: int, name: Seq<char>)
    requires
        0 <= i < names.len(),
        names[i] != name,
        has_name(names, name),
    ensures
        has_name(names.remove(i), name),
{
    lemma_position_first(names, name);
    let q = position(names, name) as int;
    let after = names.remove(i);
    let k = if q < i { q } else { q - 1 };
    assert(after[k] == name);
    lemma_has_name_contains(after, name);
}

/// A name that occurs still occurs once another place was overwritten, and
/// the name written occurs too.
pub proof fn lemma_has_name_after_update(
    names: Seq<Seq<char>>,
    i: int,
    written: Seq<char>,
    name: Seq<char>,
)
    requires
        0 <= i < names.len(),
        written == name || (names[i] != name && has_name(names, name)),
    ensures
        has_name(names.update(i, written), name),
{
    lemma_position_first(names, name);
    let after = names.update(i, written);
    if written == name {
        assert(after[i] == name);
    } else {
        let q = position(names, name) as int;
        assert(after[q] == name);
    }
    lemma_has_name_contains(after, name);
}

} // verus!
