//! The party as its host edits it: how many play, and what they are called.

use vstd::prelude::*;

verus! {

/// The smallest party that fills a table.
pub const MIN_PLAYERS: usize = 4;

/// A change to the list of players. Players are counted from 0 here, as rows
/// of the list.
#[derive(Clone, Copy, Debug, PartialEq, Eq, Structural)]
pub enum Edit {
    /// A new, nameless player joins just before the given row.
    InsertBefore(usize),
    /// A new, nameless player joins just after the given row.
    InsertAfter(usize),
    /// The player of the given row leaves, unless the party is at its
    /// smallest.
    Delete(usize),
}

/// The names as plain texts.
pub open spec fn texts(names: Seq<String>) -> Seq<Seq<char>> {
    Seq::new(names.len(), |i: int| names[i]@)
}

/// Whether `edit` can be made to a list of `rows` names.
pub open spec fn edit_fits(edit: Edit, rows: nat) -> bool {
    match edit {
        Edit::InsertBefore(row) => row <= rows,
        Edit::InsertAfter(row) => row < rows,
        Edit::Delete(row) => row < rows,
    }
}

/// The number of players after `edit`.
pub open spec fn edited_count(player_count: nat, edit: Edit) -> nat {
    match edit {
        Edit::InsertBefore(_) => player_count + 1,
        Edit::InsertAfter(_) => player_count + 1,
        Edit::Delete(_) => if player_count <= MIN_PLAYERS {
            player_count
        } else {
            (player_count - 1) as nat
        },
    }
}

/// The names after `edit` to a party of `player_count`.
pub open spec fn edited_names(names: Seq<Seq<char>>, player_count: nat, edit: Edit) -> Seq<
    Seq<char>,
> {
    match edit {
        Edit::InsertBefore(row) => names.insert(row as int, Seq::empty()),
        Edit::InsertAfter(row) => names.insert(row + 1, Seq::empty()),
        Edit::Delete(row) => if player_count <= MIN_PLAYERS {
            names
        } else {
            names.remove(row as int)
        },
    }
}

/// The names with empty ones added at the end until there are `player_count`.
pub open spec fn padded(names: Seq<Seq<char>>, player_count: nat) -> Seq<Seq<char>> {
    if names.len() >= player_count {
        names
    } else {
        names + Seq::new((player_count - names.len()) as nat, |i: int| Seq::<char>::empty())
    }
}

/// Gives every player a place in the list of names: adds empty names at the
/// end until there are `player_count`. A longer list stays as it is.
pub fn pad_names(names: &mut Vec<String>, player_count: usize)
    ensures
        texts(final(names)@) == padded(texts(old(names)@), player_count as nat),
        final(names).len() >= player_count,
{
    while names.len() < player_count
        invariant
            names.len() <= player_count || names.len() == old(names).len(),
            old(names).len() <= names.len(),
            texts(names@) == padded(texts(old(names)@), names.len() as nat),
        decreases player_count - names.len(),
    {
        let ghost before = names@;
        names.push(String::new());
        assert(texts(names@) =~= padded(texts(old(names)@), names.len() as nat)) by {
            assert(texts(names@) =~= texts(before).push(Seq::empty()));
        }
    }
    assert(texts(names@) =~= padded(texts(old(names)@), player_count as nat));
}

/// Makes `edit` to a party of `player_count` with the given names, and
/// returns the new number of players. A party of `MIN_PLAYERS` loses nobody.
pub fn apply_edit(player_count: usize, names: &mut Vec<String>, edit: Edit) -> (count: usize)
    requires
        edit_fits(edit, old(names).len() as nat),
        edit !is Delete ==> player_count < usize::MAX,
    ensures
        count == edited_count(player_count as nat, edit),
        texts(final(names)@) == edited_names(texts(old(names)@), player_count as nat, edit),
{
    match edit {
        Edit::InsertBefore(row) => {
            names.insert(row, String::new());
            assert(texts(names@) =~= texts(old(names)@).insert(row as int, Seq::empty()));
            player_count + 1
        },
        Edit::InsertAfter(row) => {
            names.insert(row + 1, String::new());
            assert(texts(names@) =~= texts(old(names)@).insert(row + 1, Seq::empty()));
            player_count + 1
        },
        Edit::Delete(row) => {
            if player_count <= MIN_PLAYERS {
                player_count
            } else {
                names.remove(row);
                assert(texts(names@) =~= texts(old(names)@).remove(row as int));
                player_count - 1
            }
        },
    }
}

} // verus!
