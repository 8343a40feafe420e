//! Players shown as text: by number, or by name where names are shown.

use vstd::prelude::*;

verus! {

/// The character of the decimal digit `d`.
pub open spec fn digit(d: nat) -> char {
    if d == 0 {
        '0'
    } else if d == 1 {
        '1'
    } else if d == 2 {
        '2'
    } else if d == 3 {
        '3'
    } else if d == 4 {
        '4'
    } else if d == 5 {
        '5'
    } else if d == 6 {
        '6'
    } else if d == 7 {
        '7'
    } else if d == 8 {
        '8'
    } else {
        '9'
    }
}

/// The decimal numeral of `n`, without leading zeros.
pub open spec fn decimal(n: nat) -> Seq<char>
    decreases n,
{
    if n < 10 {
        seq![digit(n)]
    } else {
        decimal(n / 10).push(digit(n % 10))
    }
}

/// The words that stand before the number of a player without a name.
pub open spec fn player_prefix() -> Seq<char> {
    seq!['P', 'l', 'a', 'y', 'e', 'r', ' ']
}

/// How a player is called where names are shown: by name, or `Player` and the
/// number where the name is empty. Names are listed by player, the first
/// player's first.
pub open spec fn label(player: usize, names: Seq<String>) -> Seq<char> {
    if names[player - 1]@.len() == 0 {
        player_prefix() + decimal(player as nat)
    } else {
        names[player - 1]@
    }
}

/// The text of a pair of players: the two players with the separator between.
pub open spec fn pair_text(
    pair: (usize, usize),
    separator: Seq<char>,
    display_names: bool,
    names: Seq<String>,
) -> Seq<char> {
    if display_names {
        label(pair.0, names) + separator + label(pair.1, names)
    } else {
        decimal(pair.0 as nat) + separator + decimal(pair.1 as nat)
    }
}

/// How a player stands in a list: by number, or by the name as it is, which
/// may be empty.
pub open spec fn entry(player: usize, display_names: bool, names: Seq<String>) -> Seq<char> {
    if display_names {
        names[player - 1]@
    } else {
        decimal(player as nat)
    }
}

/// The text of a list of players: the entries in order, with the separator
/// between each two.
pub open spec fn list_text(
    players: Seq<usize>,
    separator: Seq<char>,
    display_names: bool,
    names: Seq<String>,
) -> Seq<char>
    decreases players.len(),
{
    if players.len() == 0 {
        Seq::empty()
    } else if players.len() == 1 {
        entry(players[0], display_names, names)
    } else {
        list_text(players.drop_last(), separator, display_names, names) + separator + entry(
            players.last(),
            display_names,
            names,
        )
    }
}

/// `count` spaces; none for a negative `count`.
pub open spec fn spaces_text(count: int) -> Seq<char> {
    Seq::new(
        if count > 0 {
            count as nat
        } else {
            0
        },
        |i: int| ' ',
    )
}

/// Every player of `players` has a place in the list of names.
pub open spec fn all_named(players: Seq<usize>, names: Seq<String>) -> bool {
    forall|i: int| 0 <= i < players.len() ==> 1 <= #[trigger] players[i] <= names.len()
}

/// The text of one decimal digit.
fn digit_text(d: usize) -> (text: &'static str)
    requires
        d < 10,
    ensures
        text@ == seq![digit(d as nat)],
{
    proof {
        reveal_strlit("0");
        reveal_strlit("1");
        reveal_strlit("2");
        reveal_strlit("3");
        reveal_strlit("4");
        reveal_strlit("5");
        reveal_strlit("6");
        reveal_strlit("7");
        reveal_strlit("8");
        reveal_strlit("9");
    }
    let text = if d == 0 {
        "0"
    } else if d == 1 {
        "1"
    } else if d == 2 {
        "2"
    } else if d == 3 {
        "3"
    } else if d == 4 {
        "4"
    } else if d == 5 {
        "5"
    } else if d == 6 {
        "6"
    } else if d == 7 {
        "7"
    } else if d == 8 {
        "8"
    } else {
        "9"
    };
    assert(text@ =~= seq![digit(d as nat)]);
    text
}

/// Writes `n` in decimal.
pub fn decimal_text(n: usize) -> (text: String)
    ensures
        text@ == decimal(n as nat),
    decreases n,
{
    if n < 10 {
        String::from_str(digit_text(n))
    } else {
        let mut text = decimal_text(n / 10);
        text.append(digit_text(n % 10));
        assert(text@ =~= decimal(n as nat));
        text
    }
}

/// The name of `player`, or `Player` and the number where the name is empty.
pub fn label_text(player: usize, names: &Vec<String>) -> (text: String)
    requires
        1 <= player <= names.len(),
    ensures
        text@ == label(player, names@),
{
    let name = &names[player - 1];
    if name.as_str().is_empty() {
        proof {
            reveal_strlit("Player ");
        }
        let mut text = String::from_str("Player ");
        assert(text@ =~= player_prefix());
        let number = decimal_text(player);
        text.append(number.as_str());
        text
    } else {
        name.clone()
    }
}

/// Shows a pair of players with `separator` between them: by number, or,
/// where `display_names` is set, by name, and as `Player` and the number where
/// the name is empty.
pub fn formatPlayersTuple(
    player_tup: (usize, usize),
    separator: String,
    display_names: bool,
    player_names: Vec<String>,
) -> (output: String)
    requires
        display_names ==> 1 <= player_tup.0 <= player_names.len() && 1 <= player_tup.1
            <= player_names.len(),
    ensures
        output@ == pair_text(player_tup, separator@, display_names, player_names@),
{
    let player_a = if display_names {
        label_text(player_tup.0, &player_names)
    } else {
        decimal_text(player_tup.0)
    };
    let player_b = if display_names {
        label_text(player_tup.1, &player_names)
    } else {
        decimal_text(player_tup.1)
    };
    let mut output = player_a;
    output.append(separator.as_str());
    output.append(player_b.as_str());
    output
}

/// Shows a list of players with `separator` between each two: by number, or,
/// where `display_names` is set, by name. In a list a player whose name is
/// empty shows as nothing.
pub fn formatPlayersVector(
    player_vec: Vec<usize>,
    separator: String,
    display_names: bool,
    player_names: Vec<String>,
) -> (output: String)
    requires
        display_names ==> all_named(player_vec@, player_names@),
    ensures
        output@ == list_text(player_vec@, separator@, display_names, player_names@),
{
    let mut output = String::new();
    let mut index: usize = 0;
    while index < player_vec.len()
        invariant
            index <= player_vec.len(),
            display_names ==> all_named(player_vec@, player_names@),
            output@ == list_text(
                player_vec@.take(index as int),
                separator@,
                display_names,
                player_names@,
            ),
        decreases player_vec.len() - index,
    {
        let ghost shown = player_vec@.take(index as int);
        let ghost next = player_vec@.take(index as int + 1);
        proof {
            assert(next.drop_last() =~= shown);
            assert(next.last() == player_vec@[index as int]);
        }
        if index != 0 {
            output.append(separator.as_str());
        }
        let player: usize = player_vec[index];
        if display_names {
            output.append(player_names[player - 1].as_str());
        } else {
            let number = decimal_text(player);
            output.append(number.as_str());
        }
        proof {
            if index == 0 {
                assert(output@ =~= entry(player, display_names, player_names@));
            }
        }
        index += 1;
    }
    assert(player_vec@.take(index as int) =~= player_vec@);
    output
}

/// A text of `spaces` spaces, empty where `spaces` is negative.
pub fn generateSpace(spaces: i32) -> (text: String)
    ensures
        text@ == spaces_text(spaces as int),
{
    let mut text = String::new();
    let mut i: i32 = 0;
    while i < spaces
        invariant
            0 <= i,
            i <= spaces || i == 0,
            text@ == spaces_text(i as int),
        decreases spaces - i,
    {
        proof {
            reveal_strlit(" ");
        }
        text.append(" ");
        i += 1;
        assert(text@ =~= spaces_text(i as int));
    }
    assert(text@ =~= spaces_text(spaces as int));
    text
}

} // verus!
