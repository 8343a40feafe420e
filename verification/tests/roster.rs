use euchre_rotator::roster::{apply_edit, pad_names, Edit, MIN_PLAYERS};

fn names(list: &[&str]) -> Vec<String> {
    list.iter().map(|name| String::from(*name)).collect()
}

#[test]
fn the_smallest_party_fills_one_table() {
    assert_eq!(MIN_PLAYERS, 4);
}

#[test]
fn padding_gives_every_player_a_name_to_fill_in() {
    let mut list = names(&["Ann", "Bo"]);
    pad_names(&mut list, 5);
    assert_eq!(list, names(&["Ann", "Bo", "", "", ""]));
    pad_names(&mut list, 3);
    assert_eq!(list, names(&["Ann", "Bo", "", "", ""]));
    let mut none: Vec<String> = Vec::new();
    pad_names(&mut none, 0);
    assert!(none.is_empty());
}

#[test]
fn a_player_joins_before_a_row() {
    let mut list = names(&["Ann", "Bo", "Cy", "Dee"]);
    assert_eq!(apply_edit(4, &mut list, Edit::InsertBefore(0)), 5);
    assert_eq!(list, names(&["", "Ann", "Bo", "Cy", "Dee"]));
    assert_eq!(apply_edit(5, &mut list, Edit::InsertBefore(3)), 6);
    assert_eq!(list, names(&["", "Ann", "Bo", "", "Cy", "Dee"]));
}

#[test]
fn a_player_joins_after_a_row() {
    let mut list = names(&["Ann", "Bo", "Cy", "Dee"]);
    assert_eq!(apply_edit(4, &mut list, Edit::InsertAfter(3)), 5);
    assert_eq!(list, names(&["Ann", "Bo", "Cy", "Dee", ""]));
    assert_eq!(apply_edit(5, &mut list, Edit::InsertAfter(0)), 6);
    assert_eq!(list, names(&["Ann", "", "Bo", "Cy", "Dee", ""]));
}

#[test]
fn a_player_leaves_a_party_of_more_than_four() {
    let mut list = names(&["Ann", "Bo", "Cy", "Dee", "Eve"]);
    assert_eq!(apply_edit(5, &mut list, Edit::Delete(1)), 4);
    assert_eq!(list, names(&["Ann", "Cy", "Dee", "Eve"]));
}

#[test]
fn nobody_leaves_a_party_of_four() {
    let mut list = names(&["Ann", "Bo", "Cy", "Dee"]);
    assert_eq!(apply_edit(4, &mut list, Edit::Delete(2)), 4);
    assert_eq!(list, names(&["Ann", "Bo", "Cy", "Dee"]));
}
