use workspaces::strip::LayoutStrip;
use workspaces::types::{Entity, Error};

fn entity(bits: u64) -> Entity {
    Entity { bits }
}

fn columns(lists: &[&[u64]]) -> Vec<Vec<Entity>> {
    lists
        .iter()
        .map(|list| list.iter().map(|bits| entity(*bits)).collect())
        .collect()
}

fn strip(lists: &[&[u64]]) -> LayoutStrip {
    LayoutStrip::from_columns(7, 3, columns(lists))
}

fn bits(strip: &LayoutStrip) -> Vec<u64> {
    strip.all_windows().iter().map(|window| window.bits).collect()
}

#[test]
fn new_strip_is_empty() {
    let strip = LayoutStrip::new(5, 2);
    assert_eq!(strip.id(), 5);
    assert_eq!(strip.virtual_index(), 2);
    assert_eq!(strip.len(), 0);
    assert!(strip.all_windows().is_empty());
    assert!(!strip.contains(entity(1)));
}

#[test]
fn fullscreen_strip_holds_one_window_in_the_first_row() {
    let strip = LayoutStrip::fullscreen(9, entity(4));
    assert_eq!(strip.id(), 9);
    assert_eq!(strip.virtual_index(), 0);
    assert_eq!(strip.len(), 1);
    assert_eq!(bits(&strip), vec![4]);
}

#[test]
fn empty_columns_are_left_out() {
    let strip = strip(&[&[], &[1], &[], &[2, 3], &[]]);
    assert_eq!(strip.len(), 2);
    assert_eq!(bits(&strip), vec![1, 2, 3]);
}

#[test]
fn index_is_that_of_the_column() {
    let strip = strip(&[&[1], &[2, 3], &[4]]);
    assert_eq!(strip.index_of(entity(1)), Ok(0));
    assert_eq!(strip.index_of(entity(3)), Ok(1));
    assert_eq!(strip.index_of(entity(4)), Ok(2));
}

#[test]
fn index_of_a_missing_window_is_an_error() {
    let strip = strip(&[&[1], &[2, 3]]);
    assert_eq!(strip.index_of(entity(9)), Err(Error::InvalidWindow));
}

#[test]
fn neighbours_are_the_top_windows_of_the_next_columns() {
    let strip = strip(&[&[1, 2], &[3], &[4, 5]]);
    assert_eq!(strip.left_neighbour(entity(3)), Some(entity(1)));
    assert_eq!(strip.right_neighbour(entity(3)), Some(entity(4)));
    assert_eq!(strip.left_neighbour(entity(5)), Some(entity(3)));
    assert_eq!(strip.right_neighbour(entity(2)), Some(entity(3)));
}

#[test]
fn windows_at_the_ends_have_one_neighbour() {
    let strip = strip(&[&[1], &[2]]);
    assert_eq!(strip.left_neighbour(entity(1)), None);
    assert_eq!(strip.right_neighbour(entity(2)), None);
    assert_eq!(strip.left_neighbour(entity(9)), None);
    assert_eq!(strip.right_neighbour(entity(9)), None);
}

#[test]
fn append_goes_to_the_right_end() {
    let mut strip = strip(&[&[1, 2]]);
    strip.append(entity(3));
    assert_eq!(strip.len(), 2);
    assert_eq!(bits(&strip), vec![1, 2, 3]);
    strip.append_all(&vec![entity(5), entity(4)]);
    assert_eq!(strip.len(), 4);
    assert_eq!(bits(&strip), vec![1, 2, 3, 5, 4]);
}

#[test]
fn insert_goes_to_the_index_or_to_the_end() {
    let mut strip = strip(&[&[1], &[2]]);
    strip.insert_at(1, entity(3));
    assert_eq!(bits(&strip), vec![1, 3, 2]);
    strip.insert_at(17, entity(4));
    assert_eq!(bits(&strip), vec![1, 3, 2, 4]);
    strip.insert_at(0, entity(5));
    assert_eq!(bits(&strip), vec![5, 1, 3, 2, 4]);
    assert_eq!(strip.len(), 5);
}

#[test]
fn remove_closes_an_empty_column() {
    let mut strip = strip(&[&[1], &[2, 3], &[4]]);
    strip.remove(entity(1));
    assert_eq!(strip.len(), 2);
    assert_eq!(strip.index_of(entity(4)), Ok(1));
    strip.remove(entity(2));
    assert_eq!(strip.len(), 2);
    assert_eq!(bits(&strip), vec![3, 4]);
    strip.remove(entity(9));
    assert_eq!(bits(&strip), vec![3, 4]);
}

#[test]
fn remove_takes_out_every_occurrence() {
    let mut strip = strip(&[&[1, 2], &[1], &[3]]);
    strip.remove(entity(1));
    assert_eq!(bits(&strip), vec![2, 3]);
    assert_eq!(strip.len(), 2);
}

#[test]
fn window_put_back_where_it_was_restores_the_strip() {
    let mut strip = strip(&[&[1], &[2], &[3, 4]]);
    let index = strip.index_of(entity(2)).unwrap();
    strip.remove(entity(2));
    strip.insert_at(index, entity(2));
    assert_eq!(bits(&strip), vec![1, 2, 3, 4]);
    assert_eq!(strip.len(), 3);
    assert_eq!(strip.index_of(entity(2)), Ok(1));
}

#[test]
fn number_of_a_row_can_change() {
    let mut strip = strip(&[&[1]]);
    strip.set_virtual_index(0);
    assert_eq!(strip.virtual_index(), 0);
    assert_eq!(strip.id(), 7);
    assert_eq!(bits(&strip), vec![1]);
}

#[test]
fn copy_of_a_strip_is_equal_and_its_own() {
    let strip = strip(&[&[1], &[2, 3]]);
    let mut copy = strip.clone();
    assert_eq!(copy, strip);
    copy.remove(entity(2));
    assert_ne!(copy, strip);
    assert_eq!(bits(&copy), vec![1, 3]);
    assert_eq!(bits(&strip), vec![1, 2, 3]);
}
