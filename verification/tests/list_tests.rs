use freerustos::config::PORT_MAX_DELAY;
use freerustos::list::{List, ListId, ListItem};

fn item(value: u32, owner: usize) -> ListItem {
    ListItem { value, owner: Some(owner), ctner: Some(ListId::Suspended) }
}

fn values(l: &List) -> Vec<u32> {
    l.items.iter().map(|i| i.value).collect()
}

#[test]
fn list_item_new_is_detached() {
    let i = ListItem::new();
    assert_eq!(i.value, PORT_MAX_DELAY);
    assert_eq!(i.get_owner(), None);
    assert_eq!(i.ctner, None);
}

#[test]
fn list_item_setters() {
    let mut i = ListItem::new();
    i.set_owner(7);
    i.set_value(42);
    assert_eq!(i.get_owner(), Some(7));
    assert_eq!(i.get_value(), 42);
}

#[test]
fn list_init_empties() {
    let mut l = List::new();
    l.insert_end(item(1, 1));
    l.init();
    assert_eq!(l.items_num(), 0);
    assert_eq!(l.index, 0);
}

#[test]
fn ordered_insert_sorts_by_value() {
    let mut l = List::new();
    l.insert(item(30, 1));
    l.insert(item(10, 2));
    l.insert(item(20, 3));
    l.insert(item(PORT_MAX_DELAY, 4));
    l.insert(item(5, 5));
    assert_eq!(values(&l), vec![5, 10, 20, 30, PORT_MAX_DELAY]);
}

#[test]
fn ordered_insert_after_equal_values() {
    let mut l = List::new();
    l.insert(item(10, 1));
    l.insert(item(10, 2));
    let owners: Vec<Option<usize>> = l.items.iter().map(|i| i.owner).collect();
    assert_eq!(owners, vec![Some(1), Some(2)]);
}

#[test]
fn insert_end_appends_and_keeps_cursor_on_end_marker() {
    let mut l = List::new();
    l.insert_end(item(3, 1));
    l.insert_end(item(1, 2));
    assert_eq!(values(&l), vec![3, 1]);
    assert_eq!(l.index, 2);
    assert_eq!(l.items_num(), 2);
}

#[test]
fn insert_before_index_goes_before_cursor() {
    let mut l = List::new();
    l.insert_before_index(item(1, 1));
    l.insert_before_index(item(2, 2));
    assert_eq!(values(&l), vec![1, 2]);
    assert_eq!(l.index, 2);
    // move the cursor to the first item, then insert before it
    assert_eq!(l.get_next_entry(), Some(1));
    l.insert_before_index(item(9, 9));
    assert_eq!(values(&l), vec![9, 1, 2]);
    assert_eq!(l.index, 1);
}

#[test]
fn get_next_entry_round_robin() {
    let mut l = List::new();
    l.insert_end(item(0, 1));
    l.insert_end(item(0, 2));
    l.insert_end(item(0, 3));
    let got: Vec<Option<usize>> = (0..7).map(|_| l.get_next_entry()).collect();
    assert_eq!(got, vec![Some(1), Some(2), Some(3), Some(1), Some(2), Some(3), Some(1)]);
}

#[test]
fn get_next_entry_on_empty_list() {
    let mut l = List::new();
    assert_eq!(l.get_next_entry(), None);
    assert_eq!(l.index, 0);
}

#[test]
fn remove_at_moves_cursor_back() {
    let mut l = List::new();
    l.insert_end(item(0, 1));
    l.insert_end(item(0, 2));
    l.insert_end(item(0, 3));
    l.get_next_entry();
    l.get_next_entry();
    assert_eq!(l.index, 1);
    let r = l.remove_at(1);
    assert_eq!(r.owner, Some(2));
    assert_eq!(l.index, 0);
    assert_eq!(l.get_next_entry(), Some(3));
}

#[test]
fn remove_first_item_under_cursor_points_at_end_marker() {
    let mut l = List::new();
    l.insert_end(item(0, 1));
    l.insert_end(item(0, 2));
    l.get_next_entry();
    assert_eq!(l.index, 0);
    l.remove_at(0);
    assert_eq!(l.index, 1);
    assert_eq!(l.get_next_entry(), Some(2));
}

#[test]
fn find_owner_finds_first() {
    let mut l = List::new();
    l.insert_end(item(0, 4));
    l.insert_end(item(0, 5));
    assert_eq!(l.find_owner(5), Some(1));
    assert_eq!(l.find_owner(6), None);
}

#[test]
fn remove_undoes_insert() {
    let mut l = List::new();
    l.insert(item(10, 1));
    l.insert(item(30, 2));
    let before = values(&l);
    l.insert(item(20, 3));
    let pos = l.find_owner(3).unwrap();
    assert_eq!(pos, 1);
    l.remove_at(pos);
    assert_eq!(values(&l), before);
}

#[test]
fn full_round_visits_each_item_once() {
    // from the end marker and from every item, a list of n items is visited
    // once each in n calls
    for start in 0..=4usize {
        let mut l = List::new();
        for o in 0..4usize {
            l.insert_end(item(o as u32, o));
        }
        l.index = start;
        let mut got: Vec<usize> = (0..4).map(|_| l.get_next_entry().unwrap()).collect();
        let first = if start >= 3 { 0 } else { start + 1 };
        assert_eq!(got[0], first);
        got.sort();
        assert_eq!(got, vec![0, 1, 2, 3]);
    }
}
