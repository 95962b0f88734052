use heat::pane::{EntryId, Event, ItemHandle, Pane, SplitDirection};

fn item(id: usize) -> ItemHandle {
    ItemHandle { id, entry_id: Some(EntryId(1, id)) }
}

#[test]
fn items_go_after_the_active_one() {
    let mut pane = Pane::new();
    assert_eq!(pane.add_item(item(1)), 0);
    assert_eq!(pane.add_item(item(2)), 1);
    assert_eq!(pane.add_item(item(3)), 1);
    let ids: Vec<usize> = pane.items().iter().map(|i| i.id).collect();
    assert_eq!(ids, vec![1, 3, 2]);
    assert_eq!(pane.active_item(), Some(item(1)));
}

#[test]
fn activation_wraps_around() {
    let mut pane = Pane::new();
    pane.add_item(item(1));
    pane.add_item(item(2));
    assert_eq!(pane.activate_prev_item(), Some(item(2)));
    assert_eq!(pane.activate_next_item(), Some(item(1)));
    assert_eq!(pane.activate_item(5), None);
    assert!(pane.activate_entry(EntryId(1, 2)));
    assert_eq!(pane.active_item(), Some(item(2)));
    assert!(!pane.activate_entry(EntryId(9, 9)));
    assert_eq!(pane.item_index(&item(2)), Some(1));
    assert_eq!(pane.item_index(&item(7)), None);
}

#[test]
fn closing_the_last_item_removes_the_pane() {
    let mut pane = Pane::new();
    pane.add_item(item(1));
    pane.add_item(item(2));
    pane.activate_item(1);
    assert_eq!(pane.close_active_item(), None);
    assert_eq!(pane.active_item(), Some(item(1)));
    assert_eq!(pane.close_active_item(), Some(Event::Remove));
    assert_eq!(pane.active_item(), None);
    assert_eq!(pane.split(SplitDirection::Left), Event::Split(SplitDirection::Left));
    assert_eq!(pane.activate(), Event::Activate);
}
