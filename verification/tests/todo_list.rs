use todo_list::codec::{encode_list, load_list};
use todo_list::commands::{parse_input, parse_usize, trim_line, Action};
use todo_list::todo::{TodoError, TodoList};

#[test]
fn add_then_list_shows_single_item() {
    let mut l = TodoList::empty();
    l.add_item("buy milk".to_string());
    let items = l.list_items();
    assert_eq!(items.len(), 1);
    assert_eq!(items[0].item_id, 1);
    assert_eq!(items[0].item_content, "buy milk");
}

#[test]
fn ids_stay_dense_after_each_remove() {
    let mut l = TodoList::empty();
    for s in ["a", "b", "c", "d", "e"] {
        l.add_item(s.to_string());
    }
    l.remove_items(&vec![3]).unwrap();
    for (i, t) in l.list_items().iter().enumerate() {
        assert_eq!(t.item_id, i + 1);
    }
    assert_eq!(l.next_id, 5);
    l.add_item("f".to_string());
    l.remove_items(&vec![1, 4]).unwrap();
    for (i, t) in l.list_items().iter().enumerate() {
        assert_eq!(t.item_id, i + 1);
    }
    assert_eq!(l.next_id, l.list_items().len() + 1);
}

#[test]
fn remove_two_and_four_keeps_one_and_three() {
    let mut l = TodoList::empty();
    for s in ["first", "second", "third", "fourth"] {
        l.add_item(s.to_string());
    }
    l.remove_items(&vec![2, 4]).unwrap();
    let items = l.list_items();
    assert_eq!(items.len(), 2);
    assert_eq!(items[0].item_id, 1);
    assert_eq!(items[0].item_content, "first");
    assert_eq!(items[1].item_id, 2);
    assert_eq!(items[1].item_content, "third");
    assert_eq!(l.next_id, 3);
}

#[test]
fn remove_out_of_range_reports_and_leaves_list() {
    let mut l = TodoList::empty();
    l.add_item("only".to_string());
    let before = l.list_items();
    assert_eq!(l.remove_items(&vec![5]), Err(TodoError::IdOutOfRange));
    assert_eq!(l.remove_items(&vec![0]), Err(TodoError::IdOutOfRange));
    assert_eq!(l.list_items(), before);
    assert_eq!(l.next_id, 2);
}

#[test]
fn store_then_load_gives_equal_list() {
    let mut l = TodoList::empty();
    l.add_item("buy milk".to_string());
    l.add_item("caf\u{e9} \u{2615} latte".to_string());
    l.add_item(String::new());
    let bytes = encode_list(&l);
    let reloaded = load_list(&bytes).unwrap();
    assert_eq!(reloaded, l);
}

#[test]
fn store_then_load_keeps_negative_timestamps() {
    let mut l = TodoList::empty();
    l.add_item_at("before the epoch".to_string(), -5);
    let reloaded = load_list(&encode_list(&l)).unwrap();
    assert_eq!(reloaded.list[0].date_time, -5);
    assert_eq!(reloaded, l);
}

#[test]
fn empty_file_loads_as_empty_list() {
    let l = load_list(&[]).unwrap();
    assert_eq!(l.list.len(), 0);
    assert_eq!(l.next_id, 1);
}

#[test]
fn empty_list_encodes_to_two_words() {
    let l = TodoList::empty();
    let bytes = encode_list(&l);
    let mut expected = vec![1u8, 0, 0, 0, 0, 0, 0, 0];
    expected.extend_from_slice(&[0u8; 8]);
    assert_eq!(bytes, expected);
}

#[test]
fn garbage_bytes_are_malformed() {
    assert_eq!(load_list(&[1, 2, 3]), Err(TodoError::MalformedData));
}

#[test]
fn truncated_encoding_is_malformed() {
    let mut l = TodoList::empty();
    l.add_item("item".to_string());
    let bytes = encode_list(&l);
    assert_eq!(
        load_list(&bytes[..bytes.len() - 1]),
        Err(TodoError::MalformedData)
    );
}

#[test]
fn trailing_bytes_are_malformed() {
    let mut l = TodoList::empty();
    l.add_item("item".to_string());
    let mut bytes = encode_list(&l);
    bytes.push(0);
    assert_eq!(load_list(&bytes), Err(TodoError::MalformedData));
}

#[test]
fn invalid_utf8_content_is_malformed() {
    // next_id 2, one item: id 1, date 0, one content byte that is not UTF-8.
    let mut bytes = Vec::new();
    bytes.extend_from_slice(&2u64.to_le_bytes());
    bytes.extend_from_slice(&1u64.to_le_bytes());
    bytes.extend_from_slice(&1u64.to_le_bytes());
    bytes.extend_from_slice(&0u64.to_le_bytes());
    bytes.extend_from_slice(&1u64.to_le_bytes());
    bytes.push(0xff);
    assert_eq!(load_list(&bytes), Err(TodoError::MalformedData));
}

#[test]
fn non_dense_stored_ids_are_malformed() {
    // next_id 2, one item whose stored id is 7 rather than 1.
    let mut bytes = Vec::new();
    bytes.extend_from_slice(&2u64.to_le_bytes());
    bytes.extend_from_slice(&1u64.to_le_bytes());
    bytes.extend_from_slice(&7u64.to_le_bytes());
    bytes.extend_from_slice(&0u64.to_le_bytes());
    bytes.extend_from_slice(&0u64.to_le_bytes());
    assert_eq!(load_list(&bytes), Err(TodoError::MalformedData));
}

#[test]
fn listing_twice_gives_the_same_output() {
    let mut l = TodoList::empty();
    l.add_item("one".to_string());
    l.add_item("two".to_string());
    let first = l.list_items();
    let second = l.list_items();
    assert_eq!(first, second);
}

#[test]
fn parse_usize_accepts_plain_decimals() {
    assert_eq!(parse_usize("42"), Some(42));
    assert_eq!(parse_usize("0"), Some(0));
    assert_eq!(parse_usize(""), None);
    assert_eq!(parse_usize("4x2"), None);
    assert_eq!(parse_usize("-3"), None);
    assert_eq!(parse_usize("99999999999999999999999999"), None);
}

#[test]
fn trim_line_strips_both_ends() {
    assert_eq!(trim_line("  buy milk \n"), "buy milk");
    assert_eq!(trim_line("\t\r\n "), "");
    assert_eq!(trim_line("plain"), "plain");
}

#[test]
fn command_list_shows_items_without_change() {
    let mut l = TodoList::empty();
    l.add_item("one".to_string());
    let action = parse_input(&mut l, "list\n");
    match action {
        Action::Show(items) => {
            assert_eq!(items.len(), 1);
            assert_eq!(items[0].item_content, "one");
        }
        other => panic!("unexpected action {:?}", other),
    }
    assert_eq!(l.list_items().len(), 1);
}

#[test]
fn command_add_appends_everything_after_the_space() {
    let mut l = TodoList::empty();
    let action = parse_input(&mut l, " add buy milk \n");
    assert_eq!(action, Action::Done);
    let items = l.list_items();
    assert_eq!(items.len(), 1);
    assert_eq!(items[0].item_content, "buy milk");
    assert_eq!(items[0].item_id, 1);
}

#[test]
fn command_remove_takes_several_ids() {
    let mut l = TodoList::empty();
    for s in ["first", "second", "third", "fourth"] {
        l.add_item(s.to_string());
    }
    let action = parse_input(&mut l, "remove 2 4\n");
    assert_eq!(action, Action::Done);
    let items = l.list_items();
    assert_eq!(items.len(), 2);
    assert_eq!(items[0].item_content, "first");
    assert_eq!(items[1].item_content, "third");
}

#[test]
fn command_remove_rejects_non_numeric_ids() {
    let mut l = TodoList::empty();
    l.add_item("one".to_string());
    let action = parse_input(&mut l, "remove 1 x\n");
    assert_eq!(action, Action::Rejected(TodoError::InvalidNumber));
    assert_eq!(l.list_items().len(), 1);
}

#[test]
fn command_remove_rejects_out_of_range_ids() {
    let mut l = TodoList::empty();
    l.add_item("one".to_string());
    let action = parse_input(&mut l, "remove 2\n");
    assert_eq!(action, Action::Rejected(TodoError::IdOutOfRange));
    assert_eq!(l.list_items().len(), 1);
}

#[test]
fn command_save_and_quit_ask_for_persistence() {
    let mut l = TodoList::empty();
    assert_eq!(parse_input(&mut l, "save\n"), Action::Persist);
    assert_eq!(parse_input(&mut l, "quit\n"), Action::PersistAndQuit);
    assert_eq!(l.list_items().len(), 0);
}

#[test]
fn unknown_commands_ask_for_usage() {
    let mut l = TodoList::empty();
    assert_eq!(parse_input(&mut l, "help\n"), Action::Usage);
    assert_eq!(parse_input(&mut l, "\n"), Action::Usage);
    assert_eq!(l.list_items().len(), 0);
}
