use todo_list::Todo;
use todo_list::TodoError;
use todo_list::codec::decode;
use todo_list::codec::encode;
use todo_list::render::list;
use todo_list::render::print;

fn item(text: &[u8], done: bool) -> Todo {
    Todo { item: text.to_vec(), done }
}

#[test]
fn print_empty_list_is_empty() {
    assert_eq!(print(&Vec::new()), Vec::<u8>::new());
}

#[test]
fn print_pending_only() {
    let l = vec![item(b"buy milk", false), item(b"write spec", false)];
    let expect = b"Todo:\n-----\n1. buy milk\n2. write spec\n\n".to_vec();
    assert_eq!(print(&l), expect);
}

#[test]
fn print_done_only() {
    let l = vec![item(b"shipped", true)];
    let expect = b"Done:\n-----\n1. shipped\n".to_vec();
    assert_eq!(print(&l), expect);
}

#[test]
fn print_numbers_each_bucket_from_one() {
    let l = vec![item(b"a", true), item(b"b", false), item(b"c", true)];
    let expect = b"Todo:\n-----\n1. b\n\nDone:\n-----\n1. a\n2. c\n".to_vec();
    assert_eq!(print(&l), expect);
}

#[test]
fn print_double_digit_numbering() {
    let mut l = Vec::new();
    for _ in 0..11 {
        l = todo_list::ops::add(l, b"x".to_vec());
    }
    let out = print(&l);
    let text = String::from_utf8(out).unwrap();
    assert!(text.contains("10. x\n"));
    assert!(text.contains("11. x\n"));
}

#[test]
fn full_scenario() {
    // start empty, add two, list
    let l = decode(&Vec::new()).unwrap();
    let l = todo_list::ops::add(l, b"buy milk".to_vec());
    let l = todo_list::ops::add(l, b"write spec".to_vec());
    assert_eq!(print(&l), b"Todo:\n-----\n1. buy milk\n2. write spec\n\n".to_vec());
    // done(1), list again: pending renumbered, done section appears
    let l = todo_list::ops::done(&l, 1).unwrap();
    assert_eq!(
        print(&l),
        b"Todo:\n-----\n1. write spec\n\nDone:\n-----\n1. buy milk\n".to_vec()
    );
    // remove from done bucket: only the pending section is left
    let l = todo_list::ops::remove(&l, &b"d".to_vec(), 1).unwrap();
    assert_eq!(print(&l), b"Todo:\n-----\n1. write spec\n\n".to_vec());
}

#[test]
fn list_renders_stored_bytes() {
    let l = vec![item(b"buy milk", false), item(b"shipped", true)];
    let bytes = encode(&l);
    assert_eq!(list(&bytes).unwrap(), print(&l));
}

#[test]
fn list_reports_corrupt_bytes() {
    assert_eq!(list(&b"not json".to_vec()), Err(TodoError::CorruptStore));
}

#[test]
fn store_unchanged_after_invalid_id() {
    // a failed operation writes nothing; a later load sees the old list
    let l = vec![item(b"a", false), item(b"b", true)];
    let bytes = encode(&l);
    assert_eq!(todo_list::ops::done(&l, 2), Err(TodoError::InvalidId));
    assert_eq!(todo_list::ops::remove(&l, &b"t".to_vec(), 5), Err(TodoError::InvalidId));
    let reloaded = decode(&bytes).unwrap();
    assert_eq!(encode(&reloaded), bytes);
}
