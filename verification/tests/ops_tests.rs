use todo_list::Todo;
use todo_list::TodoError;

fn item(text: &str, done: bool) -> Todo {
    Todo { item: text.as_bytes().to_vec(), done }
}

fn texts(l: &[Todo]) -> Vec<Vec<u8>> {
    l.iter().map(|t| t.item.clone()).collect()
}

fn flags(l: &[Todo]) -> Vec<bool> {
    l.iter().map(|t| t.done).collect()
}

#[test]
fn add_appends_pending() {
    let l = vec![item("first", true), item("second", false)];
    let l2 = todo_list::ops::add(l, b"third".to_vec());
    assert_eq!(texts(&l2), vec![b"first".to_vec(), b"second".to_vec(), b"third".to_vec()]);
    assert_eq!(flags(&l2), vec![true, false, false]);
}

#[test]
fn add_to_empty() {
    let l2 = todo_list::ops::add(Vec::new(), b"only".to_vec());
    assert_eq!(texts(&l2), vec![b"only".to_vec()]);
    assert_eq!(flags(&l2), vec![false]);
}

#[test]
fn done_flips_in_place() {
    // pending items are "a" (1) and "c" (2); flipping 2 must leave order alone
    let l = vec![item("a", false), item("b", true), item("c", false)];
    let l2 = todo_list::ops::done(&l, 2).unwrap();
    assert_eq!(texts(&l2), vec![b"a".to_vec(), b"b".to_vec(), b"c".to_vec()]);
    assert_eq!(flags(&l2), vec![false, true, true]);
}

#[test]
fn done_first_pending() {
    let l = vec![item("x", true), item("y", false)];
    let l2 = todo_list::ops::done(&l, 1).unwrap();
    assert_eq!(flags(&l2), vec![true, true]);
}

#[test]
fn done_id_zero_is_invalid() {
    let l = vec![item("a", false)];
    assert_eq!(todo_list::ops::done(&l, 0), Err(TodoError::InvalidId));
}

#[test]
fn done_id_past_pending_count_is_invalid() {
    // two items but only one pending: id 2 is out of range
    let l = vec![item("a", false), item("b", true)];
    assert_eq!(todo_list::ops::done(&l, 2), Err(TodoError::InvalidId));
}

#[test]
fn remove_pending_keeps_rest() {
    let l = vec![item("a", false), item("b", true), item("c", false)];
    let l2 = todo_list::ops::remove(&l, &b"t".to_vec(), 2).unwrap();
    assert_eq!(texts(&l2), vec![b"a".to_vec(), b"b".to_vec()]);
    assert_eq!(flags(&l2), vec![false, true]);
}

#[test]
fn remove_done_bucket() {
    let l = vec![item("a", false), item("b", true), item("c", true)];
    let l2 = todo_list::ops::remove(&l, &b"d".to_vec(), 1).unwrap();
    assert_eq!(texts(&l2), vec![b"a".to_vec(), b"c".to_vec()]);
    assert_eq!(flags(&l2), vec![false, true]);
}

#[test]
fn remove_unknown_bucket() {
    let l = vec![item("a", false)];
    assert_eq!(todo_list::ops::remove(&l, &b"x".to_vec(), 1), Err(TodoError::InvalidBucket));
}

#[test]
fn remove_bucket_checked_before_id() {
    let l = vec![item("a", false)];
    assert_eq!(todo_list::ops::remove(&l, &b"q".to_vec(), 0), Err(TodoError::InvalidBucket));
}

#[test]
fn remove_id_out_of_range() {
    let l = vec![item("a", false), item("b", true)];
    assert_eq!(todo_list::ops::remove(&l, &b"t".to_vec(), 2), Err(TodoError::InvalidId));
    assert_eq!(todo_list::ops::remove(&l, &b"d".to_vec(), 0), Err(TodoError::InvalidId));
}

#[test]
fn ids_are_recomputed_each_call() {
    // after marking pending item 1 done, the old item 2 becomes item 1
    let l = vec![item("a", false), item("b", false)];
    let l2 = todo_list::ops::done(&l, 1).unwrap();
    let l3 = todo_list::ops::done(&l2, 1).unwrap();
    assert_eq!(flags(&l3), vec![true, true]);
}
