use sparsemat::rowindexlist::IndexList;

#[test]
fn check_rowindexlist() {
    let mut list = IndexList::<u16>::new();
    list.push(1);
    list.push(1);
    list.push(2);
    list.push(4);
    list.push(1);
    assert_eq!(list.iter_row(0).next(), None);
    assert_eq!(list.n_entries(), 5);
    let mut iter = list.iter_row(1);
    assert_eq!(iter.next(), Some(0));
    assert_eq!(iter.next(), Some(1));
    assert_eq!(iter.next(), Some(4));
}

#[test]
fn rowindexlist_rows_grow_to_cover_pushes() {
    let mut list = IndexList::<u16>::new();
    assert_eq!(list.n_rows(), 0);
    list.push(3);
    assert_eq!(list.n_rows(), 4);
    list.push(1);
    assert_eq!(list.n_rows(), 4);
    let mut iter = list.iter_row(3);
    assert_eq!(iter.next(), Some(0));
    assert_eq!(iter.next(), None);
    let mut iter = list.iter_row(2);
    assert_eq!(iter.next(), None);
}

#[test]
fn rowindexlist_chain_keeps_insertion_order() {
    let mut list = IndexList::<u8>::with_capacity(8);
    list.push(0);
    list.push(5);
    list.push(0);
    list.push(5);
    list.push(0);
    let slots = list.chain_slots(0);
    assert_eq!(slots, vec![0, 2, 4]);
    let slots = list.chain_slots(5);
    assert_eq!(slots, vec![1, 3]);
}
