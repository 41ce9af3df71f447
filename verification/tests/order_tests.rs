use core::cmp::Ordering;
use zkdb::order::{bytes_cmp, kv_find, kv_insert, kv_remove};

#[test]
fn bytes_cmp_orders_lexicographically() {
    assert_eq!(bytes_cmp(&vec![], &vec![]), Ordering::Equal);
    assert_eq!(bytes_cmp(&vec![1, 2], &vec![1, 2]), Ordering::Equal);
    assert_eq!(bytes_cmp(&vec![], &vec![0]), Ordering::Less);
    assert_eq!(bytes_cmp(&vec![1, 2], &vec![1, 2, 0]), Ordering::Less);
    assert_eq!(bytes_cmp(&vec![1, 2, 0], &vec![1, 2]), Ordering::Greater);
    assert_eq!(bytes_cmp(&vec![1, 2, 3], &vec![1, 3]), Ordering::Less);
    assert_eq!(bytes_cmp(&vec![2], &vec![1, 255, 255]), Ordering::Greater);
}

#[test]
fn sorted_list_insert_find_remove() {
    let mut entries: Vec<(Vec<u8>, u32)> = Vec::new();
    kv_insert(&mut entries, vec![5], 50);
    kv_insert(&mut entries, vec![1], 10);
    kv_insert(&mut entries, vec![3], 30);
    assert_eq!(
        entries,
        vec![(vec![1u8], 10u32), (vec![3], 30), (vec![5], 50)]
    );
    // replacing keeps the position
    kv_insert(&mut entries, vec![3], 31);
    assert_eq!(
        entries,
        vec![(vec![1u8], 10u32), (vec![3], 31), (vec![5], 50)]
    );
    assert_eq!(kv_find(&entries, &vec![3]), Some(1));
    assert_eq!(kv_find(&entries, &vec![4]), None);
    kv_remove(&mut entries, &vec![3]);
    assert_eq!(entries, vec![(vec![1u8], 10u32), (vec![5], 50)]);
    // removing an absent key changes nothing
    kv_remove(&mut entries, &vec![3]);
    assert_eq!(entries, vec![(vec![1u8], 10u32), (vec![5], 50)]);
}
