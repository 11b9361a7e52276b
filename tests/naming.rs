use horreum::naming::{order_by_id, table_id};

#[test]
fn table_names_give_numbers() {
    assert_eq!(Some(0), table_id("table_0"));
    assert_eq!(Some(10), table_id("table_10"));
    assert_eq!(Some(7), table_id("table_007"));
    assert_eq!(Some(u64::MAX), table_id("table_18446744073709551615"));
    assert_eq!(None, table_id("table_18446744073709551616"));
    assert_eq!(None, table_id("table_"));
    assert_eq!(None, table_id("table_1a"));
    assert_eq!(None, table_id("tablex1"));
    assert_eq!(None, table_id("notes.txt"));
    assert_eq!(None, table_id("日本語"));
}

#[test]
fn tables_open_in_number_order() {
    let found = vec![(10, "table_10"), (2, "table_2"), (0, "table_0"), (1, "table_1")];
    assert_eq!(
        vec![(0, "table_0"), (1, "table_1"), (2, "table_2"), (10, "table_10")],
        order_by_id(found)
    );
    assert!(order_by_id(Vec::<(u64, ())>::new()).is_empty());
}
