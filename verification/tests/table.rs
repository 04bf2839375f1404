use rowstore::storage::{row_address, InsertError, Row, Table, MAX_ROWS, ROWS_PER_PAGE, ROW_SIZE};

#[test]
fn fresh_table_is_empty() {
    let table = Table::new();
    assert_eq!(table.num_rows(), 0);
    assert_eq!(table.all_rows().len(), 0);
    assert_eq!(table.allocated_page_count(), 0);
}

#[test]
fn scan_yields_rows_in_insertion_order_not_sorted() {
    let mut table = Table::new();
    for id in [5u32, 1u32, 9u32] {
        let row = Row::new(id, "user", "user@example.com").unwrap();
        table.insert_row(&row).unwrap();
    }
    let rows = table.all_rows();
    let ids: Vec<u32> = rows.iter().map(|r| r.id).collect();
    assert_eq!(ids, vec![5u32, 1u32, 9u32]);
}

#[test]
fn crossing_a_page_boundary_allocates_exactly_one_more_page() {
    let mut table = Table::new();
    assert_eq!(ROWS_PER_PAGE, 14);
    for id in 0..(ROWS_PER_PAGE as u32) {
        let row = Row::new(id, "user", "user@example.com").unwrap();
        table.insert_row(&row).unwrap();
        assert_eq!(table.allocated_page_count(), 1);
    }
    let last = Row::new(777, "edge", "edge@example.com").unwrap();
    table.insert_row(&last).unwrap();
    assert_eq!(table.num_rows(), 15);
    assert_eq!(table.allocated_page_count(), 2);

    let rows = table.all_rows();
    assert_eq!(rows.len(), 15);
    assert_eq!(rows[14].id, 777);
    assert_eq!(rows[14].username, last.username);
    assert_eq!(rows[14].email, last.email);
}

#[test]
fn the_table_holds_exactly_its_capacity_and_then_fails_full() {
    let mut table = Table::new();
    assert_eq!(MAX_ROWS, 1400);
    for id in 0..(MAX_ROWS as u32) {
        let row = Row::new(id, "u", "e@example.com").unwrap();
        assert_eq!(table.insert_row(&row), Ok(()));
    }
    assert_eq!(table.num_rows(), MAX_ROWS);

    let one_too_many = Row::new(9999, "u", "e@example.com").unwrap();
    assert_eq!(table.insert_row(&one_too_many), Err(InsertError::TableFull));
    assert_eq!(table.num_rows(), MAX_ROWS);

    let rows = table.all_rows();
    assert_eq!(rows.len(), MAX_ROWS);
    assert_eq!(rows[0].id, 0);
    assert_eq!(rows[MAX_ROWS - 1].id, (MAX_ROWS - 1) as u32);
}

#[test]
fn row_addresses_follow_div_and_mod_by_rows_per_page() {
    assert_eq!(row_address(0), (0, 0));
    assert_eq!(row_address(13), (0, 13 * ROW_SIZE));
    assert_eq!(row_address(14), (1, 0));
    assert_eq!(row_address(15), (1, ROW_SIZE));
    assert_eq!(row_address(1399), (99, 13 * ROW_SIZE));
}

#[test]
fn inserted_rows_come_back_with_their_content() {
    let mut table = Table::new();
    let row = Row::new(42, "alice", "alice@example.com").unwrap();
    table.insert_row(&row).unwrap();
    let rows = table.all_rows();
    assert_eq!(rows.len(), 1);
    assert_eq!(rows[0].id, 42);
    assert_eq!(rows[0].username, row.username);
    assert_eq!(rows[0].email, row.email);
}
