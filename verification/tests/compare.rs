use bom_compare::handler::BomHandler;
use bom_compare::quantity::parse_quantity;
use bom_compare::record::BomItem;
use bom_compare::record::BomItemData;
use bom_compare::record::BomOrderData;
use umya_spreadsheet::Workbook;

fn set_cell(book: &mut Workbook, col: u32, row: u32, value: &str) {
    book.sheet_mut(0)
        .unwrap()
        .cell_mut((col, row))
        .set_value(value);
}

fn set_item_row(book: &mut Workbook, row: u32, item_no: &str, rev: &str, name: &str, qty: &str) {
    set_cell(book, 1, row, "x");
    set_cell(book, 2, row, item_no);
    set_cell(book, 3, row, rev);
    set_cell(book, 4, row, name);
    set_cell(book, 5, row, qty);
}

fn set_order_row(book: &mut Workbook, row: u32, name: &str, manufacturer: &str, desc: &str) {
    set_cell(book, 1, row, "OD");
    set_cell(book, 4, row, name);
    set_cell(book, 11, row, manufacturer);
    set_cell(book, 15, row, desc);
}

fn diff_of(books: &[&Workbook]) -> Vec<(String, Vec<Vec<String>>)> {
    let sheets: Vec<&umya_spreadsheet::Worksheet> =
        books.iter().map(|b| b.sheet(0).unwrap()).collect();
    BomHandler::load(&sheets).get_diff().clone()
}

#[test]
fn quantity_parsing_policy() {
    assert_eq!(parse_quantity("12"), 12);
    assert_eq!(parse_quantity("12.7"), 12);
    assert_eq!(parse_quantity("abc"), 0);
    assert_eq!(parse_quantity(""), 0);
    assert_eq!(parse_quantity("-3.9"), -3);
    assert_eq!(parse_quantity("+7"), 7);
    assert_eq!(parse_quantity(".5"), 0);
    assert_eq!(parse_quantity("1."), 1);
    assert_eq!(parse_quantity("."), 0);
    assert_eq!(parse_quantity("-2147483648"), -2147483648);
    assert_eq!(parse_quantity("2147483648"), 2147483647);
    assert_eq!(parse_quantity("99999999999.5"), 2147483647);
    assert_eq!(parse_quantity("1.2.3"), 0);
    assert_eq!(parse_quantity("3 "), 0);
}

#[test]
fn missing_item_reports_all_seven_fields() {
    let mut a = umya_spreadsheet::new_file();
    set_item_row(&mut a, 20, "1001", "", "", "5");
    let b = umya_spreadsheet::new_file();
    let diff = diff_of(&[&a, &b]);
    assert_eq!(diff.len(), 1);
    assert_eq!(diff[0].0, "1001");
    assert_eq!(diff[0].1.len(), 7);
    assert_eq!(diff[0].1[0][0], "Rev");
    assert_eq!(diff[0].1[1][0], "Name");
    assert_eq!(diff[0].1[2], vec!["Quantity", "5", ""]);
    assert_eq!(diff[0].1[3][0], "Additional name");
    assert_eq!(diff[0].1[4][0], "Short desc.");
    assert_eq!(diff[0].1[5][0], "Ref. designator");
    assert_eq!(diff[0].1[6][0], "Order data");
    for row in &diff[0].1 {
        assert_eq!(row.len(), 3);
        assert_eq!(row[2], "");
    }
}

#[test]
fn quantity_change_reports_quantity_only() {
    let mut a = umya_spreadsheet::new_file();
    set_item_row(&mut a, 20, "2002", "B", "part", "3");
    let mut b = umya_spreadsheet::new_file();
    set_item_row(&mut b, 20, "2002", "B", "part", "4");
    let diff = diff_of(&[&a, &b]);
    assert_eq!(
        diff,
        vec![(
            "2002".to_string(),
            vec![vec![
                "Quantity".to_string(),
                "3".to_string(),
                "4".to_string()
            ]]
        )]
    );
}

#[test]
fn identical_item_is_absent_from_report() {
    let mut a = umya_spreadsheet::new_file();
    set_item_row(&mut a, 20, "5005", "C", "same", "2");
    set_order_row(&mut a, 21, "v", "m", "MPN-1");
    let mut b = umya_spreadsheet::new_file();
    set_item_row(&mut b, 20, "5005", "C", "same", "2");
    set_order_row(&mut b, 21, "v", "m", "MPN-1");
    let diff = diff_of(&[&a, &b]);
    assert!(diff.is_empty());
}

#[test]
fn order_rows_in_different_order_do_not_differ() {
    let mut a = umya_spreadsheet::new_file();
    set_item_row(&mut a, 20, "3003", "A", "n", "1");
    set_order_row(&mut a, 21, "v1", "m1", "MPN-X");
    set_order_row(&mut a, 22, "v2", "m2", "MPN-Y");
    let mut b = umya_spreadsheet::new_file();
    set_item_row(&mut b, 20, "3003", "A", "n", "1");
    set_order_row(&mut b, 21, "v2", "m2", "MPN-Y");
    set_order_row(&mut b, 22, "v1", "m1", "MPN-X");
    let diff = diff_of(&[&a, &b]);
    assert!(diff.is_empty());
}

#[test]
fn order_data_renders_sorted_and_joined() {
    let mut a = umya_spreadsheet::new_file();
    set_item_row(&mut a, 20, "6006", "", "", "1");
    set_order_row(&mut a, 21, "v", "m", "MPN-B");
    set_order_row(&mut a, 22, "v", "m", "MPN-A");
    let b = umya_spreadsheet::new_file();
    let diff = diff_of(&[&a, &b]);
    assert_eq!(diff.len(), 1);
    assert_eq!(diff[0].1[6], vec!["Order data", "MPN-A, MPN-B", ""]);
}

#[test]
fn report_is_sorted_by_identifier() {
    let mut a = umya_spreadsheet::new_file();
    set_item_row(&mut a, 20, "9" , "", "", "1");
    set_item_row(&mut a, 21, "10", "", "", "1");
    set_item_row(&mut a, 22, "1" , "", "", "1");
    let b = umya_spreadsheet::new_file();
    let diff = diff_of(&[&a, &b]);
    let ids: Vec<&str> = diff.iter().map(|(id, _)| id.as_str()).collect();
    // ordinal string comparison, not numeric
    assert_eq!(ids, vec!["1", "10", "9"]);
}

#[test]
fn scan_stops_at_first_empty_sentinel() {
    let mut a = umya_spreadsheet::new_file();
    set_item_row(&mut a, 20, "7007", "", "", "1");
    // row 21 is left empty; row 22 would hold another item
    set_item_row(&mut a, 22, "8008", "", "", "1");
    let b = umya_spreadsheet::new_file();
    let diff = diff_of(&[&a, &b]);
    assert_eq!(diff.len(), 1);
    assert_eq!(diff[0].0, "7007");
}

#[test]
fn order_row_before_any_item_is_dropped() {
    let mut a = umya_spreadsheet::new_file();
    set_order_row(&mut a, 20, "v", "m", "MPN-Z");
    set_item_row(&mut a, 21, "1100", "", "", "1");
    let b = umya_spreadsheet::new_file();
    let diff = diff_of(&[&a, &b]);
    assert_eq!(diff.len(), 1);
    assert_eq!(diff[0].0, "1100");
    // the stray order row contributed nothing
    assert_eq!(diff[0].1[6], vec!["Order data", "", ""]);
}

#[test]
fn duplicate_identifier_in_one_source_keeps_last() {
    let mut a = umya_spreadsheet::new_file();
    set_item_row(&mut a, 20, "4004", "", "", "1");
    set_item_row(&mut a, 21, "4004", "", "", "9");
    let mut b = umya_spreadsheet::new_file();
    set_item_row(&mut b, 20, "4004", "", "", "9");
    let diff = diff_of(&[&a, &b]);
    assert!(diff.is_empty());
}

#[test]
fn rerunning_gives_identical_report() {
    let mut a = umya_spreadsheet::new_file();
    set_item_row(&mut a, 20, "2002", "B", "part", "3");
    set_order_row(&mut a, 21, "v", "m", "MPN-1");
    let mut b = umya_spreadsheet::new_file();
    set_item_row(&mut b, 20, "2002", "C", "part", "3");
    let first = diff_of(&[&a, &b]);
    let second = diff_of(&[&a, &b]);
    assert_eq!(first, second);
    assert!(!first.is_empty());
}

#[test]
fn revision_change_alone_is_not_rendered() {
    // the emission scan starts at the Name field: a revision-only change
    // is computed but yields no row
    let mut a = umya_spreadsheet::new_file();
    set_item_row(&mut a, 20, "2020", "A", "part", "3");
    let mut b = umya_spreadsheet::new_file();
    set_item_row(&mut b, 20, "2020", "B", "part", "3");
    let diff = diff_of(&[&a, &b]);
    assert!(diff.is_empty());
}

fn data(rev: &str, name: &str, qty: i32) -> BomItemData {
    BomItemData {
        rev: rev.to_string(),
        name: name.to_string(),
        quantity: qty,
        additional_name: String::new(),
        short_desc: String::new(),
        ref_designator: String::new(),
        order_data: Vec::new(),
    }
}

#[test]
fn matches_and_getters() {
    let item = BomItem {
        item_no: "77".to_string(),
        boms: vec![Some(data("A", "n", 3)), Some(data("A", "n", 3))],
    };
    assert!(item.matches());
    assert_eq!(item.get_item_no(), "77");
    let d = item.get_item_data(1).unwrap();
    assert_eq!(d.get_name(), "n");
    assert_eq!(d.get_quantity(), 3);
    assert!(item.get_item_data(2).is_none());

    let changed = BomItem {
        item_no: "78".to_string(),
        boms: vec![Some(data("A", "n", 3)), Some(data("A", "n", 4))],
    };
    assert!(!changed.matches());
    let missing = BomItem {
        item_no: "79".to_string(),
        boms: vec![Some(data("A", "n", 3)), None],
    };
    assert!(!missing.matches());
}

#[test]
fn mpn_list_lists_descriptions_in_order() {
    let mut d = data("A", "n", 1);
    d.order_data.push(BomOrderData {
        name: "v1".to_string(),
        manufacturer: "m1".to_string(),
        order_desc: "P-1".to_string(),
    });
    d.order_data.push(BomOrderData {
        name: "v2".to_string(),
        manufacturer: "m2".to_string(),
        order_desc: "P-2".to_string(),
    });
    assert_eq!(d.get_mpn_list(), vec!["P-1", "P-2"]);
}

#[test]
fn three_sources_compare_against_the_first() {
    let mut a = umya_spreadsheet::new_file();
    set_item_row(&mut a, 20, "1234", "A", "n", "1");
    let mut b = umya_spreadsheet::new_file();
    set_item_row(&mut b, 20, "1234", "A", "n", "1");
    let mut c = umya_spreadsheet::new_file();
    set_item_row(&mut c, 20, "1234", "A", "n", "2");
    let diff = diff_of(&[&a, &b, &c]);
    assert_eq!(
        diff,
        vec![(
            "1234".to_string(),
            vec![vec![
                "Quantity".to_string(),
                "1".to_string(),
                "1".to_string(),
                "2".to_string()
            ]]
        )]
    );
}
