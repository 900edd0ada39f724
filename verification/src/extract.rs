//! Reads one sheet's data rows into item records.
//!
//! Rows are scanned from a fixed first data row until a row whose
//! first-column cell is empty. A row whose sentinel cell holds the order
//! marker appends an order entry to the most recently started record; any
//! other row starts a new record.

use vstd::prelude::*;
use crate::quantity::parse_quantity;
use crate::quantity::quantity_of;
use crate::record::BomItemData;
use crate::record::BomOrderData;
use crate::record::ItemDataView;
use crate::record::OrderDataView;
use crate::strutil::str_eq;
use crate::viewext::lemma_deep_view_push;

verus! {

#[verifier::external_type_specification]
#[verifier::external_body]
pub struct ExWorksheet(umya_spreadsheet::Worksheet);

/// The text of the sheet's cell at (column, row), both counted from 1;
/// the empty sequence for an unset cell.
pub uninterp spec fn sheet_cell(sheet: umya_spreadsheet::Worksheet, col: u32, row: u32) -> Seq<
    char,
>;

/// Relies on umya_spreadsheet's Worksheet::value: the string of the cell at
/// the (column, row) coordinate, empty when the cell is unset.
#[verifier::external_body]
fn cell_value(sheet: &umya_spreadsheet::Worksheet, col: u32, row: u32) -> (r: String)
    ensures
        r@ == sheet_cell(*sheet, col, row),
{
    sheet.value((col, row))
}

/// The first data row; everything above is header and metadata.
pub const FIRST_DATA_ROW: u32 = 20;

/// One raw row: the cells the extraction reads, by their fixed columns.
pub struct RawRow {
    pub sentinel: String,
    pub item_no: String,
    pub rev: String,
    pub name: String,
    pub quantity: String,
    pub manufacturer: String,
    pub order_desc: String,
    pub additional_name: String,
    pub short_desc: String,
    pub ref_designator: String,
}

pub ghost struct RawRowView {
    pub sentinel: Seq<char>,
    pub item_no: Seq<char>,
    pub rev: Seq<char>,
    pub name: Seq<char>,
    pub quantity: Seq<char>,
    pub manufacturer: Seq<char>,
    pub order_desc: Seq<char>,
    pub additional_name: Seq<char>,
    pub short_desc: Seq<char>,
    pub ref_designator: Seq<char>,
}

impl View for RawRow {
    type V = RawRowView;

    open spec fn view(&self) -> RawRowView {
        RawRowView {
            sentinel: self.sentinel@,
            item_no: self.item_no@,
            rev: self.rev@,
            name: self.name@,
            quantity: self.quantity@,
            manufacturer: self.manufacturer@,
            order_desc: self.order_desc@,
            additional_name: self.additional_name@,
            short_desc: self.short_desc@,
            ref_designator: self.ref_designator@,
        }
    }
}

impl DeepView for RawRow {
    type V = RawRowView;

    open spec fn deep_view(&self) -> RawRowView {
        self.view()
    }
}

/// The cells one row contributes, by the source's fixed column layout.
pub open spec fn row_view(sheet: umya_spreadsheet::Worksheet, row: u32) -> RawRowView {
    RawRowView {
        sentinel: sheet_cell(sheet, 1, row),
        item_no: sheet_cell(sheet, 2, row),
        rev: sheet_cell(sheet, 3, row),
        name: sheet_cell(sheet, 4, row),
        quantity: sheet_cell(sheet, 5, row),
        manufacturer: sheet_cell(sheet, 11, row),
        order_desc: sheet_cell(sheet, 15, row),
        additional_name: sheet_cell(sheet, 17, row),
        short_desc: sheet_cell(sheet, 18, row),
        ref_designator: sheet_cell(sheet, 20, row),
    }
}

/// The data rows from `row` on: the scan stops at the first row whose
/// first-column cell is empty (or at the last addressable row).
pub open spec fn scan_rows(sheet: umya_spreadsheet::Worksheet, row: u32) -> Seq<RawRowView>
    decreases u32::MAX - row,
{
    if sheet_cell(sheet, 1, row).len() == 0 {
        Seq::empty()
    } else if row == u32::MAX {
        seq![row_view(sheet, row)]
    } else {
        seq![row_view(sheet, row)] + scan_rows(sheet, (row + 1) as u32)
    }
}

/// All data rows of a sheet.
pub open spec fn sheet_rows(sheet: umya_spreadsheet::Worksheet) -> Seq<RawRowView> {
    scan_rows(sheet, FIRST_DATA_ROW)
}

fn read_row(sheet: &umya_spreadsheet::Worksheet, row: u32, sentinel: String) -> (r: RawRow)
    requires
        sentinel@ == sheet_cell(*sheet, 1, row),
    ensures
        r@ == row_view(*sheet, row),
{
    RawRow {
        sentinel,
        item_no: cell_value(sheet, 2, row),
        rev: cell_value(sheet, 3, row),
        name: cell_value(sheet, 4, row),
        quantity: cell_value(sheet, 5, row),
        manufacturer: cell_value(sheet, 11, row),
        order_desc: cell_value(sheet, 15, row),
        additional_name: cell_value(sheet, 17, row),
        short_desc: cell_value(sheet, 18, row),
        ref_designator: cell_value(sheet, 20, row),
    }
}

/// Reads the data rows of a sheet, stopping at the first empty sentinel cell.
fn read_raw_rows(sheet: &umya_spreadsheet::Worksheet) -> (rows: Vec<RawRow>)
    ensures
        rows.deep_view() == sheet_rows(*sheet),
{
    let mut rows: Vec<RawRow> = Vec::new();
    proof {
        assert(rows.deep_view() =~= Seq::<RawRowView>::empty());
    }
    let mut row: u32 = FIRST_DATA_ROW;
    loop
        invariant_except_break
            FIRST_DATA_ROW <= row,
            sheet_rows(*sheet) == rows.deep_view() + scan_rows(*sheet, row),
        ensures
            rows.deep_view() == sheet_rows(*sheet),
        decreases u32::MAX - row,
    {
        let sentinel = cell_value(sheet, 1, row);
        if sentinel.as_str().is_empty() {
            proof {
                assert(scan_rows(*sheet, row) =~= Seq::<RawRowView>::empty());
                assert(rows.deep_view() =~= rows.deep_view() + scan_rows(*sheet, row));
            }
            break;
        }
        let r = read_row(sheet, row, sentinel);
        let ghost rv = r@;
        let ghost pre = rows;
        rows.push(r);
        proof {
            lemma_deep_view_push(pre, rows, rows@.last());
            assert(rows@.last()@ == rv);
        }
        if row == u32::MAX {
            proof {
                assert(scan_rows(*sheet, row) =~= seq![rv]);
                assert(rows.deep_view() =~= pre.deep_view() + scan_rows(*sheet, row));
            }
            break;
        }
        proof {
            assert(scan_rows(*sheet, row) =~= seq![rv] + scan_rows(*sheet, (row + 1) as u32));
            assert(rows.deep_view() + scan_rows(*sheet, (row + 1) as u32) =~= pre.deep_view()
                + scan_rows(*sheet, row));
        }
        row = row + 1;
    }
    rows
}

/// The marker distinguishing an order-detail row from an item row.
pub open spec fn od_marker() -> Seq<char> {
    "OD"@
}

/// The record an item row starts.
pub open spec fn item_from_row(r: RawRowView) -> ItemDataView {
    ItemDataView {
        rev: r.rev,
        name: r.name,
        quantity: quantity_of(r.quantity) as int,
        additional_name: r.additional_name,
        short_desc: r.short_desc,
        ref_designator: r.ref_designator,
        order_data: Seq::empty(),
    }
}

/// The order entry an order-detail row carries.
pub open spec fn order_from_row(r: RawRowView) -> OrderDataView {
    OrderDataView { name: r.name, manufacturer: r.manufacturer, order_desc: r.order_desc }
}

/// Appends an order entry to the most recent record; with no record yet, the
/// row is dropped.
pub open spec fn append_order(
    recs: Seq<(Seq<char>, ItemDataView)>,
    o: OrderDataView,
) -> Seq<(Seq<char>, ItemDataView)> {
    if recs.len() == 0 {
        recs
    } else {
        let last = recs.last();
        recs.update(
            recs.len() - 1,
            (last.0, ItemDataView { order_data: last.1.order_data.push(o), ..last.1 }),
        )
    }
}

/// The records the first `k` rows yield.
pub open spec fn parse_upto(rows: Seq<RawRowView>, k: int) -> Seq<(Seq<char>, ItemDataView)>
    decreases k,
{
    if k <= 0 {
        Seq::empty()
    } else {
        let prev = parse_upto(rows, k - 1);
        let r = rows[k - 1];
        if r.sentinel == od_marker() {
            append_order(prev, order_from_row(r))
        } else {
            prev.push((r.item_no, item_from_row(r)))
        }
    }
}

pub open spec fn parse_rows_spec(rows: Seq<RawRowView>) -> Seq<(Seq<char>, ItemDataView)> {
    parse_upto(rows, rows.len() as int)
}

/// All records of a sheet: identifier and record, in row order.
pub open spec fn sheet_records(sheet: umya_spreadsheet::Worksheet) -> Seq<
    (Seq<char>, ItemDataView),
> {
    parse_rows_spec(sheet_rows(sheet))
}

/// Turns raw rows into records, appending order-detail rows to the record
/// most recently started.
fn parse_rows(rows: &Vec<RawRow>) -> (recs: Vec<(String, BomItemData)>)
    ensures
        recs.deep_view() == parse_rows_spec(rows.deep_view()),
{
    let mut recs: Vec<(String, BomItemData)> = Vec::new();
    proof {
        assert(recs.deep_view() =~= Seq::<(Seq<char>, ItemDataView)>::empty());
    }
    let mut i: usize = 0;
    while i < rows.len()
        invariant
            0 <= i <= rows@.len(),
            recs.deep_view() == parse_upto(rows.deep_view(), i as int),
        decreases rows@.len() - i,
    {
        let r = &rows[i];
        proof {
            assert(rows.deep_view()[i as int] == r@);
        }
        if str_eq(r.sentinel.as_str(), "OD") {
            if recs.len() > 0 {
                let ghost pre = recs;
                match recs.pop() {
                    Some(mut lastrec) => {
                        let ghost last0 = lastrec;
                        let ghost preod = lastrec.1.order_data;
                        let od = BomOrderData {
                            name: r.name.clone(),
                            manufacturer: r.manufacturer.clone(),
                            order_desc: r.order_desc.clone(),
                        };
                        proof {
                            assert(od@ == order_from_row(r@));
                        }
                        lastrec.1.order_data.push(od);
                        proof {
                            lemma_deep_view_push(
                                preod,
                                lastrec.1.order_data,
                                lastrec.1.order_data@.last(),
                            );
                            assert(lastrec.1.order_data@.last()@ == order_from_row(r@));
                            assert(lastrec.1@ == ItemDataView {
                                order_data: last0.1@.order_data.push(order_from_row(r@)),
                                ..last0.1@
                            });
                        }
                        let ghost lastv = lastrec;
                        recs.push(lastrec);
                        proof {
                            let predv = pre.deep_view();
                            assert(last0 == pre@.last());
                            assert(predv.last() == pre@.last().deep_view());
                            assert(predv.len() == pre@.len());
                            assert(lastv.deep_view() == (
                                last0.0@,
                                ItemDataView {
                                    order_data: last0.1@.order_data.push(order_from_row(r@)),
                                    ..last0.1@
                                },
                            ));
                            assert forall|p: int|
                                0 <= p < recs.deep_view().len() implies recs.deep_view()[p]
                                == append_order(predv, order_from_row(r@))[p] by {
                                assert(recs.deep_view()[p] == recs@[p].deep_view());
                                if p < predv.len() - 1 {
                                    assert(recs@[p] == pre@[p]);
                                    assert(predv[p] == pre@[p].deep_view());
                                } else {
                                    assert(recs@[p] == lastv);
                                }
                            }
                            assert(recs.deep_view() =~= append_order(predv, order_from_row(r@)));
                        }
                    },
                    None => {
                        proof {
                            assert(false);
                        }
                    },
                }
            } else {
                proof {
                    assert(recs.deep_view().len() == 0);
                    assert(recs.deep_view() =~= append_order(
                        parse_upto(rows.deep_view(), i as int),
                        order_from_row(r@),
                    ));
                }
            }
        } else {
            let data = BomItemData {
                rev: r.rev.clone(),
                name: r.name.clone(),
                quantity: parse_quantity(r.quantity.as_str()),
                additional_name: r.additional_name.clone(),
                short_desc: r.short_desc.clone(),
                ref_designator: r.ref_designator.clone(),
                order_data: Vec::new(),
            };
            proof {
                assert(data@.order_data =~= Seq::<OrderDataView>::empty());
                assert(data@ == item_from_row(r@));
            }
            let ghost pre = recs;
            recs.push((r.item_no.clone(), data));
            proof {
                lemma_deep_view_push(pre, recs, recs@.last());
                assert(recs@.last().deep_view() == (r@.item_no, item_from_row(r@)));
            }
        }
        i += 1;
    }
    proof {
        assert(rows.deep_view().len() == rows@.len());
    }
    recs
}

/// Extracts a sheet end to end: its data rows parsed into records.
pub fn extract_sheet(sheet: &umya_spreadsheet::Worksheet) -> (recs: Vec<(String, BomItemData)>)
    ensures
        recs.deep_view() == sheet_records(*sheet),
{
    let rows = read_raw_rows(sheet);
    parse_rows(&rows)
}

} // verus!
