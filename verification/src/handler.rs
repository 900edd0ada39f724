//! Merges the records of all loaded sources into per-item slot arrays, sorts
//! them, and assembles the difference report.

use vstd::prelude::*;
use crate::extract::extract_sheet;
use crate::extract::sheet_records;
use crate::record::diff_rows;
use crate::record::BomItem;
use crate::record::BomItemData;
use crate::record::ItemDataView;
use crate::record::ItemView;
use crate::sorting::sort_items;
use crate::sorting::sort_items_spec;
use crate::sorting::sort_orders;
use crate::sorting::sort_orders_spec;
use crate::strutil::str_eq;
use crate::viewext::lemma_deep_view_push;
use crate::viewext::seq_at;

verus! {

/// Whether some aggregated item already carries this identifier.
pub open spec fn has_id(items: Seq<ItemView>, id: Seq<char>) -> bool {
    exists|p: int| 0 <= p < items.len() && (#[trigger] items[p]).item_no == id
}

/// The position of the item carrying this identifier.
pub open spec fn idx_of(items: Seq<ItemView>, id: Seq<char>) -> int {
    choose|p: int| 0 <= p < items.len() && (#[trigger] items[p]).item_no == id
}

/// A fresh aggregated item: `n` absent slots, slot `i` filled with `d`.
pub open spec fn new_item_view(n: nat, i: int, id: Seq<char>, d: ItemDataView) -> ItemView {
    ItemView {
        item_no: id,
        boms: Seq::new(n, |j: int| if j == i { Some(d) } else { None }),
    }
}

/// The item with slot `i` set to `d`.
pub open spec fn slot_set(v: ItemView, i: int, d: ItemDataView) -> ItemView {
    ItemView { item_no: v.item_no, boms: v.boms.update(i, Some(d)) }
}

/// Folds one record of source `i` into the aggregation: fills the slot of an
/// existing item, or appends a new item in first-seen order.
pub open spec fn agg_step(
    items: Seq<ItemView>,
    i: int,
    id: Seq<char>,
    d: ItemDataView,
    n: nat,
) -> Seq<ItemView> {
    if has_id(items, id) {
        items.update(idx_of(items, id), slot_set(items[idx_of(items, id)], i, d))
    } else {
        items.push(new_item_view(n, i, id, d))
    }
}

/// Folds the first `k` records of source `i` into `items`.
pub open spec fn agg_records(
    items: Seq<ItemView>,
    i: int,
    recs: Seq<(Seq<char>, ItemDataView)>,
    k: int,
    n: nat,
) -> Seq<ItemView>
    decreases k,
{
    if k <= 0 {
        items
    } else {
        let prev = agg_records(items, i, recs, k - 1, n);
        agg_step(prev, i, recs[k - 1].0, recs[k - 1].1, n)
    }
}

/// Folds the first `m` sources.
pub open spec fn agg_sources(
    sources: Seq<Seq<(Seq<char>, ItemDataView)>>,
    m: int,
    n: nat,
) -> Seq<ItemView>
    decreases m,
{
    if m <= 0 {
        Seq::empty()
    } else {
        agg_records(agg_sources(sources, m - 1, n), m - 1, sources[m - 1], sources[m
            - 1].len() as int, n)
    }
}

/// All sources merged: identifiers unique, slots positional by load order.
pub open spec fn aggregate_spec(sources: Seq<Seq<(Seq<char>, ItemDataView)>>) -> Seq<ItemView> {
    agg_sources(sources, sources.len() as int, sources.len() as nat)
}

/// Every item has one slot per source, and identifiers are unique.
pub open spec fn items_wf(items: Seq<ItemView>, n: nat) -> bool {
    &&& forall|p: int| 0 <= p < items.len() ==> (#[trigger] items[p]).boms.len() == n
    &&& forall|p: int, q: int|
        0 <= p < q < items.len() ==> (#[trigger] items[p]).item_no != (#[trigger] items[q]).item_no
}

/// A found position is the position the aggregation step uses.
proof fn lemma_idx_of_found(items: Seq<ItemView>, id: Seq<char>, p: int, n: nat)
    requires
        items_wf(items, n),
        0 <= p < items.len(),
        items[p].item_no == id,
    ensures
        has_id(items, id),
        idx_of(items, id) == p,
{
    assert(has_id(items, id));
    let q = idx_of(items, id);
    assert(0 <= q < items.len() && items[q].item_no == id);
    if p < q {
        assert(items[p].item_no != items[q].item_no);
    }
    if q < p {
        assert(items[q].item_no != items[p].item_no);
    }
}

/// One aggregation step preserves well-formedness.
proof fn lemma_agg_step_wf(items: Seq<ItemView>, i: int, id: Seq<char>, d: ItemDataView, n: nat)
    requires
        items_wf(items, n),
        0 <= i < n,
    ensures
        items_wf(agg_step(items, i, id, d, n), n),
{
    let out = agg_step(items, i, id, d, n);
    if has_id(items, id) {
        let p = idx_of(items, id);
        assert(0 <= p < items.len() && items[p].item_no == id);
        assert forall|q: int| 0 <= q < out.len() implies (#[trigger] out[q]).boms.len() == n by {
            if q != p {
                assert(out[q] == items[q]);
            }
        }
        assert forall|q: int, r: int|
            0 <= q < r < out.len() implies (#[trigger] out[q]).item_no != (
        #[trigger] out[r]).item_no by {
            assert(out[q].item_no == items[q].item_no);
            assert(out[r].item_no == items[r].item_no);
        }
    } else {
        assert forall|q: int| 0 <= q < out.len() implies (#[trigger] out[q]).boms.len() == n by {
            if q < items.len() {
                assert(out[q] == items[q]);
            } else {
                assert(out[q] == new_item_view(n, i, id, d));
            }
        }
        assert forall|q: int, r: int|
            0 <= q < r < out.len() implies (#[trigger] out[q]).item_no != (
        #[trigger] out[r]).item_no by {
            if r < items.len() {
                assert(out[q] == items[q] && out[r] == items[r]);
            } else {
                assert(out[q] == items[q]);
                assert(out[r].item_no == id);
            }
        }
    }
}

/// The position of the item carrying `id`, scanning in order.
fn find_item(items: &Vec<BomItem>, id: &str) -> (r: Option<usize>)
    ensures
        match r {
            Some(p) => p < items@.len() && items.deep_view()[p as int].item_no == id@,
            None => forall|q: int|
                0 <= q < items@.len() ==> (#[trigger] items.deep_view()[q]).item_no != id@,
        },
{
    let mut p: usize = 0;
    while p < items.len()
        invariant
            0 <= p <= items@.len(),
            forall|q: int| 0 <= q < p ==> (#[trigger] items.deep_view()[q]).item_no != id@,
        decreases items@.len() - p,
    {
        let hit = str_eq(items[p].item_no.as_str(), id);
        proof {
            assert(items.deep_view()[p as int].item_no == items@[p as int].item_no@);
        }
        if hit {
            return Some(p);
        }
        p += 1;
    }
    None
}

/// The record list of each sheet, in load order.
pub open spec fn source_views(sheets: Seq<umya_spreadsheet::Worksheet>) -> Seq<
    Seq<(Seq<char>, ItemDataView)>,
> {
    Seq::new(sheets.len(), |i: int| sheet_records(sheets[i]))
}

pub open spec fn deref_sheets(s: Seq<&umya_spreadsheet::Worksheet>) -> Seq<
    umya_spreadsheet::Worksheet,
> {
    Seq::new(s.len(), |i: int| *s[i])
}

/// An item with each present record's order entries sorted.
pub open spec fn sorted_data(d: ItemDataView) -> ItemDataView {
    ItemDataView { order_data: sort_orders_spec(d.order_data), ..d }
}

pub open spec fn normalize_item(v: ItemView) -> ItemView {
    ItemView {
        item_no: v.item_no,
        boms: Seq::new(
            v.boms.len(),
            |j: int|
                match v.boms[j] {
                    Some(d) => Some(sorted_data(d)),
                    None => None,
                },
        ),
    }
}

/// The aggregation sorted by identifier, order entries normalized inside.
pub open spec fn handler_items(sheets: Seq<umya_spreadsheet::Worksheet>) -> Seq<ItemView> {
    let sorted = sort_items_spec(aggregate_spec(source_views(sheets)));
    Seq::new(sorted.len(), |i: int| normalize_item(sorted[i]))
}

/// The report rows the first `k` items contribute: an entry per item whose
/// diff is non-empty, in item order.
pub open spec fn report_upto(items: Seq<ItemView>, k: int) -> Seq<
    (Seq<char>, Seq<Seq<Seq<char>>>),
>
    decreases k,
{
    if k <= 0 {
        Seq::empty()
    } else {
        let prev = report_upto(items, k - 1);
        if diff_rows(items[k - 1]).len() > 0 {
            prev.push((items[k - 1].item_no, diff_rows(items[k - 1])))
        } else {
            prev
        }
    }
}

pub open spec fn report_spec(items: Seq<ItemView>) -> Seq<(Seq<char>, Seq<Seq<Seq<char>>>)> {
    report_upto(items, items.len() as int)
}

/// The whole pipeline: extract, aggregate, sort, normalize, diff.
pub open spec fn handler_report(sheets: Seq<umya_spreadsheet::Worksheet>) -> Seq<
    (Seq<char>, Seq<Seq<Seq<char>>>),
> {
    report_spec(handler_items(sheets))
}

/// Sorts the order entries of every present slot of one item.
fn normalize_one(item: BomItem) -> (r: BomItem)
    ensures
        r@ == normalize_item(item@),
{
    let ghost orig = item@;
    let BomItem { item_no, boms } = item;
    let mut rest = boms;
    let mut out: Vec<Option<BomItemData>> = Vec::new();
    let mut t: usize = 0;
    let total = rest.len();
    proof {
        assert(orig.boms.len() == total as int);
    }
    while rest.len() > 0
        invariant
            0 <= t,
            orig.boms.len() <= usize::MAX,
            t + rest@.len() == orig.boms.len(),
            forall|p: int| 0 <= p < rest@.len() ==> (#[trigger] rest@[p]).deep_view() == orig.boms[t
                + p],
            out@.len() == t,
            forall|p: int| 0 <= p < t ==> (#[trigger] out@[p]).deep_view() == match orig.boms[p] {
                Some(d) => Some(sorted_data(d)),
                None => None,
            },
        decreases rest@.len(),
    {
        let slot = rest.remove(0);
        proof {
            assert(slot.deep_view() == orig.boms[t as int]);
            assert forall|p: int| 0 <= p < rest@.len() implies (#[trigger] rest@[p]).deep_view()
                == orig.boms[t + 1 + p] by {
                assert(rest@[p] == seq_at(rest@, p));
            }
        }
        match slot {
            Some(d) => {
                let BomItemData {
                    rev,
                    name,
                    quantity,
                    additional_name,
                    short_desc,
                    ref_designator,
                    order_data,
                } = d;
                let sorted = sort_orders(order_data);
                let nd = BomItemData {
                    rev,
                    name,
                    quantity,
                    additional_name,
                    short_desc,
                    ref_designator,
                    order_data: sorted,
                };
                proof {
                    assert(nd@ == sorted_data(d@));
                }
                out.push(Some(nd));
            },
            None => {
                out.push(None);
            },
        }
        t += 1;
    }
    let ret = BomItem { item_no, boms: out };
    proof {
        assert forall|p: int|
            0 <= p < ret@.boms.len() implies ret@.boms[p] == normalize_item(orig).boms[p] by {
            assert(ret@.boms[p] == ret.boms@[p].deep_view());
        }
        assert(ret@.boms =~= normalize_item(orig).boms);
    }
    ret
}

/// The loaded comparison: its sources' count, the aggregated items, and the
/// assembled difference report.
pub struct BomHandler {
    pub boms: usize,
    pub items: Vec<BomItem>,
    pub diff: Vec<(String, Vec<Vec<String>>)>,
}

impl BomHandler {
    /// Aggregates the records of every sheet, in load order.
    fn aggregate(sheets: &Vec<&umya_spreadsheet::Worksheet>) -> (items: Vec<BomItem>)
        ensures
            items.deep_view() == aggregate_spec(source_views(deref_sheets(sheets@))),
            items_wf(items.deep_view(), sheets@.len() as nat),
    {
        let ghost srcs = source_views(deref_sheets(sheets@));
        let n = sheets.len();
        let mut items: Vec<BomItem> = Vec::new();
        proof {
            assert(items.deep_view() =~= agg_sources(srcs, 0, n as nat));
        }
        let mut src: usize = 0;
        while src < n
            invariant
                0 <= src <= n,
                n == sheets@.len(),
                srcs == source_views(deref_sheets(sheets@)),
                items.deep_view() == agg_sources(srcs, src as int, n as nat),
                items_wf(items.deep_view(), n as nat),
            decreases n - src,
        {
            let sheet: &umya_spreadsheet::Worksheet = sheets[src];
            let mut recs = extract_sheet(sheet);
            proof {
                assert(deref_sheets(sheets@)[src as int] == *sheet);
                assert(recs.deep_view() == srcs[src as int]);
            }
            let ghost rv = recs.deep_view();
            let ghost base = items.deep_view();
            let total = recs.len();
            let mut t: usize = 0;
            proof {
                assert(rv.len() == total as int);
                assert(agg_records(base, src as int, rv, 0, n as nat) == base);
            }
            while recs.len() > 0
                invariant
                    0 <= t,
                    0 <= src < n,
                    n == sheets@.len(),
                    rv.len() <= usize::MAX,
                    t + recs@.len() == rv.len(),
                    forall|p: int| 0 <= p < recs@.len() ==> (#[trigger] recs@[p]).deep_view()
                        == rv[t + p],
                    items.deep_view() == agg_records(base, src as int, rv, t as int, n as nat),
                    items_wf(items.deep_view(), n as nat),
                decreases recs@.len(),
            {
                let rec = recs.remove(0);
                proof {
                    assert(rec.deep_view() == rv[t as int]);
                    assert forall|p: int|
                        0 <= p < recs@.len() implies (#[trigger] recs@[p]).deep_view() == rv[t + 1
                        + p] by {
                        assert(recs@[p] == seq_at(recs@, p));
                    }
                }
                let (id, data) = rec;
                let ghost pre = items.deep_view();
                let ghost idv = id@;
                let ghost dv = data@;
                match find_item(&items, id.as_str()) {
                    Some(pidx) => {
                        proof {
                            lemma_idx_of_found(pre, idv, pidx as int, n as nat);
                        }
                        let mut it = items.remove(pidx);
                        proof {
                            assert(it.deep_view() == pre[pidx as int]);
                            assert(it@.boms.len() == n);
                        }
                        it.push(src, data);
                        let ghost itv = it@;
                        items.insert(pidx, it);
                        proof {
                            assert(itv == slot_set(pre[pidx as int], src as int, dv));
                            assert forall|p: int|
                                0 <= p < items.deep_view().len() implies items.deep_view()[p]
                                == pre.update(pidx as int, itv)[p] by {
                                assert(items.deep_view()[p] == items@[p].deep_view());
                                if p < pidx {
                                    assert(items@[p].deep_view() == pre[p]);
                                } else if p > pidx {
                                    assert(items@[p].deep_view() == pre[p]);
                                }
                            }
                            assert(items.deep_view() =~= pre.update(pidx as int, itv));
                            assert(items.deep_view() == agg_step(pre, src as int, idv, dv, n as nat));
                            lemma_agg_step_wf(pre, src as int, idv, dv, n as nat);
                        }
                    },
                    None => {
                        proof {
                            assert(!has_id(pre, idv));
                        }
                        let fresh = BomItem::new(src, n, id, data);
                        let ghost fv = fresh@;
                        let ghost preitems = items;
                        items.push(fresh);
                        proof {
                            assert(fv.boms =~= new_item_view(n as nat, src as int, idv, dv).boms);
                            assert(fv == new_item_view(n as nat, src as int, idv, dv));
                            lemma_deep_view_push(preitems, items, items@.last());
                            assert(items@.last().deep_view() == fv);
                            assert(items.deep_view() == agg_step(pre, src as int, idv, dv, n as nat));
                            lemma_agg_step_wf(pre, src as int, idv, dv, n as nat);
                        }
                    },
                }
                t += 1;
            }
            proof {
                assert(t as int == rv.len());
                assert(items.deep_view() == agg_sources(srcs, src + 1, n as nat));
            }
            src += 1;
        }
        items
    }

    /// Loads the given sheets and builds the difference report: records are
    /// extracted per sheet, merged by identifier, sorted, normalized, and
    /// diffed field by field.
    pub fn load(sheets: &Vec<&umya_spreadsheet::Worksheet>) -> (ret: BomHandler)
        ensures
            ret.boms == sheets@.len(),
            ret.items.deep_view() == handler_items(deref_sheets(sheets@)),
            ret.diff.deep_view() == handler_report(deref_sheets(sheets@)),
    {
        let agg = Self::aggregate(sheets);
        let sorted = sort_items(agg);
        let ghost sortedv = sort_items_spec(aggregate_spec(source_views(deref_sheets(sheets@))));
        // normalize each item's order entries
        let mut rest = sorted;
        let mut items: Vec<BomItem> = Vec::new();
        let mut t: usize = 0;
        let total = rest.len();
        proof {
            assert(sortedv.len() == total as int);
        }
        while rest.len() > 0
            invariant
                0 <= t,
                sortedv.len() <= usize::MAX,
                t + rest@.len() == sortedv.len(),
                forall|p: int| 0 <= p < rest@.len() ==> (#[trigger] rest@[p]).deep_view()
                    == sortedv[t + p],
                items@.len() == t,
                forall|p: int| 0 <= p < t ==> (#[trigger] items@[p]).deep_view() == normalize_item(
                    sortedv[p],
                ),
            decreases rest@.len(),
        {
            let x = rest.remove(0);
            proof {
                assert(x.deep_view() == sortedv[t as int]);
                assert forall|p: int| 0 <= p < rest@.len() implies (#[trigger] rest@[p]).deep_view()
                    == sortedv[t + 1 + p] by {
                    assert(rest@[p] == seq_at(rest@, p));
                }
            }
            let nx = normalize_one(x);
            items.push(nx);
            t += 1;
        }
        proof {
            assert forall|p: int|
                0 <= p < items.deep_view().len() implies items.deep_view()[p] == handler_items(
                deref_sheets(sheets@),
            )[p] by {
                assert(items.deep_view()[p] == items@[p].deep_view());
            }
            assert(items.deep_view() =~= handler_items(deref_sheets(sheets@)));
        }
        // assemble the report from the normalized, sorted items
        let ghost itemsv = items.deep_view();
        let mut diff: Vec<(String, Vec<Vec<String>>)> = Vec::new();
        proof {
            assert(diff.deep_view() =~= report_upto(itemsv, 0));
        }
        let mut i: usize = 0;
        while i < items.len()
            invariant
                0 <= i <= items@.len(),
                itemsv == items.deep_view(),
                diff.deep_view() == report_upto(itemsv, i as int),
            decreases items@.len() - i,
        {
            let rows = items[i].generate_diff();
            proof {
                assert(items@[i as int].deep_view() == itemsv[i as int]);
                assert(rows.deep_view() == diff_rows(itemsv[i as int]));
            }
            if rows.len() > 0 {
                let entry = (items[i].item_no.clone(), rows);
                let ghost prediff = diff;
                diff.push(entry);
                proof {
                    lemma_deep_view_push(prediff, diff, diff@.last());
                    assert(diff@.last().deep_view() == (
                        itemsv[i as int].item_no,
                        diff_rows(itemsv[i as int]),
                    ));
                    assert(diff.deep_view() == report_upto(itemsv, i + 1));
                }
            } else {
                proof {
                    assert(diff.deep_view() == report_upto(itemsv, i + 1));
                }
            }
            i += 1;
        }
        let boms = sheets.len();
        let ret = BomHandler { boms, items, diff };
        ret
    }

    /// The assembled report: identifier and diff rows per changed item.
    pub fn get_diff(&self) -> (r: &Vec<(String, Vec<Vec<String>>)>)
        ensures
            *r == self.diff,
    {
        &self.diff
    }
}

} // verus!
