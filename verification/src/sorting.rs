//! Stable insertion sorts: aggregated items by identifier, order entries by
//! their order description, both in ordinal string order.

use vstd::prelude::*;
use crate::record::BomItem;
use crate::record::BomOrderData;
use crate::record::ItemView;
use crate::record::OrderDataView;
use crate::strutil::lex_le;
use crate::strutil::str_le;
use crate::viewext::seq_at;

verus! {

/// Inserts after every element whose key is not above `x`'s: a stable insert.
pub open spec fn insert_item(s: Seq<ItemView>, x: ItemView) -> Seq<ItemView>
    decreases s.len(),
{
    if s.len() == 0 {
        seq![x]
    } else if !lex_le(s[0].item_no, x.item_no) {
        seq![x] + s
    } else {
        seq![s[0]] + insert_item(s.skip(1), x)
    }
}

pub open spec fn sort_items_upto(s: Seq<ItemView>, k: int) -> Seq<ItemView>
    decreases k,
{
    if k <= 0 {
        Seq::empty()
    } else {
        insert_item(sort_items_upto(s, k - 1), s[k - 1])
    }
}

/// The items in ordinal order of their identifiers, equal keys kept stable.
pub open spec fn sort_items_spec(s: Seq<ItemView>) -> Seq<ItemView> {
    sort_items_upto(s, s.len() as int)
}

/// A position-based reading of `insert_item`: the element lands at the first
/// position whose key is above it.
proof fn lemma_insert_item_at(s: Seq<ItemView>, x: ItemView, pos: int)
    requires
        0 <= pos <= s.len(),
        forall|j: int| 0 <= j < pos ==> lex_le((#[trigger] s[j]).item_no, x.item_no),
        pos < s.len() ==> !lex_le(s[pos].item_no, x.item_no),
    ensures
        insert_item(s, x) == s.insert(pos, x),
    decreases s.len(),
{
    if s.len() == 0 {
        assert(insert_item(s, x) =~= s.insert(0, x));
    } else if pos == 0 {
        assert(insert_item(s, x) =~= s.insert(0, x));
    } else {
        assert(lex_le(s[0].item_no, x.item_no));
        assert forall|j: int| 0 <= j < pos - 1 implies lex_le(
            (#[trigger] s.skip(1)[j]).item_no,
            x.item_no,
        ) by {
            assert(s.skip(1)[j] == s[j + 1]);
        }
        if pos - 1 < s.skip(1).len() {
            assert(s.skip(1)[pos - 1] == s[pos]);
        }
        lemma_insert_item_at(s.skip(1), x, pos - 1);
        assert(seq![s[0]] + s.skip(1).insert(pos - 1, x) =~= s.insert(pos, x));
    }
}

/// Inserts one item into an already sorted vector, stably.
fn insert_sorted_item(out: &mut Vec<BomItem>, x: BomItem)
    ensures
        final(out).deep_view() == insert_item(old(out).deep_view(), x@),
{
    let ghost predv = out.deep_view();
    let n = out.len();
    let mut pos: usize = 0;
    loop
        invariant
            0 <= pos <= n,
            n == out@.len(),
            *out == *old(out),
            predv == out.deep_view(),
            forall|j: int| 0 <= j < pos ==> lex_le((#[trigger] predv[j]).item_no, x@.item_no),
        ensures
            *out == *old(out),
            0 <= pos <= n,
            n == out@.len(),
            forall|j: int| 0 <= j < pos ==> lex_le((#[trigger] predv[j]).item_no, x@.item_no),
            pos < n ==> !lex_le(predv[pos as int].item_no, x@.item_no),
        decreases n - pos,
    {
        if pos >= n {
            break;
        }
        let keep = str_le(out[pos].item_no.as_str(), x.item_no.as_str());
        proof {
            assert(predv[pos as int].item_no == out@[pos as int].item_no@);
        }
        if !keep {
            break;
        }
        pos += 1;
    }
    let ghost xv = x@;
    out.insert(pos, x);
    proof {
        lemma_insert_item_at(predv, xv, pos as int);
        assert forall|p: int| 0 <= p < out.deep_view().len() implies out.deep_view()[p]
            == predv.insert(pos as int, xv)[p] by {
            assert(out.deep_view()[p] == out@[p].deep_view());
            if p < pos {
                assert(out@[p] == old(out)@[p]);
                assert(predv[p] == old(out)@[p].deep_view());
            } else if p == pos {
                assert(out@[p] == x);
            } else {
                assert(out@[p] == old(out)@[p - 1]);
                assert(predv[p - 1] == old(out)@[p - 1].deep_view());
            }
        }
        assert(out.deep_view() =~= predv.insert(pos as int, xv));
    }
}

/// Sorts the aggregated items by identifier, stably.
pub fn sort_items(items: Vec<BomItem>) -> (out: Vec<BomItem>)
    ensures
        out.deep_view() == sort_items_spec(items.deep_view()),
{
    let ghost orig = items.deep_view();
    let mut rest = items;
    let mut out: Vec<BomItem> = Vec::new();
    let mut t: usize = 0;
    let total = rest.len();
    proof {
        assert(orig.len() == total as int);
        assert(out.deep_view() =~= sort_items_upto(orig, 0));
    }
    while rest.len() > 0
        invariant
            0 <= t,
            orig.len() <= usize::MAX,
            t + rest@.len() == orig.len(),
            forall|p: int| 0 <= p < rest@.len() ==> (#[trigger] rest@[p]).deep_view() == orig[t
                + p],
            out.deep_view() == sort_items_upto(orig, t as int),
        decreases rest@.len(),
    {
        let x = rest.remove(0);
        proof {
            assert(x.deep_view() == orig[t as int]);
            assert forall|p: int| 0 <= p < rest@.len() implies (#[trigger] rest@[p]).deep_view()
                == orig[t + 1 + p] by {
                assert(rest@[p] == seq_at(rest@, p));
            }
        }
        insert_sorted_item(&mut out, x);
        t += 1;
    }
    proof {
        assert(orig.len() == t as int);
    }
    out
}

/// The same stable insert for order entries, keyed by the order description.
pub open spec fn insert_order(s: Seq<OrderDataView>, x: OrderDataView) -> Seq<OrderDataView>
    decreases s.len(),
{
    if s.len() == 0 {
        seq![x]
    } else if !lex_le(s[0].order_desc, x.order_desc) {
        seq![x] + s
    } else {
        seq![s[0]] + insert_order(s.skip(1), x)
    }
}

pub open spec fn sort_orders_upto(s: Seq<OrderDataView>, k: int) -> Seq<OrderDataView>
    decreases k,
{
    if k <= 0 {
        Seq::empty()
    } else {
        insert_order(sort_orders_upto(s, k - 1), s[k - 1])
    }
}

/// Order entries in ordinal order of their descriptions, kept stable.
pub open spec fn sort_orders_spec(s: Seq<OrderDataView>) -> Seq<OrderDataView> {
    sort_orders_upto(s, s.len() as int)
}

proof fn lemma_insert_order_at(s: Seq<OrderDataView>, x: OrderDataView, pos: int)
    requires
        0 <= pos <= s.len(),
        forall|j: int| 0 <= j < pos ==> lex_le((#[trigger] s[j]).order_desc, x.order_desc),
        pos < s.len() ==> !lex_le(s[pos].order_desc, x.order_desc),
    ensures
        insert_order(s, x) == s.insert(pos, x),
    decreases s.len(),
{
    if s.len() == 0 {
        assert(insert_order(s, x) =~= s.insert(0, x));
    } else if pos == 0 {
        assert(insert_order(s, x) =~= s.insert(0, x));
    } else {
        assert(lex_le(s[0].order_desc, x.order_desc));
        assert forall|j: int| 0 <= j < pos - 1 implies lex_le(
            (#[trigger] s.skip(1)[j]).order_desc,
            x.order_desc,
        ) by {
            assert(s.skip(1)[j] == s[j + 1]);
        }
        if pos - 1 < s.skip(1).len() {
            assert(s.skip(1)[pos - 1] == s[pos]);
        }
        lemma_insert_order_at(s.skip(1), x, pos - 1);
        assert(seq![s[0]] + s.skip(1).insert(pos - 1, x) =~= s.insert(pos, x));
    }
}

fn insert_sorted_order(out: &mut Vec<BomOrderData>, x: BomOrderData)
    ensures
        final(out).deep_view() == insert_order(old(out).deep_view(), x@),
{
    let ghost predv = out.deep_view();
    let n = out.len();
    let mut pos: usize = 0;
    loop
        invariant
            0 <= pos <= n,
            n == out@.len(),
            *out == *old(out),
            predv == out.deep_view(),
            forall|j: int| 0 <= j < pos ==> lex_le((#[trigger] predv[j]).order_desc, x@.order_desc),
        ensures
            *out == *old(out),
            0 <= pos <= n,
            n == out@.len(),
            forall|j: int| 0 <= j < pos ==> lex_le((#[trigger] predv[j]).order_desc, x@.order_desc),
            pos < n ==> !lex_le(predv[pos as int].order_desc, x@.order_desc),
        decreases n - pos,
    {
        if pos >= n {
            break;
        }
        let keep = str_le(out[pos].order_desc.as_str(), x.order_desc.as_str());
        proof {
            assert(predv[pos as int].order_desc == out@[pos as int].order_desc@);
        }
        if !keep {
            break;
        }
        pos += 1;
    }
    let ghost xv = x@;
    out.insert(pos, x);
    proof {
        lemma_insert_order_at(predv, xv, pos as int);
        assert forall|p: int| 0 <= p < out.deep_view().len() implies out.deep_view()[p]
            == predv.insert(pos as int, xv)[p] by {
            assert(out.deep_view()[p] == out@[p].deep_view());
            if p < pos {
                assert(out@[p] == old(out)@[p]);
                assert(predv[p] == old(out)@[p].deep_view());
            } else if p == pos {
                assert(out@[p] == x);
            } else {
                assert(out@[p] == old(out)@[p - 1]);
                assert(predv[p - 1] == old(out)@[p - 1].deep_view());
            }
        }
        assert(out.deep_view() =~= predv.insert(pos as int, xv));
    }
}

/// Sorts order entries by their descriptions, stably.
pub fn sort_orders(entries: Vec<BomOrderData>) -> (out: Vec<BomOrderData>)
    ensures
        out.deep_view() == sort_orders_spec(entries.deep_view()),
{
    let ghost orig = entries.deep_view();
    let mut rest = entries;
    let mut out: Vec<BomOrderData> = Vec::new();
    let mut t: usize = 0;
    let total = rest.len();
    proof {
        assert(orig.len() == total as int);
        assert(out.deep_view() =~= sort_orders_upto(orig, 0));
    }
    while rest.len() > 0
        invariant
            0 <= t,
            orig.len() <= usize::MAX,
            t + rest@.len() == orig.len(),
            forall|p: int| 0 <= p < rest@.len() ==> (#[trigger] rest@[p]).deep_view() == orig[t
                + p],
            out.deep_view() == sort_orders_upto(orig, t as int),
        decreases rest@.len(),
    {
        let x = rest.remove(0);
        proof {
            assert(x.deep_view() == orig[t as int]);
            assert forall|p: int| 0 <= p < rest@.len() implies (#[trigger] rest@[p]).deep_view()
                == orig[t + 1 + p] by {
                assert(rest@[p] == seq_at(rest@, p));
            }
        }
        insert_sorted_order(&mut out, x);
        t += 1;
    }
    proof {
        assert(orig.len() == t as int);
    }
    out
}

} // verus!
