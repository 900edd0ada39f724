//! Properties of the difference engine, stated and proved over the same spec
//! functions the executable contracts use.

use vstd::prelude::*;
use vstd::seq_lib::lemma_multiset_commutative;
use vstd::seq_lib::group_to_multiset_ensures;
use vstd::multiset::group_multiset_axioms;
use vstd::multiset::Multiset;
use crate::record::any_absent;
use crate::record::diff_rows;
use crate::record::field_differs;
use crate::record::item_matches;
use crate::record::label;
use crate::record::row_for;
use crate::record::rows_upto;
use crate::record::slot_render;
use crate::record::ItemView;
use crate::record::field_eq;
use crate::record::ItemDataView;
use crate::record::OrderDataView;
use crate::handler::sorted_data;
use crate::sorting::insert_order;
use crate::sorting::sort_orders_spec;
use crate::sorting::sort_orders_upto;
use crate::strutil::lemma_lex_le_antisym;
use crate::strutil::lemma_lex_le_total;
use crate::strutil::lemma_lex_le_trans;
use crate::strutil::lex_le;

verus! {

/// When an item is absent from at least one source, its diff holds all seven
/// field rows, in fixed order; each row starts with the field's label and
/// carries one cell per source, the empty string where the item is absent.
pub proof fn lemma_absence_full_rows(v: ItemView, j: int, k: int)
    requires
        any_absent(v.boms),
        0 <= k < 7,
        0 <= j < v.boms.len(),
    ensures
        diff_rows(v).len() == 7,
        diff_rows(v)[k].len() == v.boms.len() + 1,
        diff_rows(v)[k][0] == label(k),
        diff_rows(v)[k][j + 1] == slot_render(v.boms[j], k),
        v.boms[j] is None ==> diff_rows(v)[k][j + 1] == Seq::<char>::empty(),
{
    assert(diff_rows(v)[k] == row_for(v, k));
    assert(row_for(v, k)[0] == label(k));
    assert(row_for(v, k)[j + 1] == slot_render(v.boms[j], k));
}

/// The labels of fields 1 to 6 are pairwise distinct, and none is the
/// revision label.
proof fn lemma_labels_distinct()
    ensures
        forall|k1: int, k2: int| 0 <= k1 < k2 < 7 ==> label(k1) != label(k2),
{
    assert forall|k1: int, k2: int| 0 <= k1 < k2 < 7 implies label(k1) != label(k2) by {
        reveal_strlit("Rev");
        reveal_strlit("Name");
        reveal_strlit("Quantity");
        reveal_strlit("Additional name");
        reveal_strlit("Short desc.");
        reveal_strlit("Ref. designator");
        reveal_strlit("Order data");
        assert(label(0).len() == 3);
        assert(label(1).len() == 4);
        assert(label(2).len() == 8);
        assert(label(3).len() == 15);
        assert(label(4).len() == 11);
        assert(label(5).len() == 15);
        assert(label(6).len() == 10);
        assert(label(3)[0] == 'A');
        assert(label(5)[0] == 'R');
    }
}

/// Every emitted row is the row of some differing field between 1 and `k`,
/// and every differing field in that range has its row emitted.
proof fn lemma_rows_upto_shape(v: ItemView, k: int)
    requires
        1 <= k <= 7,
    ensures
        forall|r: int|
            0 <= r < rows_upto(v, k).len() ==> exists|kk: int|
                1 <= kk < k && field_differs(v.boms, kk) && #[trigger] rows_upto(v, k)[r]
                    == #[trigger] row_for(v, kk),
        forall|kk: int|
            1 <= kk < k && #[trigger] field_differs(v.boms, kk) ==> exists|r: int|
                0 <= r < rows_upto(v, k).len() && #[trigger] rows_upto(v, k)[r] == row_for(v, kk),
    decreases k,
{
    if k > 1 {
        lemma_rows_upto_shape(v, k - 1);
        if field_differs(v.boms, k - 1) {
            assert(rows_upto(v, k) == rows_upto(v, k - 1).push(row_for(v, k - 1)));
            assert forall|r: int| 0 <= r < rows_upto(v, k).len() implies exists|kk: int|
                1 <= kk < k && field_differs(v.boms, kk) && #[trigger] rows_upto(v, k)[r]
                    == #[trigger] row_for(v, kk) by {
                if r < rows_upto(v, k - 1).len() {
                    assert(rows_upto(v, k)[r] == rows_upto(v, k - 1)[r]);
                    let kk0 = choose|kk: int|
                        1 <= kk < k - 1 && field_differs(v.boms, kk) && rows_upto(v, k - 1)[r]
                            == #[trigger] row_for(v, kk);
                    assert(rows_upto(v, k)[r] == row_for(v, kk0));
                } else {
                    assert(rows_upto(v, k)[r] == row_for(v, k - 1));
                }
            }
            assert forall|kk: int|
                1 <= kk < k && #[trigger] field_differs(v.boms, kk) implies exists|r: int|
                0 <= r < rows_upto(v, k).len() && #[trigger] rows_upto(v, k)[r] == row_for(
                    v,
                    kk,
                ) by {
                if kk < k - 1 {
                    let r0 = choose|r: int|
                        0 <= r < rows_upto(v, k - 1).len() && #[trigger] rows_upto(v, k - 1)[r]
                            == row_for(v, kk);
                    assert(rows_upto(v, k)[r0] == row_for(v, kk));
                } else {
                    let r0 = rows_upto(v, k - 1).len() as int;
                    assert(rows_upto(v, k)[r0] == row_for(v, kk));
                }
            }
        } else {
            assert(rows_upto(v, k) == rows_upto(v, k - 1));
            assert forall|r: int| 0 <= r < rows_upto(v, k).len() implies exists|kk: int|
                1 <= kk < k && field_differs(v.boms, kk) && #[trigger] rows_upto(v, k)[r]
                    == #[trigger] row_for(v, kk) by {
                let kk0 = choose|kk: int|
                    1 <= kk < k - 1 && field_differs(v.boms, kk) && rows_upto(v, k - 1)[r]
                        == #[trigger] row_for(v, kk);
                assert(rows_upto(v, k)[r] == row_for(v, kk0));
            }
            assert forall|kk: int|
                1 <= kk < k && #[trigger] field_differs(v.boms, kk) implies exists|r: int|
                0 <= r < rows_upto(v, k).len() && #[trigger] rows_upto(v, k)[r] == row_for(
                    v,
                    kk,
                ) by {
                assert(kk < k - 1);
                let r0 = choose|r: int|
                    0 <= r < rows_upto(v, k - 1).len() && #[trigger] rows_upto(v, k - 1)[r]
                        == row_for(v, kk);
                assert(rows_upto(v, k)[r0] == row_for(v, kk));
            }
        }
    }
}

/// When the item is present in every source, a field's row is emitted exactly
/// when some source disagrees with source 0 on it — for the fields from Name
/// on. The revision field is compared but never emitted: the emission scan
/// deliberately starts at field 1.
pub proof fn lemma_presence_minimal(v: ItemView, k: int)
    requires
        !any_absent(v.boms),
        1 <= k < 7,
    ensures
        (exists|r: int|
            0 <= r < diff_rows(v).len() && (#[trigger] diff_rows(v)[r])[0] == label(k))
            <==> field_differs(v.boms, k),
        forall|r: int| 0 <= r < diff_rows(v).len() ==> (#[trigger] diff_rows(v)[r])[0] != label(0),
{
    lemma_labels_distinct();
    lemma_rows_upto_shape(v, 7);
    assert(diff_rows(v) == rows_upto(v, 7));
    if field_differs(v.boms, k) {
        let r0 = choose|r: int|
            0 <= r < rows_upto(v, 7).len() && #[trigger] rows_upto(v, 7)[r] == row_for(v, k);
        assert(diff_rows(v)[r0][0] == label(k));
    }
    if exists|r: int|
        0 <= r < diff_rows(v).len() && (#[trigger] diff_rows(v)[r])[0] == label(k) {
        let r0 = choose|r: int|
            0 <= r < diff_rows(v).len() && (#[trigger] diff_rows(v)[r])[0] == label(k);
        let kk = choose|kk: int|
            1 <= kk < 7 && field_differs(v.boms, kk) && rows_upto(v, 7)[r0] == #[trigger] row_for(
                v,
                kk,
            );
        assert(row_for(v, kk)[0] == label(kk));
        assert(kk == k);
    }
    assert forall|r: int|
        0 <= r < diff_rows(v).len() implies (#[trigger] diff_rows(v)[r])[0] != label(0) by {
        let kk = choose|kk: int|
            1 <= kk < 7 && field_differs(v.boms, kk) && rows_upto(v, 7)[r] == #[trigger] row_for(
                v,
                kk,
            );
        assert(row_for(v, kk)[0] == label(kk));
    }
}

/// Order entries in non-descending order of their descriptions.
pub open spec fn orders_sorted(s: Seq<OrderDataView>) -> bool {
    forall|i: int, j: int|
        0 <= i < j < s.len() ==> lex_le(
            (#[trigger] s[i]).order_desc,
            (#[trigger] s[j]).order_desc,
        )
}

/// No two entries share an order description.
pub open spec fn descs_distinct(s: Seq<OrderDataView>) -> bool {
    forall|i: int, j: int|
        0 <= i < j < s.len() ==> (#[trigger] s[i]).order_desc != (#[trigger] s[j]).order_desc
}

/// Inserting keeps the sequence sorted and adds the element to its multiset.
proof fn lemma_insert_order_props(s: Seq<OrderDataView>, x: OrderDataView)
    requires
        orders_sorted(s),
    ensures
        orders_sorted(insert_order(s, x)),
        insert_order(s, x).to_multiset() == s.to_multiset().insert(x),
        insert_order(s, x).len() == s.len() + 1,
    decreases s.len(),
{
    broadcast use group_to_multiset_ensures;
    broadcast use group_multiset_axioms;

    let out = insert_order(s, x);
    if s.len() == 0 {
        assert(out =~= Seq::<OrderDataView>::empty().push(x));
        assert(s.to_multiset() =~= Multiset::<OrderDataView>::empty());
        assert(out.to_multiset() =~= s.to_multiset().insert(x));
    } else if !lex_le(s[0].order_desc, x.order_desc) {
        lemma_lex_le_total(s[0].order_desc, x.order_desc);
        lemma_multiset_commutative(seq![x], s);
        assert(seq![x] =~= Seq::<OrderDataView>::empty().push(x));
        assert(seq![x].to_multiset() =~= Multiset::<OrderDataView>::empty().insert(x));
        assert(out.to_multiset() =~= s.to_multiset().insert(x));
        assert forall|i: int, j: int|
            0 <= i < j < out.len() implies lex_le(
            (#[trigger] out[i]).order_desc,
            (#[trigger] out[j]).order_desc,
        ) by {
            if i == 0 {
                assert(out[j] == s[j - 1]);
                if j - 1 > 0 {
                    assert(lex_le(s[0].order_desc, s[j - 1].order_desc));
                    lemma_lex_le_trans(x.order_desc, s[0].order_desc, s[j - 1].order_desc);
                }
            } else {
                assert(out[i] == s[i - 1]);
                assert(out[j] == s[j - 1]);
            }
        }
    } else {
        assert forall|i: int, j: int|
            0 <= i < j < s.skip(1).len() implies lex_le(
            (#[trigger] s.skip(1)[i]).order_desc,
            (#[trigger] s.skip(1)[j]).order_desc,
        ) by {
            assert(s.skip(1)[i] == s[i + 1]);
            assert(s.skip(1)[j] == s[j + 1]);
        }
        lemma_insert_order_props(s.skip(1), x);
        let t = insert_order(s.skip(1), x);
        lemma_multiset_commutative(seq![s[0]], t);
        lemma_multiset_commutative(seq![s[0]], s.skip(1));
        assert(s =~= seq![s[0]] + s.skip(1));
        assert(seq![s[0]] =~= Seq::<OrderDataView>::empty().push(s[0]));
        assert(seq![s[0]].to_multiset() =~= Multiset::<OrderDataView>::empty().insert(s[0]));
        assert(out =~= seq![s[0]] + t);
        assert(out.to_multiset() =~= s.to_multiset().insert(x));
        // the head stays below every inserted element
        assert forall|i: int, j: int|
            0 <= i < j < out.len() implies lex_le(
            (#[trigger] out[i]).order_desc,
            (#[trigger] out[j]).order_desc,
        ) by {
            if i == 0 {
                let e = out[j];
                assert(e == t[j - 1]);
                assert(t.contains(e));
                assert(t.to_multiset().count(e) > 0);
                if e == x {
                    assert(lex_le(s[0].order_desc, x.order_desc));
                } else {
                    assert(s.skip(1).to_multiset().count(e) > 0);
                    assert(s.skip(1).contains(e));
                    let q = choose|q: int| 0 <= q < s.skip(1).len() && s.skip(1)[q] == e;
                    assert(s.skip(1)[q] == s[q + 1]);
                    assert(lex_le(s[0].order_desc, s[q + 1].order_desc));
                }
            } else {
                assert(out[i] == t[i - 1]);
                assert(out[j] == t[j - 1]);
            }
        }
    }
}

/// The sort returns a sorted permutation of its input.
proof fn lemma_sort_orders_upto_props(s: Seq<OrderDataView>, k: int)
    requires
        0 <= k <= s.len(),
    ensures
        orders_sorted(sort_orders_upto(s, k)),
        sort_orders_upto(s, k).to_multiset() == s.take(k).to_multiset(),
    decreases k,
{
    broadcast use group_to_multiset_ensures;
    broadcast use group_multiset_axioms;

    if k <= 0 {
        assert(sort_orders_upto(s, k) =~= Seq::<OrderDataView>::empty());
        assert(s.take(k) =~= Seq::<OrderDataView>::empty());
        assert(sort_orders_upto(s, k).to_multiset() =~= s.take(k).to_multiset());
    } else {
        lemma_sort_orders_upto_props(s, k - 1);
        lemma_insert_order_props(sort_orders_upto(s, k - 1), s[k - 1]);
        assert(s.take(k) =~= s.take(k - 1).push(s[k - 1]));
        assert(s.take(k).to_multiset() =~= s.take(k - 1).to_multiset().insert(s[k - 1]));
    }
}

pub proof fn lemma_sort_orders_props(s: Seq<OrderDataView>)
    ensures
        orders_sorted(sort_orders_spec(s)),
        sort_orders_spec(s).to_multiset() == s.to_multiset(),
{
    lemma_sort_orders_upto_props(s, s.len() as int);
    assert(s.take(s.len() as int) =~= s);
}

/// An element standing at two positions counts at least twice.
proof fn lemma_two_positions_count(s: Seq<OrderDataView>, i: int, j: int)
    requires
        0 <= i < j < s.len(),
        s[i] == s[j],
    ensures
        s.to_multiset().count(s[i]) >= 2,
{
    broadcast use group_to_multiset_ensures;
    broadcast use group_multiset_axioms;

    let r = s.remove(i);
    assert(r.to_multiset() =~= s.to_multiset().remove(s[i]));
    assert(r[j - 1] == s[j]);
    assert(r.contains(s[i]));
    assert(r.to_multiset().count(s[i]) > 0);
}

/// An element counting at least twice stands at two positions.
proof fn lemma_count_two_positions(s: Seq<OrderDataView>, x: OrderDataView)
    requires
        s.to_multiset().count(x) >= 2,
    ensures
        exists|i: int, j: int| 0 <= i < j < s.len() && #[trigger] s[i] == x && #[trigger] s[j] == x,
{
    broadcast use group_to_multiset_ensures;
    broadcast use group_multiset_axioms;

    assert(s.to_multiset().count(x) > 0);
    assert(s.contains(x));
    let i = choose|i: int| 0 <= i < s.len() && s[i] == x;
    let r = s.remove(i);
    assert(r.to_multiset() =~= s.to_multiset().remove(s[i]));
    assert(r.to_multiset().count(x) > 0);
    assert(r.contains(x));
    let q = choose|q: int| 0 <= q < r.len() && r[q] == x;
    if q < i {
        assert(s[q] == r[q]);
        assert(s[q] == x && s[i] == x);
    } else {
        assert(s[q + 1] == r[q]);
        assert(s[i] == x && s[q + 1] == x);
    }
}

/// Distinct order descriptions survive any reordering.
proof fn lemma_distinct_descs_permute(a: Seq<OrderDataView>, b: Seq<OrderDataView>)
    requires
        descs_distinct(a),
        a.to_multiset() == b.to_multiset(),
    ensures
        descs_distinct(b),
{
    broadcast use group_to_multiset_ensures;
    broadcast use group_multiset_axioms;

    assert forall|i: int, j: int|
        0 <= i < j < b.len() implies (#[trigger] b[i]).order_desc != (
    #[trigger] b[j]).order_desc by {
        if b[i].order_desc == b[j].order_desc {
            if b[i] == b[j] {
                lemma_two_positions_count(b, i, j);
                lemma_count_two_positions(a, b[i]);
                let (p, q): (int, int) = choose|p: int, q: int|
                    0 <= p < q < a.len() && #[trigger] a[p] == b[i] && #[trigger] a[q] == b[i];
                assert(a[p].order_desc == a[q].order_desc);
            } else {
                assert(b.contains(b[i]));
                assert(b.contains(b[j]));
                assert(a.to_multiset().count(b[i]) > 0);
                assert(a.to_multiset().count(b[j]) > 0);
                assert(a.contains(b[i]));
                assert(a.contains(b[j]));
                let p = choose|p: int| 0 <= p < a.len() && a[p] == b[i];
                let q = choose|q: int| 0 <= q < a.len() && a[q] == b[j];
                assert(p != q);
                if p < q {
                    assert(a[p].order_desc != a[q].order_desc);
                } else {
                    assert(a[q].order_desc != a[p].order_desc);
                }
            }
        }
    }
}

/// Two sorted sequences with the same entries and distinct descriptions are
/// equal, position by position.
proof fn lemma_sorted_distinct_unique(x: Seq<OrderDataView>, y: Seq<OrderDataView>)
    requires
        orders_sorted(x),
        orders_sorted(y),
        descs_distinct(x),
        x.to_multiset() == y.to_multiset(),
    ensures
        x == y,
    decreases x.len(),
{
    broadcast use group_to_multiset_ensures;
    broadcast use group_multiset_axioms;

    if x.len() == 0 {
        assert(y.to_multiset().len() == 0);
        assert(x =~= y);
    } else {
        assert(x.contains(x[0]));
        assert(y.to_multiset().count(x[0]) > 0);
        assert(y.contains(x[0]));
        assert(y.len() > 0);
        assert(y.contains(y[0]));
        assert(x.to_multiset().count(y[0]) > 0);
        assert(x.contains(y[0]));
        let i = choose|i: int| 0 <= i < x.len() && x[i] == y[0];
        let k = choose|k: int| 0 <= k < y.len() && y[k] == x[0];
        // with a shared description, distinctness forces the heads to agree
        assert(x[0] == y[0]) by {
            if i > 0 {
                assert(lex_le(x[0].order_desc, x[i].order_desc));
                if k > 0 {
                    assert(lex_le(y[0].order_desc, y[k].order_desc));
                    lemma_lex_le_antisym(x[0].order_desc, y[0].order_desc);
                }
                assert(x[0].order_desc == x[i].order_desc);
                assert(false);
            }
        }
        let xr = x.remove(0);
        let yr = y.remove(0);
        assert(xr.to_multiset() =~= x.to_multiset().remove(x[0]));
        assert(yr.to_multiset() =~= y.to_multiset().remove(y[0]));
        assert forall|p: int, q: int|
            0 <= p < q < xr.len() implies lex_le(
            (#[trigger] xr[p]).order_desc,
            (#[trigger] xr[q]).order_desc,
        ) && (#[trigger] xr[p]).order_desc != (#[trigger] xr[q]).order_desc by {
            assert(xr[p] == x[p + 1]);
            assert(xr[q] == x[q + 1]);
        }
        assert forall|p: int, q: int|
            0 <= p < q < yr.len() implies lex_le(
            (#[trigger] yr[p]).order_desc,
            (#[trigger] yr[q]).order_desc,
        ) by {
            assert(yr[p] == y[p + 1]);
            assert(yr[q] == y[q + 1]);
        }
        lemma_sorted_distinct_unique(xr, yr);
        assert(x =~= y) by {
            assert(forall|p: int| 1 <= p < x.len() ==> x[p] == xr[p - 1] && y[p] == yr[p - 1]);
        }
    }
}

/// Two order lists with the same entries, in whatever row order, normalize to
/// the same sorted list — so they never yield an order-data difference. The
/// descriptions must be distinct: with duplicate descriptions the stable sort
/// keeps each list's own arrival order.
pub proof fn lemma_order_normalization_canonical(a: Seq<OrderDataView>, b: Seq<OrderDataView>)
    requires
        a.to_multiset() == b.to_multiset(),
        descs_distinct(a),
    ensures
        sort_orders_spec(a) == sort_orders_spec(b),
{
    lemma_sort_orders_props(a);
    lemma_sort_orders_props(b);
    lemma_distinct_descs_permute(a, sort_orders_spec(a));
    lemma_sorted_distinct_unique(sort_orders_spec(a), sort_orders_spec(b));
}

/// Two records whose order entries are the same up to row order agree on the
/// order-data field once normalized, so the diff never reports it.
pub proof fn lemma_order_permutation_no_field_diff(a: ItemDataView, b: ItemDataView)
    requires
        a.order_data.to_multiset() == b.order_data.to_multiset(),
        descs_distinct(a.order_data),
    ensures
        field_eq(sorted_data(a), sorted_data(b), 6),
{
    lemma_order_normalization_canonical(a.order_data, b.order_data);
}

/// An item present everywhere with identical records contributes no rows,
/// so it is left out of the report entirely.
pub proof fn lemma_identical_item_empty_diff(v: ItemView)
    requires
        item_matches(v),
    ensures
        diff_rows(v).len() == 0,
{
    assert forall|k: int| 1 <= k < 7 implies !field_differs(v.boms, k) by {
        if field_differs(v.boms, k) {
            let j = choose|j: int|
                1 <= j < v.boms.len() && !field_eq(v.boms[j].unwrap(), v.boms[0].unwrap(), k);
            assert(v.boms[j] == v.boms[0]);
        }
    }
    assert(rows_upto(v, 1).len() == 0);
    assert(rows_upto(v, 2) == rows_upto(v, 1));
    assert(rows_upto(v, 3) == rows_upto(v, 2));
    assert(rows_upto(v, 4) == rows_upto(v, 3));
    assert(rows_upto(v, 5) == rows_upto(v, 4));
    assert(rows_upto(v, 6) == rows_upto(v, 5));
    assert(rows_upto(v, 7) == rows_upto(v, 6));
}

} // verus!
