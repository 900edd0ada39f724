//! Item records and the per-item difference engine.
//!
//! A `BomItem` gathers one identifier's record from each loaded source, one
//! slot per source in load order; `generate_diff` turns it into labelled rows.

use vstd::prelude::*;
use crate::strutil::int_text;
use crate::strutil::join_comma;
use crate::strutil::i32_to_string;
use crate::strutil::join_comma_strs;
use crate::viewext::lemma_deep_view_push;

verus! {

/// One vendor/ordering line of an item.
pub struct BomOrderData {
    pub name: String,
    pub manufacturer: String,
    pub order_desc: String,
}

pub ghost struct OrderDataView {
    pub name: Seq<char>,
    pub manufacturer: Seq<char>,
    pub order_desc: Seq<char>,
}

impl View for BomOrderData {
    type V = OrderDataView;

    open spec fn view(&self) -> OrderDataView {
        OrderDataView { name: self.name@, manufacturer: self.manufacturer@, order_desc: self.order_desc@ }
    }
}

impl DeepView for BomOrderData {
    type V = OrderDataView;

    open spec fn deep_view(&self) -> OrderDataView {
        self.view()
    }
}

/// One item's attributes as read from a single source.
pub struct BomItemData {
    pub rev: String,
    pub name: String,
    pub quantity: i32,
    pub additional_name: String,
    pub short_desc: String,
    pub ref_designator: String,
    pub order_data: Vec<BomOrderData>,
}

pub ghost struct ItemDataView {
    pub rev: Seq<char>,
    pub name: Seq<char>,
    pub quantity: int,
    pub additional_name: Seq<char>,
    pub short_desc: Seq<char>,
    pub ref_designator: Seq<char>,
    pub order_data: Seq<OrderDataView>,
}

impl View for BomItemData {
    type V = ItemDataView;

    open spec fn view(&self) -> ItemDataView {
        ItemDataView {
            rev: self.rev@,
            name: self.name@,
            quantity: self.quantity as int,
            additional_name: self.additional_name@,
            short_desc: self.short_desc@,
            ref_designator: self.ref_designator@,
            order_data: self.order_data.deep_view(),
        }
    }
}

impl DeepView for BomItemData {
    type V = ItemDataView;

    open spec fn deep_view(&self) -> ItemDataView {
        self.view()
    }
}

/// One identifier's view across all loaded sources: one slot per source.
pub struct BomItem {
    pub item_no: String,
    pub boms: Vec<Option<BomItemData>>,
}

pub ghost struct ItemView {
    pub item_no: Seq<char>,
    pub boms: Seq<Option<ItemDataView>>,
}

impl View for BomItem {
    type V = ItemView;

    open spec fn view(&self) -> ItemView {
        ItemView { item_no: self.item_no@, boms: self.boms.deep_view() }
    }
}

impl DeepView for BomItem {
    type V = ItemView;

    open spec fn deep_view(&self) -> ItemView {
        self.view()
    }
}

/// Structural equality of order entries.
pub fn order_data_eq(a: &BomOrderData, b: &BomOrderData) -> (r: bool)
    ensures
        r == (a@ == b@),
{
    let r = a.name == b.name && a.manufacturer == b.manufacturer && a.order_desc == b.order_desc;
    proof {
        if r {
            assert(a@ == b@);
        }
    }
    r
}

/// Structural equality of order-entry lists, element by element in order.
pub fn order_list_eq(a: &Vec<BomOrderData>, b: &Vec<BomOrderData>) -> (r: bool)
    ensures
        r == (a.deep_view() == b.deep_view()),
{
    if a.len() != b.len() {
        proof {
            assert(a.deep_view().len() != b.deep_view().len());
        }
        return false;
    }
    let mut i: usize = 0;
    while i < a.len()
        invariant
            0 <= i <= a@.len(),
            a@.len() == b@.len(),
            forall|j: int| 0 <= j < i ==> a.deep_view()[j] == b.deep_view()[j],
        decreases a@.len() - i,
    {
        if !order_data_eq(&a[i], &b[i]) {
            proof {
                assert(a.deep_view()[i as int] != b.deep_view()[i as int]);
            }
            return false;
        }
        i += 1;
    }
    proof {
        assert(a.deep_view() =~= b.deep_view());
    }
    true
}

/// Structural equality of item records, the order-entry list included.
pub fn item_data_eq(a: &BomItemData, b: &BomItemData) -> (r: bool)
    ensures
        r == (a@ == b@),
{
    let r = a.rev == b.rev && a.name == b.name && a.quantity == b.quantity && a.additional_name
        == b.additional_name && a.short_desc == b.short_desc && a.ref_designator
        == b.ref_designator && order_list_eq(&a.order_data, &b.order_data);
    proof {
        if r {
            assert(a@ == b@);
        }
    }
    r
}

impl BomItemData {
    pub fn get_name(&self) -> (r: &str)
        ensures
            r@ == self@.name,
    {
        self.name.as_str()
    }

    pub fn get_quantity(&self) -> (r: i32)
        ensures
            r as int == self@.quantity,
    {
        self.quantity
    }

    /// The manufacturer part numbers: each entry's order description, in order.
    pub fn get_mpn_list(&self) -> (r: Vec<&str>)
        ensures
            r.deep_view() == mpn_texts(self@),
    {
        let mut r: Vec<&str> = Vec::new();
        let mut i: usize = 0;
        while i < self.order_data.len()
            invariant
                0 <= i <= self.order_data@.len(),
                r@.len() == i,
                forall|p: int| 0 <= p < i ==> r@[p]@ == self.order_data@[p].order_desc@,
            decreases self.order_data@.len() - i,
        {
            r.push(self.order_data[i].order_desc.as_str());
            i += 1;
        }
        proof {
            assert forall|p: int| 0 <= p < r@.len() implies r.deep_view()[p] == mpn_texts(self@)[p] by {
                assert(r.deep_view()[p] == r@[p]@);
                assert(self@.order_data[p] == self.order_data@[p]@);
                assert(r@[p]@ == self.order_data@[p].order_desc@);
            }
            assert(r.deep_view() =~= mpn_texts(self@));
        }
        r
    }
}

/// The fixed field labels, in report order.
pub open spec fn label(k: int) -> Seq<char> {
    if k == 0 {
        "Rev"@
    } else if k == 1 {
        "Name"@
    } else if k == 2 {
        "Quantity"@
    } else if k == 3 {
        "Additional name"@
    } else if k == 4 {
        "Short desc."@
    } else if k == 5 {
        "Ref. designator"@
    } else {
        "Order data"@
    }
}

fn label_string(k: usize) -> (r: String)
    requires
        k < 7,
    ensures
        r@ == label(k as int),
{
    if k == 0 {
        "Rev".to_owned()
    } else if k == 1 {
        "Name".to_owned()
    } else if k == 2 {
        "Quantity".to_owned()
    } else if k == 3 {
        "Additional name".to_owned()
    } else if k == 4 {
        "Short desc.".to_owned()
    } else if k == 5 {
        "Ref. designator".to_owned()
    } else {
        "Order data".to_owned()
    }
}

/// Each order entry's description text, in order.
pub open spec fn mpn_texts(d: ItemDataView) -> Seq<Seq<char>> {
    d.order_data.map_values(|o: OrderDataView| o.order_desc)
}

/// A field's cell text: quantity as decimal text, order data comma-joined.
pub open spec fn field_render(d: ItemDataView, k: int) -> Seq<char> {
    if k == 0 {
        d.rev
    } else if k == 1 {
        d.name
    } else if k == 2 {
        int_text(d.quantity)
    } else if k == 3 {
        d.additional_name
    } else if k == 4 {
        d.short_desc
    } else if k == 5 {
        d.ref_designator
    } else {
        join_comma(mpn_texts(d))
    }
}

/// An absent slot renders as the empty string.
pub open spec fn slot_render(s: Option<ItemDataView>, k: int) -> Seq<char> {
    match s {
        Some(d) => field_render(d, k),
        None => Seq::empty(),
    }
}

/// Whether two records agree on field `k`; order data compares structurally.
pub open spec fn field_eq(a: ItemDataView, b: ItemDataView, k: int) -> bool {
    if k == 0 {
        a.rev == b.rev
    } else if k == 1 {
        a.name == b.name
    } else if k == 2 {
        a.quantity == b.quantity
    } else if k == 3 {
        a.additional_name == b.additional_name
    } else if k == 4 {
        a.short_desc == b.short_desc
    } else if k == 5 {
        a.ref_designator == b.ref_designator
    } else {
        a.order_data == b.order_data
    }
}

pub open spec fn any_absent(boms: Seq<Option<ItemDataView>>) -> bool {
    exists|j: int| 0 <= j < boms.len() && boms[j] is None
}

/// A field differs when any non-reference slot disagrees with slot 0.
pub open spec fn field_differs(boms: Seq<Option<ItemDataView>>, k: int) -> bool {
    exists|j: int|
        1 <= j < boms.len() && !field_eq(boms[j].unwrap(), boms[0].unwrap(), k)
}

/// One diff row: the field label, then the field's text from every source.
pub open spec fn row_for(v: ItemView, k: int) -> Seq<Seq<char>> {
    seq![label(k)] + Seq::new(v.boms.len(), |j: int| slot_render(v.boms[j], k))
}

/// The rows emitted for fields `1 .. k` when every slot is present. The scan
/// starts at field 1, so a revision change alone never yields a row.
pub open spec fn rows_upto(v: ItemView, k: int) -> Seq<Seq<Seq<char>>>
    decreases k,
{
    if k <= 1 {
        Seq::empty()
    } else if field_differs(v.boms, k - 1) {
        rows_upto(v, k - 1).push(row_for(v, k - 1))
    } else {
        rows_upto(v, k - 1)
    }
}

/// The diff of one item: all seven fields when the item is missing somewhere,
/// else only the fields that differ from source 0.
pub open spec fn diff_rows(v: ItemView) -> Seq<Seq<Seq<char>>> {
    if any_absent(v.boms) {
        Seq::new(7, |k: int| row_for(v, k))
    } else {
        rows_upto(v, 7)
    }
}

/// All slots present and equal to the reference slot.
pub open spec fn item_matches(v: ItemView) -> bool {
    !any_absent(v.boms) && forall|j: int| 1 <= j < v.boms.len() ==> #[trigger] v.boms[j] == v.boms[0]
}

fn render_field(b: &BomItemData, k: usize) -> (r: String)
    requires
        k < 7,
    ensures
        r@ == field_render(b@, k as int),
{
    if k == 0 {
        b.rev.clone()
    } else if k == 1 {
        b.name.clone()
    } else if k == 2 {
        i32_to_string(b.quantity)
    } else if k == 3 {
        b.additional_name.clone()
    } else if k == 4 {
        b.short_desc.clone()
    } else if k == 5 {
        b.ref_designator.clone()
    } else {
        let mpns = b.get_mpn_list();
        join_comma_strs(&mpns)
    }
}

fn field_eq_exec(a: &BomItemData, b: &BomItemData, k: usize) -> (r: bool)
    requires
        k < 7,
    ensures
        r == field_eq(a@, b@, k as int),
{
    if k == 0 {
        a.rev == b.rev
    } else if k == 1 {
        a.name == b.name
    } else if k == 2 {
        a.quantity == b.quantity
    } else if k == 3 {
        a.additional_name == b.additional_name
    } else if k == 4 {
        a.short_desc == b.short_desc
    } else if k == 5 {
        a.ref_designator == b.ref_designator
    } else {
        order_list_eq(&a.order_data, &b.order_data)
    }
}

impl BomItem {
    /// A fresh aggregated item: `capacity` absent slots, slot `index` filled.
    pub fn new(index: usize, capacity: usize, item: String, data: BomItemData) -> (ret:
        BomItem)
        requires
            index < capacity,
        ensures
            ret@.item_no == item@,
            ret@.boms.len() == capacity,
            ret@.boms[index as int] == Some(data@),
            forall|j: int| 0 <= j < capacity && j != index ==> ret@.boms[j] is None,
    {
        let mut boms: Vec<Option<BomItemData>> = Vec::new();
        let mut j: usize = 0;
        while j < capacity
            invariant
                0 <= j <= capacity,
                boms@.len() == j,
                forall|p: int| 0 <= p < j ==> boms@[p] is None,
            decreases capacity - j,
        {
            boms.push(None);
            j += 1;
        }
        let mut ret = BomItem { item_no: item, boms };
        ret.boms[index] = Some(data);
        proof {
            assert(ret@.boms[index as int] == Some(data@));
            assert forall|p: int| 0 <= p < capacity && p != index implies ret@.boms[p] is None by {
                assert(ret.boms@[p] is None);
            }
        }
        ret
    }

    /// Fills (or overwrites) one source's slot.
    pub fn push(&mut self, index: usize, data: BomItemData)
        requires
            index < old(self)@.boms.len(),
        ensures
            final(self)@.item_no == old(self)@.item_no,
            final(self)@.boms =~= old(self)@.boms.update(index as int, Some(data@)),
    {
        self.boms[index] = Some(data);
        proof {
            assert(final(self)@.boms =~= old(self)@.boms.update(index as int, Some(data@)));
        }
    }

    /// True when the item is present in every source with identical records.
    pub fn matches(&self) -> (r: bool)
        ensures
            r == item_matches(self@),
    {
        let n = self.boms.len();
        if n == 0 {
            return true;
        }
        let mut j: usize = 0;
        while j < n
            invariant
                0 <= j <= n,
                n == self.boms@.len(),
                forall|p: int| 0 <= p < j ==> #[trigger] self@.boms[p] is Some,
            decreases n - j,
        {
            if self.boms[j].is_none() {
                proof {
                    assert(self@.boms[j as int] is None);
                }
                return false;
            }
            proof {
                assert(self@.boms[j as int] is Some);
            }
            j += 1;
        }
        let b0 = match &self.boms[0] {
            Some(b) => b,
            None => {
                proof {
                    assert(self@.boms[0] is Some);
                    assert(false);
                }
                return false;
            },
        };
        proof {
            assert(self@.boms[0] == Some(b0@));
        }
        let mut j: usize = 1;
        while j < n
            invariant
                1 <= j <= n,
                n == self.boms@.len(),
                forall|p: int| 0 <= p < n ==> #[trigger] self@.boms[p] is Some,
                self@.boms[0] == Some(b0@),
                forall|p: int| 1 <= p < j ==> #[trigger] self@.boms[p] == self@.boms[0],
            decreases n - j,
        {
            let r = match &self.boms[j] {
                Some(b) => {
                    proof {
                        assert(self@.boms[j as int] == Some(b@));
                    }
                    item_data_eq(b0, b)
                },
                None => false,
            };
            if !r {
                proof {
                    assert(self@.boms[j as int] != self@.boms[0]);
                }
                return false;
            }
            proof {
                assert(self@.boms[j as int] == self@.boms[0]);
            }
            j += 1;
        }
        true
    }

    /// The rows this item contributes to the report.
    pub fn generate_diff(&self) -> (ret: Vec<Vec<String>>)
        ensures
            ret.deep_view() == diff_rows(self@),
    {
        let n = self.boms.len();
        let mut absent = false;
        let mut j: usize = 0;
        while j < n
            invariant
                0 <= j <= n,
                n == self.boms@.len(),
                absent == exists|p: int| 0 <= p < j && #[trigger] self@.boms[p] is None,
            decreases n - j,
        {
            if self.boms[j].is_none() {
                absent = true;
                proof {
                    assert(self@.boms[j as int] is None);
                }
            } else {
                proof {
                    assert(self@.boms[j as int] is Some);
                }
            }
            j += 1;
        }
        proof {
            assert(absent == any_absent(self@.boms));
        }
        let mut ret: Vec<Vec<String>> = Vec::new();
        if absent {
            // the item is missing somewhere: every field is reported
            let mut k: usize = 0;
            while k < 7
                invariant
                    0 <= k <= 7,
                    n == self.boms@.len(),
                    any_absent(self@.boms),
                    ret.deep_view() == Seq::new(k as nat, |kk: int| row_for(self@, kk)),
                decreases 7 - k,
            {
                let ghost pre = ret;
                let row = self.build_row(k);
                ret.push(row);
                proof {
                    lemma_deep_view_push(pre, ret, row);
                    assert(ret.deep_view() =~= Seq::new((k + 1) as nat, |kk: int| row_for(self@, kk)));
                }
                k += 1;
            }
            proof {
                assert(ret.deep_view() =~= diff_rows(self@));
            }
        } else {
            // all present: report the fields that differ, scanning from field 1
            let mut k: usize = 1;
            while k < 7
                invariant
                    1 <= k <= 7,
                    n == self.boms@.len(),
                    !any_absent(self@.boms),
                    ret.deep_view() == rows_upto(self@, k as int),
                decreases 7 - k,
            {
                if self.field_differs_exec(k) {
                    let ghost pre = ret;
                    let row = self.build_row(k);
                    ret.push(row);
                    proof {
                        lemma_deep_view_push(pre, ret, row);
                        assert(ret.deep_view() == rows_upto(self@, k + 1));
                    }
                } else {
                    proof {
                        assert(ret.deep_view() == rows_upto(self@, k + 1));
                    }
                }
                k += 1;
            }
        }
        ret
    }

    /// One report row for field `k`: the label, then every source's text.
    fn build_row(&self, k: usize) -> (row: Vec<String>)
        requires
            k < 7,
        ensures
            row.deep_view() == row_for(self@, k as int),
    {
        let mut row: Vec<String> = Vec::new();
        let ghost row0 = row;
        row.push(label_string(k));
        proof {
            lemma_deep_view_push(row0, row, row@[0]);
            assert(row0.deep_view() =~= Seq::<Seq<char>>::empty());
            assert(row.deep_view() =~= seq![label(k as int)] + Seq::new(
                0 as nat,
                |jj: int| slot_render(self@.boms[jj], k as int),
            ));
        }
        let n = self.boms.len();
        let mut j: usize = 0;
        while j < n
            invariant
                0 <= j <= n,
                k < 7,
                n == self.boms@.len(),
                row.deep_view() == seq![label(k as int)] + Seq::new(
                    j as nat,
                    |jj: int| slot_render(self@.boms[jj], k as int),
                ),
            decreases n - j,
        {
            let cell = match &self.boms[j] {
                Some(b) => {
                    proof {
                        assert(self@.boms[j as int] == Some(b@));
                    }
                    render_field(b, k)
                },
                None => {
                    proof {
                        assert(self@.boms[j as int] is None);
                    }
                    String::new()
                },
            };
            proof {
                assert(cell@ == slot_render(self@.boms[j as int], k as int));
            }
            let ghost pre = row;
            row.push(cell);
            proof {
                lemma_deep_view_push(pre, row, cell);
                assert(row.deep_view() =~= seq![label(k as int)] + Seq::new(
                    (j + 1) as nat,
                    |jj: int| slot_render(self@.boms[jj], k as int),
                ));
            }
            j += 1;
        }
        proof {
            assert(row.deep_view() =~= row_for(self@, k as int));
        }
        row
    }

    /// Whether any non-reference slot disagrees with slot 0 on field `k`.
    fn field_differs_exec(&self, k: usize) -> (r: bool)
        requires
            k < 7,
            !any_absent(self@.boms),
        ensures
            r == field_differs(self@.boms, k as int),
    {
        let n = self.boms.len();
        if n == 0 {
            return false;
        }
        let b0 = match &self.boms[0] {
            Some(b) => b,
            None => {
                proof {
                    assert(self@.boms[0] is None);
                    assert(false);
                }
                return false;
            },
        };
        proof {
            assert(self@.boms[0] == Some(b0@));
        }
        let mut j: usize = 1;
        while j < n
            invariant
                1 <= j <= n,
                k < 7,
                n == self.boms@.len(),
                !any_absent(self@.boms),
                self@.boms[0] == Some(b0@),
                forall|p: int| 1 <= p < j ==> field_eq(
                    #[trigger] self@.boms[p].unwrap(),
                    self@.boms[0].unwrap(),
                    k as int,
                ),
            decreases n - j,
        {
            let eq = match &self.boms[j] {
                Some(b) => {
                    proof {
                        assert(self@.boms[j as int] == Some(b@));
                    }
                    field_eq_exec(b, b0, k)
                },
                None => {
                    proof {
                        assert(self@.boms[j as int] is None);
                        assert(false);
                    }
                    false
                },
            };
            if !eq {
                proof {
                    assert(!field_eq(self@.boms[j as int].unwrap(), self@.boms[0].unwrap(), k as int));
                    assert(field_differs(self@.boms, k as int));
                }
                return true;
            }
            proof {
                assert(field_eq(self@.boms[j as int].unwrap(), self@.boms[0].unwrap(), k as int));
            }
            j += 1;
        }
        false
    }

    pub fn get_item_no(&self) -> (r: &str)
        ensures
            r@ == self@.item_no,
    {
        self.item_no.as_str()
    }

    /// The record loaded from source `index`, if any.
    pub fn get_item_data(&self, index: usize) -> (r: Option<&BomItemData>)
        ensures
            match r {
                Some(d) => index < self@.boms.len() && self@.boms[index as int] == Some(d@),
                None => index >= self@.boms.len() || self@.boms[index as int] is None,
            },
    {
        if index < self.boms.len() {
            match &self.boms[index] {
                Some(d) => Some(d),
                None => None,
            }
        } else {
            None
        }
    }
}

} // verus!
