use vstd::prelude::*;
use std::collections::HashMap;
use std::collections::HashSet;
use crate::engine::{find_tier, lemma_tier_index, lemma_tier_index_unique};
use crate::tierlist::{
    Item, ItemId, ItemView, Tier, TierId, TierList, TierListView, TierView, items_view,
    tier_index, tiers_view,
};

verus! {

broadcast use vstd::std_specs::hash::group_hash_axioms;

/// A row of the `tiers` table.
pub struct TierRow {
    pub id: TierId,
    pub pos: i64,
    pub title: String,
}

/// A row of the `items` table; `thumb` is the thumbnail's bytes.
pub struct ItemRow {
    pub id: ItemId,
    pub name: String,
    pub url: String,
    pub thumb: Option<Vec<u8>>,
}

/// A row of the `items_pos` table: item `item_id` sits at index `pos` of
/// tier `tier_id`.
#[derive(Clone, Copy, Debug, PartialEq, Eq, Structural)]
pub struct PosRow {
    pub item_id: ItemId,
    pub tier_id: TierId,
    pub pos: i64,
}

/// The whole content of a store: the title row and the three tables.
pub struct Rows {
    pub title: String,
    pub tiers: Vec<TierRow>,
    pub items: Vec<ItemRow>,
    pub positions: Vec<PosRow>,
}

/// Why a store could not be read back into a list.
#[derive(Clone, Copy, Debug, PartialEq, Eq, Structural)]
pub enum ReadError {
    /// A position row names a tier that the store does not hold.
    UnknownTier { tier_id: TierId },
}

pub struct TierRowView {
    pub id: TierId,
    pub pos: i64,
    pub title: Seq<char>,
}

pub struct ItemRowView {
    pub id: ItemId,
    pub name: Seq<char>,
    pub url: Seq<char>,
    pub thumb: Option<Seq<u8>>,
}

pub struct RowsView {
    pub title: Seq<char>,
    pub tiers: Seq<TierRowView>,
    pub items: Seq<ItemRowView>,
    pub positions: Seq<PosRow>,
}

impl View for TierRow {
    type V = TierRowView;

    open spec fn view(&self) -> TierRowView {
        TierRowView { id: self.id, pos: self.pos, title: self.title@ }
    }
}

impl View for ItemRow {
    type V = ItemRowView;

    open spec fn view(&self) -> ItemRowView {
        ItemRowView {
            id: self.id,
            name: self.name@,
            url: self.url@,
            thumb: match self.thumb {
                Some(b) => Some(b@),
                None => None,
            },
        }
    }
}

pub open spec fn tier_rows_view(rows: Seq<TierRow>) -> Seq<TierRowView> {
    rows.map_values(|r: TierRow| r@)
}

pub open spec fn item_rows_view(rows: Seq<ItemRow>) -> Seq<ItemRowView> {
    rows.map_values(|r: ItemRow| r@)
}

impl View for Rows {
    type V = RowsView;

    open spec fn view(&self) -> RowsView {
        RowsView {
            title: self.title@,
            tiers: tier_rows_view(self.tiers@),
            items: item_rows_view(self.items@),
            positions: self.positions@,
        }
    }
}

/// The bytes that a map of thumbnails holds for an item, if any.
pub open spec fn thumb_of(thumbs: Map<ItemId, Seq<u8>>, id: ItemId) -> Option<Seq<u8>> {
    if thumbs.contains_key(id) {
        Some(thumbs[id])
    } else {
        None
    }
}

pub open spec fn thumbs_view(thumbs: Map<ItemId, Vec<u8>>) -> Map<ItemId, Seq<u8>> {
    thumbs.map_values(|b: Vec<u8>| b@)
}

/// The position rows of one tier, in order.
pub open spec fn tier_position_rows(t: TierView) -> Seq<PosRow> {
    Seq::new(t.items.len(), |k: int| PosRow { item_id: t.items[k], tier_id: t.id, pos: k as i64 })
}

/// The position rows of all tiers, tier after tier.
pub open spec fn position_rows(tiers: Seq<TierView>) -> Seq<PosRow>
    decreases tiers.len(),
{
    if tiers.len() == 0 {
        Seq::empty()
    } else {
        position_rows(tiers.drop_last()) + tier_position_rows(tiers.last())
    }
}

/// Every index of the list fits the store's integer columns.
pub open spec fn fits_store(v: TierListView) -> bool {
    &&& v.tiers.len() <= i64::MAX
    &&& forall|i: int| 0 <= i < v.tiers.len() ==> (#[trigger] v.tiers[i]).items.len() <= i64::MAX
}

/// What saving writes: the title, one row per tier with its index, one row
/// per item with its thumbnail bytes looked up by id, and one position row
/// per item placed in a tier. The pool is not written.
pub open spec fn rows_of(v: TierListView, thumbs: Map<ItemId, Seq<u8>>) -> RowsView {
    RowsView {
        title: v.title,
        tiers: Seq::new(
            v.tiers.len(),
            |i: int| TierRowView { id: v.tiers[i].id, pos: i as i64, title: v.tiers[i].title },
        ),
        items: Seq::new(
            v.items.len(),
            |k: int|
                ItemRowView {
                    id: v.items[k].id,
                    name: v.items[k].name,
                    url: v.items[k].url,
                    thumb: thumb_of(thumbs, v.items[k].id),
                },
        ),
        positions: position_rows(v.tiers),
    }
}

/// The tiers that reading builds from tier rows, before any item is placed.
pub open spec fn bare_tiers(rows: Seq<TierRowView>) -> Seq<TierView> {
    rows.map_values(|r: TierRowView| TierView { id: r.id, title: r.title, items: Seq::empty() })
}

/// Index of the first position row whose tier is unknown, or -1.
pub open spec fn first_unknown(tiers: Seq<TierView>, ps: Seq<PosRow>) -> int
    decreases ps.len(),
{
    if ps.len() == 0 {
        -1
    } else {
        let f = first_unknown(tiers, ps.drop_last());
        if f >= 0 {
            f
        } else if tier_index(tiers, ps.last().tier_id) < 0 {
            ps.len() - 1
        } else {
            -1
        }
    }
}

/// The ids that the position rows put into the tier at index `i`, in row order.
pub open spec fn tier_members(tiers: Seq<TierView>, ps: Seq<PosRow>, i: int) -> Seq<ItemId>
    decreases ps.len(),
{
    if ps.len() == 0 {
        Seq::empty()
    } else {
        let rest = tier_members(tiers, ps.drop_last(), i);
        if tier_index(tiers, ps.last().tier_id) == i {
            rest.push(ps.last().item_id)
        } else {
            rest
        }
    }
}

pub open spec fn named_in(ps: Seq<PosRow>, id: ItemId) -> bool {
    exists|j: int| 0 <= j < ps.len() && (#[trigger] ps[j]).item_id == id
}

/// The registered ids that no position row names, in registry order.
pub open spec fn unplaced_ids(items: Seq<ItemView>, ps: Seq<PosRow>) -> Seq<ItemId>
    decreases items.len(),
{
    if items.len() == 0 {
        Seq::empty()
    } else {
        let rest = unplaced_ids(items.drop_last(), ps);
        if named_in(ps, items.last().id) {
            rest
        } else {
            rest.push(items.last().id)
        }
    }
}

pub open spec fn max_tier_row_id(rows: Seq<TierRowView>) -> TierId
    decreases rows.len(),
{
    if rows.len() == 0 {
        0
    } else {
        let m = max_tier_row_id(rows.drop_last());
        if rows.last().id > m {
            rows.last().id
        } else {
            m
        }
    }
}

pub open spec fn max_item_id(items: Seq<ItemView>) -> ItemId
    decreases items.len(),
{
    if items.len() == 0 {
        0
    } else {
        let m = max_item_id(items.drop_last());
        if items.last().id > m {
            items.last().id
        } else {
            m
        }
    }
}

/// What reading builds: tiers in row order, each holding the ids of the
/// position rows that name it, in row order; the registry as given; the
/// pool made of the registered ids that no position row names; counters
/// at the largest ids (zero at least). A position row naming an unknown
/// tier makes the whole read fail.
pub open spec fn list_of(
    title: Seq<char>,
    tiers: Seq<TierRowView>,
    items: Seq<ItemView>,
    ps: Seq<PosRow>,
) -> Result<TierListView, ReadError> {
    let bare = bare_tiers(tiers);
    let f = first_unknown(bare, ps);
    if f >= 0 {
        Err(ReadError::UnknownTier { tier_id: ps[f].tier_id })
    } else {
        Ok(
            TierListView {
                title: title,
                tiers: Seq::new(
                    tiers.len(),
                    |i: int|
                        TierView {
                            id: tiers[i].id,
                            title: tiers[i].title,
                            items: tier_members(bare, ps, i),
                        },
                ),
                tier_max_id: max_tier_row_id(tiers),
                items: items,
                pool: unplaced_ids(items, ps),
                item_max_id: max_item_id(items),
            },
        )
    }
}


fn copy_bytes(b: &Vec<u8>) -> (r: Vec<u8>)
    ensures
        r@ == b@,
{
    let mut r: Vec<u8> = Vec::new();
    let mut k: usize = 0;
    while k < b.len()
        invariant
            k <= b@.len(),
            r@ == b@.take(k as int),
        decreases b@.len() - k,
    {
        r.push(b[k]);
        k += 1;
        proof {
            assert(r@ =~= b@.take(k as int));
        }
    }
    proof {
        assert(b@.take(k as int) =~= b@);
    }
    r
}

/// The rows that saving writes for a list. `thumbs` holds the bytes of the
/// thumbnail files, keyed by item id.
pub fn serialize(tl: &TierList, thumbs: &HashMap<ItemId, Vec<u8>>) -> (r: Rows)
    requires
        fits_store(tl@),
    ensures
        r@ == rows_of(tl@, thumbs_view(thumbs@)),
{
    let ghost v = tl@;
    let ghost target = rows_of(v, thumbs_view(thumbs@));
    let title = tl.title.clone();

    let mut tiers: Vec<TierRow> = Vec::new();
    let mut i: usize = 0;
    while i < tl.tiers.len()
        invariant
            v == tl@,
            target == rows_of(v, thumbs_view(thumbs@)),
            fits_store(v),
            i <= v.tiers.len(),
            tier_rows_view(tiers@) == target.tiers.take(i as int),
        decreases v.tiers.len() - i,
    {
        let t = &tl.tiers[i];
        proof {
            assert(v.tiers[i as int] == tl.tiers@[i as int]@);
        }
        let row = TierRow { id: t.id, pos: i as i64, title: t.title.clone() };
        proof {
            assert(row@.id == target.tiers[i as int].id);
            assert(row@.pos == target.tiers[i as int].pos);
            assert(row@.title == target.tiers[i as int].title);
        }
        let ghost prev = tiers@;
        proof {
            assert(tier_rows_view(prev).len() == prev.len());
            assert(prev.len() == i);
        }
        tiers.push(row);
        i += 1;
        proof {
            assert(tiers@ == prev.push(row));
            assert forall|j: int| 0 <= j < i implies #[trigger] tier_rows_view(tiers@)[j]
                == target.tiers.take(i as int)[j] by {
                if j < i - 1 {
                    assert(tiers@[j] == prev[j]);
                    assert(tier_rows_view(prev)[j] == target.tiers.take(i - 1)[j]);
                }
            }
            assert(tier_rows_view(tiers@) =~= target.tiers.take(i as int));
        }
    }
    proof {
        assert(target.tiers.take(i as int) =~= target.tiers);
    }

    let mut items: Vec<ItemRow> = Vec::new();
    let mut k: usize = 0;
    while k < tl.items.len()
        invariant
            v == tl@,
            target == rows_of(v, thumbs_view(thumbs@)),
            k <= v.items.len(),
            item_rows_view(items@) == target.items.take(k as int),
        decreases v.items.len() - k,
    {
        let it = &tl.items[k];
        proof {
            assert(v.items[k as int] == tl.items@[k as int]@);
        }
        let thumb = match thumbs.get(&it.id) {
            Some(b) => Some(copy_bytes(b)),
            None => None,
        };
        let row = ItemRow { id: it.id, name: it.name.clone(), url: it.url.clone(), thumb };
        proof {
            assert(row@.id == target.items[k as int].id);
            assert(row@.name == target.items[k as int].name);
            assert(row@.thumb == target.items[k as int].thumb);
        }
        let ghost prev = items@;
        proof {
            assert(item_rows_view(prev).len() == prev.len());
            assert(prev.len() == k);
        }
        items.push(row);
        k += 1;
        proof {
            assert(items@ == prev.push(row));
            assert forall|j: int| 0 <= j < k implies #[trigger] item_rows_view(items@)[j]
                == target.items.take(k as int)[j] by {
                if j < k - 1 {
                    assert(items@[j] == prev[j]);
                    assert(item_rows_view(prev)[j] == target.items.take(k - 1)[j]);
                }
            }
            assert(item_rows_view(items@) =~= target.items.take(k as int));
        }
    }
    proof {
        assert(target.items.take(k as int) =~= target.items);
    }

    let mut positions: Vec<PosRow> = Vec::new();
    let mut i: usize = 0;
    while i < tl.tiers.len()
        invariant
            v == tl@,
            fits_store(v),
            i <= v.tiers.len(),
            positions@ == position_rows(v.tiers.take(i as int)),
        decreases v.tiers.len() - i,
    {
        let t = &tl.tiers[i];
        let ghost tv = v.tiers[i as int];
        proof {
            assert(tv == t@);
        }
        let ghost before = positions@;
        let mut j: usize = 0;
        while j < t.items.len()
            invariant
                tv == t@,
                tv.items.len() <= i64::MAX,
                j <= tv.items.len(),
                positions@ == before + tier_position_rows(tv).take(j as int),
            decreases tv.items.len() - j,
        {
            positions.push(PosRow { item_id: t.items[j], tier_id: t.id, pos: j as i64 });
            j += 1;
            proof {
                assert(positions@ =~= before + tier_position_rows(tv).take(j as int));
            }
        }
        i += 1;
        proof {
            assert(tier_position_rows(tv).take(j as int) =~= tier_position_rows(tv));
            assert(v.tiers.take(i as int).drop_last() =~= v.tiers.take(i - 1));
            assert(v.tiers.take(i as int).last() == tv);
        }
    }
    proof {
        assert(v.tiers.take(i as int) =~= v.tiers);
    }
    Rows { title, tiers, items, positions }
}


/// `tier_index` reads only the ids of the tiers.
pub proof fn lemma_tier_index_ids(a: Seq<TierView>, b: Seq<TierView>, id: TierId)
    requires
        a.len() == b.len(),
        forall|i: int| 0 <= i < a.len() ==> (#[trigger] a[i]).id == b[i].id,
    ensures
        tier_index(a, id) == tier_index(b, id),
    decreases a.len(),
{
    if a.len() > 0 {
        assert(a.last().id == b.last().id);
        assert forall|i: int| 0 <= i < a.drop_last().len() implies (#[trigger] a.drop_last()[i]).id
            == b.drop_last()[i].id by {
            assert(a[i].id == b[i].id);
        }
        lemma_tier_index_ids(a.drop_last(), b.drop_last(), id);
    }
}

/// Once a prefix of the rows holds an unknown tier, the whole does at the same row.
pub proof fn lemma_first_unknown_prefix(tiers: Seq<TierView>, ps: Seq<PosRow>, j: int)
    requires
        0 <= j <= ps.len(),
        first_unknown(tiers, ps.take(j)) >= 0,
    ensures
        first_unknown(tiers, ps) == first_unknown(tiers, ps.take(j)),
    decreases ps.len(),
{
    if j < ps.len() {
        assert(ps.drop_last().take(j) =~= ps.take(j));
        lemma_first_unknown_prefix(tiers, ps.drop_last(), j);
    } else {
        assert(ps.take(j) =~= ps);
    }
}

/// Builds a list from what a store holds: its title, its tier rows in
/// order of their position column, its registry (each thumbnail already
/// written to a file whose path the item holds) and its position rows in
/// order of their position column.
pub fn deserialize(title: String, tiers: Vec<TierRow>, items: Vec<Item>, positions: Vec<PosRow>) -> (r:
    Result<TierList, ReadError>)
    ensures
        match r {
            Ok(tl) => list_of(title@, tier_rows_view(tiers@), items_view(items@), positions@) == Ok::<
                TierListView,
                ReadError,
            >(tl@),
            Err(e) => list_of(title@, tier_rows_view(tiers@), items_view(items@), positions@)
                == Err::<TierListView, ReadError>(e),
        },
{
    let ghost trs = tier_rows_view(tiers@);
    let ghost bare = bare_tiers(trs);
    let ghost iv = items_view(items@);
    let ghost ps = positions@;
    let ghost n = trs.len();

    let mut list_tiers: Vec<Tier> = Vec::new();
    let mut tier_max_id: TierId = 0;
    let mut i: usize = 0;
    while i < tiers.len()
        invariant
            trs == tier_rows_view(tiers@),
            bare == bare_tiers(trs),
            i <= trs.len(),
            tiers_view(list_tiers@) == bare.take(i as int),
            tier_max_id == max_tier_row_id(trs.take(i as int)),
        decreases trs.len() - i,
    {
        let row = &tiers[i];
        proof {
            assert(trs[i as int] == row@);
        }
        let t = Tier { id: row.id, title: row.title.clone(), items: Vec::new() };
        let ghost prev = list_tiers@;
        proof {
            assert(tiers_view(prev).len() == prev.len());
            assert(t@ == bare[i as int]);
        }
        list_tiers.push(t);
        if row.id > tier_max_id {
            tier_max_id = row.id;
        }
        i += 1;
        proof {
            assert(list_tiers@ == prev.push(t));
            assert forall|j: int| 0 <= j < i implies #[trigger] tiers_view(list_tiers@)[j]
                == bare.take(i as int)[j] by {
                if j < i - 1 {
                    assert(list_tiers@[j] == prev[j]);
                    assert(tiers_view(prev)[j] == bare.take(i - 1)[j]);
                }
            }
            assert(tiers_view(list_tiers@) =~= bare.take(i as int));
            assert(trs.take(i as int).drop_last() =~= trs.take(i - 1));
        }
    }
    proof {
        assert(bare.take(i as int) =~= bare);
        assert(trs.take(i as int) =~= trs);
        assert forall|a: int| 0 <= a < n implies (#[trigger] list_tiers@[a]).title@ == trs[a].title
            && list_tiers@[a].items@ == tier_members(bare, positions@.take(0), a) by {
            assert(tiers_view(list_tiers@)[a] == bare[a]);
            assert(list_tiers@[a].items@ =~= Seq::<ItemId>::empty());
        }
    }

    let mut item_max_id: ItemId = 0;
    let mut k: usize = 0;
    while k < items.len()
        invariant
            iv == items_view(items@),
            k <= iv.len(),
            item_max_id == max_item_id(iv.take(k as int)),
        decreases iv.len() - k,
    {
        proof {
            assert(iv[k as int] == items@[k as int]@);
        }
        if items[k].id > item_max_id {
            item_max_id = items[k].id;
        }
        k += 1;
        proof {
            assert(iv.take(k as int).drop_last() =~= iv.take(k - 1));
        }
    }
    proof {
        assert(iv.take(k as int) =~= iv);
    }

    let mut named: HashSet<ItemId> = HashSet::new();
    let mut j: usize = 0;
    while j < positions.len()
        invariant
            ps == positions@,
            trs == tier_rows_view(tiers@),
            iv == items_view(items@),
            bare == bare_tiers(trs),
            n == trs.len(),
            j <= ps.len(),
            list_tiers@.len() == n,
            forall|a: int| 0 <= a < n ==> (#[trigger] list_tiers@[a]).id == bare[a].id,
            forall|a: int| 0 <= a < n ==> (#[trigger] list_tiers@[a]).title@ == trs[a].title,
            forall|a: int|
                0 <= a < n ==> (#[trigger] list_tiers@[a]).items@ == tier_members(
                    bare,
                    ps.take(j as int),
                    a,
                ),
            first_unknown(bare, ps.take(j as int)) == -1,
            forall|x: ItemId| #[trigger] named@.contains(x) <==> named_in(ps.take(j as int), x),
        decreases ps.len() - j,
    {
        let p = positions[j];
        proof {
            assert forall|a: int| 0 <= a < n implies (#[trigger] tiers_view(list_tiers@)[a]).id
                == bare[a].id by {
                assert(list_tiers@[a].id == bare[a].id);
            }
            lemma_tier_index_ids(tiers_view(list_tiers@), bare, p.tier_id);
            lemma_tier_index(bare, p.tier_id);
            assert(ps.take(j + 1).drop_last() =~= ps.take(j as int));
            assert(ps.take(j + 1).last() == p);
        }
        match find_tier(&list_tiers, p.tier_id) {
            None => {
                proof {
                    assert(first_unknown(bare, ps.take(j + 1)) == j);
                    lemma_first_unknown_prefix(bare, ps, j + 1);
                    assert(first_unknown(bare, ps) == j);
                    assert(ps[j as int] == p);
                    assert(list_of(title@, trs, iv, ps) == Err::<TierListView, ReadError>(
                        ReadError::UnknownTier { tier_id: p.tier_id },
                    ));
                }
                return Err(ReadError::UnknownTier { tier_id: p.tier_id });
            },
            Some(t) => {
                let ghost prev = list_tiers@;
                list_tiers[t].items.push(p.item_id);
                named.insert(p.item_id);
                proof {
                    assert forall|a: int| 0 <= a < n implies (#[trigger] list_tiers@[a]).items@
                        == tier_members(bare, ps.take(j + 1), a) by {
                        if a != t {
                            assert(list_tiers@[a] == prev[a]);
                        }
                    }
                    assert forall|a: int| 0 <= a < n implies (#[trigger] list_tiers@[a]).id
                        == bare[a].id && list_tiers@[a].title@ == trs[a].title by {
                        if a != t {
                            assert(list_tiers@[a] == prev[a]);
                        }
                    }
                    assert forall|x: ItemId| #[trigger] named@.contains(x) <==> named_in(
                        ps.take(j + 1),
                        x,
                    ) by {
                        if named_in(ps.take(j as int), x) {
                            let w = choose|w: int|
                                0 <= w < j && (#[trigger] ps.take(j as int)[w]).item_id == x;
                            assert(ps.take(j + 1)[w].item_id == x);
                        }
                        if named_in(ps.take(j + 1), x) {
                            let w = choose|w: int|
                                0 <= w < j + 1 && (#[trigger] ps.take(j + 1)[w]).item_id == x;
                            if w < j {
                                assert(ps.take(j as int)[w].item_id == x);
                            }
                        }
                        if x == p.item_id {
                            assert(ps.take(j + 1)[j as int].item_id == x);
                        }
                    }
                }
            },
        }
        j += 1;
    }
    proof {
        assert(ps.take(j as int) =~= ps);
    }

    let mut pool: Vec<ItemId> = Vec::new();
    let mut k: usize = 0;
    while k < items.len()
        invariant
            iv == items_view(items@),
            k <= iv.len(),
            forall|x: ItemId| #[trigger] named@.contains(x) <==> named_in(ps, x),
            pool@ == unplaced_ids(iv.take(k as int), ps),
        decreases iv.len() - k,
    {
        proof {
            assert(iv[k as int] == items@[k as int]@);
            assert(iv.take(k + 1).drop_last() =~= iv.take(k as int));
            assert(iv.take(k + 1).last() == iv[k as int]);
        }
        if !named.contains(&items[k].id) {
            pool.push(items[k].id);
        }
        k += 1;
    }
    proof {
        assert(iv.take(k as int) =~= iv);
    }
    let tl = TierList {
        title,
        tiers: list_tiers,
        tier_max_id,
        items,
        items_pool: pool,
        item_max_id,
    };
    proof {
        let want = list_of(title@, trs, iv, ps);
        assert(want is Ok);
        let w = want->Ok_0;
        assert forall|a: int| 0 <= a < n implies #[trigger] tl@.tiers[a] == w.tiers[a] by {
            assert(tl@.tiers[a] == tl.tiers@[a]@);
        }
        assert(tl@.tiers =~= w.tiers);
    }
    Ok(tl)
}


proof fn lemma_first_unknown_none(bare: Seq<TierView>, ps: Seq<PosRow>)
    requires
        forall|j: int| 0 <= j < ps.len() ==> tier_index(bare, (#[trigger] ps[j]).tier_id) >= 0,
    ensures
        first_unknown(bare, ps) == -1,
    decreases ps.len(),
{
    if ps.len() > 0 {
        assert(ps.last() == ps[ps.len() - 1]);
        lemma_first_unknown_none(bare, ps.drop_last());
    }
}

proof fn lemma_unplaced_ids(items: Seq<ItemView>, ps: Seq<PosRow>)
    requires
        forall|a: int, b: int|
            0 <= a < items.len() && 0 <= b < items.len() && a != b ==> (#[trigger] items[a]).id
                != (#[trigger] items[b]).id,
    ensures
        unplaced_ids(items, ps).no_duplicates(),
        forall|x: ItemId| #[trigger] unplaced_ids(items, ps).contains(x) <==> ((exists|k: int|
            0 <= k < items.len() && (#[trigger] items[k]).id == x) && !named_in(ps, x)),
    decreases items.len(),
{
    if items.len() > 0 {
        let d = items.drop_last();
        assert forall|a: int, b: int| 0 <= a < d.len() && 0 <= b < d.len() && a != b implies (
        #[trigger] d[a]).id != (#[trigger] d[b]).id by {
            assert(items[a].id != items[b].id);
        }
        lemma_unplaced_ids(d, ps);
        let rest = unplaced_ids(d, ps);
        let last = items.last();
        assert(last == items[items.len() - 1]);
        assert(!rest.contains(last.id)) by {
            if rest.contains(last.id) {
                let k = choose|k: int| 0 <= k < d.len() && (#[trigger] d[k]).id == last.id;
                assert(items[k].id != items[items.len() - 1].id);
            }
        }
        assert forall|x: ItemId| #[trigger] unplaced_ids(items, ps).contains(x) <==> ((exists|k: int|
            0 <= k < items.len() && (#[trigger] items[k]).id == x) && !named_in(ps, x)) by {
            if exists|k: int| 0 <= k < items.len() && (#[trigger] items[k]).id == x {
                let k = choose|k: int| 0 <= k < items.len() && (#[trigger] items[k]).id == x;
                if k < d.len() {
                    assert(d[k].id == x);
                }
            }
            if exists|k: int| 0 <= k < d.len() && (#[trigger] d[k]).id == x {
                let k = choose|k: int| 0 <= k < d.len() && (#[trigger] d[k]).id == x;
                assert(items[k].id == x);
            }
            if !named_in(ps, last.id) {
                assert(rest.push(last.id).contains(x) <==> (rest.contains(x) || x == last.id)) by {
                    if rest.push(last.id).contains(x) && x != last.id {
                        let j = choose|j: int| 0 <= j < rest.len() + 1 && rest.push(last.id)[j] == x;
                        assert(rest[j] == x);
                    }
                    if rest.contains(x) {
                        let j = choose|j: int| 0 <= j < rest.len() && rest[j] == x;
                        assert(rest.push(last.id)[j] == x);
                    }
                    if x == last.id {
                        assert(rest.push(last.id)[rest.len() as int] == x);
                    }
                }
            }
        }
        if !named_in(ps, last.id) {
            assert forall|a: int, b: int|
                0 <= a < rest.len() + 1 && 0 <= b < rest.len() + 1 && a != b implies rest.push(
                last.id,
            )[a] != rest.push(last.id)[b] by {
                if a < rest.len() && b < rest.len() {
                    assert(rest[a] != rest[b]);
                } else if a < rest.len() {
                    assert(rest.contains(rest[a]));
                } else {
                    assert(rest.contains(rest[b]));
                }
            }
        }
    }
}


/// Position rows in order of their position column.
pub open spec fn sorted_by_pos(ps: Seq<PosRow>) -> bool {
    forall|a: int, b: int| 0 <= a < b < ps.len() ==> (#[trigger] ps[a]).pos <= (#[trigger] ps[b]).pos
}

/// The rows that feed the tier at index `i`, in row order.
pub open spec fn tier_rows_of(tiers: Seq<TierView>, ps: Seq<PosRow>, i: int) -> Seq<PosRow>
    decreases ps.len(),
{
    if ps.len() == 0 {
        Seq::empty()
    } else {
        let rest = tier_rows_of(tiers, ps.drop_last(), i);
        if tier_index(tiers, ps.last().tier_id) == i {
            rest.push(ps.last())
        } else {
            rest
        }
    }
}

proof fn lemma_tier_rows_of(tiers: Seq<TierView>, ps: Seq<PosRow>, i: int)
    ensures
        tier_members(tiers, ps, i) == tier_rows_of(tiers, ps, i).map_values(|r: PosRow| r.item_id),
        forall|r: PosRow| #[trigger]
            tier_rows_of(tiers, ps, i).contains(r) <==> (ps.contains(r) && tier_index(
                tiers,
                r.tier_id,
            ) == i),
        sorted_by_pos(ps) ==> sorted_by_pos(tier_rows_of(tiers, ps, i)),
        ps.no_duplicates() ==> tier_rows_of(tiers, ps, i).no_duplicates(),
    decreases ps.len(),
{
    let g = tier_rows_of(tiers, ps, i);
    if ps.len() == 0 {
        assert(g.map_values(|r: PosRow| r.item_id) =~= Seq::<ItemId>::empty());
    } else {
        let d = ps.drop_last();
        let last = ps.last();
        assert(last == ps[ps.len() - 1]);
        lemma_tier_rows_of(tiers, d, i);
        let rest = tier_rows_of(tiers, d, i);
        assert forall|r: PosRow| #[trigger] ps.contains(r) <==> (d.contains(r) || r == last) by {
            if ps.contains(r) && r != last {
                let j = choose|j: int| 0 <= j < ps.len() && ps[j] == r;
                assert(d[j] == r);
            }
            if d.contains(r) {
                let j = choose|j: int| 0 <= j < d.len() && d[j] == r;
                assert(ps[j] == r);
            }
        }
        if sorted_by_pos(ps) {
            assert forall|a: int, b: int| 0 <= a < b < d.len() implies (#[trigger] d[a]).pos <= (
            #[trigger] d[b]).pos by {
                assert(ps[a] == d[a] && ps[b] == d[b]);
            }
        }
        if ps.no_duplicates() {
            assert(!d.contains(last)) by {
                if d.contains(last) {
                    let j = choose|j: int| 0 <= j < d.len() && d[j] == last;
                    assert(ps[j] == ps[ps.len() - 1]);
                }
            }
            assert forall|a: int, b: int| 0 <= a < d.len() && 0 <= b < d.len() && a != b implies d[a]
                != d[b] by {
                assert(ps[a] == d[a] && ps[b] == d[b]);
            }
        }
        if tier_index(tiers, last.tier_id) == i {
            assert(g == rest.push(last));
            assert(g.map_values(|r: PosRow| r.item_id) =~= rest.map_values(|r: PosRow| r.item_id).push(
                last.item_id,
            ));
            assert forall|r: PosRow| #[trigger] g.contains(r) <==> (rest.contains(r) || r == last) by {
                if g.contains(r) && r != last {
                    let j = choose|j: int| 0 <= j < g.len() && g[j] == r;
                    assert(rest[j] == r);
                }
                if rest.contains(r) {
                    let j = choose|j: int| 0 <= j < rest.len() && rest[j] == r;
                    assert(g[j] == r);
                }
                if r == last {
                    assert(g[rest.len() as int] == r);
                }
            }
            if sorted_by_pos(ps) {
                assert forall|a: int, b: int| 0 <= a < b < g.len() implies (#[trigger] g[a]).pos <= (
                #[trigger] g[b]).pos by {
                    if b == g.len() - 1 {
                        assert(rest.contains(g[a]));
                        let j = choose|j: int| 0 <= j < d.len() && d[j] == g[a];
                        assert(ps[j] == d[j]);
                    } else {
                        assert(g[a] == rest[a] && g[b] == rest[b]);
                    }
                }
            }
            if ps.no_duplicates() {
                assert forall|a: int, b: int| 0 <= a < g.len() && 0 <= b < g.len() && a != b implies g[a]
                    != g[b] by {
                    if a < rest.len() && b < rest.len() {
                        assert(g[a] == rest[a] && g[b] == rest[b]);
                    } else if a < rest.len() {
                        assert(rest.contains(rest[a]));
                        assert(g[a] == rest[a]);
                    } else {
                        assert(rest.contains(rest[b]));
                        assert(g[b] == rest[b]);
                    }
                }
            }
        }
    }
}

/// The row that places the `k`-th member of a tier.
pub open spec fn row_at(t: TierView, k: int) -> PosRow {
    PosRow { item_id: t.items[k], tier_id: t.id, pos: k as i64 }
}

/// The position rows of the first `m` tiers are exactly the rows of their
/// members, each once.
proof fn lemma_position_rows_exact(tiers: Seq<TierView>, m: int)
    requires
        0 <= m <= tiers.len(),
        forall|q: int| 0 <= q < tiers.len() ==> (#[trigger] tiers[q]).items.len() <= i64::MAX,
        forall|a: int, b: int|
            0 <= a < tiers.len() && 0 <= b < tiers.len() && a != b ==> (#[trigger] tiers[a]).id
                != (#[trigger] tiers[b]).id,
    ensures
        forall|r: PosRow| #[trigger]
            position_rows(tiers.take(m)).contains(r) <==> exists|q: int, k: int|
                0 <= q < m && 0 <= k < tiers[q].items.len() && r == #[trigger] row_at(tiers[q], k),
        position_rows(tiers.take(m)).no_duplicates(),
    decreases m,
{
    let pm = position_rows(tiers.take(m));
    if m == 0 {
        assert(tiers.take(m).len() == 0);
        assert(pm.len() == 0);
    } else {
        lemma_position_rows_exact(tiers, m - 1);
        assert(tiers.take(m).drop_last() =~= tiers.take(m - 1));
        assert(tiers.take(m).last() == tiers[m - 1]);
        let a = position_rows(tiers.take(m - 1));
        let t = tiers[m - 1];
        let b = tier_position_rows(t);
        assert(pm == a + b);
        assert forall|k: int| 0 <= k < b.len() implies #[trigger] b[k] == row_at(t, k) by {}
        assert forall|r: PosRow| #[trigger] pm.contains(r) <==> exists|q: int, k: int|
            0 <= q < m && 0 <= k < tiers[q].items.len() && r == #[trigger] row_at(tiers[q], k) by {
            if pm.contains(r) {
                let j = choose|j: int| 0 <= j < pm.len() && pm[j] == r;
                if j < a.len() {
                    assert(a[j] == r);
                    assert(a.contains(r));
                    let (q, k) = choose|q: int, k: int|
                        0 <= q < m - 1 && 0 <= k < tiers[q].items.len() && r == #[trigger] row_at(
                            tiers[q],
                            k,
                        );
                    assert(r == row_at(tiers[q], k));
                } else {
                    let k = j - a.len();
                    assert(b[k] == r);
                    assert(r == row_at(tiers[m - 1], k));
                }
            }
            if exists|q: int, k: int|
                0 <= q < m && 0 <= k < tiers[q].items.len() && r == #[trigger] row_at(tiers[q], k) {
                let (q, k) = choose|q: int, k: int|
                    0 <= q < m && 0 <= k < tiers[q].items.len() && r == #[trigger] row_at(tiers[q], k);
                if q < m - 1 {
                    assert(a.contains(r));
                    let j = choose|j: int| 0 <= j < a.len() && a[j] == r;
                    assert(pm[j] == r);
                } else {
                    assert(pm[a.len() + k] == b[k]);
                }
            }
        }
        assert forall|x: int, y: int| 0 <= x < b.len() && 0 <= y < b.len() && x != y implies b[x]
            != b[y] by {
            assert(b[x].pos == x as i64 && b[y].pos == y as i64);
        }
        assert forall|x: int, y: int| 0 <= x < a.len() && 0 <= y < b.len() implies a[x] != b[y] by {
            assert(a.contains(a[x]));
            let (q, k) = choose|q: int, k: int|
                0 <= q < m - 1 && 0 <= k < tiers[q].items.len() && a[x] == #[trigger] row_at(
                    tiers[q],
                    k,
                );
            assert(tiers[q].id != tiers[m - 1].id);
        }
        vstd::seq_lib::lemma_no_dup_in_concat(a, b);
    }
}

pub open spec fn pos_taken(g: Seq<PosRow>, v: int) -> bool {
    exists|a: int| 0 <= a < g.len() && (#[trigger] g[a]).pos == v
}

/// Values at increasing positions that are each below `n`, and that take
/// every value below `n`, count up from zero.
proof fn lemma_counts_up(g: Seq<PosRow>, n: int, j: int)
    requires
        0 <= j <= g.len(),
        forall|a: int, b: int| 0 <= a < b < g.len() ==> (#[trigger] g[a]).pos < (#[trigger] g[b]).pos,
        forall|a: int| 0 <= a < g.len() ==> 0 <= (#[trigger] g[a]).pos < n,
        forall|v: int| 0 <= v < n ==> #[trigger] pos_taken(g, v),
    ensures
        forall|a: int| 0 <= a < j ==> (#[trigger] g[a]).pos == a,
    decreases j,
{
    if j > 0 {
        lemma_counts_up(g, n, j - 1);
        let c = j - 1;
        assert(g[c].pos >= c) by {
            if c > 0 {
                assert(g[c - 1].pos == c - 1);
                assert(g[c - 1].pos < g[c].pos);
            }
        }
        assert(pos_taken(g, c));
        let w = choose|a: int| 0 <= a < g.len() && (#[trigger] g[a]).pos == c;
        if w < c {
            assert(g[w].pos == w);
        } else if w > c {
            assert(g[c].pos < g[w].pos);
        }
    }
}

/// The rows of one tier, sorted by position and each once, are the rows the
/// tier was written as.
proof fn lemma_sorted_tier_rows(g: Seq<PosRow>, t: TierView)
    requires
        t.items.len() <= i64::MAX,
        sorted_by_pos(g),
        g.no_duplicates(),
        forall|r: PosRow| #[trigger] g.contains(r) <==> exists|k: int|
            0 <= k < t.items.len() && r == #[trigger] row_at(t, k),
    ensures
        g == tier_position_rows(t),
{
    let n = t.items.len() as int;
    assert forall|a: int| 0 <= a < g.len() implies exists|k: int|
        0 <= k < n && #[trigger] g[a] == row_at(t, k) by {
        assert(g.contains(g[a]));
    }
    assert forall|a: int| 0 <= a < g.len() implies 0 <= (#[trigger] g[a]).pos < n && g[a] == row_at(
        t,
        g[a].pos as int,
    ) by {
        let k = choose|k: int| 0 <= k < n && #[trigger] g[a] == row_at(t, k);
    }
    assert forall|a: int, b: int| 0 <= a < b < g.len() implies (#[trigger] g[a]).pos < (
    #[trigger] g[b]).pos by {
        assert(g[a].pos <= g[b].pos);
        assert(g[a] != g[b]);
    }
    assert forall|v: int| 0 <= v < n implies #[trigger] pos_taken(g, v) by {
        assert(row_at(t, v).pos == v);
        assert(g.contains(row_at(t, v)));
        let a = choose|a: int| 0 <= a < g.len() && g[a] == row_at(t, v);
        assert(g[a].pos == v);
    }
    lemma_counts_up(g, n, g.len() as int);
    if n > 0 {
        assert(pos_taken(g, n - 1));
        let w = choose|a: int| 0 <= a < g.len() && (#[trigger] g[a]).pos == n - 1;
        assert(g[w].pos == w);
    }
    if g.len() > 0 {
        assert(g[g.len() - 1].pos == g.len() - 1);
    }
    assert(g.len() == n);
    assert forall|a: int| 0 <= a < n implies #[trigger] g[a] == tier_position_rows(t)[a] by {
        assert(g[a].pos == a);
    }
    assert(g =~= tier_position_rows(t));
}

/// The registry that reading gets back once each stored thumbnail has been
/// written to a file: the rows' ids, names and urls in row order, with a
/// path exactly where a row holds bytes.
pub open spec fn materializes(rows: Seq<ItemRowView>, items: Seq<ItemView>) -> bool {
    &&& rows.len() == items.len()
    &&& forall|k: int|
        0 <= k < rows.len() ==> (#[trigger] items[k]).id == rows[k].id && items[k].name
            == rows[k].name && items[k].url == rows[k].url && (items[k].thumb is Some
            <==> rows[k].thumb is Some)
}

/// Thumbnail files that hold the stored bytes: reading them back gives,
/// for each item row, exactly that row's bytes.
pub open spec fn holds_stored_bytes(rows: Seq<ItemRowView>, thumbs: Map<ItemId, Seq<u8>>) -> bool {
    forall|k: int| 0 <= k < rows.len() ==> thumb_of(thumbs, (#[trigger] rows[k]).id) == rows[k].thumb
}

/// Saving a well-formed list and reading the store back succeeds, with the
/// position rows in whatever order the store returns them sorted by their
/// position column. It gives the same title, the same tiers (ids, titles,
/// members in order), the registry as materialized and a pool with the
/// same ids, each once. Saving that list again, with thumbnail files that
/// hold the stored bytes, writes exactly the rows that were read.
pub proof fn lemma_round_trip(
    v: TierListView,
    thumbs: Map<ItemId, Seq<u8>>,
    loaded: Seq<ItemView>,
    stored: Seq<PosRow>,
    reread: Map<ItemId, Seq<u8>>,
)
    requires
        v.wf(),
        fits_store(v),
        materializes(rows_of(v, thumbs).items, loaded),
        stored.to_multiset() == rows_of(v, thumbs).positions.to_multiset(),
        sorted_by_pos(stored),
        holds_stored_bytes(rows_of(v, thumbs).items, reread),
    ensures
        list_of(rows_of(v, thumbs).title, rows_of(v, thumbs).tiers, loaded, stored) is Ok,
        ({
            let w = list_of(rows_of(v, thumbs).title, rows_of(v, thumbs).tiers, loaded, stored)->Ok_0;
            &&& w.title == v.title
            &&& w.tiers == v.tiers
            &&& w.items == loaded
            &&& w.pool.no_duplicates()
            &&& forall|x: ItemId| #[trigger] w.pool.contains(x) <==> v.pool.contains(x)
            &&& rows_of(w, reread) == rows_of(v, thumbs)
        }),
{
    let rows = rows_of(v, thumbs);
    let bare = bare_tiers(rows.tiers);
    let ps = rows.positions;
    let n = v.tiers.len();
    assert(v.tiers.take(n as int) =~= v.tiers);
    lemma_position_rows_exact(v.tiers, n as int);
    ps.to_multiset_ensures();
    stored.to_multiset_ensures();
    assert forall|r: PosRow| #[trigger] stored.contains(r) <==> ps.contains(r) by {
        assert(stored.to_multiset().count(r) == ps.to_multiset().count(r));
    }
    ps.lemma_multiset_has_no_duplicates();
    assert forall|x: PosRow| stored.to_multiset().contains(x) implies stored.to_multiset().count(x)
        == 1 by {
        assert(ps.to_multiset().contains(x));
    }
    stored.lemma_multiset_has_no_duplicates_conv();

    assert forall|q: int| 0 <= q < n implies (#[trigger] bare[q]).id == v.tiers[q].id by {}
    assert forall|q: int| 0 <= q < n implies tier_index(bare, (#[trigger] v.tiers[q]).id) == q by {
        lemma_tier_index_ids(bare, v.tiers, v.tiers[q].id);
        lemma_tier_index_unique(v.tiers, v.tiers[q].id, q);
    }
    assert forall|j: int| 0 <= j < stored.len() implies tier_index(
        bare,
        (#[trigger] stored[j]).tier_id,
    ) >= 0 by {
        assert(stored.contains(stored[j]));
        let (q, k) = choose|q: int, k: int|
            0 <= q < n && 0 <= k < v.tiers[q].items.len() && stored[j] == #[trigger] row_at(
                v.tiers[q],
                k,
            );
        assert(tier_index(bare, v.tiers[q].id) == q);
    }
    lemma_first_unknown_none(bare, stored);
    let w = list_of(rows.title, rows.tiers, loaded, stored)->Ok_0;
    assert forall|i: int| 0 <= i < n implies #[trigger] w.tiers[i] == v.tiers[i] by {
        let t = v.tiers[i];
        lemma_tier_rows_of(bare, stored, i);
        let g = tier_rows_of(bare, stored, i);
        assert forall|r: PosRow| #[trigger] g.contains(r) <==> exists|k: int|
            0 <= k < t.items.len() && r == #[trigger] row_at(t, k) by {
            if g.contains(r) {
                assert(ps.contains(r));
                let (q, k) = choose|q: int, k: int|
                    0 <= q < n && 0 <= k < v.tiers[q].items.len() && r == #[trigger] row_at(
                        v.tiers[q],
                        k,
                    );
                assert(tier_index(bare, v.tiers[q].id) == q);
                assert(r == row_at(t, k));
            }
            if exists|k: int| 0 <= k < t.items.len() && r == #[trigger] row_at(t, k) {
                let k = choose|k: int| 0 <= k < t.items.len() && r == #[trigger] row_at(t, k);
                assert(r == row_at(v.tiers[i], k));
                assert(ps.contains(r));
                assert(tier_index(bare, t.id) == i);
            }
        }
        lemma_sorted_tier_rows(g, t);
        assert(g.map_values(|r: PosRow| r.item_id) =~= t.items);
    }
    assert(w.tiers =~= v.tiers);
    // the pool
    assert forall|a: int, b: int|
        0 <= a < loaded.len() && 0 <= b < loaded.len() && a != b implies (
        #[trigger] loaded[a]).id != (#[trigger] loaded[b]).id by {
        assert(rows.items[a].id == v.items[a].id);
        assert(rows.items[b].id == v.items[b].id);
    }
    lemma_unplaced_ids(loaded, stored);
    assert forall|x: ItemId| #[trigger] w.pool.contains(x) <==> v.pool.contains(x) by {
        assert(named_in(stored, x) <==> v.in_some_tier(x)) by {
            if named_in(stored, x) {
                let j = choose|j: int| 0 <= j < stored.len() && (#[trigger] stored[j]).item_id == x;
                assert(stored.contains(stored[j]));
                let (q, k) = choose|q: int, k: int|
                    0 <= q < n && 0 <= k < v.tiers[q].items.len() && stored[j] == #[trigger] row_at(
                        v.tiers[q],
                        k,
                    );
                assert(v.tiers[q].items[k] == x);
                assert(v.tiers[q].items.contains(x));
            }
            if v.in_some_tier(x) {
                let q = choose|q: int| 0 <= q < n && (#[trigger] v.tiers[q]).items.contains(x);
                let k = choose|k: int| 0 <= k < v.tiers[q].items.len() && v.tiers[q].items[k] == x;
                let r = row_at(v.tiers[q], k);
                assert(ps.contains(r));
                assert(stored.contains(r));
                let j = choose|j: int| 0 <= j < stored.len() && stored[j] == r;
                assert(stored[j].item_id == x);
            }
        }
        assert((exists|k: int| 0 <= k < loaded.len() && (#[trigger] loaded[k]).id == x)
            <==> v.has_item(x)) by {
            if exists|k: int| 0 <= k < loaded.len() && (#[trigger] loaded[k]).id == x {
                let k = choose|k: int| 0 <= k < loaded.len() && (#[trigger] loaded[k]).id == x;
                assert(rows.items[k].id == v.items[k].id);
            }
            if v.has_item(x) {
                let k = choose|k: int| 0 <= k < v.items.len() && (#[trigger] v.items[k]).id == x;
                assert(rows.items[k].id == v.items[k].id);
                assert(loaded[k].id == x);
            }
        }
        if v.pool.contains(x) {
            assert(v.is_placed(x));
            if v.in_some_tier(x) {
                let q = choose|q: int| 0 <= q < n && (#[trigger] v.tiers[q]).items.contains(x);
                assert(v.tiers[q].items.contains(x));
            }
        }
        if v.has_item(x) && !v.in_some_tier(x) {
            assert(v.is_placed(x));
        }
    }
    // saving again
    let again = rows_of(w, reread);
    assert forall|k: int| 0 <= k < loaded.len() implies #[trigger] again.items[k]
        == rows.items[k] by {
        assert(loaded[k].id == rows.items[k].id);
        assert(thumb_of(reread, rows.items[k].id) == rows.items[k].thumb);
    }
    assert(again.items =~= rows.items);
    assert(again.tiers =~= rows.tiers);
}

} // verus!
