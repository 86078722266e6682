use vstd::prelude::*;

verus! {

pub type TierId = i64;

pub type ItemId = i64;

/// An entry of the item registry.
pub struct Item {
    pub id: ItemId,
    pub name: String,
    pub url: String,
    /// Path of a locally cached thumbnail image, if the item has one.
    pub thumb: Option<String>,
}

/// A ranked bucket: a title and the ordered ids of the items it holds.
pub struct Tier {
    pub id: TierId,
    pub title: String,
    pub items: Vec<ItemId>,
}

/// The aggregate root: tiers in rank order, the registry of items, the pool
/// of unranked item ids and the two id counters.
pub struct TierList {
    pub title: String,
    pub tiers: Vec<Tier>,
    pub tier_max_id: TierId,
    pub items: Vec<Item>,
    pub items_pool: Vec<ItemId>,
    pub item_max_id: ItemId,
}

pub struct ItemView {
    pub id: ItemId,
    pub name: Seq<char>,
    pub url: Seq<char>,
    pub thumb: Option<Seq<char>>,
}

pub struct TierView {
    pub id: TierId,
    pub title: Seq<char>,
    pub items: Seq<ItemId>,
}

pub struct TierListView {
    pub title: Seq<char>,
    pub tiers: Seq<TierView>,
    pub tier_max_id: TierId,
    pub items: Seq<ItemView>,
    pub pool: Seq<ItemId>,
    pub item_max_id: ItemId,
}

pub open spec fn opt_str_view(s: Option<String>) -> Option<Seq<char>> {
    match s {
        Some(t) => Some(t@),
        None => None,
    }
}

impl View for Item {
    type V = ItemView;

    open spec fn view(&self) -> ItemView {
        ItemView { id: self.id, name: self.name@, url: self.url@, thumb: opt_str_view(self.thumb) }
    }
}

impl View for Tier {
    type V = TierView;

    open spec fn view(&self) -> TierView {
        TierView { id: self.id, title: self.title@, items: self.items@ }
    }
}

pub open spec fn tiers_view(ts: Seq<Tier>) -> Seq<TierView> {
    ts.map_values(|t: Tier| t@)
}

pub open spec fn items_view(its: Seq<Item>) -> Seq<ItemView> {
    its.map_values(|it: Item| it@)
}

impl View for TierList {
    type V = TierListView;

    open spec fn view(&self) -> TierListView {
        TierListView {
            title: self.title@,
            tiers: tiers_view(self.tiers@),
            tier_max_id: self.tier_max_id,
            items: items_view(self.items@),
            pool: self.items_pool@,
            item_max_id: self.item_max_id,
        }
    }
}

/// The index of the last tier with the given id, or -1 when there is none.
pub open spec fn tier_index(tiers: Seq<TierView>, id: TierId) -> int
    decreases tiers.len(),
{
    if tiers.len() == 0 {
        -1
    } else if tiers.last().id == id {
        tiers.len() - 1
    } else {
        tier_index(tiers.drop_last(), id)
    }
}

/// The sequence with every occurrence of `id` taken out, the rest in order.
pub open spec fn without(s: Seq<ItemId>, id: ItemId) -> Seq<ItemId> {
    s.filter(|x: ItemId| x != id)
}

impl TierListView {
    pub open spec fn has_item(self, id: ItemId) -> bool {
        exists|k: int| 0 <= k < self.items.len() && (#[trigger] self.items[k]).id == id
    }

    pub open spec fn in_some_tier(self, id: ItemId) -> bool {
        exists|i: int| 0 <= i < self.tiers.len() && (#[trigger] self.tiers[i]).items.contains(id)
    }

    /// The id sits in a tier or in the pool.
    pub open spec fn is_placed(self, id: ItemId) -> bool {
        self.pool.contains(id) || self.in_some_tier(id)
    }

    /// Registry and tier ids are unique and never above their counters.
    pub open spec fn ids_ok(self) -> bool {
        &&& forall|a: int, b: int|
            0 <= a < self.items.len() && 0 <= b < self.items.len() && a != b ==> (
            #[trigger] self.items[a]).id != (#[trigger] self.items[b]).id
        &&& forall|a: int, b: int|
            0 <= a < self.tiers.len() && 0 <= b < self.tiers.len() && a != b ==> (
            #[trigger] self.tiers[a]).id != (#[trigger] self.tiers[b]).id
        &&& forall|k: int| 0 <= k < self.items.len() ==> (#[trigger] self.items[k]).id <= self.item_max_id
        &&& forall|k: int| 0 <= k < self.tiers.len() ==> (#[trigger] self.tiers[k]).id <= self.tier_max_id
    }

    /// No id is placed twice, and every placed id is registered.
    pub open spec fn placement_ok(self) -> bool {
        &&& self.pool.no_duplicates()
        &&& forall|i: int| 0 <= i < self.tiers.len() ==> (#[trigger] self.tiers[i]).items.no_duplicates()
        &&& forall|i: int, j: int, x: ItemId|
            0 <= i < self.tiers.len() && 0 <= j < self.tiers.len() && i != j
                && #[trigger] self.tiers[i].items.contains(x) ==> !#[trigger] self.tiers[
                j].items.contains(x)
        &&& forall|i: int, x: ItemId|
            0 <= i < self.tiers.len() && #[trigger] self.tiers[i].items.contains(x)
                ==> !self.pool.contains(x)
        &&& forall|x: ItemId| #[trigger] self.is_placed(x) ==> self.has_item(x)
    }

    /// The state between taking an item out of its place and putting it back.
    pub open spec fn consistent(self) -> bool {
        self.ids_ok() && self.placement_ok()
    }

    /// Every registered id is placed, except possibly `id`.
    pub open spec fn placed_but(self, id: ItemId) -> bool {
        forall|x: ItemId| #[trigger] self.has_item(x) && x != id ==> self.is_placed(x)
    }

    /// The list with `id` taken out of every tier and out of the pool; the
    /// registry is unchanged.
    pub open spec fn unplace(self, id: ItemId) -> TierListView {
        TierListView {
            tiers: self.tiers.map_values(
                |t: TierView| TierView { id: t.id, title: t.title, items: without(t.items, id) },
            ),
            pool: without(self.pool, id),
            ..self
        }
    }

    /// Number of ids held by the container that `tier` names: the tier with
    /// that id, or the pool for `None`.
    pub open spec fn target_len(self, tier: Option<TierId>) -> int {
        match tier {
            None => self.pool.len() as int,
            Some(t) => self.tiers[tier_index(self.tiers, t)].items.len() as int,
        }
    }

    /// `tier` names an existing tier, or the pool (`None`).
    pub open spec fn target_exists(self, tier: Option<TierId>) -> bool {
        match tier {
            None => true,
            Some(t) => tier_index(self.tiers, t) >= 0,
        }
    }

    /// The list with `id` inserted at index `pos` of the container that
    /// `tier` names.
    pub open spec fn place(self, id: ItemId, tier: Option<TierId>, pos: int) -> TierListView {
        match tier {
            None => TierListView { pool: self.pool.insert(pos, id), ..self },
            Some(t) => {
                let k = tier_index(self.tiers, t);
                TierListView {
                    tiers: self.tiers.update(
                        k,
                        TierView {
                            id: self.tiers[k].id,
                            title: self.tiers[k].title,
                            items: self.tiers[k].items.insert(pos, id),
                        },
                    ),
                    ..self
                }
            },
        }
    }

    /// The list with the tier at index `k` removed and its members appended,
    /// in order, to the pool.
    pub open spec fn drop_tier(self, k: int) -> TierListView {
        TierListView { tiers: self.tiers.remove(k), pool: self.pool + self.tiers[k].items, ..self }
    }

    /// Every registered id lives in exactly one place: a tier or the pool.
    pub open spec fn wf(self) -> bool {
        &&& self.consistent()
        &&& forall|x: ItemId| #[trigger] self.has_item(x) ==> self.is_placed(x)
    }
}

impl TierList {
    /// A list titled "Untitled" with no tier, no item and both counters at zero.
    pub fn empty() -> (r: TierList)
        ensures
            r@.title == "Untitled"@,
            r@.tiers.len() == 0,
            r@.items.len() == 0,
            r@.pool.len() == 0,
            r@.tier_max_id == 0,
            r@.item_max_id == 0,
            r@.wf(),
    {
        TierList {
            title: "Untitled".to_owned(),
            tiers: Vec::new(),
            tier_max_id: 0,
            items: Vec::new(),
            items_pool: Vec::new(),
            item_max_id: 0,
        }
    }
}

} // verus!
