use vstd::prelude::*;
use crate::seq_facts::{
    lemma_insert_facts, lemma_remove_facts, lemma_without_absent, lemma_without_insert,
    lemma_without_remove,
};
use crate::tierlist::{
    Item, ItemId, ItemView, Tier, TierId, TierList, TierListView, TierView, opt_str_view,
    tier_index, tiers_view, without,
};

verus! {

/// Why an engine operation refused to act; the list is then left as it was
/// (but for the tier counter, see `add_new_tier`).
#[derive(Clone, Copy, Debug, PartialEq, Eq, Structural)]
pub enum EngineError {
    /// No registered item has this id.
    UnknownItem,
    /// No tier has this id.
    UnknownTier,
    /// The item is in no tier and not in the pool.
    NotPlaced,
    /// The item already sits in a tier or in the pool.
    AlreadyPlaced,
    /// The index lies outside the target sequence.
    BadPosition,
}

pub proof fn lemma_tier_index(tiers: Seq<TierView>, id: TierId)
    ensures
        -1 <= tier_index(tiers, id) < tiers.len(),
        tier_index(tiers, id) >= 0 ==> tiers[tier_index(tiers, id)].id == id,
        forall|k: int|
            tier_index(tiers, id) < k < tiers.len() ==> (#[trigger] tiers[k]).id != id,
    decreases tiers.len(),
{
    if tiers.len() > 0 {
        lemma_tier_index(tiers.drop_last(), id);
        assert forall|k: int| tier_index(tiers, id) < k < tiers.len() implies (
        #[trigger] tiers[k]).id != id by {
            if k < tiers.len() - 1 {
                assert(tiers.drop_last()[k] == tiers[k]);
            }
        }
    }
}

/// With unique tier ids, the tier that holds `id` is the one `tier_index` finds.
pub proof fn lemma_tier_index_unique(tiers: Seq<TierView>, id: TierId, k: int)
    requires
        0 <= k < tiers.len(),
        tiers[k].id == id,
        forall|a: int, b: int|
            0 <= a < tiers.len() && 0 <= b < tiers.len() && a != b ==> (#[trigger] tiers[a]).id
                != (#[trigger] tiers[b]).id,
    ensures
        tier_index(tiers, id) == k,
{
    lemma_tier_index(tiers, id);
    let r = tier_index(tiers, id);
    if r != k {
        assert(tiers[r].id != tiers[k].id);
    }
}

pub proof fn lemma_without_facts(s: Seq<ItemId>, id: ItemId)
    requires
        s.no_duplicates(),
    ensures
        without(s, id).no_duplicates(),
        forall|x: ItemId| #[trigger] without(s, id).contains(x) <==> (s.contains(x) && x != id),
{
    if s.contains(id) {
        let k = choose|k: int| 0 <= k < s.len() && s[k] == id;
        lemma_without_remove(s, k, id);
        lemma_remove_facts(s, k);
    } else {
        lemma_without_absent(s, id);
    }
}

/// Taking an id out of its place keeps the list consistent, leaves the
/// registry as it was and unplaces that id alone.
pub proof fn lemma_unplace(v: TierListView, id: ItemId)
    requires
        v.consistent(),
    ensures
        v.unplace(id).consistent(),
        v.unplace(id).items == v.items,
        forall|x: ItemId| #[trigger] v.unplace(id).is_placed(x) <==> (v.is_placed(x) && x != id),
        v.wf() ==> v.unplace(id).placed_but(id),
        v.placed_but(id) ==> v.unplace(id).placed_but(id),
{
    let u = v.unplace(id);
    lemma_without_facts(v.pool, id);
    assert forall|i: int| 0 <= i < v.tiers.len() implies (#[trigger] u.tiers[i]).items
        == without(v.tiers[i].items, id) && u.tiers[i].id == v.tiers[i].id && (
    #[trigger] u.tiers[i]).items.no_duplicates() && (forall|x: ItemId| #[trigger]
        u.tiers[i].items.contains(x) <==> (v.tiers[i].items.contains(x) && x != id)) by {
        lemma_without_facts(v.tiers[i].items, id);
    }
    assert forall|x: ItemId| #[trigger] u.is_placed(x) <==> (v.is_placed(x) && x != id) by {
        if u.in_some_tier(x) {
            let i = choose|i: int| 0 <= i < u.tiers.len() && (#[trigger] u.tiers[i]).items.contains(x);
            assert(v.tiers[i].items.contains(x));
        }
        if v.in_some_tier(x) && x != id {
            let i = choose|i: int| 0 <= i < v.tiers.len() && (#[trigger] v.tiers[i]).items.contains(x);
            assert(u.tiers[i].items.contains(x));
        }
    }
    assert forall|x: ItemId| #[trigger] u.is_placed(x) implies u.has_item(x) by {
        assert(v.is_placed(x));
    }
    assert forall|a: int, b: int|
        0 <= a < u.tiers.len() && 0 <= b < u.tiers.len() && a != b implies (
        #[trigger] u.tiers[a]).id != (#[trigger] u.tiers[b]).id by {
        assert(v.tiers[a].id != v.tiers[b].id);
    }
    assert forall|k: int| 0 <= k < u.tiers.len() implies (#[trigger] u.tiers[k]).id
        <= u.tier_max_id by {
        assert(v.tiers[k].id <= v.tier_max_id);
    }
    assert forall|i: int, j: int, x: ItemId|
        0 <= i < u.tiers.len() && 0 <= j < u.tiers.len() && i != j
            && #[trigger] u.tiers[i].items.contains(x) implies !#[trigger] u.tiers[
        j].items.contains(x) by {
        assert(v.tiers[i].items.contains(x));
    }
    assert forall|i: int, x: ItemId|
        0 <= i < u.tiers.len() && #[trigger] u.tiers[i].items.contains(x) implies !u.pool.contains(
        x) by {
        assert(v.tiers[i].items.contains(x));
    }
    assert forall|x: ItemId| #[trigger] u.has_item(x) && x != id && v.placed_but(id) implies u.is_placed(x) by {
        assert(v.has_item(x));
    }
}

/// Finds an id in a sequence of ids.
fn find_id(s: &Vec<ItemId>, id: ItemId) -> (r: Option<usize>)
    ensures
        match r {
            Some(k) => k < s@.len() && s@[k as int] == id,
            None => !s@.contains(id),
        },
{
    let mut k: usize = 0;
    while k < s.len()
        invariant
            k <= s@.len(),
            forall|j: int| 0 <= j < k ==> s@[j] != id,
        decreases s@.len() - k,
    {
        if s[k] == id {
            return Some(k);
        }
        k += 1;
    }
    None
}

/// Finds the registry index of an item.
fn find_item(items: &Vec<Item>, id: ItemId) -> (r: Option<usize>)
    ensures
        match r {
            Some(k) => k < items@.len() && items@[k as int].id == id,
            None => forall|k: int| 0 <= k < items@.len() ==> (#[trigger] items@[k]).id != id,
        },
{
    let mut k: usize = 0;
    while k < items.len()
        invariant
            k <= items@.len(),
            forall|j: int| 0 <= j < k ==> (#[trigger] items@[j]).id != id,
        decreases items@.len() - k,
    {
        if items[k].id == id {
            return Some(k);
        }
        k += 1;
    }
    None
}

/// Finds the index that `tier_index` gives, scanning from the back.
pub fn find_tier(tiers: &Vec<Tier>, id: TierId) -> (r: Option<usize>)
    ensures
        match r {
            Some(k) => k as int == tier_index(tiers_view(tiers@), id),
            None => tier_index(tiers_view(tiers@), id) == -1,
        },
{
    let ghost tv = tiers_view(tiers@);
    let mut k: usize = tiers.len();
    proof {
        assert(tv.take(k as int) =~= tv);
    }
    while k > 0
        invariant
            k <= tiers@.len(),
            tv == tiers_view(tiers@),
            tier_index(tv, id) == tier_index(tv.take(k as int), id),
        decreases k,
    {
        proof {
            assert(tv.take(k as int).drop_last() =~= tv.take(k - 1));
            assert(tv.take(k as int).last() == tv[k - 1]);
        }
        if tiers[k - 1].id == id {
            return Some(k - 1);
        }
        k -= 1;
    }
    proof {
        assert(tv.take(0).len() == 0);
    }
    None
}

/// Putting an unplaced, registered id into a container keeps the list
/// consistent and places that id alone.
pub proof fn lemma_place(v: TierListView, id: ItemId, tier: Option<TierId>, pos: int)
    requires
        v.consistent(),
        v.has_item(id),
        !v.is_placed(id),
        v.target_exists(tier),
        0 <= pos <= v.target_len(tier),
    ensures
        v.place(id, tier, pos).consistent(),
        v.place(id, tier, pos).items == v.items,
        forall|x: ItemId| #[trigger] v.place(id, tier, pos).is_placed(x) <==> (v.is_placed(x) || x == id),
        v.placed_but(id) ==> v.place(id, tier, pos).wf(),
{
    let w = v.place(id, tier, pos);
    match tier {
        None => {
            lemma_insert_facts(v.pool, pos, id);
            assert(w.tiers == v.tiers);
            assert forall|x: ItemId| #[trigger] w.is_placed(x) <==> (v.is_placed(x) || x == id) by {
                if w.in_some_tier(x) {
                    let i = choose|i: int| 0 <= i < w.tiers.len() && (#[trigger] w.tiers[i]).items.contains(x);
                    assert(v.tiers[i].items.contains(x));
                }
                if v.in_some_tier(x) {
                    let i = choose|i: int| 0 <= i < v.tiers.len() && (#[trigger] v.tiers[i]).items.contains(x);
                    assert(w.tiers[i].items.contains(x));
                }
            }
            assert forall|i: int, x: ItemId|
                0 <= i < w.tiers.len() && #[trigger] w.tiers[i].items.contains(x) implies !w.pool.contains(
                x) by {
                if x == id {
                    assert(v.in_some_tier(id));
                }
            }
            assert forall|x: ItemId| #[trigger] w.is_placed(x) implies w.has_item(x) by {
                if x != id {
                    assert(v.is_placed(x));
                }
            }
        },
        Some(t) => {
            let k = tier_index(v.tiers, t);
            lemma_tier_index(v.tiers, t);
            lemma_insert_facts(v.tiers[k].items, pos, id);
            assert forall|i: int| 0 <= i < v.tiers.len() && i != k implies #[trigger] w.tiers[i] == v.tiers[i] by {}
            assert forall|x: ItemId| #[trigger] w.is_placed(x) <==> (v.is_placed(x) || x == id) by {
                if w.in_some_tier(x) && x != id {
                    let i = choose|i: int| 0 <= i < w.tiers.len() && (#[trigger] w.tiers[i]).items.contains(x);
                    assert(v.tiers[i].items.contains(x));
                }
                if v.in_some_tier(x) {
                    let i = choose|i: int| 0 <= i < v.tiers.len() && (#[trigger] v.tiers[i]).items.contains(x);
                    assert(w.tiers[i].items.contains(x));
                }
                if x == id {
                    assert(w.tiers[k].items.contains(x));
                }
            }
            assert forall|i: int, j: int, x: ItemId|
                0 <= i < w.tiers.len() && 0 <= j < w.tiers.len() && i != j
                    && #[trigger] w.tiers[i].items.contains(x) implies !#[trigger] w.tiers[
                j].items.contains(x) by {
                if x == id {
                    if i != k {
                        assert(v.tiers[i].items.contains(x));
                        assert(v.in_some_tier(id));
                    }
                    if j != k {
                        if w.tiers[j].items.contains(x) {
                            assert(v.tiers[j].items.contains(x));
                            assert(v.in_some_tier(id));
                        }
                    }
                } else {
                    assert(v.tiers[i].items.contains(x));
                }
            }
            assert forall|i: int, x: ItemId|
                0 <= i < w.tiers.len() && #[trigger] w.tiers[i].items.contains(x) implies !w.pool.contains(
                x) by {
                if x != id {
                    assert(v.tiers[i].items.contains(x));
                }
            }
            assert forall|i: int| 0 <= i < w.tiers.len() implies (#[trigger] w.tiers[i]).items.no_duplicates() by {}
            assert forall|a: int, b: int|
                0 <= a < w.tiers.len() && 0 <= b < w.tiers.len() && a != b implies (
                #[trigger] w.tiers[a]).id != (#[trigger] w.tiers[b]).id by {
                assert(v.tiers[a].id != v.tiers[b].id);
            }
            assert forall|j: int| 0 <= j < w.tiers.len() implies (#[trigger] w.tiers[j]).id
                <= w.tier_max_id by {
                assert(v.tiers[j].id <= v.tier_max_id);
            }
            assert forall|x: ItemId| #[trigger] w.is_placed(x) implies w.has_item(x) by {
                if x != id {
                    assert(v.is_placed(x));
                }
            }
        },
    }
    if v.placed_but(id) {
        assert forall|x: ItemId| #[trigger] w.has_item(x) implies w.is_placed(x) by {
            assert(w.is_placed(x) <==> (v.is_placed(x) || x == id));
            if x != id {
                assert(v.has_item(x));
            }
        }
    }
}


/// A fresh item, with the next id, registered and appended to the pool.
pub proof fn lemma_new_item(v: TierListView, it: ItemView)
    requires
        v.consistent(),
        v.item_max_id < i64::MAX,
        it.id == v.item_max_id + 1,
    ensures
        (TierListView {
            items: v.items.push(it),
            pool: v.pool.push(it.id),
            item_max_id: it.id,
            ..v
        }).consistent(),
        v.wf() ==> (TierListView {
            items: v.items.push(it),
            pool: v.pool.push(it.id),
            item_max_id: it.id,
            ..v
        }).wf(),
{
    let w = TierListView { items: v.items.push(it), pool: v.pool.push(it.id), item_max_id: it.id, ..v };
    let n = v.items.len();
    assert(w.items[n as int] == it);
    assert forall|k: int| 0 <= k < n implies #[trigger] w.items[k] == v.items[k] by {}
    assert(!v.has_item(it.id)) by {
        if v.has_item(it.id) {
            let k = choose|k: int| 0 <= k < v.items.len() && (#[trigger] v.items[k]).id == it.id;
            assert(v.items[k].id <= v.item_max_id);
        }
    }
    assert(!v.is_placed(it.id));
    assert(!v.pool.contains(it.id));
    assert(!v.in_some_tier(it.id));
    lemma_insert_facts(v.pool, v.pool.len() as int, it.id);
    assert(v.pool.insert(v.pool.len() as int, it.id) =~= w.pool);
    assert forall|x: ItemId| #[trigger] w.is_placed(x) <==> (v.is_placed(x) || x == it.id) by {
        if w.in_some_tier(x) {
            let i = choose|i: int| 0 <= i < w.tiers.len() && (#[trigger] w.tiers[i]).items.contains(x);
            assert(v.tiers[i].items.contains(x));
        }
        if v.in_some_tier(x) {
            let i = choose|i: int| 0 <= i < v.tiers.len() && (#[trigger] v.tiers[i]).items.contains(x);
            assert(w.tiers[i].items.contains(x));
        }
        assert(w.pool.contains(x) <==> (v.pool.contains(x) || x == it.id));
    }
    assert forall|x: ItemId| #[trigger] w.has_item(x) <==> (v.has_item(x) || x == it.id) by {
        if w.has_item(x) && x != it.id {
            let k = choose|k: int| 0 <= k < w.items.len() && (#[trigger] w.items[k]).id == x;
            assert(v.items[k].id == x);
        }
        if v.has_item(x) {
            let k = choose|k: int| 0 <= k < v.items.len() && (#[trigger] v.items[k]).id == x;
            assert(w.items[k].id == x);
        }
    }
    assert forall|a: int, b: int|
        0 <= a < w.items.len() && 0 <= b < w.items.len() && a != b implies (
        #[trigger] w.items[a]).id != (#[trigger] w.items[b]).id by {
        if a < n && b < n {
            assert(v.items[a].id != v.items[b].id);
        } else if a < n {
            assert(v.items[a].id <= v.item_max_id);
        } else {
            assert(v.items[b].id <= v.item_max_id);
        }
    }
    assert forall|k: int| 0 <= k < w.items.len() implies (#[trigger] w.items[k]).id
        <= w.item_max_id by {
        if k < n {
            assert(v.items[k].id <= v.item_max_id);
        }
    }
    assert forall|i: int, x: ItemId|
        0 <= i < w.tiers.len() && #[trigger] w.tiers[i].items.contains(x) implies !w.pool.contains(
        x) by {
        if x == it.id {
            assert(v.in_some_tier(x));
        }
    }
}

/// The list after removing the registry entry at `k` and unplacing its id.
pub open spec fn deleted_item(v: TierListView, k: int) -> TierListView {
    TierListView { items: v.items.remove(k), ..v.unplace(v.items[k].id) }
}

pub proof fn lemma_delete_item(v: TierListView, k: int)
    requires
        v.consistent(),
        0 <= k < v.items.len(),
    ensures
        deleted_item(v, k).consistent(),
        v.wf() ==> deleted_item(v, k).wf(),
{
    let id = v.items[k].id;
    lemma_unplace(v, id);
    let u = v.unplace(id);
    let w = deleted_item(v, k);
    assert forall|j: int| 0 <= j < w.items.len() implies #[trigger] w.items[j] == v.items[if j < k {
        j
    } else {
        j + 1
    }] by {}
    assert forall|x: ItemId| #[trigger] w.has_item(x) <==> (v.has_item(x) && x != id) by {
        if w.has_item(x) {
            let j = choose|j: int| 0 <= j < w.items.len() && (#[trigger] w.items[j]).id == x;
            let o = if j < k { j } else { j + 1 };
            assert(v.items[o].id == x);
            assert(v.items[o].id != v.items[k].id);
        }
        if v.has_item(x) && x != id {
            let o = choose|o: int| 0 <= o < v.items.len() && (#[trigger] v.items[o]).id == x;
            if o < k {
                assert(w.items[o].id == x);
            } else {
                assert(w.items[o - 1].id == x);
            }
        }
    }
    assert forall|x: ItemId| #[trigger] w.is_placed(x) <==> u.is_placed(x) by {
        if w.in_some_tier(x) {
            let i = choose|i: int| 0 <= i < w.tiers.len() && (#[trigger] w.tiers[i]).items.contains(x);
            assert(u.tiers[i].items.contains(x));
        }
        if u.in_some_tier(x) {
            let i = choose|i: int| 0 <= i < u.tiers.len() && (#[trigger] u.tiers[i]).items.contains(x);
            assert(w.tiers[i].items.contains(x));
        }
    }
    assert forall|x: ItemId| #[trigger] w.is_placed(x) implies w.has_item(x) by {
        assert(u.is_placed(x));
        assert(v.is_placed(x));
    }
    assert forall|a: int, b: int|
        0 <= a < w.items.len() && 0 <= b < w.items.len() && a != b implies (
        #[trigger] w.items[a]).id != (#[trigger] w.items[b]).id by {
        let oa = if a < k { a } else { a + 1 };
        let ob = if b < k { b } else { b + 1 };
        assert(v.items[oa].id != v.items[ob].id);
    }
    assert forall|j: int| 0 <= j < w.items.len() implies (#[trigger] w.items[j]).id
        <= w.item_max_id by {
        let o = if j < k { j } else { j + 1 };
        assert(v.items[o].id <= v.item_max_id);
    }
    assert forall|i: int| 0 <= i < w.tiers.len() implies (#[trigger] w.tiers[i]) == u.tiers[i] by {}
    if v.wf() {
        assert forall|x: ItemId| #[trigger] w.has_item(x) implies w.is_placed(x) by {
            assert(v.has_item(x));
            assert(u.is_placed(x));
        }
    }
}

/// A fresh, empty tier with the next id inserted at `pos`.
pub proof fn lemma_new_tier(v: TierListView, t: TierView, pos: int)
    requires
        v.consistent(),
        v.tier_max_id < i64::MAX,
        t.id == v.tier_max_id + 1,
        t.items.len() == 0,
        0 <= pos <= v.tiers.len(),
    ensures
        (TierListView { tiers: v.tiers.insert(pos, t), tier_max_id: t.id, ..v }).consistent(),
        v.wf() ==> (TierListView { tiers: v.tiers.insert(pos, t), tier_max_id: t.id, ..v }).wf(),
        (TierListView { tier_max_id: t.id, ..v }).consistent(),
        v.wf() ==> (TierListView { tier_max_id: t.id, ..v }).wf(),
{
    let w = TierListView { tiers: v.tiers.insert(pos, t), tier_max_id: t.id, ..v };
    let e = TierListView { tier_max_id: t.id, ..v };
    assert(w.tiers[pos] == t);
    assert forall|j: int| 0 <= j < w.tiers.len() && j != pos implies #[trigger] w.tiers[j]
        == v.tiers[if j < pos {
        j
    } else {
        j - 1
    }] by {}
    assert forall|x: ItemId| #[trigger] w.is_placed(x) <==> v.is_placed(x) by {
        if w.in_some_tier(x) {
            let i = choose|i: int| 0 <= i < w.tiers.len() && (#[trigger] w.tiers[i]).items.contains(x);
            if i == pos {
                assert(!t.items.contains(x));
            } else {
                let o = if i < pos { i } else { i - 1 };
                assert(v.tiers[o].items.contains(x));
            }
        }
        if v.in_some_tier(x) {
            let o = choose|o: int| 0 <= o < v.tiers.len() && (#[trigger] v.tiers[o]).items.contains(x);
            if o < pos {
                assert(w.tiers[o].items.contains(x));
            } else {
                assert(w.tiers[o + 1].items.contains(x));
            }
        }
    }
    assert forall|x: ItemId| #[trigger] w.has_item(x) <==> v.has_item(x) by {}
    assert forall|x: ItemId| #[trigger] e.is_placed(x) <==> v.is_placed(x) by {
        if e.in_some_tier(x) {
            let i = choose|i: int| 0 <= i < e.tiers.len() && (#[trigger] e.tiers[i]).items.contains(x);
            assert(v.tiers[i].items.contains(x));
        }
        if v.in_some_tier(x) {
            let i = choose|i: int| 0 <= i < v.tiers.len() && (#[trigger] v.tiers[i]).items.contains(x);
            assert(e.tiers[i].items.contains(x));
        }
    }
    assert forall|x: ItemId| #[trigger] e.has_item(x) <==> v.has_item(x) by {}
    assert forall|a: int, b: int|
        0 <= a < w.tiers.len() && 0 <= b < w.tiers.len() && a != b implies (
        #[trigger] w.tiers[a]).id != (#[trigger] w.tiers[b]).id by {
        let oa = if a < pos { a } else { a - 1 };
        let ob = if b < pos { b } else { b - 1 };
        if a != pos && b != pos {
            assert(v.tiers[oa].id != v.tiers[ob].id);
        } else if a == pos {
            assert(v.tiers[ob].id <= v.tier_max_id);
        } else {
            assert(v.tiers[oa].id <= v.tier_max_id);
        }
    }
    assert forall|j: int| 0 <= j < w.tiers.len() implies (#[trigger] w.tiers[j]).id
        <= w.tier_max_id by {
        if j != pos {
            let o = if j < pos { j } else { j - 1 };
            assert(v.tiers[o].id <= v.tier_max_id);
        }
    }
    assert forall|i: int| 0 <= i < w.tiers.len() implies (#[trigger] w.tiers[i]).items.no_duplicates() by {
        if i != pos {
            let o = if i < pos { i } else { i - 1 };
            assert(v.tiers[o].items.no_duplicates());
        }
    }
    assert forall|i: int, j: int, x: ItemId|
        0 <= i < w.tiers.len() && 0 <= j < w.tiers.len() && i != j
            && #[trigger] w.tiers[i].items.contains(x) implies !#[trigger] w.tiers[
        j].items.contains(x) by {
        if i != pos && j != pos {
            let oi = if i < pos { i } else { i - 1 };
            let oj = if j < pos { j } else { j - 1 };
            assert(v.tiers[oi].items.contains(x));
        } else if i == pos {
            assert(!t.items.contains(x));
        }
    }
    assert forall|i: int, x: ItemId|
        0 <= i < w.tiers.len() && #[trigger] w.tiers[i].items.contains(x) implies !w.pool.contains(
        x) by {
        if i != pos {
            let o = if i < pos { i } else { i - 1 };
            assert(v.tiers[o].items.contains(x));
        } else {
            assert(!t.items.contains(x));
        }
    }
    assert forall|k: int| 0 <= k < e.tiers.len() implies (#[trigger] e.tiers[k]).id
        <= e.tier_max_id by {
        assert(v.tiers[k].id <= v.tier_max_id);
    }
}

pub proof fn lemma_drop_tier(v: TierListView, k: int)
    requires
        v.consistent(),
        0 <= k < v.tiers.len(),
    ensures
        v.drop_tier(k).consistent(),
        v.drop_tier(k).items == v.items,
        forall|x: ItemId| #[trigger] v.drop_tier(k).is_placed(x) <==> v.is_placed(x),
        v.wf() ==> v.drop_tier(k).wf(),
{
    let w = v.drop_tier(k);
    let t = v.tiers[k].items;
    let n = v.pool.len();
    assert forall|j: int| 0 <= j < w.tiers.len() implies #[trigger] w.tiers[j] == v.tiers[if j < k {
        j
    } else {
        j + 1
    }] by {}
    assert forall|i: int, j: int| 0 <= i < n && 0 <= j < t.len() implies v.pool[i] != t[j] by {
        assert(t.contains(t[j]));
    }
    vstd::seq_lib::lemma_no_dup_in_concat(v.pool, t);
    assert forall|x: ItemId| #[trigger] w.pool.contains(x) <==> (v.pool.contains(x) || t.contains(x)) by {
        if w.pool.contains(x) {
            let i = choose|i: int| 0 <= i < w.pool.len() && w.pool[i] == x;
            if i < n {
                assert(v.pool[i] == x);
            } else {
                assert(t[i - n] == x);
            }
        }
        if v.pool.contains(x) {
            let i = choose|i: int| 0 <= i < n && v.pool[i] == x;
            assert(w.pool[i] == x);
        }
        if t.contains(x) {
            let i = choose|i: int| 0 <= i < t.len() && t[i] == x;
            assert(w.pool[n + i] == x);
        }
    }
    assert forall|x: ItemId| #[trigger] w.is_placed(x) <==> v.is_placed(x) by {
        if w.in_some_tier(x) {
            let i = choose|i: int| 0 <= i < w.tiers.len() && (#[trigger] w.tiers[i]).items.contains(x);
            let o = if i < k { i } else { i + 1 };
            assert(v.tiers[o].items.contains(x));
        }
        if v.in_some_tier(x) {
            let o = choose|o: int| 0 <= o < v.tiers.len() && (#[trigger] v.tiers[o]).items.contains(x);
            if o < k {
                assert(w.tiers[o].items.contains(x));
            } else if o > k {
                assert(w.tiers[o - 1].items.contains(x));
            }
        }
    }
    assert forall|x: ItemId| #[trigger] w.has_item(x) <==> v.has_item(x) by {}
    assert forall|a: int, b: int|
        0 <= a < w.tiers.len() && 0 <= b < w.tiers.len() && a != b implies (
        #[trigger] w.tiers[a]).id != (#[trigger] w.tiers[b]).id by {
        let oa = if a < k { a } else { a + 1 };
        let ob = if b < k { b } else { b + 1 };
        assert(v.tiers[oa].id != v.tiers[ob].id);
    }
    assert forall|j: int| 0 <= j < w.tiers.len() implies (#[trigger] w.tiers[j]).id
        <= w.tier_max_id by {
        let o = if j < k { j } else { j + 1 };
        assert(v.tiers[o].id <= v.tier_max_id);
    }
    assert forall|i: int| 0 <= i < w.tiers.len() implies (#[trigger] w.tiers[i]).items.no_duplicates() by {
        let o = if i < k { i } else { i + 1 };
        assert(v.tiers[o].items.no_duplicates());
    }
    assert forall|i: int, j: int, x: ItemId|
        0 <= i < w.tiers.len() && 0 <= j < w.tiers.len() && i != j
            && #[trigger] w.tiers[i].items.contains(x) implies !#[trigger] w.tiers[
        j].items.contains(x) by {
        let oi = if i < k { i } else { i + 1 };
        let oj = if j < k { j } else { j + 1 };
        assert(v.tiers[oi].items.contains(x));
    }
    assert forall|i: int, x: ItemId|
        0 <= i < w.tiers.len() && #[trigger] w.tiers[i].items.contains(x) implies !w.pool.contains(
        x) by {
        let o = if i < k { i } else { i + 1 };
        assert(v.tiers[o].items.contains(x));
        if t.contains(x) {
            assert(v.tiers[k].items.contains(x));
        }
    }
}

/// Where the tier at new index `j` came from, when the tier at `k` moves to `pos`.
pub open spec fn moved_src(k: int, pos: int, j: int) -> int {
    if j == pos {
        k
    } else {
        let r = if j < pos { j } else { j - 1 };
        if r < k { r } else { r + 1 }
    }
}

/// Where the tier at old index `m` goes, when the tier at `k` moves to `pos`.
pub open spec fn moved_dst(k: int, pos: int, m: int) -> int {
    if m == k {
        pos
    } else {
        let r = if m < k { m } else { m - 1 };
        if r < pos { r } else { r + 1 }
    }
}

pub proof fn lemma_move_tier(v: TierListView, k: int, pos: int)
    requires
        v.consistent(),
        0 <= k < v.tiers.len(),
        0 <= pos < v.tiers.len(),
    ensures
        (TierListView { tiers: v.tiers.remove(k).insert(pos, v.tiers[k]), ..v }).consistent(),
        v.wf() ==> (TierListView { tiers: v.tiers.remove(k).insert(pos, v.tiers[k]), ..v }).wf(),
{
    let w = TierListView { tiers: v.tiers.remove(k).insert(pos, v.tiers[k]), ..v };
    let n = v.tiers.len();
    assert(w.tiers.len() == n);
    assert forall|j: int| 0 <= j < n implies 0 <= moved_src(k, pos, j) < n && #[trigger] w.tiers[j]
        == v.tiers[moved_src(k, pos, j)] by {}
    assert forall|m: int| 0 <= m < n implies 0 <= #[trigger] moved_dst(k, pos, m) < n && moved_src(
        k,
        pos,
        moved_dst(k, pos, m),
    ) == m by {}
    assert forall|a: int, b: int|
        0 <= a < n && 0 <= b < n && a != b implies #[trigger] moved_src(k, pos, a)
        != #[trigger] moved_src(k, pos, b) by {}
    assert forall|x: ItemId| #[trigger] w.is_placed(x) <==> v.is_placed(x) by {
        if w.in_some_tier(x) {
            let i = choose|i: int| 0 <= i < w.tiers.len() && (#[trigger] w.tiers[i]).items.contains(x);
            assert(v.tiers[moved_src(k, pos, i)].items.contains(x));
        }
        if v.in_some_tier(x) {
            let o = choose|o: int| 0 <= o < v.tiers.len() && (#[trigger] v.tiers[o]).items.contains(x);
            let j = moved_dst(k, pos, o);
            assert(w.tiers[j].items.contains(x));
        }
    }
    assert forall|x: ItemId| #[trigger] w.has_item(x) <==> v.has_item(x) by {}
    assert forall|a: int, b: int|
        0 <= a < w.tiers.len() && 0 <= b < w.tiers.len() && a != b implies (
        #[trigger] w.tiers[a]).id != (#[trigger] w.tiers[b]).id by {
        assert(v.tiers[moved_src(k, pos, a)].id != v.tiers[moved_src(k, pos, b)].id);
    }
    assert forall|j: int| 0 <= j < w.tiers.len() implies (#[trigger] w.tiers[j]).id
        <= w.tier_max_id by {
        assert(v.tiers[moved_src(k, pos, j)].id <= v.tier_max_id);
    }
    assert forall|i: int| 0 <= i < w.tiers.len() implies (#[trigger] w.tiers[i]).items.no_duplicates() by {
        assert(v.tiers[moved_src(k, pos, i)].items.no_duplicates());
    }
    assert forall|i: int, j: int, x: ItemId|
        0 <= i < w.tiers.len() && 0 <= j < w.tiers.len() && i != j
            && #[trigger] w.tiers[i].items.contains(x) implies !#[trigger] w.tiers[
        j].items.contains(x) by {
        assert(v.tiers[moved_src(k, pos, i)].items.contains(x));
    }
    assert forall|i: int, x: ItemId|
        0 <= i < w.tiers.len() && #[trigger] w.tiers[i].items.contains(x) implies !w.pool.contains(
        x) by {
        assert(v.tiers[moved_src(k, pos, i)].items.contains(x));
    }
}

impl TierList {
    /// Whether the id sits in some tier or in the pool.
    pub fn is_placed(&self, id: ItemId) -> (r: bool)
        ensures
            r == self@.is_placed(id),
    {
        let mut i: usize = 0;
        while i < self.tiers.len()
            invariant
                i <= self@.tiers.len(),
                forall|j: int| 0 <= j < i ==> !(#[trigger] self@.tiers[j]).items.contains(id),
            decreases self@.tiers.len() - i,
        {
            if find_id(&self.tiers[i].items, id).is_some() {
                proof {
                    assert(self@.tiers[i as int].items.contains(id));
                }
                return true;
            }
            i += 1;
        }
        find_id(&self.items_pool, id).is_some()
    }

    /// Takes an item out of the tier or pool that holds it, keeping the
    /// order of the rest; the registry keeps the item.
    pub fn remove_item(&mut self, id: ItemId) -> (r: Result<(), EngineError>)
        requires
            old(self)@.consistent(),
        ensures
            final(self)@.consistent(),
            r is Err <==> !old(self)@.is_placed(id),
            r is Err ==> r == Err::<(), EngineError>(EngineError::NotPlaced) && final(self)@ == old(
                self,
            )@,
            r is Ok ==> final(self)@ == old(self)@.unplace(id),
            old(self)@.wf() ==> final(self)@.placed_but(id),
    {
        let ghost v = self@;
        proof {
            lemma_unplace(v, id);
        }
        let mut i: usize = 0;
        while i < self.tiers.len()
            invariant
                self@ == v,
                v == old(self)@,
                v.consistent(),
                i <= v.tiers.len(),
                forall|j: int| 0 <= j < i ==> !(#[trigger] v.tiers[j]).items.contains(id),
            decreases v.tiers.len() - i,
        {
            match find_id(&self.tiers[i].items, id) {
                Some(k) => {
                    self.tiers[i].items.remove(k);
                    proof {
                        lemma_unplace(v, id);
                        let u = v.unplace(id);
                        assert forall|j: int| 0 <= j < v.tiers.len() implies (
                        #[trigger] self@.tiers[j]) == u.tiers[j] by {
                            if j == i {
                                lemma_without_remove(v.tiers[j].items, k as int, id);
                            } else {
                                if j > i {
                                    assert(v.tiers[i as int].items.contains(id));
                                }
                                lemma_without_absent(v.tiers[j].items, id);
                            }
                        }
                        assert(self@.tiers =~= u.tiers);
                        assert(!v.pool.contains(id)) by {
                            assert(v.tiers[i as int].items.contains(id));
                        }
                        lemma_without_absent(v.pool, id);
                        assert(v.is_placed(id)) by {
                            assert(v.tiers[i as int].items.contains(id));
                        }
                    }
                    return Ok(());
                },
                None => {},
            }
            i += 1;
        }
        match find_id(&self.items_pool, id) {
            Some(k) => {
                self.items_pool.remove(k);
                proof {
                    let u = v.unplace(id);
                    lemma_without_remove(v.pool, k as int, id);
                    assert forall|j: int| 0 <= j < v.tiers.len() implies (
                    #[trigger] self@.tiers[j]) == u.tiers[j] by {
                        lemma_without_absent(v.tiers[j].items, id);
                    }
                    assert(self@.tiers =~= u.tiers);
                }
                Ok(())
            },
            None => {
                proof {
                    assert(!v.in_some_tier(id));
                }
                Err(EngineError::NotPlaced)
            },
        }
    }

    /// Inserts a registered, unplaced item at index `pos` of a tier (`Some`)
    /// or of the pool (`None`), shifting later ids right.
    pub fn add_item(&mut self, id: ItemId, tier_id: Option<TierId>, pos: usize) -> (r: Result<
        (),
        EngineError,
    >)
        requires
            old(self)@.consistent(),
        ensures
            final(self)@.consistent(),
            r is Ok <==> (old(self)@.has_item(id) && !old(self)@.is_placed(id) && old(
                self,
            )@.target_exists(tier_id) && pos <= old(self)@.target_len(tier_id)),
            !old(self)@.has_item(id) ==> r == Err::<(), EngineError>(EngineError::UnknownItem),
            old(self)@.has_item(id) && old(self)@.is_placed(id) ==> r == Err::<(), EngineError>(
                EngineError::AlreadyPlaced,
            ),
            old(self)@.has_item(id) && !old(self)@.is_placed(id) && !old(self)@.target_exists(
                tier_id,
            ) ==> r == Err::<(), EngineError>(EngineError::UnknownTier),
            old(self)@.has_item(id) && !old(self)@.is_placed(id) && old(self)@.target_exists(
                tier_id,
            ) && pos > old(self)@.target_len(tier_id) ==> r == Err::<(), EngineError>(
                EngineError::BadPosition,
            ),
            r is Err ==> final(self)@ == old(self)@,
            r is Ok ==> final(self)@ == old(self)@.place(id, tier_id, pos as int),
            r is Ok && old(self)@.placed_but(id) ==> final(self)@.wf(),
    {
        let ghost v = self@;
        match find_item(&self.items, id) {
            None => {
                proof {
                    assert forall|k: int| 0 <= k < v.items.len() implies (#[trigger] v.items[k]).id
                        != id by {
                        assert(v.items[k] == self.items@[k]@);
                    }
                }
                return Err(EngineError::UnknownItem);
            },
            Some(k) => {
                proof {
                    assert(v.items[k as int] == self.items@[k as int]@);
                }
            },
        }
        if self.is_placed(id) {
            return Err(EngineError::AlreadyPlaced);
        }
        match tier_id {
            None => {
                if pos > self.items_pool.len() {
                    return Err(EngineError::BadPosition);
                }
                proof {
                    lemma_place(v, id, tier_id, pos as int);
                }
                self.items_pool.insert(pos, id);
                proof {
                    assert(self@ == v.place(id, tier_id, pos as int));
                }
                Ok(())
            },
            Some(t) => {
                match find_tier(&self.tiers, t) {
                    None => Err(EngineError::UnknownTier),
                    Some(k) => {
                        proof {
                            lemma_tier_index(v.tiers, t);
                            assert(v.tiers[k as int] == self.tiers@[k as int]@);
                        }
                        if pos > self.tiers[k].items.len() {
                            return Err(EngineError::BadPosition);
                        }
                        proof {
                            lemma_place(v, id, tier_id, pos as int);
                        }
                        self.tiers[k].items.insert(pos, id);
                        proof {
                            assert(self@.tiers =~= v.place(id, tier_id, pos as int).tiers);
                        }
                        Ok(())
                    },
                }
            },
        }
    }

    /// Registers a new item under the next item id and appends that id to
    /// the pool. Returns the new id.
    pub fn add_new_item(&mut self, name: String, url: String, thumb: Option<String>) -> (r: ItemId)
        requires
            old(self)@.consistent(),
            old(self).item_max_id < i64::MAX,
        ensures
            r == old(self).item_max_id + 1,
            final(self)@ == (TierListView {
                items: old(self)@.items.push(
                    ItemView { id: r, name: name@, url: url@, thumb: opt_str_view(thumb) },
                ),
                pool: old(self)@.pool.push(r),
                item_max_id: r,
                ..old(self)@
            }),
            final(self)@.consistent(),
            old(self)@.wf() ==> final(self)@.wf(),
    {
        let ghost v = self@;
        let ghost tv = opt_str_view(thumb);
        let id = self.item_max_id + 1;
        proof {
            lemma_new_item(v, ItemView { id, name: name@, url: url@, thumb: tv });
        }
        self.items.push(Item { id, name, url, thumb });
        self.items_pool.push(id);
        self.item_max_id = id;
        proof {
            assert(self@.items =~= v.items.push(
                ItemView { id, name: self.items@.last().name@, url: self.items@.last().url@, thumb: tv },
            ));
        }
        id
    }

    /// Removes an item from the tier or pool that holds it and from the
    /// registry.
    pub fn delete_item(&mut self, id: ItemId) -> (r: Result<(), EngineError>)
        requires
            old(self)@.consistent(),
        ensures
            final(self)@.consistent(),
            r is Err <==> !old(self)@.has_item(id),
            r is Err ==> r == Err::<(), EngineError>(EngineError::UnknownItem) && final(self)@ == old(
                self,
            )@,
            r is Ok ==> exists|k: int|
                0 <= k < old(self)@.items.len() && (#[trigger] old(self)@.items[k]).id == id
                    && final(self)@ == deleted_item(old(self)@, k),
            old(self)@.wf() ==> final(self)@.wf(),
    {
        let ghost v = self@;
        match find_item(&self.items, id) {
            None => {
                proof {
                    assert forall|k: int| 0 <= k < v.items.len() implies (#[trigger] v.items[k]).id
                        != id by {
                        assert(v.items[k] == self.items@[k]@);
                    }
                }
                Err(EngineError::UnknownItem)
            },
            Some(k) => {
                proof {
                    assert(v.items[k as int] == self.items@[k as int]@);
                    lemma_delete_item(v, k as int);
                    lemma_unplace(v, id);
                }
                let _ = self.remove_item(id);
                proof {
                    if !v.is_placed(id) {
                        lemma_without_absent(v.pool, id);
                        assert forall|j: int| 0 <= j < v.tiers.len() implies (
                        #[trigger] v.unplace(id).tiers[j]) == v.tiers[j] by {
                            if v.tiers[j].items.contains(id) {
                                assert(v.in_some_tier(id));
                            }
                            lemma_without_absent(v.tiers[j].items, id);
                        }
                        assert(v.unplace(id).tiers =~= v.tiers);
                    }
                    assert(self@ == v.unplace(id));
                }
                self.items.remove(k);
                proof {
                    assert(self@.items =~= v.items.remove(k as int));
                    assert(self@ == deleted_item(v, k as int));
                }
                Ok(())
            },
        }
    }

    /// Inserts an empty tier under the next tier id at index `pos` of the
    /// tier order. The tier counter advances even when `pos` is refused.
    pub fn add_new_tier(&mut self, title: String, pos: usize) -> (r: Result<TierId, EngineError>)
        requires
            old(self)@.consistent(),
            old(self).tier_max_id < i64::MAX,
        ensures
            final(self).tier_max_id == old(self).tier_max_id + 1,
            r is Err <==> pos > old(self)@.tiers.len(),
            r is Err ==> r == Err::<TierId, EngineError>(EngineError::BadPosition) && final(self)@
                == (TierListView { tier_max_id: final(self).tier_max_id, ..old(self)@ }),
            r is Ok ==> r == Ok::<TierId, EngineError>(final(self).tier_max_id) && final(self)@ == (
            TierListView {
                tiers: old(self)@.tiers.insert(
                    pos as int,
                    TierView { id: final(self).tier_max_id, title: title@, items: Seq::empty() },
                ),
                tier_max_id: final(self).tier_max_id,
                ..old(self)@
            }),
            final(self)@.consistent(),
            old(self)@.wf() ==> final(self)@.wf(),
    {
        let ghost v = self@;
        let id = self.tier_max_id + 1;
        self.tier_max_id = id;
        proof {
            lemma_new_tier(v, TierView { id, title: title@, items: Seq::empty() }, 0);
        }
        if pos > self.tiers.len() {
            return Err(EngineError::BadPosition);
        }
        proof {
            lemma_new_tier(v, TierView { id, title: title@, items: Seq::empty() }, pos as int);
        }
        let ghost tt = title@;
        self.tiers.insert(pos, Tier { id, title, items: Vec::new() });
        proof {
            assert(self@.tiers =~= v.tiers.insert(
                pos as int,
                TierView { id, title: tt, items: Seq::empty() },
            ));
        }
        Ok(id)
    }

    /// Removes a tier from the tier order after appending its members, in
    /// order, to the pool. No item leaves the registry.
    pub fn delete_tier(&mut self, id: TierId) -> (r: Result<(), EngineError>)
        requires
            old(self)@.consistent(),
        ensures
            final(self)@.consistent(),
            r is Err <==> tier_index(old(self)@.tiers, id) < 0,
            r is Err ==> r == Err::<(), EngineError>(EngineError::UnknownTier) && final(self)@ == old(
                self,
            )@,
            r is Ok ==> final(self)@ == old(self)@.drop_tier(tier_index(old(self)@.tiers, id)),
            old(self)@.wf() ==> final(self)@.wf(),
    {
        let ghost v = self@;
        match find_tier(&self.tiers, id) {
            None => Err(EngineError::UnknownTier),
            Some(k) => {
                proof {
                    lemma_tier_index(v.tiers, id);
                    lemma_drop_tier(v, k as int);
                }
                let mut t = self.tiers.remove(k);
                self.items_pool.append(&mut t.items);
                proof {
                    assert(self@.tiers =~= v.tiers.remove(k as int));
                }
                Ok(())
            },
        }
    }

    /// Moves a tier, with its members, to index `pos` of the tier order.
    pub fn move_tier(&mut self, id: TierId, pos: usize) -> (r: Result<(), EngineError>)
        requires
            old(self)@.consistent(),
        ensures
            final(self)@.consistent(),
            r is Ok <==> tier_index(old(self)@.tiers, id) >= 0 && pos < old(self)@.tiers.len(),
            tier_index(old(self)@.tiers, id) < 0 ==> r == Err::<(), EngineError>(
                EngineError::UnknownTier,
            ),
            tier_index(old(self)@.tiers, id) >= 0 && pos >= old(self)@.tiers.len() ==> r == Err::<
                (),
                EngineError,
            >(EngineError::BadPosition),
            r is Err ==> final(self)@ == old(self)@,
            r is Ok ==> final(self)@ == (TierListView {
                tiers: old(self)@.tiers.remove(tier_index(old(self)@.tiers, id)).insert(
                    pos as int,
                    old(self)@.tiers[tier_index(old(self)@.tiers, id)],
                ),
                ..old(self)@
            }),
            old(self)@.wf() ==> final(self)@.wf(),
    {
        let ghost v = self@;
        match find_tier(&self.tiers, id) {
            None => Err(EngineError::UnknownTier),
            Some(k) => {
                proof {
                    lemma_tier_index(v.tiers, id);
                }
                if pos >= self.tiers.len() {
                    return Err(EngineError::BadPosition);
                }
                proof {
                    lemma_move_tier(v, k as int, pos as int);
                }
                let t = self.tiers.remove(k);
                self.tiers.insert(pos, t);
                proof {
                    assert(self@.tiers =~= v.tiers.remove(k as int).insert(pos as int, v.tiers[k as int]));
                }
                Ok(())
            },
        }
    }
}


/// In a well-formed list every registered id sits in exactly one place: in
/// the pool and in no tier, or in one tier and nowhere else; within that
/// place it occurs once. An id outside the registry sits nowhere.
pub proof fn lemma_single_location(v: TierListView, id: ItemId)
    requires
        v.wf(),
    ensures
        v.has_item(id) ==> (v.pool.contains(id) && !v.in_some_tier(id)) || (exists|i: int|
            0 <= i < v.tiers.len() && (#[trigger] v.tiers[i]).items.contains(id)
                && !v.pool.contains(id) && forall|j: int|
                0 <= j < v.tiers.len() && j != i ==> !(#[trigger] v.tiers[j]).items.contains(id)),
        !v.has_item(id) ==> !v.is_placed(id),
        v.pool.no_duplicates(),
        forall|i: int| 0 <= i < v.tiers.len() ==> (#[trigger] v.tiers[i]).items.no_duplicates(),
{
    if v.has_item(id) {
        assert(v.is_placed(id));
        if v.in_some_tier(id) {
            let i = choose|i: int| 0 <= i < v.tiers.len() && (#[trigger] v.tiers[i]).items.contains(id);
            assert forall|j: int| 0 <= j < v.tiers.len() && j != i implies !(
            #[trigger] v.tiers[j]).items.contains(id) by {
                assert(v.tiers[i].items.contains(id));
            }
            assert(!v.pool.contains(id)) by {
                assert(v.tiers[i].items.contains(id));
            }
        }
    }
}

/// Moving an item (taking it out of its place, then inserting it into a
/// container) keeps the relative order of every other id in every tier and
/// in the pool, leaves the tier order alone and yields a well-formed list.
pub proof fn lemma_move_keeps_order(v: TierListView, id: ItemId, tier: Option<TierId>, pos: int)
    requires
        v.wf(),
        v.is_placed(id),
        v.unplace(id).target_exists(tier),
        0 <= pos <= v.unplace(id).target_len(tier),
    ensures
        v.unplace(id).place(id, tier, pos).wf(),
        v.unplace(id).place(id, tier, pos).tiers.len() == v.tiers.len(),
        forall|i: int|
            0 <= i < v.tiers.len() ==> (#[trigger] v.unplace(id).place(id, tier, pos).tiers[i]).id
                == v.tiers[i].id && without(
                v.unplace(id).place(id, tier, pos).tiers[i].items,
                id,
            ) == without(v.tiers[i].items, id),
        without(v.unplace(id).place(id, tier, pos).pool, id) == without(v.pool, id),
{
    let u = v.unplace(id);
    lemma_unplace(v, id);
    assert(u.has_item(id));
    assert(!u.is_placed(id));
    lemma_place(u, id, tier, pos);
    let w = u.place(id, tier, pos);
    match tier {
        Some(t) => {
            lemma_tier_index(u.tiers, t);
        },
        None => {},
    }
    assert(w.tiers.len() == v.tiers.len());
    assert forall|i: int| 0 <= i < v.tiers.len() implies (#[trigger] w.tiers[i]).id == v.tiers[i].id
        && without(w.tiers[i].items, id) == without(v.tiers[i].items, id) by {
        let ui = u.tiers[i].items;
        assert(ui == without(v.tiers[i].items, id));
        assert(!ui.contains(id)) by {
            if ui.contains(id) {
                assert(u.in_some_tier(id));
            }
        }
        lemma_without_absent(ui, id);
        match tier {
            Some(t) => {
                if i == tier_index(u.tiers, t) {
                    lemma_without_insert(ui, pos, id);
                }
            },
            None => {},
        }
    }
    assert(!u.pool.contains(id));
    lemma_without_absent(u.pool, id);
    match tier {
        None => {
            lemma_without_insert(u.pool, pos, id);
        },
        Some(t) => {},
    }
}

/// Deleting a tier moves its members into the pool, each exactly once and
/// in order: as multisets, the new pool is the old pool plus the tier's
/// members. The registry is untouched, no tier keeps that id, and the list
/// stays well-formed.
pub proof fn lemma_delete_tier_moves_members(v: TierListView, id: TierId)
    requires
        v.wf(),
        tier_index(v.tiers, id) >= 0,
    ensures
        v.drop_tier(tier_index(v.tiers, id)).pool.to_multiset() == v.pool.to_multiset().add(
            v.tiers[tier_index(v.tiers, id)].items.to_multiset(),
        ),
        v.drop_tier(tier_index(v.tiers, id)).pool == v.pool + v.tiers[tier_index(v.tiers, id)].items,
        v.drop_tier(tier_index(v.tiers, id)).items == v.items,
        v.drop_tier(tier_index(v.tiers, id)).tiers.len() == v.tiers.len() - 1,
        forall|j: int|
            0 <= j < v.tiers.len() - 1 ==> (#[trigger] v.drop_tier(
                tier_index(v.tiers, id),
            ).tiers[j]).id != id,
        v.drop_tier(tier_index(v.tiers, id)).wf(),
{
    let k = tier_index(v.tiers, id);
    lemma_tier_index(v.tiers, id);
    lemma_drop_tier(v, k);
    vstd::seq_lib::lemma_multiset_commutative(v.pool, v.tiers[k].items);
    let w = v.drop_tier(k);
    assert forall|j: int| 0 <= j < v.tiers.len() - 1 implies (#[trigger] w.tiers[j]).id != id by {
        let o = if j < k { j } else { j + 1 };
        assert(w.tiers[j] == v.tiers[o]);
        assert(v.tiers[o].id != v.tiers[k].id);
    }
}

} // verus!
