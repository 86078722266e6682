use tierlist_maker::engine::{find_tier, EngineError};
use tierlist_maker::tierlist::{ItemId, Tier, TierList};

fn placements(tl: &TierList, id: ItemId) -> usize {
    let in_tiers: usize = tl
        .tiers
        .iter()
        .map(|t| t.items.iter().filter(|&&x| x == id).count())
        .sum();
    in_tiers + tl.items_pool.iter().filter(|&&x| x == id).count()
}

fn with_items(n: usize) -> TierList {
    let mut tl = TierList::empty();
    for k in 0..n {
        tl.add_new_item(format!("item{}", k + 1), format!("url{}", k + 1), None);
    }
    tl
}

fn move_item(tl: &mut TierList, id: ItemId, tier: Option<i64>, pos: usize) {
    tl.remove_item(id).unwrap();
    tl.add_item(id, tier, pos).unwrap();
}

#[test]
fn empty_list() {
    let tl = TierList::empty();
    assert_eq!(tl.title, "Untitled");
    assert!(tl.tiers.is_empty());
    assert!(tl.items.is_empty());
    assert!(tl.items_pool.is_empty());
    assert_eq!(tl.tier_max_id, 0);
    assert_eq!(tl.item_max_id, 0);
}

#[test]
fn first_item_and_tier() {
    let mut tl = TierList::empty();
    let id = tl.add_new_item("A".to_owned(), "u1".to_owned(), None);
    assert_eq!(id, 1);
    assert_eq!(tl.items_pool, vec![1]);
    assert_eq!(tl.items[0].name, "A");
    assert_eq!(tl.items[0].url, "u1");
    assert_eq!(tl.items[0].thumb, None);

    let tid = tl.add_new_tier("T1".to_owned(), 0);
    assert_eq!(tid, Ok(1));
    assert_eq!(tl.tiers.len(), 1);
    assert_eq!(tl.tiers[0].id, 1);
    assert_eq!(tl.tiers[0].title, "T1");
    assert!(tl.tiers[0].items.is_empty());

    move_item(&mut tl, 1, Some(1), 0);
    assert!(tl.items_pool.is_empty());
    assert_eq!(tl.tiers[0].items, vec![1]);
}

#[test]
fn insert_at_head_and_delete_tier() {
    let mut tl = with_items(3);
    assert_eq!(tl.items_pool, vec![1, 2, 3]);
    assert_eq!(tl.add_new_tier("t1".to_owned(), 0), Ok(1));
    assert_eq!(tl.add_new_tier("t2".to_owned(), 1), Ok(2));
    move_item(&mut tl, 2, Some(1), 0);
    move_item(&mut tl, 1, Some(1), 0);
    assert_eq!(tl.tiers[0].items, vec![1, 2]);
    move_item(&mut tl, 3, Some(2), 0);
    assert!(tl.items_pool.is_empty());
    tl.delete_tier(2).unwrap();
    assert_eq!(tl.items_pool, vec![3]);
    assert_eq!(tl.tiers.len(), 1);
    assert_eq!(tl.items.len(), 3);
}

#[test]
fn every_item_in_one_place() {
    let mut tl = with_items(5);
    tl.add_new_tier("a".to_owned(), 0).unwrap();
    tl.add_new_tier("b".to_owned(), 0).unwrap();
    move_item(&mut tl, 4, Some(1), 0);
    move_item(&mut tl, 2, Some(2), 0);
    move_item(&mut tl, 5, Some(1), 1);
    tl.move_tier(1, 0).unwrap();
    tl.delete_item(3).unwrap();
    tl.delete_tier(2).unwrap();
    move_item(&mut tl, 2, None, 0);
    for item in tl.items.iter() {
        assert_eq!(placements(&tl, item.id), 1);
    }
    assert_eq!(placements(&tl, 3), 0);
}

#[test]
fn move_keeps_others_in_order() {
    let mut tl = with_items(7);
    tl.add_new_tier("t".to_owned(), 0).unwrap();
    move_item(&mut tl, 5, Some(1), 0);
    move_item(&mut tl, 6, Some(1), 1);
    move_item(&mut tl, 7, Some(1), 2);
    assert_eq!(tl.items_pool, vec![1, 2, 3, 4]);
    move_item(&mut tl, 2, Some(1), 1);
    assert_eq!(tl.items_pool, vec![1, 3, 4]);
    assert_eq!(tl.tiers[0].items, vec![5, 2, 6, 7]);
    move_item(&mut tl, 6, None, 3);
    assert_eq!(tl.items_pool, vec![1, 3, 4, 6]);
    assert_eq!(tl.tiers[0].items, vec![5, 2, 7]);
}

#[test]
fn delete_tier_moves_members_to_pool() {
    let mut tl = with_items(3);
    tl.add_new_tier("t".to_owned(), 0).unwrap();
    tl.add_new_tier("u".to_owned(), 1).unwrap();
    move_item(&mut tl, 3, Some(1), 0);
    move_item(&mut tl, 2, Some(1), 1);
    tl.delete_tier(1).unwrap();
    assert_eq!(tl.items_pool, vec![1, 3, 2]);
    assert_eq!(tl.tiers.len(), 1);
    assert_eq!(tl.tiers[0].id, 2);
    assert_eq!(tl.items.len(), 3);
    assert_eq!(tl.delete_tier(1), Err(EngineError::UnknownTier));
}

#[test]
fn move_tier_reorders() {
    let mut tl = TierList::empty();
    for (k, t) in ["a", "b", "c"].iter().enumerate() {
        tl.add_new_tier(t.to_string(), k).unwrap();
    }
    tl.move_tier(1, 2).unwrap();
    let ids: Vec<i64> = tl.tiers.iter().map(|t| t.id).collect();
    assert_eq!(ids, vec![2, 3, 1]);
    tl.move_tier(1, 0).unwrap();
    let ids: Vec<i64> = tl.tiers.iter().map(|t| t.id).collect();
    assert_eq!(ids, vec![1, 2, 3]);
    assert_eq!(tl.move_tier(2, 3), Err(EngineError::BadPosition));
    assert_eq!(tl.move_tier(7, 0), Err(EngineError::UnknownTier));
}

#[test]
fn tier_counter_advances_on_bad_position() {
    let mut tl = TierList::empty();
    assert_eq!(tl.add_new_tier("x".to_owned(), 1), Err(EngineError::BadPosition));
    assert_eq!(tl.tier_max_id, 1);
    assert!(tl.tiers.is_empty());
    assert_eq!(tl.add_new_tier("y".to_owned(), 0), Ok(2));
}

#[test]
fn delete_item_from_tier_and_pool() {
    let mut tl = with_items(3);
    tl.add_new_tier("t".to_owned(), 0).unwrap();
    move_item(&mut tl, 2, Some(1), 0);
    tl.delete_item(2).unwrap();
    assert!(tl.tiers[0].items.is_empty());
    tl.delete_item(1).unwrap();
    assert_eq!(tl.items_pool, vec![3]);
    let ids: Vec<i64> = tl.items.iter().map(|i| i.id).collect();
    assert_eq!(ids, vec![3]);
    assert_eq!(tl.delete_item(1), Err(EngineError::UnknownItem));
    assert_eq!(tl.add_new_item("n".to_owned(), "u".to_owned(), None), 4);
}

#[test]
fn remove_then_add_errors() {
    let mut tl = with_items(2);
    tl.add_new_tier("t".to_owned(), 0).unwrap();
    assert_eq!(tl.add_item(1, None, 0), Err(EngineError::AlreadyPlaced));
    assert_eq!(tl.add_item(9, None, 0), Err(EngineError::UnknownItem));
    tl.remove_item(1).unwrap();
    assert_eq!(tl.remove_item(1), Err(EngineError::NotPlaced));
    assert!(!tl.is_placed(1));
    assert_eq!(tl.add_item(1, Some(5), 0), Err(EngineError::UnknownTier));
    assert_eq!(tl.add_item(1, Some(1), 1), Err(EngineError::BadPosition));
    assert_eq!(tl.add_item(1, None, 2), Err(EngineError::BadPosition));
    assert_eq!(tl.add_item(1, None, 1), Ok(()));
    assert_eq!(tl.items_pool, vec![2, 1]);
}

#[test]
fn thumbnail_path_is_kept() {
    let mut tl = TierList::empty();
    tl.add_new_item("a".to_owned(), "u".to_owned(), Some("/tmp/a.png".to_owned()));
    assert_eq!(tl.items[0].thumb, Some("/tmp/a.png".to_owned()));
}

#[test]
fn find_tier_scans_from_the_back() {
    let tiers = vec![
        Tier { id: 1, title: "a".to_owned(), items: vec![] },
        Tier { id: 2, title: "b".to_owned(), items: vec![] },
        Tier { id: 1, title: "c".to_owned(), items: vec![] },
    ];
    assert_eq!(find_tier(&tiers, 1), Some(2));
    assert_eq!(find_tier(&tiers, 2), Some(1));
    assert_eq!(find_tier(&tiers, 3), None);
}
