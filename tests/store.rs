use std::collections::HashMap;

use tierlist_maker::store::{deserialize, serialize, PosRow, ReadError, TierRow};
use tierlist_maker::tierlist::{Item, Tier, TierList};

fn item(id: i64, name: &str, url: &str, thumb: Option<&str>) -> Item {
    Item {
        id,
        name: name.to_owned(),
        url: url.to_owned(),
        thumb: thumb.map(|t| t.to_owned()),
    }
}

fn tier_row(id: i64, pos: i64, title: &str) -> TierRow {
    TierRow { id, pos, title: title.to_owned() }
}

fn pos_row(item_id: i64, tier_id: i64, pos: i64) -> PosRow {
    PosRow { item_id, tier_id, pos }
}

#[test]
fn read_tierlist_test() {
    let tiers = vec![tier_row(1, 0, "tier1"), tier_row(2, 1, "tier2"), tier_row(5, 2, "tier3")];
    let items = vec![
        item(1, "item1", "url1", Some("test_thumb/_indb_1")),
        item(2, "item2", "url2", None),
        item(3, "item3", "url3", Some("test_thumb/_indb_3")),
    ];
    // (1, 2, 1) and (2, 2, 0), as the store returns them ordered by position
    let positions = vec![pos_row(2, 2, 0), pos_row(1, 2, 1)];
    let tierlist = deserialize("list".to_owned(), tiers, items, positions).unwrap();

    assert_eq!(tierlist.title, "list");
    assert_eq!(tierlist.tiers.len(), 3);
    assert!(tierlist.items.iter().any(|it| it.id == 1));
    assert!(tierlist.items.iter().any(|it| it.id == 2));
    assert!(tierlist.items.iter().any(|it| it.id == 3));
    assert_eq!(tierlist.items_pool, vec![3]);

    let tier2 = &tierlist.tiers[1];
    assert_eq!(tier2.id, 2);
    assert_eq!(tier2.title, "tier2");
    assert_eq!(tier2.items, vec![2, 1]);

    let item1 = tierlist.items.iter().find(|it| it.id == 1).unwrap();
    assert_eq!(item1.id, 1);
    assert_eq!(item1.name, "item1");
    assert_eq!(item1.url, "url1");
    assert_eq!(item1.thumb, Some("test_thumb/_indb_1".to_owned()));

    assert_eq!(tierlist.tier_max_id, 5);
    assert_eq!(tierlist.item_max_id, 3);
}

fn sample() -> TierList {
    TierList {
        title: "list".to_owned(),
        tiers: vec![
            Tier { id: 1, title: "tier1".to_owned(), items: vec![] },
            Tier { id: 2, title: "tier2".to_owned(), items: vec![2, 1] },
        ],
        tier_max_id: 2,
        items: vec![
            item(1, "item1", "url1", Some("test_thumb/thumb1")),
            item(2, "item2", "url2", None),
            item(3, "item3", "url3", None),
        ],
        items_pool: vec![3],
        item_max_id: 3,
    }
}

#[test]
fn write_tierlist_test() {
    let tierlist = sample();
    let mut thumbs = HashMap::new();
    thumbs.insert(1, vec![0u8, 1, 2]);
    let rows = serialize(&tierlist, &thumbs);

    assert_eq!(rows.title, tierlist.title);

    assert_eq!(rows.tiers.len(), 2);
    assert_eq!(rows.tiers[1].title, "tier2");
    assert_eq!(rows.tiers[1].pos, 1);

    assert_eq!(rows.items.len(), 3);
    assert_eq!(rows.items[0].thumb, Some(vec![0, 1, 2]));
    assert_eq!(rows.items[1].thumb, None);

    let mut positions = rows.positions.clone();
    positions.sort_by_key(|p| p.item_id);
    assert_eq!(positions.len(), 2);
    assert_eq!(positions[1].tier_id, 2);
    assert_eq!(positions[1].pos, 0);
    assert_eq!(positions[0], pos_row(1, 2, 1));
}

#[test]
fn unknown_tier_fails_read() {
    let tiers = vec![tier_row(1, 0, "a")];
    let items = vec![item(1, "i", "u", None), item(2, "j", "v", None)];
    let positions = vec![pos_row(1, 1, 0), pos_row(2, 9, 0), pos_row(2, 8, 1)];
    let r = deserialize("t".to_owned(), tiers, items, positions);
    assert_eq!(r.err(), Some(ReadError::UnknownTier { tier_id: 9 }));
}

#[test]
fn thumbnail_bytes_survive_a_round_trip() {
    let mut tl = TierList::empty();
    tl.add_new_item("a".to_owned(), "u".to_owned(), Some("old/dir/pic.jpg".to_owned()));
    let mut thumbs = HashMap::new();
    thumbs.insert(1, vec![7u8, 8, 9]);
    let rows = serialize(&tl, &thumbs);
    assert_eq!(rows.items[0].thumb, Some(vec![7, 8, 9]));

    let loaded: Vec<Item> = rows
        .items
        .iter()
        .map(|r| Item {
            id: r.id,
            name: r.name.clone(),
            url: r.url.clone(),
            thumb: r.thumb.as_ref().map(|_| format!("new/dir/_indb_{}", r.id)),
        })
        .collect();
    let tiers: Vec<TierRow> = rows.tiers.iter().map(|t| tier_row(t.id, t.pos, &t.title)).collect();
    let back = deserialize(rows.title.clone(), tiers, loaded, rows.positions.clone()).unwrap();
    let path = back.items[0].thumb.clone().unwrap();
    assert_ne!(path, "old/dir/pic.jpg");

    let mut reread = HashMap::new();
    reread.insert(1, rows.items[0].thumb.clone().unwrap());
    let again = serialize(&back, &reread);
    assert_eq!(again.items[0].thumb, Some(vec![7, 8, 9]));
}

#[test]
fn engine_list_round_trips() {
    let mut tl = TierList::empty();
    for k in 0..4 {
        tl.add_new_item(format!("n{}", k), format!("u{}", k), None);
    }
    tl.add_new_tier("S".to_owned(), 0).unwrap();
    tl.add_new_tier("A".to_owned(), 1).unwrap();
    tl.remove_item(3).unwrap();
    tl.add_item(3, Some(2), 0).unwrap();
    tl.remove_item(1).unwrap();
    tl.add_item(1, Some(2), 0).unwrap();
    tl.remove_item(4).unwrap();
    tl.add_item(4, Some(1), 0).unwrap();
    tl.move_tier(2, 0).unwrap();

    let rows = serialize(&tl, &HashMap::new());
    assert_eq!(rows.positions.len(), 3);
    let tiers: Vec<TierRow> = rows.tiers.iter().map(|t| tier_row(t.id, t.pos, &t.title)).collect();
    let items: Vec<Item> = rows.items.iter().map(|r| item(r.id, &r.name, &r.url, None)).collect();
    let back = deserialize(rows.title.clone(), tiers, items, rows.positions.clone()).unwrap();

    assert_eq!(back.title, tl.title);
    assert_eq!(back.tiers.len(), 2);
    for (a, b) in back.tiers.iter().zip(tl.tiers.iter()) {
        assert_eq!(a.id, b.id);
        assert_eq!(a.title, b.title);
        assert_eq!(a.items, b.items);
    }
    assert_eq!(back.items_pool, vec![2]);
    assert_eq!(tl.items_pool, vec![2]);
    assert_eq!(back.tier_max_id, 2);
    assert_eq!(back.item_max_id, 4);
}

#[test]
fn empty_store_reads_as_empty_list() {
    let back = deserialize("Untitled".to_owned(), vec![], vec![], vec![]).unwrap();
    assert_eq!(back.title, "Untitled");
    assert!(back.tiers.is_empty());
    assert!(back.items_pool.is_empty());
    assert_eq!(back.tier_max_id, 0);
    assert_eq!(back.item_max_id, 0);
}

#[test]
fn rows_go_to_the_last_tier_with_their_id() {
    let tiers = vec![tier_row(4, 0, "a"), tier_row(4, 1, "b")];
    let items = vec![item(1, "i", "u", None)];
    let back = deserialize("t".to_owned(), tiers, items, vec![pos_row(1, 4, 0)]).unwrap();
    assert!(back.tiers[0].items.is_empty());
    assert_eq!(back.tiers[1].items, vec![1]);
    assert!(back.items_pool.is_empty());
}

#[test]
fn positions_follow_tier_order() {
    let tl = TierList {
        title: "x".to_owned(),
        tiers: vec![
            Tier { id: 9, title: "top".to_owned(), items: vec![3] },
            Tier { id: 4, title: "low".to_owned(), items: vec![1, 2] },
        ],
        tier_max_id: 9,
        items: vec![item(1, "a", "u", None), item(2, "b", "v", None), item(3, "c", "w", None)],
        items_pool: vec![],
        item_max_id: 3,
    };
    let rows = serialize(&tl, &HashMap::new());
    assert_eq!(rows.tiers[0].id, 9);
    assert_eq!(rows.tiers[0].pos, 0);
    assert_eq!(rows.tiers[1].pos, 1);
    assert_eq!(rows.positions, vec![pos_row(3, 9, 0), pos_row(1, 4, 0), pos_row(2, 4, 1)]);
    assert!(rows.items.iter().all(|r| r.thumb.is_none()));
}
