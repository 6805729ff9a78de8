use item_overlay::distribute::{detect_cycle_ids, distribute, match_slice, worker_range};
use item_overlay::items::{
    get_uniq_id, offset_description_ids, parse_catalog_filename, parse_id_label,
    DescriptionSet, ItemDescription, ItemType, Items, ParsedName,
};
use item_overlay::matching::{
    get_matches, get_uniq_ids, match_template, Item, Match, MATCH_THRESHOLD,
};
use item_overlay::presence::{PresenceTracker, PRESENCE_TTL_MS};
use item_overlay::raster::Raster;

fn ras(width: usize, height: usize, pixels: Vec<u8>) -> Raster {
    Raster::from_pixels(width, height, pixels).expect("raster shape")
}

fn uniform_item(id: u32, w: usize, h: usize, value: u8) -> Item {
    Item {
        id,
        pic: ras(w, h, vec![value; w * h]),
        mask: ras(w, h, vec![1; w * h]),
    }
}

fn desc(id: u32, title: &str) -> ItemDescription {
    ItemDescription {
        item_title: String::from(title),
        id,
        item_type: ItemType::Item,
        quote: String::from("quote"),
        descriptions: vec![String::from("line")],
    }
}

fn plain_match(id: u32) -> Match {
    Match {
        id,
        x: 0,
        y: 0,
        width: 1,
        height: 1,
        score: 900_000,
    }
}

#[test]
fn id_mapping_trinket_offset() {
    assert_eq!(get_uniq_id(ItemType::Trinket, 12), 10_012);
    assert_eq!(get_uniq_id(ItemType::Item, 3), 3);
}

#[test]
fn filename_trinket_maps_through_offset() {
    let r = parse_catalog_filename(b"trinket_12_x");
    assert_eq!(r, ParsedName::Parsed { id: 10_012 });
}

#[test]
fn filename_other_kind_maps_plain() {
    assert_eq!(parse_catalog_filename(b"item_3_y"), ParsedName::Parsed { id: 3 });
    assert_eq!(parse_catalog_filename(b"other_5_z"), ParsedName::Parsed { id: 5 });
}

#[test]
fn filename_wrong_shape_is_skipped() {
    assert_eq!(parse_catalog_filename(b"noseparators"), ParsedName::Skipped);
    assert_eq!(parse_catalog_filename(b"one_segment"), ParsedName::Skipped);
    assert_eq!(parse_catalog_filename(b"a_b_c_d"), ParsedName::Skipped);
    assert_eq!(parse_catalog_filename(b""), ParsedName::Skipped);
}

#[test]
fn filename_bad_id_is_invalid() {
    assert_eq!(parse_catalog_filename(b"item_x_y"), ParsedName::InvalidId);
    assert_eq!(parse_catalog_filename(b"item__y"), ParsedName::InvalidId);
    assert_eq!(
        parse_catalog_filename(b"item_99999999999_y"),
        ParsedName::InvalidId
    );
}

#[test]
fn id_label_reads_kind_and_raw_id() {
    assert_eq!(parse_id_label(b"TrinketID: 12"), Ok((ItemType::Trinket, 12)));
    assert_eq!(parse_id_label(b"ItemID: 3"), Ok((ItemType::Item, 3)));
    assert_eq!(parse_id_label(b"TrinketID: 7 extra"), Ok((ItemType::Trinket, 7)));
    assert_eq!(parse_id_label(b"TrinketID:"), Err(()));
    assert_eq!(parse_id_label(b"TrinketID: "), Err(()));
    assert_eq!(parse_id_label(b"TrinketID: x"), Err(()));
    assert_eq!(parse_id_label(b"ItemID: 99999999999"), Err(()));
}

#[test]
fn aggregator_dedups_and_sorts() {
    let matches = vec![plain_match(5), plain_match(5), plain_match(2)];
    assert_eq!(get_uniq_ids(matches), vec![2, 5]);
}

#[test]
fn aggregator_empty() {
    assert_eq!(get_uniq_ids(Vec::new()), Vec::<u32>::new());
}

#[test]
fn engine_exact_score_value() {
    // one masked pixel: frame 200 against template 100 differs by 100,
    // so the score is (255 - 100) * 1_000_000 / 255 = 607_843
    let frame = ras(1, 1, vec![200]);
    let item = uniform_item(1, 1, 1, 100);
    let m = match_template(&frame, &item, 607_842).expect("match");
    assert_eq!(m.score, 607_843);
    assert_eq!((m.x, m.y, m.width, m.height), (0, 0, 1, 1));
}

#[test]
fn threshold_boundary_is_strict() {
    // a perfect agreement scores exactly 1_000_000
    let frame = ras(1, 1, vec![7]);
    let item = uniform_item(1, 1, 1, 7);
    assert!(match_template(&frame, &item, 1_000_000).is_none());
    assert!(match_template(&frame, &item, 999_999).is_some());
}

#[test]
fn threshold_boundary_at_reference_value() {
    // 20 masked pixels, 15 of them off by 51: the score is
    // (5100 - 765) * 1_000_000 / 5100 = 850_000 exactly
    let mut frame_px = vec![51u8; 15];
    frame_px.extend(vec![0u8; 5]);
    let frame = ras(20, 1, frame_px);
    let item = uniform_item(1, 20, 1, 0);
    assert!(match_template(&frame, &item, MATCH_THRESHOLD).is_none());
    assert!(match_template(&frame, &item, MATCH_THRESHOLD - 1).is_some());
    let m = match_template(&frame, &item, MATCH_THRESHOLD - 1).unwrap();
    assert_eq!(m.score, 850_000);
}

#[test]
fn offset_applies_to_trinket_records_only() {
    let mut t = desc(12, "a trinket");
    t.item_type = ItemType::Trinket;
    let out = offset_description_ids(Items { items: vec![desc(3, "an item"), t] })
        .expect("ids in range");
    assert_eq!(out.items[0].id, 3);
    assert_eq!(out.items[1].id, 10_012);

    let mut too_big = desc(u32::MAX - 100, "out of range");
    too_big.item_type = ItemType::Trinket;
    let r = offset_description_ids(Items { items: vec![too_big] });
    assert_eq!(r.unwrap_err(), u32::MAX - 100);
}

#[test]
fn engine_is_deterministic() {
    let frame = ras(3, 3, vec![0, 10, 20, 30, 40, 50, 60, 70, 80]);
    let item = Item {
        id: 4,
        pic: ras(2, 2, vec![30, 40, 60, 70]),
        mask: ras(2, 2, vec![1, 1, 1, 0]),
    };
    let a = match_template(&frame, &item, 500_000);
    let b = match_template(&frame, &item, 500_000);
    assert_eq!(a, b);
}

#[test]
fn engine_reports_best_offset() {
    // the template equals the frame block whose top-left corner is (1, 0)
    let frame = ras(3, 2, vec![9, 1, 2, 9, 3, 4]);
    let item = Item {
        id: 2,
        pic: ras(2, 2, vec![1, 2, 3, 4]),
        mask: ras(2, 2, vec![1; 4]),
    };
    let m = match_template(&frame, &item, MATCH_THRESHOLD).expect("match");
    assert_eq!((m.x, m.y), (1, 0));
    assert_eq!(m.score, 1_000_000);
}

#[test]
fn oversized_template_never_matches() {
    let frame = ras(1, 1, vec![5]);
    let item = uniform_item(1, 2, 2, 5);
    assert!(match_template(&frame, &item, 0).is_none());
}

#[test]
fn empty_mask_never_matches() {
    let frame = ras(2, 2, vec![5; 4]);
    let item = Item {
        id: 1,
        pic: ras(2, 2, vec![5; 4]),
        mask: ras(2, 2, vec![0; 4]),
    };
    assert!(match_template(&frame, &item, 0).is_none());
}

#[test]
fn partition_covers_catalog() {
    // 5 templates over 2 workers: ceil(5/2) = 3, slices [0,3) and [3,5)
    assert_eq!(worker_range(5, 2, 0), (0, 3));
    assert_eq!(worker_range(5, 2, 1), (3, 5));
    // more workers than templates: trailing slices are empty
    assert_eq!(worker_range(3, 7, 0), (0, 1));
    assert_eq!(worker_range(3, 7, 1), (1, 2));
    assert_eq!(worker_range(3, 7, 2), (2, 3));
    assert_eq!(worker_range(3, 7, 3), (3, 3));
    assert_eq!(worker_range(3, 7, 6), (3, 3));
    // empty catalog
    assert_eq!(worker_range(0, 4, 0), (0, 0));
    assert_eq!(worker_range(0, 4, 3), (0, 0));
}

#[test]
fn slices_reproduce_full_round() {
    let frame = ras(2, 2, vec![8, 8, 8, 8]);
    let catalog: Vec<Item> = (0..5).map(|i| uniform_item(i as u32, 1, 1, 8)).collect();
    let whole = get_matches(&frame, &catalog);
    assert_eq!(whole.len(), 5);
    let mut pieced: Vec<Match> = Vec::new();
    for k in 0..3 {
        pieced.extend(match_slice(&frame, &catalog, 3, k));
    }
    assert_eq!(pieced, whole);
}

#[test]
fn distribute_collects_every_frame() {
    let f1 = ras(1, 1, vec![10]);
    let f2 = ras(1, 1, vec![10]);
    let catalog = vec![uniform_item(1, 1, 1, 10), uniform_item(2, 1, 1, 200)];
    let all = distribute(&vec![f1, f2], &catalog, 2);
    // the matching template is found once per frame, the distant one never
    assert_eq!(all.len(), 2);
    assert!(all.iter().all(|m| m.id == 1));
}

#[test]
fn presence_ttl_scenario() {
    // id 7 detected at t=0 stays ACTIVE at t=1.5s and is evicted at t=2.1s
    let descs = DescriptionSet::from_items(Items { items: vec![desc(7, "seven")] });
    let mut tracker = PresenceTracker::new(PRESENCE_TTL_MS);
    tracker.update(&vec![7], 0, &descs).expect("resolvable");
    assert_eq!(tracker.active_entries().len(), 1);
    tracker.evict(1_500);
    assert_eq!(tracker.active_entries().len(), 1);
    assert_eq!(tracker.active_entries()[0].id, 7);
    tracker.evict(2_100);
    assert_eq!(tracker.active_entries().len(), 0);
}

#[test]
fn presence_refresh_keeps_entry_alive() {
    let descs = DescriptionSet::from_items(Items { items: vec![desc(7, "seven")] });
    let mut tracker = PresenceTracker::new(PRESENCE_TTL_MS);
    tracker.update(&vec![7], 0, &descs).expect("resolvable");
    tracker.update(&vec![7], 1_900, &descs).expect("resolvable");
    tracker.evict(3_000);
    assert_eq!(tracker.active_entries().len(), 1);
    assert_eq!(tracker.active_entries()[0].last_seen, 1_900);
}

#[test]
fn presence_lookup_miss_is_an_error() {
    let descs = DescriptionSet::from_items(Items { items: vec![desc(7, "seven")] });
    let mut tracker = PresenceTracker::new(PRESENCE_TTL_MS);
    let r = tracker.update(&vec![9], 0, &descs);
    assert_eq!(r, Err(9));
    assert_eq!(tracker.active_entries().len(), 0);
}

#[test]
fn description_set_last_record_wins() {
    let set = DescriptionSet::from_items(Items {
        items: vec![desc(1, "first"), desc(2, "second"), desc(1, "override")],
    });
    let i = set.index_of(1).expect("present");
    assert_eq!(set.get(i).item_title, "override");
    assert!(set.index_of(3).is_none());
}

#[test]
fn end_to_end_single_cycle() {
    // catalog: id 3 present in the frame, id 9 absent
    let mut pixels = vec![0u8; 16];
    for y in 0..2 {
        for x in 0..2 {
            pixels[y * 4 + x] = 200;
        }
    }
    let frame = ras(4, 4, pixels);
    let catalog = vec![uniform_item(3, 2, 2, 200), uniform_item(9, 2, 2, 255)];

    let raw = distribute(&vec![frame.clone()], &catalog, 2);
    assert_eq!(raw.len(), 1);
    assert_eq!(raw[0].id, 3);

    let ids = detect_cycle_ids(frame, &catalog, 2);
    assert_eq!(ids, vec![3]);

    let descs = DescriptionSet::from_items(Items {
        items: vec![desc(3, "three"), desc(9, "nine")],
    });
    let mut tracker = PresenceTracker::new(PRESENCE_TTL_MS);
    tracker.update(&ids, 0, &descs).expect("resolvable");
    let active = tracker.active_entries();
    assert_eq!(active.len(), 1);
    assert_eq!(active[0].id, 3);
    assert_eq!(descs.get(active[0].desc_index).item_title, "three");
}

#[test]
fn crop_cuts_the_window() {
    let r = ras(3, 3, vec![1, 2, 3, 4, 5, 6, 7, 8, 9]);
    let c = r.crop(1, 1, 2, 2).expect("in bounds");
    assert_eq!(c.pixels, vec![5, 6, 8, 9]);
    assert!(r.crop(2, 2, 2, 2).is_none());
}

#[test]
fn zeros_raster_is_blank() {
    let z = Raster::zeros(2, 3).expect("small");
    assert_eq!(z.pixels, vec![0; 6]);
    assert_eq!((z.width, z.height), (2, 3));
}
