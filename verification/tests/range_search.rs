use bkd::search::{expand_tree_bounds, spatial_search_recursive};
use bkd::spatial::SpatialPoint;
use bkd::storage::NodeLinker;
use bkd::{insert_node, spatial_search, BoundingBox, InMemoryLinker, NodeArena};

/// Coordinates are whole numbers of tenths.
fn tenths(v: f64) -> i64 {
    (v * 10.0).round() as i64
}

fn bbox(xmin: f64, ymin: f64, xmax: f64, ymax: f64) -> BoundingBox {
    BoundingBox::new(tenths(xmin), tenths(ymin), tenths(xmax), tenths(ymax))
}

#[test]
fn test_spatial_search_single_match() {
    let mut arena = NodeArena::new();

    // Create nodes with different bounding boxes
    let root_ref = arena.allocate(bbox(5.0, 5.0, 6.0, 6.0), 1); // Root
    let left_ref = arena.allocate(bbox(2.0, 2.0, 3.0, 3.0), 2); // Left child
    let right_ref = arena.allocate(bbox(8.0, 8.0, 9.0, 9.0), 3); // Right child

    let mut linker = InMemoryLinker::new(&mut arena);

    // Build tree
    let root = insert_node(&mut linker, None, root_ref, 0);
    insert_node(&mut linker, Some(root), left_ref, 0);
    insert_node(&mut linker, Some(root), right_ref, 0);

    // Query for bounding boxes that overlap with [1.0, 1.0, 4.0, 4.0]
    let query = bbox(1.0, 1.0, 4.0, 4.0);
    let results = spatial_search(&linker, Some(root), &query, 0);

    // Should find left child (overlaps)
    // Right child should not be found (no overlap with [8.0, 8.0, 9.0, 9.0])
    assert!(results.len() >= 1); // At least left child

    // Verify the results contain expected data
    let result_data: Vec<u32> = results.iter().map(|&node_ref| *linker.get_data(node_ref)).collect();

    // Left child (data=2) should definitely be in results
    assert!(result_data.contains(&2));
}

#[test]
fn test_spatial_search_no_matches() {
    let mut arena = NodeArena::new();

    // Create nodes in one area
    let root_ref = arena.allocate(bbox(10.0, 10.0, 11.0, 11.0), 1);
    let left_ref = arena.allocate(bbox(12.0, 12.0, 13.0, 13.0), 2);

    let mut linker = InMemoryLinker::new(&mut arena);

    // Build tree
    let root = insert_node(&mut linker, None, root_ref, 0);
    insert_node(&mut linker, Some(root), left_ref, 0);

    // Query in a completely different area
    let query = bbox(1.0, 1.0, 2.0, 2.0);
    let results = spatial_search(&linker, Some(root), &query, 0);

    // Should find no matches
    assert_eq!(results.len(), 0);
}

#[test]
fn test_spatial_search_within_query() {
    let mut arena = NodeArena::new();

    // Create small bounding boxes inside a larger query area
    let root_ref = arena.allocate(bbox(3.0, 3.0, 4.0, 4.0), 1); // Inside query
    let left_ref = arena.allocate(bbox(2.0, 2.0, 2.5, 2.5), 2); // Inside query
    let right_ref = arena.allocate(bbox(15.0, 15.0, 16.0, 16.0), 3); // Outside query

    let mut linker = InMemoryLinker::new(&mut arena);

    // Build tree
    let root = insert_node(&mut linker, None, root_ref, 0);
    insert_node(&mut linker, Some(root), left_ref, 0);
    insert_node(&mut linker, Some(root), right_ref, 0);

    // Large query box that contains root and left child
    let query = bbox(1.0, 1.0, 5.0, 5.0);
    let results = spatial_search(&linker, Some(root), &query, 0);

    let result_data: Vec<u32> = results.iter().map(|&node_ref| *linker.get_data(node_ref)).collect();

    // Should find root (data=1) and left child (data=2)
    assert!(result_data.contains(&1));
    assert!(result_data.contains(&2));
    // Should not find right child (data=3) - it's outside query area
    assert!(!result_data.contains(&3));
}

#[test]
fn test_spatial_search_dimensional_pruning() {
    let mut arena = NodeArena::with_capacity(7);

    // Build a tree that tests dimensional pruning across multiple levels
    // Root splits on xmin (dimension 0)
    let root_ref = arena.allocate(bbox(10.0, 10.0, 11.0, 11.0), 1);

    // Left subtree (xmin < 10.0) - splits on ymin (dimension 1)
    let left_ref = arena.allocate(bbox(5.0, 15.0, 6.0, 16.0), 2);
    let left_left_ref = arena.allocate(bbox(3.0, 8.0, 4.0, 9.0), 3); // ymin < 15.0
    let left_right_ref = arena.allocate(bbox(7.0, 20.0, 8.0, 21.0), 4); // ymin >= 15.0

    // Right subtree (xmin >= 10.0) - splits on ymin (dimension 1)
    let right_ref = arena.allocate(bbox(15.0, 5.0, 16.0, 6.0), 5);
    let right_left_ref = arena.allocate(bbox(20.0, 2.0, 21.0, 3.0), 6); // ymin < 5.0
    let right_right_ref = arena.allocate(bbox(25.0, 8.0, 26.0, 9.0), 7); // ymin >= 5.0

    let mut linker = InMemoryLinker::new(&mut arena);

    // Build tree
    let root = insert_node(&mut linker, None, root_ref, 0);
    insert_node(&mut linker, Some(root), left_ref, 0);
    insert_node(&mut linker, Some(root), right_ref, 0);
    insert_node(&mut linker, Some(root), left_left_ref, 0);
    insert_node(&mut linker, Some(root), left_right_ref, 0);
    insert_node(&mut linker, Some(root), right_left_ref, 0);
    insert_node(&mut linker, Some(root), right_right_ref, 0);

    // Query that should only find nodes in left subtree with low y values
    let query = bbox(1.0, 1.0, 12.0, 12.0);
    let results = spatial_search(&linker, Some(root), &query, 0);

    let result_data: Vec<u32> = results.iter().map(|&node_ref| *linker.get_data(node_ref)).collect();

    // Should find:
    // - root (data=1): overlaps with query
    // - left_left (data=3): overlaps with query [3.0,8.0,4.0,9.0] vs [1.0,1.0,12.0,12.0]
    assert!(result_data.contains(&1), "Root should be found");
    assert!(result_data.contains(&3), "Left-left should be found");

    // Should NOT find:
    assert!(!result_data.contains(&2), "Left should not be found (no overlap)");
    assert!(!result_data.contains(&4), "Left-right should not be found (no overlap)");
    assert!(!result_data.contains(&5), "Right should not be found (pruned by xmin)");
    assert!(!result_data.contains(&6), "Right-left should not be found (pruned)");
    assert!(!result_data.contains(&7), "Right-right should not be found (pruned)");

    println!("Spatial search found nodes with data: {:?}", result_data);
}

#[test]
fn test_spatial_search_within_vs_overlapping() {
    let mut arena = NodeArena::new();

    // Create nodes with different spatial relationships to query
    let fully_within_ref = arena.allocate(bbox(2.0, 2.0, 3.0, 3.0), 1); // Fully within
    let overlapping_ref = arena.allocate(bbox(4.5, 4.5, 6.0, 6.0), 2); // Overlaps
    let outside_ref = arena.allocate(bbox(8.0, 8.0, 9.0, 9.0), 3); // Outside

    let mut linker = InMemoryLinker::new(&mut arena);

    // Build simple tree with overlapping as root
    let root = insert_node(&mut linker, None, overlapping_ref, 0);
    insert_node(&mut linker, Some(root), fully_within_ref, 0);
    insert_node(&mut linker, Some(root), outside_ref, 0);

    // Query box that contains fully_within and overlaps with overlapping
    let query = bbox(1.0, 1.0, 5.0, 5.0);
    let results = spatial_search(&linker, Some(root), &query, 0);

    let result_data: Vec<u32> = results.iter().map(|&node_ref| *linker.get_data(node_ref)).collect();

    // Verify the spatial relationships
    let fully_within_bbox = bbox(2.0, 2.0, 3.0, 3.0);
    let overlapping_bbox = bbox(4.5, 4.5, 6.0, 6.0);
    let outside_bbox = bbox(8.0, 8.0, 9.0, 9.0);

    assert!(fully_within_bbox.is_within(&query), "fully_within should be within query");
    assert!(overlapping_bbox.overlaps(&query), "overlapping should overlap query");
    assert!(!overlapping_bbox.is_within(&query), "overlapping should not be fully within query");
    assert!(!outside_bbox.overlaps(&query), "outside should not overlap query");

    // Results should include both fully_within and overlapping
    assert!(result_data.contains(&1), "Fully within node should be found");
    assert!(result_data.contains(&2), "Overlapping node should be found");
    assert!(!result_data.contains(&3), "Outside node should not be found");

    println!("Query box: {:?}", query);
    println!("Fully within: {:?} -> found: {}", fully_within_bbox, result_data.contains(&1));
    println!("Overlapping: {:?} -> found: {}", overlapping_bbox, result_data.contains(&2));
    println!("Outside: {:?} -> found: {}", outside_bbox, result_data.contains(&3));
}

#[test]
fn test_bbox_program_runs() {
    let mut arena = NodeArena::new();
    let store_ref = arena.allocate(bbox(5.0, 5.0, 7.0, 7.0), 101);
    let house_ref = arena.allocate(bbox(2.0, 2.0, 3.0, 3.0), 102);
    let park_ref = arena.allocate(bbox(8.0, 1.0, 10.0, 2.0), 103);
    let school_ref = arena.allocate(bbox(1.0, 8.0, 2.0, 9.0), 104);

    let mut linker = InMemoryLinker::new(&mut arena);

    // Build the spatial index
    let root = insert_node(&mut linker, None, store_ref, 0);
    insert_node(&mut linker, Some(root), house_ref, 0);
    insert_node(&mut linker, Some(root), park_ref, 0);
    insert_node(&mut linker, Some(root), school_ref, 0);

    // Test spatial searches work
    let downtown_query = bbox(0.0, 0.0, 6.0, 6.0);
    let downtown_results = spatial_search(&linker, Some(root), &downtown_query, 0);
    assert!(!downtown_results.is_empty(), "Downtown search should find results");

    let eastside_query = bbox(7.0, 0.0, 12.0, 5.0);
    let eastside_results = spatial_search(&linker, Some(root), &eastside_query, 0);
    assert!(!eastside_results.is_empty(), "Eastside search should find results");
}

/// Store, House, Park, School, put in in that order with Store as root.
fn town(arena: &mut NodeArena<BoundingBox, u32>) -> [usize; 4] {
    let store = arena.allocate(BoundingBox::new(5, 5, 7, 7), 101);
    let house = arena.allocate(BoundingBox::new(2, 2, 3, 3), 102);
    let park = arena.allocate(BoundingBox::new(8, 1, 10, 2), 103);
    let school = arena.allocate(BoundingBox::new(1, 8, 2, 9), 104);
    [store, house, park, school]
}

#[test]
fn town_scenario_downtown_and_eastside() {
    let mut arena = NodeArena::new();
    let [store, house, park, school] = town(&mut arena);
    let mut linker = InMemoryLinker::new(&mut arena);
    let root = insert_node(&mut linker, None, store, 0);
    assert_eq!(root, store);
    insert_node(&mut linker, Some(root), house, 0);
    insert_node(&mut linker, Some(root), park, 0);
    insert_node(&mut linker, Some(root), school, 0);

    // The shape that the insertions give.
    assert_eq!(linker.get_left(store), Some(house));
    assert_eq!(linker.get_right(store), Some(park));
    assert_eq!(linker.get_right(house), Some(school));
    assert!(linker.get_left(house).is_none());
    assert!(linker.get_left(park).is_none());
    assert!(linker.get_right(park).is_none());

    let downtown = spatial_search(&linker, Some(root), &BoundingBox::new(0, 0, 6, 6), 0);
    assert!(downtown.contains(&house));
    assert!(!downtown.contains(&park));
    assert!(!downtown.contains(&school));
    // Store overlaps the query; the order is the order of the visit.
    assert_eq!(downtown, vec![store, house]);

    let eastside = spatial_search(&linker, Some(root), &BoundingBox::new(7, 0, 12, 5), 0);
    assert!(eastside.contains(&park));
    assert!(!eastside.contains(&house));
    assert!(!eastside.contains(&school));
    assert_eq!(eastside, vec![store, park]);
}

#[test]
fn search_of_the_empty_tree_finds_nothing() {
    let mut arena = NodeArena::new();
    let _ = town(&mut arena);
    let linker = InMemoryLinker::new(&mut arena);
    for depth in [0usize, 1, 2, 3, 9] {
        for query in [
            BoundingBox::new(0, 0, 6, 6),
            BoundingBox::new(-1000, -1000, 1000, 1000),
            BoundingBox::new(5, 5, 5, 5),
            BoundingBox::new(9, 9, 0, 0),
        ] {
            let found: Vec<usize> = spatial_search(&linker, None, &query, depth);
            assert!(found.is_empty());
        }
    }
}

#[test]
fn search_of_the_empty_tree_in_an_empty_arena() {
    let mut arena: NodeArena<BoundingBox, u32> = NodeArena::new();
    let linker = InMemoryLinker::new(&mut arena);
    let found = spatial_search(&linker, None, &BoundingBox::new(0, 0, 1, 1), 0);
    assert!(found.is_empty());
}

#[test]
fn a_query_apart_from_every_region_finds_nothing() {
    let mut arena = NodeArena::new();
    let [store, house, park, school] = town(&mut arena);
    let mut linker = InMemoryLinker::new(&mut arena);
    let root = insert_node(&mut linker, None, store, 0);
    for n in [house, park, school] {
        insert_node(&mut linker, Some(root), n, 0);
    }
    for query in [
        BoundingBox::new(20, 20, 30, 30),
        BoundingBox::new(-9, -9, -1, -1),
        BoundingBox::new(4, 3, 4, 4),
        BoundingBox::new(3, 9, 9, 12),
    ] {
        for n in [store, house, park, school] {
            assert!(!linker.get_point(n).is_within(&query));
            assert!(!linker.get_point(n).overlaps(&query));
        }
        assert!(spatial_search(&linker, Some(root), &query, 0).is_empty());
    }
}

#[test]
fn every_result_is_a_hit() {
    let boxes = [
        (10, 10, 11, 11),
        (5, 15, 6, 16),
        (15, 5, 16, 6),
        (3, 8, 4, 9),
        (7, 20, 8, 21),
        (20, 2, 21, 3),
        (25, 8, 26, 9),
        (12, 12, 30, 30),
        (0, 0, 40, 40),
    ];
    let mut arena = NodeArena::new();
    let mut refs = Vec::new();
    for (i, b) in boxes.iter().enumerate() {
        refs.push(arena.allocate(BoundingBox::new(b.0, b.1, b.2, b.3), i as u32));
    }
    let mut linker = InMemoryLinker::new(&mut arena);
    let root = insert_node(&mut linker, None, refs[0], 0);
    for &r in &refs[1..] {
        insert_node(&mut linker, Some(root), r, 0);
    }
    for query in [
        BoundingBox::new(1, 1, 12, 12),
        BoundingBox::new(0, 0, 100, 100),
        BoundingBox::new(14, 4, 22, 7),
        BoundingBox::new(6, 6, 6, 6),
    ] {
        let found = spatial_search(&linker, Some(root), &query, 0);
        for (i, r) in found.iter().enumerate() {
            let region = linker.get_point(*r);
            assert!(region.is_within(&query) || region.overlaps(&query));
            // No node twice.
            assert!(!found[..i].contains(r));
        }
    }
}

#[test]
fn a_containing_query_finds_every_node_once_where_nothing_is_pruned() {
    let mut arena = NodeArena::new();
    let root_ref = arena.allocate(BoundingBox::new(5, 5, 6, 6), 1u32);
    let left = arena.allocate(BoundingBox::new(2, 2, 3, 3), 2u32);
    let right = arena.allocate(BoundingBox::new(8, 8, 9, 9), 3u32);
    let left_right = arena.allocate(BoundingBox::new(1, 4, 2, 5), 4u32);
    let right_right = arena.allocate(BoundingBox::new(7, 9, 8, 10), 5u32);
    let mut linker = InMemoryLinker::new(&mut arena);
    let root = insert_node(&mut linker, None, root_ref, 0);
    for n in [left, right, left_right, right_right] {
        insert_node(&mut linker, Some(root), n, 0);
    }
    assert_eq!(linker.get_right(left), Some(left_right));
    assert_eq!(linker.get_right(right), Some(right_right));

    let everything = BoundingBox::new(i64::MIN, i64::MIN, i64::MAX, i64::MAX);
    let found = spatial_search(&linker, Some(root), &everything, 0);
    // Each node before the nodes under it, left before right.
    assert_eq!(found, vec![root_ref, left, left_right, right, right_right]);

    let snug = BoundingBox::new(1, 2, 9, 10);
    let found = spatial_search(&linker, Some(root), &snug, 0);
    assert_eq!(found, vec![root_ref, left, left_right, right, right_right]);
}

#[test]
fn on_a_high_axis_the_left_subtree_is_searched_only_on_a_tie() {
    // a, b, c make a chain to the right; d is the left child of c, which is
    // at depth 2 and splits on xmax.
    let mut arena = NodeArena::new();
    let a = arena.allocate(BoundingBox::new(0, 0, 1, 1), 1u32);
    let b = arena.allocate(BoundingBox::new(1, 1, 2, 2), 2u32);
    let c = arena.allocate(BoundingBox::new(2, 2, 5, 5), 3u32);
    let d = arena.allocate(BoundingBox::new(3, 3, 4, 4), 4u32);
    let mut linker = InMemoryLinker::new(&mut arena);
    let root = insert_node(&mut linker, None, a, 0);
    for n in [b, c, d] {
        insert_node(&mut linker, Some(root), n, 0);
    }
    assert_eq!(linker.get_right(a), Some(b));
    assert_eq!(linker.get_right(b), Some(c));
    assert_eq!(linker.get_left(c), Some(d));

    // The query holds every region, d too, but its xmax 10 is above the split
    // value 5 of c: the left subtree of c is left out.
    let wide = BoundingBox::new(0, 0, 10, 10);
    assert!(linker.get_point(d).is_within(&wide));
    assert_eq!(spatial_search(&linker, Some(root), &wide, 0), vec![a, b, c]);

    // The same with the query that holds everything there is.
    let everything = BoundingBox::new(i64::MIN, i64::MIN, i64::MAX, i64::MAX);
    assert_eq!(spatial_search(&linker, Some(root), &everything, 0), vec![a, b, c]);

    // With xmax equal to the split value it is searched.
    let tied = BoundingBox::new(0, 0, 5, 10);
    assert_eq!(spatial_search(&linker, Some(root), &tied, 0), vec![a, b, c, d]);
}

#[test]
fn a_subtree_ruled_out_by_the_split_value_is_not_visited() {
    // The right subtree of the root holds regions with xmin >= 10. One of
    // them is inside out and would count as within the query if it were
    // looked at; the query ends at x = 9, so the subtree is left out.
    let mut arena = NodeArena::new();
    let root_ref = arena.allocate(BoundingBox::new(10, 0, 12, 2), 1u32);
    let odd = arena.allocate(BoundingBox::new(11, 1, 3, 3), 2u32);
    let low = arena.allocate(BoundingBox::new(2, 1, 3, 3), 3u32);
    let mut linker = InMemoryLinker::new(&mut arena);
    let root = insert_node(&mut linker, None, root_ref, 0);
    insert_node(&mut linker, Some(root), odd, 0);
    insert_node(&mut linker, Some(root), low, 0);
    assert_eq!(linker.get_right(root_ref), Some(odd));
    assert_eq!(linker.get_left(root_ref), Some(low));

    let query = BoundingBox::new(0, 0, 9, 9);
    assert!(linker.get_point(odd).is_within(&query));
    assert_eq!(spatial_search(&linker, Some(root), &query, 0), vec![low]);

    // One step wider and the right subtree is searched.
    let wider = BoundingBox::new(0, 0, 10, 9);
    assert_eq!(spatial_search(&linker, Some(root), &wider, 0), vec![root_ref, low, odd]);
}

#[test]
fn depth_tells_the_search_the_axis_of_the_root() {
    let mut arena = NodeArena::new();
    let top = arena.allocate(BoundingBox::new(5, 50, 6, 60), 1u32);
    let child = arena.allocate(BoundingBox::new(1, 70, 2, 80), 2u32);
    let mut linker = InMemoryLinker::new(&mut arena);
    linker.link_left(top, child);

    let query = BoundingBox::new(0, 65, 3, 90);
    // At depth 0 the root splits on xmin: low bound 0 <= 5, the left child is
    // searched.
    assert_eq!(spatial_search(&linker, Some(top), &query, 0), vec![child]);
    // At depth 1 it splits on ymin: low bound 65 > 50, the left child is left
    // out.
    assert!(spatial_search(&linker, Some(top), &query, 1).is_empty());
    // Depth 4 is the axis of depth 0, depth 5 that of depth 1.
    assert_eq!(spatial_search(&linker, Some(top), &query, 4), vec![child]);
    assert!(spatial_search(&linker, Some(top), &query, 5).is_empty());
}

#[test]
fn recursive_search_appends_to_what_is_there() {
    let mut arena = NodeArena::new();
    let [store, house, park, school] = town(&mut arena);
    let mut linker = InMemoryLinker::new(&mut arena);
    let root = insert_node(&mut linker, None, store, 0);
    for n in [house, park, school] {
        insert_node(&mut linker, Some(root), n, 0);
    }
    let mut results = vec![school, school];
    spatial_search_recursive(&linker, root, &BoundingBox::new(0, 0, 6, 6), 0, &mut results);
    assert_eq!(results, vec![school, school, store, house]);
    // From a node further down, with that node's depth.
    let mut results = Vec::new();
    spatial_search_recursive(&linker, house, &BoundingBox::new(0, 0, 6, 9), 1, &mut results);
    assert_eq!(results, vec![house, school]);
}

#[test]
fn bounds_grow_to_hold_every_region_of_the_tree() {
    let mut arena = NodeArena::new();
    let [store, house, park, school] = town(&mut arena);
    let mut linker = InMemoryLinker::new(&mut arena);
    let root = insert_node(&mut linker, None, store, 0);
    for n in [house, park, school] {
        insert_node(&mut linker, Some(root), n, 0);
    }
    let mut bounds = linker.get_point(root).clone();
    expand_tree_bounds(&linker, root, &mut bounds);
    assert_eq!(bounds, BoundingBox::new(1, 1, 10, 9));

    // What the bounds held before stays inside.
    let mut bounds = BoundingBox::new(-3, 4, 4, 20);
    expand_tree_bounds(&linker, root, &mut bounds);
    assert_eq!(bounds, BoundingBox::new(-3, 1, 10, 20));

    // Only the nodes under the start node count.
    let mut bounds = linker.get_point(house).clone();
    expand_tree_bounds(&linker, house, &mut bounds);
    assert_eq!(bounds, BoundingBox::new(1, 2, 3, 9));
}
