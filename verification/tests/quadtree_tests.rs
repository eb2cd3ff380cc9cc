use quadtree::geom::Circle;
use quadtree::geom::Rectangle;
use quadtree::geom::ShapeEnum;
use quadtree::tree::Config;
use quadtree::tree::QuadTree;
use quadtree::tree::QuadTreeError;
use quadtree::tree::RelocationRequest;

fn rect(x: i32, y: i32, w: i32, h: i32) -> ShapeEnum {
    ShapeEnum::Rectangle(Rectangle { x, y, width: w, height: h })
}

fn circle(x: i32, y: i32, r: i32) -> ShapeEnum {
    ShapeEnum::Circle(Circle { x, y, radius: r })
}

fn world(x: i32, y: i32, w: i32, h: i32) -> Rectangle {
    Rectangle { x, y, width: w, height: h }
}

fn sorted(mut v: Vec<u32>) -> Vec<u32> {
    v.sort();
    v
}

#[test]
fn construction_accepts_positive_world_box() {
    let t = QuadTree::new(world(0, 0, 100, 100));
    assert!(t.is_ok());
}

#[test]
fn construction_rejects_degenerate_world_box() {
    assert_eq!(
        QuadTree::new(world(0, 0, 0, 100)).err(),
        Some(QuadTreeError::InvalidShape)
    );
    assert_eq!(
        QuadTree::new(world(0, 0, 100, -5)).err(),
        Some(QuadTreeError::InvalidShape)
    );
    assert_eq!(
        QuadTree::new(world(i32::MAX - 10, 0, 100, 100)).err(),
        Some(QuadTreeError::InvalidShape)
    );
}

#[test]
fn scenario_rectangle_and_circle_queries() {
    let mut t = QuadTree::new(world(0, 0, 100, 100)).unwrap();
    t.insert(1, rect(10, 10, 5, 5), None).unwrap();
    t.insert(2, circle(50, 50, 3), None).unwrap();
    assert_eq!(sorted(t.collisions(rect(0, 0, 20, 20)).unwrap()), vec![1]);
    assert_eq!(sorted(t.collisions(circle(50, 50, 10)).unwrap()), vec![2]);
    assert_eq!(
        sorted(t.collisions(rect(0, 0, 100, 100)).unwrap()),
        vec![1, 2]
    );
}

#[test]
fn scenario_entity_type_filter() {
    let mut t = QuadTree::new(world(0, 0, 100, 100)).unwrap();
    t.insert(1, rect(40, 40, 10, 10), Some(5)).unwrap();
    t.insert(2, rect(40, 40, 10, 10), Some(7)).unwrap();
    let hits = t
        .collisions_filter(rect(35, 35, 20, 20), Some(vec![5]))
        .unwrap();
    assert_eq!(sorted(hits), vec![1]);
}

#[test]
fn filter_absent_matches_untagged_present_does_not() {
    let mut t = QuadTree::new(world(0, 0, 100, 100)).unwrap();
    t.insert(1, rect(10, 10, 5, 5), None).unwrap();
    t.insert(2, rect(10, 10, 5, 5), Some(3)).unwrap();
    assert_eq!(
        sorted(t.collisions_filter(rect(0, 0, 50, 50), None).unwrap()),
        vec![1, 2]
    );
    assert_eq!(
        sorted(t.collisions_filter(rect(0, 0, 50, 50), Some(vec![3])).unwrap()),
        vec![2]
    );
    assert_eq!(
        t.collisions_filter(rect(0, 0, 50, 50), Some(vec![9]))
            .unwrap(),
        Vec::<u32>::new()
    );
}

#[test]
fn insert_duplicate_id_is_rejected() {
    let mut t = QuadTree::new(world(0, 0, 100, 100)).unwrap();
    t.insert(7, rect(10, 10, 5, 5), None).unwrap();
    assert_eq!(
        t.insert(7, rect(20, 20, 5, 5), None).err(),
        Some(QuadTreeError::DuplicateId)
    );
    // the original entry is untouched, and nothing was overwritten
    assert_eq!(sorted(t.collisions(rect(5, 5, 10, 10)).unwrap()), vec![7]);
    assert_eq!(t.collisions(rect(19, 19, 1, 1)).unwrap(), Vec::<u32>::new());
}

#[test]
fn insert_invalid_shape_is_rejected() {
    let mut t = QuadTree::new(world(0, 0, 100, 100)).unwrap();
    assert_eq!(
        t.insert(1, circle(10, 10, 0), None).err(),
        Some(QuadTreeError::InvalidShape)
    );
    assert_eq!(
        t.insert(1, rect(10, 10, -1, 5), None).err(),
        Some(QuadTreeError::InvalidShape)
    );
    assert_eq!(t.collisions(rect(0, 0, 100, 100)).unwrap(), Vec::<u32>::new());
}

#[test]
fn query_with_invalid_shape_is_rejected() {
    let t = QuadTree::new(world(0, 0, 100, 100)).unwrap();
    assert_eq!(
        t.collisions(rect(0, 0, 0, 10)).err(),
        Some(QuadTreeError::InvalidShape)
    );
}

#[test]
fn delete_absent_id_is_a_noop() {
    let mut t = QuadTree::new(world(0, 0, 100, 100)).unwrap();
    t.insert(1, rect(10, 10, 5, 5), None).unwrap();
    t.delete(99);
    assert_eq!(sorted(t.collisions(rect(0, 0, 100, 100)).unwrap()), vec![1]);
}

#[test]
fn deleted_id_is_never_returned() {
    let mut t = QuadTree::new(world(0, 0, 100, 100)).unwrap();
    t.insert(1, rect(10, 10, 5, 5), None).unwrap();
    t.insert(2, circle(50, 50, 4), None).unwrap();
    t.delete(1);
    assert_eq!(sorted(t.collisions(rect(0, 0, 100, 100)).unwrap()), vec![2]);
    assert_eq!(t.collisions(rect(10, 10, 5, 5)).unwrap(), Vec::<u32>::new());
    // the id can be inserted again afterwards
    t.insert(1, rect(10, 10, 5, 5), None).unwrap();
    assert_eq!(sorted(t.collisions(rect(0, 0, 100, 100)).unwrap()), vec![1, 2]);
}

#[test]
fn relocate_moves_the_entity() {
    let mut t = QuadTree::new(world(0, 0, 100, 100)).unwrap();
    t.insert(1, rect(10, 10, 5, 5), None).unwrap();
    t.relocate(1, rect(80, 80, 5, 5), None).unwrap();
    assert_eq!(t.collisions(rect(80, 80, 5, 5)).unwrap(), vec![1]);
    assert_eq!(t.collisions(rect(0, 0, 30, 30)).unwrap(), Vec::<u32>::new());
}

#[test]
fn relocate_absent_id_degrades_to_insert() {
    let mut t = QuadTree::new(world(0, 0, 100, 100)).unwrap();
    t.relocate(5, circle(30, 30, 2), Some(1)).unwrap();
    assert_eq!(t.collisions(circle(30, 30, 2)).unwrap(), vec![5]);
}

#[test]
fn relocate_invalid_shape_leaves_tree_unchanged() {
    let mut t = QuadTree::new(world(0, 0, 100, 100)).unwrap();
    t.insert(1, rect(10, 10, 5, 5), None).unwrap();
    assert_eq!(
        t.relocate(1, circle(50, 50, -2), None).err(),
        Some(QuadTreeError::InvalidShape)
    );
    assert_eq!(t.collisions(rect(10, 10, 5, 5)).unwrap(), vec![1]);
}

#[test]
fn relocate_batch_is_best_effort() {
    let mut t = QuadTree::new(world(0, 0, 100, 100)).unwrap();
    t.insert(1, rect(10, 10, 5, 5), None).unwrap();
    t.insert(2, rect(20, 20, 5, 5), None).unwrap();
    let results = t.relocate_batch(vec![
        RelocationRequest { value: 1, shape: rect(70, 70, 5, 5), entity_type: None },
        RelocationRequest { value: 2, shape: rect(0, 0, 0, 5), entity_type: None },
        RelocationRequest { value: 3, shape: circle(40, 40, 2), entity_type: None },
    ]);
    assert_eq!(results.len(), 3);
    assert!(results[0].is_ok());
    assert_eq!(results[1], Err(QuadTreeError::InvalidShape));
    assert!(results[2].is_ok());
    // request 1 moved, request 2 was skipped, request 3 was inserted
    assert_eq!(t.collisions(rect(70, 70, 5, 5)).unwrap(), vec![1]);
    assert_eq!(t.collisions(rect(20, 20, 5, 5)).unwrap(), vec![2]);
    assert_eq!(t.collisions(circle(40, 40, 2)).unwrap(), vec![3]);
}

#[test]
fn batched_query_equals_singles_in_order() {
    let mut t = QuadTree::new(world(0, 0, 100, 100)).unwrap();
    t.insert(1, rect(10, 10, 5, 5), None).unwrap();
    t.insert(2, circle(50, 50, 3), None).unwrap();
    t.insert(3, rect(48, 48, 4, 4), None).unwrap();
    let a = rect(0, 0, 20, 20);
    let b = circle(50, 50, 10);
    let batch = t.collisions_batch(vec![a, b]);
    assert_eq!(batch.len(), 2);
    assert_eq!(
        sorted(batch[0].clone().unwrap()),
        sorted(t.collisions(a).unwrap())
    );
    assert_eq!(
        sorted(batch[1].clone().unwrap()),
        sorted(t.collisions(b).unwrap())
    );
    assert_eq!(sorted(batch[0].clone().unwrap()), vec![1]);
    assert_eq!(sorted(batch[1].clone().unwrap()), vec![2, 3]);
}

#[test]
fn batched_query_reports_invalid_shapes_in_place() {
    let mut t = QuadTree::new(world(0, 0, 100, 100)).unwrap();
    t.insert(1, rect(10, 10, 5, 5), None).unwrap();
    let batch = t.collisions_batch(vec![rect(0, 0, 20, 20), rect(0, 0, -1, 1)]);
    assert_eq!(batch.len(), 2);
    assert_eq!(batch[0], Ok(vec![1]));
    assert_eq!(batch[1], Err(QuadTreeError::InvalidShape));
}

#[test]
fn subdivision_keeps_every_entity_findable() {
    let cfg = Config { pool_size: 4, node_capacity: 1, max_depth: 5 };
    let mut t = QuadTree::new_with_config(world(0, 0, 100, 100), cfg).unwrap();
    for n in 0..10u32 {
        let x = 2 + 3 * (n as i32);
        t.insert(n, rect(x, 5, 2, 2), None).unwrap();
    }
    let hits = t.collisions(rect(0, 0, 100, 100)).unwrap();
    assert_eq!(sorted(hits), (0..10).collect::<Vec<u32>>());
    // the pool grew past its pre-sized four slots
    assert!(t.all_node_bounding_boxes().len() > 4);
}

#[test]
fn straddling_entities_are_returned_once() {
    let cfg = Config { pool_size: 16, node_capacity: 1, max_depth: 6 };
    let mut t = QuadTree::new_with_config(world(0, 0, 100, 100), cfg).unwrap();
    // entities crossing the central split lines
    t.insert(1, rect(48, 48, 4, 4), None).unwrap();
    t.insert(2, rect(40, 48, 30, 4), None).unwrap();
    t.insert(3, circle(50, 20, 5), None).unwrap();
    // and some that subdivide the quadrants
    t.insert(4, rect(10, 10, 2, 2), None).unwrap();
    t.insert(5, rect(12, 14, 2, 2), None).unwrap();
    t.insert(6, rect(80, 80, 2, 2), None).unwrap();
    let hits = t.collisions(rect(0, 0, 100, 100)).unwrap();
    assert_eq!(hits.len(), 6);
    assert_eq!(sorted(hits), vec![1, 2, 3, 4, 5, 6]);
    let central = t.collisions(rect(45, 45, 10, 10)).unwrap();
    assert_eq!(sorted(central), vec![1, 2]);
}

#[test]
fn thousand_entities_with_small_nodes() {
    let cfg = Config { pool_size: 64, node_capacity: 4, max_depth: 8 };
    let mut t = QuadTree::new_with_config(world(0, 0, 1000, 1000), cfg).unwrap();
    let mut shapes: Vec<(u32, i32, i32, i32, i32)> = Vec::new();
    let mut state: u64 = 0x2545F4914F6CDD1D;
    for n in 0..1000u32 {
        state = state.wrapping_mul(6364136223846793005).wrapping_add(1442695040888963407);
        let x = ((state >> 16) % 980) as i32;
        let y = ((state >> 32) % 980) as i32;
        let w = 1 + ((state >> 48) % 12) as i32;
        let h = 1 + ((state >> 54) % 12) as i32;
        shapes.push((n, x, y, w, h));
        t.insert(n, rect(x, y, w, h), None).unwrap();
    }
    let all = t.collisions(rect(0, 0, 1000, 1000)).unwrap();
    assert_eq!(sorted(all), (0..1000).collect::<Vec<u32>>());
    // a regional query agrees with a brute-force scan (closed-region overlap)
    let (qx, qy, qw, qh) = (200, 300, 150, 120);
    let mut expect: Vec<u32> = Vec::new();
    for &(n, x, y, w, h) in &shapes {
        if x <= qx + qw && qx <= x + w && y <= qy + qh && qy <= y + h {
            expect.push(n);
        }
    }
    let got = t.collisions(rect(qx, qy, qw, qh)).unwrap();
    assert_eq!(sorted(got), sorted(expect));
}

#[test]
fn touching_shapes_intersect() {
    let mut t = QuadTree::new(world(0, 0, 100, 100)).unwrap();
    t.insert(1, rect(10, 10, 10, 10), None).unwrap();
    // rectangle sharing only the corner point (20, 20)
    assert_eq!(t.collisions(rect(20, 20, 5, 5)).unwrap(), vec![1]);
    // circle whose rim exactly reaches the rectangle's edge
    assert_eq!(t.collisions(circle(25, 15, 5)).unwrap(), vec![1]);
    // one unit farther away: no intersection
    assert_eq!(t.collisions(rect(21, 21, 5, 5)).unwrap(), Vec::<u32>::new());
}

#[test]
fn circle_circle_distance_check() {
    let mut t = QuadTree::new(world(0, 0, 100, 100)).unwrap();
    t.insert(1, circle(10, 10, 3), None).unwrap();
    // centres 8 apart, radii sum 8: touching counts
    assert_eq!(t.collisions(circle(18, 10, 5)).unwrap(), vec![1]);
    // centres 9 apart, radii sum 8: disjoint
    assert_eq!(t.collisions(circle(19, 10, 5)).unwrap(), Vec::<u32>::new());
}

#[test]
fn node_bounding_boxes_start_with_world() {
    let mut t = QuadTree::new(world(0, 0, 100, 100)).unwrap();
    let boxes = t.all_node_bounding_boxes();
    assert_eq!(boxes, vec![world(0, 0, 100, 100)]);
    // overflow a node: the dump now contains the four quadrants as well
    for n in 0..5u32 {
        t.insert(n, rect(2 + 2 * (n as i32), 2, 1, 1), None).unwrap();
    }
    let boxes = t.all_node_bounding_boxes();
    assert!(boxes.len() >= 5);
    assert_eq!(boxes[0], world(0, 0, 100, 100));
    assert!(boxes.contains(&world(0, 0, 50, 50)));
    assert!(boxes.contains(&world(50, 0, 50, 50)));
    assert!(boxes.contains(&world(0, 50, 50, 50)));
    assert!(boxes.contains(&world(50, 50, 50, 50)));
}

#[test]
fn all_shapes_dumps_every_entry() {
    let mut t = QuadTree::new(world(0, 0, 100, 100)).unwrap();
    t.insert(1, rect(10, 10, 5, 5), None).unwrap();
    t.insert(2, circle(50, 50, 3), Some(4)).unwrap();
    t.insert(3, rect(70, 70, 5, 5), None).unwrap();
    let shapes = t.all_shapes();
    assert_eq!(shapes.len(), 3);
    assert!(shapes.contains(&rect(10, 10, 5, 5)));
    assert!(shapes.contains(&circle(50, 50, 3)));
    assert!(shapes.contains(&rect(70, 70, 5, 5)));
    t.delete(2);
    assert_eq!(t.all_shapes().len(), 2);
}

#[test]
fn default_config_values() {
    let cfg = Config::default();
    assert_eq!(cfg.pool_size, 64);
    assert_eq!(cfg.node_capacity, 4);
    assert_eq!(cfg.max_depth, 8);
}
