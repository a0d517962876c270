use lattice_octree::bounding_box::BoundingBox;
use lattice_octree::octree::OctreeNode;
use lattice_octree::ratio::Ratio;
use lattice_octree::vec3::Vec3;

fn cube(min: i32, max: i32) -> BoundingBox {
    BoundingBox::new(Vec3::splat(min), Vec3::splat(max))
}

fn boxed(min: (i32, i32, i32), max: (i32, i32, i32)) -> BoundingBox {
    BoundingBox::new(Vec3::new(min.0, min.1, min.2), Vec3::new(max.0, max.1, max.2))
}

/// The root used throughout: a cube of side 128 about the origin, so that the
/// center is the origin and the octants are the eight sign combinations.
fn root() -> OctreeNode {
    OctreeNode::new(128, Vec3::new(0, 0, 0))
}

/// A small box well inside the octant on the given sides of the origin.
fn in_octant(x: bool, y: bool, z: bool, at: i32) -> BoundingBox {
    let lo = |positive: bool| if positive { at } else { -at - 2 };
    boxed((lo(x), lo(y), lo(z)), (lo(x) + 2, lo(y) + 2, lo(z) + 2))
}

/// Every identifier kept anywhere in the tree, the root's own first.
fn all_ids(node: &OctreeNode, out: &mut Vec<u64>) {
    for k in 0..node.local_len() {
        out.push(node.local_at(k).entity);
    }
    for i in 0..8 {
        if let Some(leaf) = node.leaf(i) {
            all_ids(leaf, out);
        }
    }
}

/// Whether some node beneath `node` is empty.
fn has_empty_leaf(node: &OctreeNode) -> bool {
    for i in 0..8 {
        if let Some(leaf) = node.leaf(i) {
            if leaf.is_empty() || has_empty_leaf(leaf) {
                return true;
            }
        }
    }
    false
}

/// Whether every record lies in the region of the node that keeps it.
fn lies_inside(node: &OctreeNode) -> bool {
    for k in 0..node.local_len() {
        if !node.local_at(k).bound.within(&node.bound()) {
            return false;
        }
    }
    for i in 0..8 {
        if let Some(leaf) = node.leaf(i) {
            if !lies_inside(leaf) {
                return false;
            }
        }
    }
    true
}

fn leaf_count(node: &OctreeNode) -> usize {
    let mut n = 0;
    for i in 0..8 {
        if node.leaf(i).is_some() {
            n += 1;
        }
    }
    n
}

fn sorted(mut ids: Vec<u64>) -> Vec<u64> {
    ids.sort();
    ids
}

fn value(r: Ratio) -> f64 {
    r.num as f64 / r.den as f64
}

#[test]
fn new_tree_is_empty() {
    let tree = root();
    assert!(tree.is_empty());
    assert_eq!(tree.local_len(), 0);
    assert_eq!(leaf_count(&tree), 0);
    assert_eq!(tree.bound(), cube(-64, 64));
}

#[test]
fn from_bound_keeps_the_region() {
    let tree = OctreeNode::from_bound(boxed((-1, -2, -3), (4, 5, 6)));
    assert_eq!(tree.bound(), boxed((-1, -2, -3), (4, 5, 6)));
    assert!(tree.is_empty());
}

#[test]
fn octant_to_index_weighs_x_y_z() {
    assert_eq!(OctreeNode::octant_to_index(false, false, false), 0);
    assert_eq!(OctreeNode::octant_to_index(false, false, true), 1);
    assert_eq!(OctreeNode::octant_to_index(false, true, false), 2);
    assert_eq!(OctreeNode::octant_to_index(true, false, false), 4);
    assert_eq!(OctreeNode::octant_to_index(true, true, true), 7);
}

// Two boxes that meet at the root's center stay queryable. Coordinates are in
// half units: the region is [(-64,-32,-64), (64,96,64)], the boxes are
// [(-1,-1,-1), (0,0,0)] and [(0,0,0), (1,1,1)], the query is
// [(-0.5,-0.5,-0.5), (0.5,0.5,0.5)].
#[test]
fn boxes_at_the_center_boundary_stay_queryable() {
    let mut tree = OctreeNode::from_bound(boxed((-128, -64, -128), (128, 192, 128)));
    assert!(tree.insert(1, boxed((-2, -2, -2), (0, 0, 0))));
    assert!(tree.insert(2, boxed((0, 0, 0), (2, 2, 2))));
    let found = tree.intersect(boxed((-1, -1, -1), (1, 1, 1)));
    assert_eq!(sorted(found), vec![1, 2]);
}

#[test]
fn five_boxes_in_distinct_octants_all_move_down() {
    let mut tree = root();
    let places = [
        (true, true, true),
        (true, true, false),
        (true, false, true),
        (false, true, true),
        (false, false, false),
    ];
    for (n, (x, y, z)) in places.iter().enumerate() {
        assert!(tree.insert(n as u64 + 1, in_octant(*x, *y, *z, 10)));
    }
    assert_eq!(tree.local_len(), 0);
    assert_eq!(leaf_count(&tree), 5);
    for (n, (x, y, z)) in places.iter().enumerate() {
        let i = OctreeNode::octant_to_index(*x, *y, *z) as usize;
        let leaf = tree.leaf(i).unwrap();
        assert_eq!(leaf.local_len(), 1);
        assert_eq!(leaf.local_at(0).entity, n as u64 + 1);
        assert_eq!(leaf.bound(), tree.bound().get_octant(*x, *y, *z));
    }
    let mut ids = Vec::new();
    all_ids(&tree, &mut ids);
    assert_eq!(sorted(ids), vec![1, 2, 3, 4, 5]);
}

#[test]
fn boxes_in_one_octant_share_a_leaf() {
    let mut tree = root();
    for n in 0..5 {
        assert!(tree.insert(n + 1, in_octant(true, true, true, 4 + 10 * n as i32)));
    }
    assert_eq!(tree.local_len(), 0);
    assert_eq!(leaf_count(&tree), 1);
    let mut ids = Vec::new();
    all_ids(&tree, &mut ids);
    assert_eq!(sorted(ids), vec![1, 2, 3, 4, 5]);
}

#[test]
fn raycast_reports_half_a_unit() {
    // In half units: origin (0,10,0), direction (0,-1,0), box
    // [(-0.5,9,-0.5), (0.5,9.5,0.5)].
    let mut tree = OctreeNode::from_bound(boxed((-128, -64, -128), (128, 192, 128)));
    let target = boxed((-1, 18, -1), (1, 19, 1));
    assert!(tree.insert(7, target));
    let (hit, distance) = tree.raycast(Vec3::new(0, 20, 0), Vec3::new(0, -2, 0)).unwrap();
    assert_eq!(hit, target);
    assert_eq!(value(distance), 0.5);
}

#[test]
fn fewer_than_four_records_stay_at_the_root() {
    let mut tree = root();
    assert!(tree.insert(3, in_octant(true, true, true, 10)));
    assert!(tree.insert(1, in_octant(false, true, true, 10)));
    assert!(tree.insert(2, in_octant(true, false, true, 10)));
    assert_eq!(tree.local_len(), 3);
    assert_eq!(leaf_count(&tree), 0);
    assert_eq!(tree.local_at(0).entity, 1);
    assert_eq!(tree.local_at(1).entity, 2);
    assert_eq!(tree.local_at(2).entity, 3);
}

#[test]
fn insert_refuses_an_identifier_that_is_kept_here() {
    let mut tree = root();
    assert!(tree.insert(1, cube(1, 3)));
    assert!(!tree.insert(1, cube(5, 7)));
    assert_eq!(tree.local_len(), 1);
    assert_eq!(tree.local_at(0).bound, cube(1, 3));
}

#[test]
fn straddling_records_stay_whatever_their_number() {
    let mut tree = root();
    for n in 0..7 {
        assert!(tree.insert(n, cube(-1 - n as i32, 1 + n as i32)));
    }
    assert_eq!(tree.local_len(), 7);
    assert_eq!(leaf_count(&tree), 0);
}

#[test]
fn a_region_that_cannot_be_split_keeps_everything() {
    let mut tree = OctreeNode::from_bound(cube(0, 1));
    for n in 0..6 {
        assert!(tree.insert(n, cube(5 + n as i32, 6 + n as i32)));
    }
    assert_eq!(tree.local_len(), 6);
    assert_eq!(leaf_count(&tree), 0);
}

#[test]
fn many_equal_boxes_end_in_a_node_they_straddle() {
    let mut tree = root();
    for n in 0..9 {
        assert!(tree.insert(n, cube(10, 12)));
    }
    let mut ids = Vec::new();
    all_ids(&tree, &mut ids);
    assert_eq!(sorted(ids), (0..9).collect::<Vec<u64>>());
    assert!(!has_empty_leaf(&tree));
    let found = tree.intersect(cube(10, 12));
    assert_eq!(sorted(found), (0..9).collect::<Vec<u64>>());
}

#[test]
fn insert_then_remove_restores_an_empty_tree() {
    let mut tree = root();
    assert!(tree.insert(1, cube(3, 5)));
    assert!(!tree.is_empty());
    assert!(tree.remove(1, cube(3, 5)));
    assert!(tree.is_empty());
    assert!(tree.intersect(cube(3, 5)).is_empty());
}

#[test]
fn insert_then_remove_restores_the_records() {
    let mut tree = root();
    for n in 0..6 {
        assert!(tree.insert(n, in_octant(n % 2 == 0, n % 3 == 0, true, 8 + n as i32)));
    }
    let mut before = Vec::new();
    all_ids(&tree, &mut before);
    let extra = cube(-3, 3);
    assert!(tree.insert(100, extra));
    assert!(tree.remove(100, extra));
    let mut after = Vec::new();
    all_ids(&tree, &mut after);
    assert_eq!(sorted(before), sorted(after));
    assert!(!tree.is_empty());
}

#[test]
fn remove_of_a_missing_record_changes_nothing() {
    let mut tree = root();
    assert!(tree.insert(1, cube(3, 5)));
    assert!(!tree.remove(2, cube(3, 5)));
    assert_eq!(tree.local_len(), 1);
    assert!(!tree.is_empty());
}

#[test]
fn remove_goes_by_the_path_not_by_the_exact_box() {
    let mut tree = root();
    for n in 0..5 {
        assert!(tree.insert(n, in_octant(true, true, true, 4 + 10 * n as i32)));
    }
    assert!(tree.remove(2, cube(20, 30)));
    let mut ids = Vec::new();
    all_ids(&tree, &mut ids);
    assert_eq!(sorted(ids), vec![0, 1, 3, 4]);
}

// A record that stays at the root because the root keeps fewer than four, while
// the octant that holds its box is present, is not on the path that `remove`
// follows.
#[test]
fn remove_does_not_find_a_record_kept_above_its_octant() {
    let mut tree = root();
    for n in 0..5 {
        assert!(tree.insert(n, in_octant(true, true, true, 4 + 10 * n as i32)));
    }
    assert_eq!(tree.local_len(), 0);
    let late = in_octant(true, true, true, 60);
    assert!(tree.insert(9, late));
    assert_eq!(tree.local_len(), 1);
    assert!(!tree.remove(9, late));
    assert_eq!(tree.local_len(), 1);
}

#[test]
fn removing_the_last_record_of_a_leaf_prunes_it() {
    let mut tree = root();
    let boxes = [
        in_octant(true, true, true, 10),
        in_octant(true, true, false, 10),
        in_octant(true, false, true, 10),
        in_octant(false, true, true, 10),
        in_octant(false, false, false, 10),
    ];
    for (n, b) in boxes.iter().enumerate() {
        assert!(tree.insert(n as u64, *b));
    }
    assert_eq!(leaf_count(&tree), 5);
    assert!(tree.remove(0, boxes[0]));
    assert_eq!(leaf_count(&tree), 4);
    assert!(tree.leaf(7).is_none());
    assert!(!has_empty_leaf(&tree));
    for (n, b) in boxes.iter().enumerate().skip(1) {
        assert!(tree.remove(n as u64, *b));
        assert!(!has_empty_leaf(&tree));
    }
    assert!(tree.is_empty());
}

#[test]
fn no_identifier_is_kept_twice() {
    let mut tree = root();
    for round in 0..3 {
        for n in 0..12u64 {
            let at = 3 + 4 * n as i32;
            let b = in_octant(n % 2 == 0, n % 4 < 2, n % 3 == 0, at);
            if round > 0 {
                tree.remove(n, b);
            }
            tree.insert(n, b);
        }
    }
    let mut ids = Vec::new();
    all_ids(&tree, &mut ids);
    let mut unique = sorted(ids.clone());
    unique.dedup();
    assert_eq!(unique.len(), ids.len());
}

#[test]
fn query_reports_what_lies_along_its_path() {
    let mut tree = root();
    for n in 0..5 {
        assert!(tree.insert(n, in_octant(true, true, true, 4 + 10 * n as i32)));
    }
    assert!(tree.insert(50, cube(-2, 2)));
    let found = tree.intersect(cube(13, 25));
    assert_eq!(sorted(found), vec![1, 2]);
    let found = tree.intersect(cube(1, 5));
    assert_eq!(sorted(found), vec![0, 50]);
}

#[test]
fn query_skips_boxes_that_only_touch() {
    let mut tree = root();
    assert!(tree.insert(1, cube(0, 2)));
    assert!(tree.intersect(cube(2, 4)).is_empty());
    assert_eq!(tree.intersect(cube(1, 4)), vec![1]);
}

// A query box that straddles the center is checked against the root's own
// records and enters no octant.
#[test]
fn query_that_straddles_does_not_descend() {
    let mut tree = root();
    for n in 0..5 {
        assert!(tree.insert(n, in_octant(true, true, true, 4 + 10 * n as i32)));
    }
    assert!(tree.intersect(cube(-1, 30)).is_empty());
}

#[test]
fn query_reports_in_ascending_order_at_a_node() {
    let mut tree = root();
    assert!(tree.insert(9, cube(-1, 1)));
    assert!(tree.insert(4, cube(-2, 2)));
    assert!(tree.insert(6, cube(-3, 3)));
    assert_eq!(tree.intersect(cube(-1, 1)), vec![4, 6, 9]);
}

#[test]
fn raycast_finds_the_nearest_of_several() {
    let mut tree = root();
    assert!(tree.insert(1, boxed((10, -1, -1), (12, 1, 1))));
    assert!(tree.insert(2, boxed((4, -1, -1), (6, 1, 1))));
    assert!(tree.insert(3, boxed((20, -1, -1), (22, 1, 1))));
    let (hit, distance) = tree.raycast(Vec3::new(0, 0, 0), Vec3::new(1, 0, 0)).unwrap();
    assert_eq!(hit, boxed((4, -1, -1), (6, 1, 1)));
    assert_eq!(value(distance), 4.0);
}

#[test]
fn raycast_looks_into_every_octant() {
    let mut tree = root();
    let boxes = [
        in_octant(true, true, true, 10),
        in_octant(true, true, false, 10),
        in_octant(true, false, true, 10),
        in_octant(false, true, true, 10),
        in_octant(false, false, false, 10),
    ];
    for (n, b) in boxes.iter().enumerate() {
        assert!(tree.insert(n as u64, *b));
    }
    assert_eq!(tree.local_len(), 0);
    let (hit, distance) = tree.raycast(Vec3::new(50, 50, 50), Vec3::new(-1, -1, -1)).unwrap();
    assert_eq!(hit, boxes[0]);
    assert_eq!(value(distance), 38.0);
    let (hit, _) = tree.raycast(Vec3::new(0, 0, 0), Vec3::new(-1, -1, -1)).unwrap();
    assert_eq!(hit, boxes[4]);
}

#[test]
fn raycast_keeps_the_first_of_two_equal_hits() {
    let mut tree = root();
    assert!(tree.insert(8, boxed((4, -1, -1), (6, 1, 1))));
    assert!(tree.insert(5, boxed((4, -2, -2), (9, 2, 2))));
    let (hit, distance) = tree.raycast(Vec3::new(0, 0, 0), Vec3::new(1, 0, 0)).unwrap();
    assert_eq!(hit, boxed((4, -2, -2), (9, 2, 2)));
    assert_eq!(value(distance), 4.0);
}

#[test]
fn raycast_that_misses_the_region_finds_nothing() {
    let mut tree = root();
    assert!(tree.insert(1, cube(1, 3)));
    assert!(tree.raycast(Vec3::new(100, 100, 100), Vec3::new(1, 0, 0)).is_none());
    assert!(tree.raycast(Vec3::new(0, 0, 0), Vec3::new(-1, 0, 0)).is_none());
    assert!(tree.raycast(Vec3::new(0, 0, 0), Vec3::new(0, 0, 0)).is_none());
}

#[test]
fn raycast_distance_is_positive_and_the_box_agrees() {
    let mut tree = root();
    for n in 0..8 {
        assert!(tree.insert(n, in_octant(true, n % 2 == 0, true, 3 + 7 * n as i32)));
    }
    let origin = Vec3::new(-60, 1, 30);
    let dir = Vec3::new(3, 0, -1);
    if let Some((hit, distance)) = tree.raycast(origin, dir) {
        assert!(distance.is_positive());
        let again = hit.intersects_ray(origin, dir).unwrap();
        assert_eq!((again.num, again.den), (distance.num, distance.den));
    }
    let (hit, distance) = tree.raycast(Vec3::new(-60, 4, 4), Vec3::new(1, 0, 0)).unwrap();
    assert!(distance.is_positive());
    let again = hit.intersects_ray(Vec3::new(-60, 4, 4), Vec3::new(1, 0, 0)).unwrap();
    assert!(again.same_value(&distance));
}

#[test]
fn raycast_hit_steps_back_along_the_ray() {
    let mut tree = root();
    let target = boxed((10, -4, -4), (20, 4, 4));
    assert!(tree.insert(1, target));
    let origin = Vec3::new(0, 0, 0);
    let dir = Vec3::new(2, 0, 0);
    let (hit, point) = tree.raycast_hit(origin, dir, Ratio::new(1, 2)).unwrap();
    assert_eq!(hit, target);
    assert_eq!(point, Vec3::new(9, 0, 0));
    let (_, point) = tree.raycast_hit(origin, dir, Ratio::from_int(0)).unwrap();
    assert_eq!(point, Vec3::new(10, 0, 0));
}

#[test]
fn raycast_hit_rounds_down() {
    let mut tree = root();
    assert!(tree.insert(1, boxed((-20, -4, -4), (-10, 4, 4))));
    let (_, point) =
        tree.raycast_hit(Vec3::new(0, 0, 0), Vec3::new(-3, 0, 0), Ratio::new(1, 2)).unwrap();
    // The ray enters at x = -10 after 10/3; half a step back is x = -8.5.
    assert_eq!(point, Vec3::new(-9, 0, 0));
}

#[test]
fn raycast_hit_stops_at_the_edge_of_the_lattice() {
    let mut tree = root();
    assert!(tree.insert(1, boxed((10, -4, -4), (20, 4, 4))));
    let (_, point) = tree
        .raycast_hit(Vec3::new(0, 0, 0), Vec3::new(1, 0, 0), Ratio::new(i64::MAX, 1))
        .unwrap();
    assert_eq!(point, Vec3::new(i32::MIN, 0, 0));
}

#[test]
fn raycast_hit_is_none_without_a_hit() {
    let tree = root();
    assert!(tree.raycast_hit(Vec3::new(0, 0, 0), Vec3::new(1, 0, 0), Ratio::new(1, 100)).is_none());
}

// Five boxes in five distinct octants leave the root without a record of its
// own; an identifier among them that is handed in again is refused all the
// same, and stays kept once.
#[test]
fn insert_refuses_an_identifier_kept_in_an_octant() {
    let mut tree = OctreeNode::from_bound(boxed((-64, -32, -64), (64, 96, 64)));
    let boxes = [
        boxed((1, 33, 1), (2, 34, 2)),
        boxed((-2, 33, 1), (-1, 34, 2)),
        boxed((1, 1, 1), (2, 2, 2)),
        boxed((1, 33, -2), (2, 34, -1)),
        boxed((-2, 1, -2), (-1, 2, -1)),
    ];
    for (n, b) in boxes.iter().enumerate() {
        assert!(tree.insert(n as u64 + 1, *b));
    }
    assert_eq!(tree.local_len(), 0);
    assert_eq!(leaf_count(&tree), 5);
    assert!(!tree.insert(1, boxes[0]));
    assert_eq!(tree.local_len(), 0);
    assert_eq!(leaf_count(&tree), 5);
    let mut ids = Vec::new();
    all_ids(&tree, &mut ids);
    assert_eq!(sorted(ids), vec![1, 2, 3, 4, 5]);
    assert!(!tree.insert(3, cube(-1, 1)));
    let mut ids = Vec::new();
    all_ids(&tree, &mut ids);
    assert_eq!(sorted(ids), vec![1, 2, 3, 4, 5]);
}

#[test]
fn inserting_kept_identifiers_never_doubles_them() {
    let mut tree = root();
    for round in 0..4 {
        for n in 0..12u64 {
            let at = 3 + 4 * n as i32 + round;
            let b = in_octant(n % 2 == 0, n % 4 < 2, n % 3 == 0, at);
            assert_eq!(tree.insert(n, b), round == 0);
        }
    }
    let mut ids = Vec::new();
    all_ids(&tree, &mut ids);
    assert_eq!(sorted(ids), (0..12).collect::<Vec<u64>>());
}

#[test]
fn contains_id_looks_into_every_node() {
    let mut tree = root();
    assert!(!tree.contains_id(1));
    for n in 0..5 {
        assert!(tree.insert(n, in_octant(n % 2 == 0, true, n % 3 == 0, 4 + 10 * n as i32)));
    }
    assert!(tree.insert(50, cube(-2, 2)));
    for n in 0..5 {
        assert!(tree.contains_id(n));
    }
    assert!(tree.contains_id(50));
    assert!(!tree.contains_id(5));
    assert!(tree.remove(50, cube(-2, 2)));
    assert!(!tree.contains_id(50));
}

#[test]
fn insert_then_remove_keeps_emptiness_when_the_record_is_missed() {
    let mut tree = root();
    for n in 0..5 {
        assert!(tree.insert(n, in_octant(true, true, true, 4 + 10 * n as i32)));
    }
    let late = in_octant(true, true, true, 60);
    let before = tree.is_empty();
    assert!(tree.insert(9, late));
    assert!(!tree.remove(9, late));
    assert_eq!(tree.is_empty(), before);
}

#[test]
fn records_lie_in_the_region_of_their_node() {
    let mut tree = root();
    for n in 0..20u64 {
        let at = 2 + 3 * n as i32;
        assert!(tree.insert(n, in_octant(n % 2 == 0, n % 4 < 2, n % 3 == 0, at)));
    }
    assert!(lies_inside(&tree));
}

#[test]
fn raycast_finds_the_nearest_in_a_deep_tree() {
    let mut tree = root();
    for n in 0..20u64 {
        let at = 2 + 3 * n as i32;
        assert!(tree.insert(n, in_octant(true, true, true, at)));
    }
    let (hit, distance) = tree.raycast(Vec3::new(-60, 3, 3), Vec3::new(1, 0, 0)).unwrap();
    assert_eq!(hit, in_octant(true, true, true, 2));
    assert_eq!(value(distance), 62.0);
}

#[test]
fn query_reports_each_identifier_once() {
    let mut tree = root();
    for n in 0..20u64 {
        let at = 2 + 3 * n as i32;
        assert!(tree.insert(n, in_octant(true, true, true, at)));
    }
    assert!(tree.insert(30, cube(-3, 70)));
    let found = tree.intersect(cube(1, 63));
    let mut unique = sorted(found.clone());
    unique.dedup();
    assert_eq!(unique.len(), found.len());
    assert!(found.contains(&30));
}
