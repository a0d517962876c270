use core::cmp::Ordering;
use lattice_octree::bounding_box::BoundingBox;
use lattice_octree::entity::OctreeEntity;
use lattice_octree::octree::OctreeNode;
use lattice_octree::ratio::Ratio;
use lattice_octree::ray::point_at;
use lattice_octree::systems::{grab_cursor, place, CursorChange, Placement};
use lattice_octree::vec3::Vec3;

fn unit_at(entity: u64, x: i32, y: i32, z: i32) -> Placement {
    Placement { entity, bound: BoundingBox::from_size(2), translation: Vec3::new(x, y, z) }
}

#[test]
fn insertion_system_indexes_boxes_in_world_space() {
    let mut tree = OctreeNode::new(128, Vec3::new(0, 0, 0));
    tree.insertion_system(&vec![unit_at(1, 10, 10, 10), unit_at(2, -10, 10, 10)]);
    assert_eq!(tree.local_len(), 2);
    assert_eq!(tree.local_at(0).bound, BoundingBox::new(Vec3::splat(9), Vec3::splat(11)));
    assert_eq!(
        tree.intersect(BoundingBox::new(Vec3::new(-11, 9, 9), Vec3::new(-10, 10, 10))),
        vec![2]
    );
}

#[test]
fn removal_system_takes_the_records_out() {
    let mut tree = OctreeNode::new(128, Vec3::new(0, 0, 0));
    let all = vec![unit_at(1, 10, 10, 10), unit_at(2, -10, 10, 10), unit_at(3, 0, 0, 0)];
    tree.insertion_system(&all);
    tree.removal_system(&vec![all[0], all[2]]);
    assert_eq!(tree.local_len(), 1);
    assert_eq!(tree.local_at(0).entity, 2);
    tree.removal_system(&vec![all[1]]);
    assert!(tree.is_empty());
}

#[test]
fn systems_with_nothing_to_do_change_nothing() {
    let mut tree = OctreeNode::new(128, Vec3::new(0, 0, 0));
    tree.insertion_system(&vec![unit_at(1, 10, 10, 10)]);
    tree.insertion_system(&Vec::new());
    tree.removal_system(&Vec::new());
    assert_eq!(tree.local_len(), 1);
}

#[test]
fn place_prefers_the_nearest_box() {
    let mut tree = OctreeNode::new(128, Vec3::new(0, 0, 0));
    tree.insertion_system(&vec![unit_at(1, 20, 0, 0)]);
    let p = place(&tree, Vec3::new(0, 0, 0), Vec3::new(1, 0, 0), Ratio::new(1, 1));
    assert_eq!(p, Some(Vec3::new(18, 0, 0)));
}

#[test]
fn place_falls_back_to_the_edge_of_the_region() {
    let tree = OctreeNode::new(128, Vec3::new(0, 0, 0));
    let p = place(&tree, Vec3::new(0, 0, 0), Vec3::new(0, -1, 0), Ratio::new(1, 1));
    assert_eq!(p, Some(Vec3::new(0, -63, 0)));
}

#[test]
fn place_finds_nothing_outside_the_region() {
    let tree = OctreeNode::new(128, Vec3::new(0, 0, 0));
    let p = place(&tree, Vec3::new(100, 100, 100), Vec3::new(1, 0, 0), Ratio::new(1, 1));
    assert_eq!(p, None);
}

#[test]
fn point_at_follows_the_formula() {
    // origin + dir * (7/2 - 1/4) = (1, 2, 3) + (4, -4, 0) * 13/4
    let p = point_at(
        Vec3::new(1, 2, 3),
        Vec3::new(4, -4, 0),
        &Ratio::new(7, 2),
        &Ratio::new(1, 4),
    );
    assert_eq!(p, Vec3::new(14, -11, 3));
    // (0, 0, 0) + (1, -1, 0) * 1/3 rounds down on each axis.
    let p = point_at(
        Vec3::new(0, 0, 0),
        Vec3::new(1, -1, 0),
        &Ratio::new(1, 3),
        &Ratio::from_int(0),
    );
    assert_eq!(p, Vec3::new(0, -1, 0));
}

#[test]
fn point_at_stays_on_the_lattice() {
    let p = point_at(
        Vec3::new(i32::MAX, i32::MIN, 0),
        Vec3::new(i32::MAX, i32::MIN, 1),
        &Ratio::new(i64::MAX, 1),
        &Ratio::new(i64::MIN, 1),
    );
    assert_eq!(p, Vec3::new(i32::MAX, i32::MIN, i32::MAX));
}

#[test]
fn grab_cursor_decides_by_focus_and_visibility() {
    assert_eq!(grab_cursor(true, true), CursorChange::Grab);
    assert_eq!(grab_cursor(true, false), CursorChange::Keep);
    assert_eq!(grab_cursor(false, false), CursorChange::Release);
    assert_eq!(grab_cursor(false, true), CursorChange::Keep);
}

#[test]
fn records_compare_by_identifier_alone() {
    let a = OctreeEntity::new(1, BoundingBox::from_size(2));
    let b = OctreeEntity::new(1, BoundingBox::from_size(8));
    let c = OctreeEntity::new(2, BoundingBox::from_size(2));
    assert!(a == b);
    assert!(a != c);
    assert!(a < c);
    assert!(c > b);
    assert_eq!(a.partial_cmp(&b), Some(Ordering::Equal));
    assert_eq!(a.partial_cmp(&c), Some(Ordering::Less));
    assert_eq!(c.partial_cmp(&a), Some(Ordering::Greater));
}

#[test]
fn can_index_tells_whether_a_placement_is_valid() {
    assert!(unit_at(1, 10, 10, 10).can_index());
    assert!(!unit_at(1, i32::MAX, 0, 0).can_index());
    let turned = Placement {
        entity: 1,
        bound: BoundingBox { min: Vec3::splat(1), max: Vec3::splat(0) },
        translation: Vec3::splat(0),
    };
    assert!(!turned.can_index());
}

#[test]
fn insertion_system_refuses_kept_identifiers() {
    let mut tree = OctreeNode::new(128, Vec3::new(0, 0, 0));
    tree.insertion_system(&vec![unit_at(1, 10, 10, 10), unit_at(1, -10, 10, 10)]);
    assert_eq!(tree.local_len(), 1);
    assert_eq!(tree.local_at(0).bound, BoundingBox::new(Vec3::splat(9), Vec3::splat(11)));
}
