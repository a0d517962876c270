use lattice_octree::bounding_box::BoundingBox;
use lattice_octree::ratio::Ratio;
use lattice_octree::vec3::{OctantSigns, Vec3};

fn cube(min: i32, max: i32) -> BoundingBox {
    BoundingBox::new(Vec3::splat(min), Vec3::splat(max))
}

fn value(r: Ratio) -> f64 {
    r.num as f64 / r.den as f64
}

#[test]
fn new_keeps_both_corners() {
    let b = BoundingBox::new(Vec3::new(-1, -2, -3), Vec3::new(4, 5, 6));
    assert_eq!(b.min, Vec3::new(-1, -2, -3));
    assert_eq!(b.max, Vec3::new(4, 5, 6));
}

#[test]
fn from_size_is_centered_at_the_origin() {
    let b = BoundingBox::from_size(4);
    assert_eq!(b, cube(-2, 2));
    assert_eq!(b.center(), Vec3::new(0, 0, 0));
}

#[test]
fn from_size_offset_is_centered_at_the_offset() {
    let b = BoundingBox::from_size_offset(128, Vec3::new(0, 32, 0));
    assert_eq!(b.min, Vec3::new(-64, -32, -64));
    assert_eq!(b.max, Vec3::new(64, 96, 64));
    assert_eq!(b.center(), Vec3::new(0, 32, 0));
}

#[test]
fn from_size_offset_with_an_odd_size_keeps_the_side_length() {
    let b = BoundingBox::from_size_offset(5, Vec3::new(10, 10, 10));
    assert_eq!(b.min, Vec3::new(8, 8, 8));
    assert_eq!(b.max, Vec3::new(13, 13, 13));
    assert_eq!(b.x_length(), 5);
    assert_eq!(b.center(), Vec3::new(10, 10, 10));
}

#[test]
fn lengths_are_the_differences_of_the_corners() {
    let b = BoundingBox::new(Vec3::new(-1, -2, -3), Vec3::new(4, 6, 8));
    assert_eq!(b.x_length(), 5);
    assert_eq!(b.y_length(), 8);
    assert_eq!(b.z_length(), 11);
    assert_eq!(b.length(), (5, 8, 11));
}

#[test]
fn lengths_of_the_whole_lattice_fit() {
    let b = cube(i32::MIN, i32::MAX);
    assert_eq!(b.x_length(), u32::MAX);
    assert_eq!(b.center(), Vec3::splat(-1));
}

#[test]
fn center_rounds_down() {
    let b = BoundingBox::new(Vec3::new(0, -3, 1), Vec3::new(3, 0, 1));
    assert_eq!(b.center_x(), 1);
    assert_eq!(b.center_y(), -2);
    assert_eq!(b.center_z(), 1);
    assert_eq!(b.center(), Vec3::new(1, -2, 1));
}

#[test]
fn can_split_needs_a_side_longer_than_one_step() {
    assert!(cube(0, 2).can_split());
    assert!(BoundingBox::new(Vec3::new(0, 0, 0), Vec3::new(1, 1, 2)).can_split());
    assert!(!cube(0, 1).can_split());
    assert!(!cube(5, 5).can_split());
}

#[test]
fn octants_classifies_each_axis() {
    let b = BoundingBox::new(Vec3::new(1, -5, 2), Vec3::new(3, -1, 4));
    assert_eq!(b.octants(), Some(OctantSigns::new(true, false, true)));
    assert_eq!(cube(-3, -1).octants(), Some(OctantSigns::new(false, false, false)));
}

#[test]
fn octants_is_none_when_any_axis_straddles() {
    let b = BoundingBox::new(Vec3::new(1, -1, 2), Vec3::new(3, 1, 4));
    assert_eq!(b.octants(), None);
}

#[test]
fn octants_treats_zero_as_straddling() {
    assert_eq!(cube(0, 2).octants(), None);
    assert_eq!(cube(-2, 0).octants(), None);
    assert_eq!(cube(0, 0).octants(), None);
}

#[test]
fn octants_about_moves_the_split_point() {
    let b = cube(5, 7);
    assert_eq!(b.octants_about(Vec3::splat(4)), Some(OctantSigns::new(true, true, true)));
    assert_eq!(b.octants_about(Vec3::splat(8)), Some(OctantSigns::new(false, false, false)));
    assert_eq!(b.octants_about(Vec3::splat(5)), None);
    assert_eq!(b.octants_about(Vec3::splat(6)), None);
}

#[test]
fn get_octant_shares_the_center_as_a_corner() {
    let b = cube(-4, 4);
    assert_eq!(b.get_octant(true, true, true), cube(0, 4));
    assert_eq!(b.get_octant(false, false, false), cube(-4, 0));
    assert_eq!(
        b.get_octant(true, false, true),
        BoundingBox::new(Vec3::new(0, -4, 0), Vec3::new(4, 0, 4))
    );
}

#[test]
fn get_octant_is_one_eighth_of_an_even_box() {
    let b = cube(-4, 4);
    let o = b.get_octant(false, true, false);
    assert_eq!(o.x_length() * 2, b.x_length());
    assert_eq!(o.y_length() * 2, b.y_length());
    assert_eq!(o.z_length() * 2, b.z_length());
}

#[test]
fn intersects_needs_overlap_on_every_axis() {
    assert!(cube(0, 2).intersects(&cube(1, 3)));
    assert!(cube(1, 3).intersects(&cube(0, 2)));
    let beside = BoundingBox::new(Vec3::new(1, 1, 5), Vec3::new(3, 3, 6));
    assert!(!cube(0, 2).intersects(&beside));
}

#[test]
fn touching_boxes_do_not_intersect() {
    assert!(!cube(0, 1).intersects(&cube(1, 2)));
    assert!(!cube(1, 2).intersects(&cube(0, 1)));
}

#[test]
fn overlaps_point_leaves_the_boundary_out() {
    let b = cube(0, 4);
    assert!(b.overlaps_point(Vec3::new(1, 2, 3)));
    assert!(!b.overlaps_point(Vec3::new(0, 2, 3)));
    assert!(!b.overlaps_point(Vec3::new(1, 4, 3)));
}

// A point beyond the greatest corner is outside: the test is the one a reader
// expects of "inside", with the same strictness as `intersects`.
#[test]
fn overlaps_point_rejects_a_point_beyond_the_box() {
    let b = cube(0, 4);
    assert!(!b.overlaps_point(Vec3::new(5, 5, 5)));
    assert!(!b.overlaps_point(Vec3::new(-1, -1, -1)));
}

#[test]
fn ray_enters_a_box_ahead() {
    let b = BoundingBox::new(Vec3::new(-1, 18, -1), Vec3::new(1, 19, 1));
    let hit = b.intersects_ray(Vec3::new(0, 20, 0), Vec3::new(0, -2, 0)).unwrap();
    assert_eq!(value(hit), 0.5);
    assert_eq!((hit.num, hit.den), (1, 2));
}

#[test]
fn ray_from_inside_reports_the_exit() {
    let b = cube(-2, 2);
    let hit = b.intersects_ray(Vec3::new(0, 0, 0), Vec3::new(1, 0, 0)).unwrap();
    assert_eq!(value(hit), 2.0);
}

#[test]
fn ray_misses_a_box_behind() {
    let b = cube(-2, 2);
    assert!(b.intersects_ray(Vec3::new(5, 0, 0), Vec3::new(1, 0, 0)).is_none());
}

#[test]
fn ray_misses_a_box_beside() {
    let b = cube(-2, 2);
    assert!(b.intersects_ray(Vec3::new(-5, 3, 0), Vec3::new(1, 0, 0)).is_none());
    assert!(b.intersects_ray(Vec3::new(-5, 0, 0), Vec3::new(1, 2, 0)).is_none());
}

#[test]
fn ray_with_a_zero_component_does_not_fail() {
    let b = cube(-2, 2);
    let hit = b.intersects_ray(Vec3::new(-5, 1, -1), Vec3::new(3, 0, 0)).unwrap();
    assert_eq!(value(hit), 1.0);
}

#[test]
fn ray_without_direction_hits_nothing() {
    let b = cube(-2, 2);
    assert!(b.intersects_ray(Vec3::new(0, 0, 0), Vec3::new(0, 0, 0)).is_none());
}

#[test]
fn ray_distance_counts_in_multiples_of_the_direction() {
    let b = cube(4, 6);
    let one = b.intersects_ray(Vec3::new(0, 5, 5), Vec3::new(1, 0, 0)).unwrap();
    let two = b.intersects_ray(Vec3::new(0, 5, 5), Vec3::new(2, 0, 0)).unwrap();
    assert_eq!(value(one), 4.0);
    assert_eq!(value(two), 2.0);
}

#[test]
fn ray_along_a_diagonal_takes_the_latest_entry() {
    let b = BoundingBox::new(Vec3::new(2, 4, 0), Vec3::new(10, 10, 10));
    let hit = b.intersects_ray(Vec3::new(0, 0, 5), Vec3::new(1, 1, 0)).unwrap();
    assert_eq!(value(hit), 4.0);
}

#[test]
fn translate_moves_both_corners() {
    let b = cube(0, 2).translate(Vec3::new(1, -2, 3));
    assert_eq!(b.min, Vec3::new(1, -2, 3));
    assert_eq!(b.max, Vec3::new(3, 0, 5));
    let back = b.translate_back(Vec3::new(1, -2, 3));
    assert_eq!(back, cube(0, 2));
}

#[test]
fn operators_move_the_box() {
    let b = cube(0, 2);
    assert_eq!(b + Vec3::new(1, 2, 3), BoundingBox::new(Vec3::new(1, 2, 3), Vec3::new(3, 4, 5)));
    assert_eq!(b - Vec3::new(1, 2, 3), BoundingBox::new(Vec3::new(-1, -2, -3), Vec3::new(1, 0, -1)));
    assert_eq!(b + 5, cube(5, 7));
    assert_eq!(b - 5, cube(-5, -3));
}

#[test]
fn octant_codes_and_signs_agree() {
    assert_eq!(OctantSigns::new(false, false, false).index(), 0);
    assert_eq!(OctantSigns::new(false, false, true).index(), 1);
    assert_eq!(OctantSigns::new(false, true, false).index(), 2);
    assert_eq!(OctantSigns::new(true, false, false).index(), 4);
    assert_eq!(OctantSigns::new(true, true, true).index(), 7);
    for i in 0..8usize {
        assert_eq!(OctantSigns::from_index(i).index(), i);
    }
}

#[test]
fn ratios_compare_by_value() {
    let half = Ratio::new(1, 2);
    let two_quarters = Ratio::new(2, 4);
    let third = Ratio::new(1, 3);
    assert!(half.same_value(&two_quarters));
    assert!(third.less_than(&half));
    assert!(!half.less_than(&two_quarters));
    assert!(half.at_most(&two_quarters));
    assert!(!half.at_most(&third));
    assert!(Ratio::new(-1, 3).less_than(&Ratio::from_int(0)));
    assert!(half.is_positive());
    assert!(!Ratio::from_int(0).is_positive());
    assert!(!Ratio::new(-5, 7).is_positive());
}

#[test]
fn ratios_compare_at_the_limits() {
    let big = Ratio::new(i64::MAX, 1);
    let small = Ratio::new(i64::MIN, u32::MAX);
    assert!(small.less_than(&big));
    assert!(!big.less_than(&small));
}

#[test]
fn try_new_refuses_a_box_turned_inside_out() {
    assert_eq!(BoundingBox::try_new(Vec3::splat(0), Vec3::splat(2)), Some(cube(0, 2)));
    assert_eq!(BoundingBox::try_new(Vec3::splat(2), Vec3::splat(2)), Some(cube(2, 2)));
    assert_eq!(BoundingBox::try_new(Vec3::new(0, 3, 0), Vec3::new(2, 2, 2)), None);
    assert_eq!(BoundingBox::try_new(Vec3::new(0, 0, 5), Vec3::new(2, 2, 4)), None);
}

#[test]
fn is_well_formed_compares_the_corners() {
    assert!(cube(0, 2).is_well_formed());
    let turned = BoundingBox { min: Vec3::splat(3), max: Vec3::splat(2) };
    assert!(!turned.is_well_formed());
}

#[test]
fn can_translate_tells_whether_the_box_stays_on_the_lattice() {
    let b = cube(-10, 10);
    assert!(b.can_translate(Vec3::new(5, -5, 0)));
    assert!(b.can_translate(Vec3::splat(i32::MAX - 10)));
    assert!(!b.can_translate(Vec3::new(i32::MAX - 9, 0, 0)));
    assert!(!b.can_translate(Vec3::new(0, i32::MIN, 0)));
    assert!(b.can_translate_back(Vec3::splat(-(i32::MAX - 10))));
    assert!(!b.can_translate_back(Vec3::new(0, 0, i32::MIN)));
    assert!(!b.can_translate_back(Vec3::new(i32::MAX, 0, 0)));
}

#[test]
fn can_hold_size_tells_whether_the_cube_stays_on_the_lattice() {
    assert!(BoundingBox::can_hold_size(128, Vec3::new(0, 32, 0)));
    assert!(BoundingBox::can_hold_size(u32::MAX - 1, Vec3::new(0, 0, 0)));
    assert!(!BoundingBox::can_hold_size(u32::MAX, Vec3::new(0, 0, 0)));
    assert!(!BoundingBox::can_hold_size(4, Vec3::new(i32::MAX, 0, 0)));
    assert!(!BoundingBox::can_hold_size(4, Vec3::new(0, i32::MIN, 0)));
}

#[test]
fn within_allows_a_shared_boundary() {
    assert!(cube(0, 2).within(&cube(0, 4)));
    assert!(cube(0, 4).within(&cube(0, 4)));
    assert!(!cube(-1, 2).within(&cube(0, 4)));
    assert!(!cube(1, 5).within(&cube(0, 4)));
}
