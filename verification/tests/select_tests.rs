use lighting_overlay::info::{DepthIndexedSet, LightingInfo, ZLighting};

fn grid(alpha: u8) -> ZLighting {
    vec![vec![Some(alpha)]]
}

#[test]
fn single_grid_answers_every_depth() {
    let set = DepthIndexedSet::new(vec![(3, grid(10))]).unwrap();
    assert_eq!(set.select(None), Some(&grid(10)));
    assert_eq!(set.select(Some(3)), Some(&grid(10)));
    assert_eq!(set.select(Some(0)), Some(&grid(10)));
    assert_eq!(set.select(Some(250)), Some(&grid(10)));
}

#[test]
fn multi_grid_needs_a_present_key() {
    let set = DepthIndexedSet::new(vec![(0, grid(1)), (1, grid(2))]).unwrap();
    assert_eq!(set.select(None), None);
    assert_eq!(set.select(Some(5)), None);
    assert_eq!(set.select(Some(0)), Some(&grid(1)));
    assert_eq!(set.select(Some(1)), Some(&grid(2)));
}

#[test]
fn duplicate_depth_keys_are_refused() {
    assert!(DepthIndexedSet::new(vec![(7, grid(1)), (7, grid(2))]).is_none());
    assert!(DepthIndexedSet::new(vec![]).is_some());
}

#[test]
fn empty_set_has_no_grid() {
    let set = DepthIndexedSet::new(vec![]).unwrap();
    assert_eq!(set.select(None), None);
    assert_eq!(set.select(Some(0)), None);
}

#[test]
fn positional_info_offsets_depths_by_one() {
    let info = LightingInfo(vec![grid(0), grid(1), grid(2)]);
    assert_eq!(info.get_info_for_z(None), Some(&grid(0)));
    assert_eq!(info.get_info_for_z(Some(0)), Some(&grid(1)));
    assert_eq!(info.get_info_for_z(Some(1)), Some(&grid(2)));
    assert_eq!(info.get_info_for_z(Some(2)), None);
    assert_eq!(info.get_info_for_z(Some(255)), None);
}

#[test]
fn empty_info_has_no_grid() {
    let info = LightingInfo(vec![]);
    assert_eq!(info.get_info_for_z(None), None);
    assert_eq!(info.get_info_for_z(Some(0)), None);
}
