use lighting_overlay::args::{parse_path_arg, TargetError};
use lighting_overlay::naming::{derive_output_name, resolve_files};

#[test]
fn bare_path_has_no_depth() {
    assert_eq!(parse_path_arg("map.png"), Ok(("map.png".to_string(), None)));
    assert_eq!(parse_path_arg("  map.png  "), Ok(("map.png".to_string(), None)));
}

#[test]
fn path_with_depth_suffix() {
    assert_eq!(parse_path_arg("map.png=3"), Ok(("map.png".to_string(), Some(3))));
    assert_eq!(parse_path_arg(" map.png = 12 "), Ok(("map.png".to_string(), Some(12))));
    assert_eq!(parse_path_arg("map.png=+7"), Ok(("map.png".to_string(), Some(7))));
    assert_eq!(parse_path_arg("map.png=007"), Ok(("map.png".to_string(), Some(7))));
    assert_eq!(parse_path_arg("map.png=255"), Ok(("map.png".to_string(), Some(255))));
}

#[test]
fn bad_depth_suffixes_are_refused() {
    assert_eq!(parse_path_arg("map.png=256"), Err(TargetError::BadZLevel));
    assert_eq!(parse_path_arg("map.png=x"), Err(TargetError::BadZLevel));
    assert_eq!(parse_path_arg("map.png="), Err(TargetError::BadZLevel));
    assert_eq!(parse_path_arg("map.png=1.5"), Err(TargetError::BadZLevel));
    assert_eq!(parse_path_arg("map.png=-1"), Err(TargetError::BadZLevel));
}

#[test]
fn only_the_first_equals_splits() {
    assert_eq!(parse_path_arg("a=1=2"), Err(TargetError::BadZLevel));
}

#[test]
fn one_file_for_one_grid_stays() {
    let r = resolve_files(1, vec!["map.png".to_string()]);
    assert_eq!(r, Ok(vec!["map.png".to_string()]));
}

#[test]
fn one_template_expands_per_level() {
    let r = resolve_files(3, vec!["floor_$z.png".to_string()]);
    assert_eq!(
        r,
        Ok(vec![
            "floor_1.png".to_string(),
            "floor_2.png".to_string(),
            "floor_3.png".to_string(),
        ])
    );
}

#[test]
fn template_levels_reach_two_digits() {
    let r = resolve_files(12, vec!["m$z".to_string()]).unwrap();
    assert_eq!(r[0], "m1");
    assert_eq!(r[9], "m10");
    assert_eq!(r[11], "m12");
    // every occurrence of the token is replaced
    let r = resolve_files(2, vec!["$z/m$z.png".to_string()]).unwrap();
    assert_eq!(r, vec!["1/m1.png".to_string(), "2/m2.png".to_string()]);
}

#[test]
fn template_without_token_repeats_the_name() {
    let r = resolve_files(2, vec!["map.png".to_string()]);
    assert_eq!(r, Ok(vec!["map.png".to_string(), "map.png".to_string()]));
}

#[test]
fn matching_counts_stay() {
    let files = vec!["a.png".to_string(), "b.png".to_string()];
    assert_eq!(resolve_files(2, files.clone()), Ok(files));
}

#[test]
fn mismatched_counts_are_refused() {
    let files = vec!["a.png".to_string(), "b.png".to_string(), "c.png".to_string()];
    assert_eq!(resolve_files(2, files), Err(TargetError::CountMismatch));
}

#[test]
fn output_name_is_derived_from_the_stem() {
    assert_eq!(derive_output_name("map"), "map.lighting.png");
    assert_ne!(derive_output_name("map"), "map.png");
    assert_ne!(derive_output_name("map"), "map");
    // a source already carrying the suffix still maps elsewhere
    assert_eq!(derive_output_name("map.lighting"), "map.lighting.lighting.png");
}
