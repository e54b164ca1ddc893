use dinamika::{
    first_existing, frame_file_name, pick_source, scene_output_dir, source_candidates, SourceCandidate,
};

#[test]
fn output_dir_sits_next_to_source() {
    // Non-existent paths: we test the pure joining logic (fallback to the
    // first candidate — `manifest/source`).
    let dir = scene_output_dir("/proj/crate", "src/main.rs", "demo").into_path_buf();
    assert!(dir.ends_with("outputs/demo") || dir.ends_with("outputs\\demo"));
    // The source directory is src, next to outputs.
    assert!(dir.to_string_lossy().contains("src"));
}

#[test]
fn absolute_source_file_is_used_directly() {
    let dir = scene_output_dir("/ignored", "/abs/scenes/intro.rs", "intro").into_path_buf();
    let s = dir.to_string_lossy().replace('\\', "/");
    assert_eq!(s, "/abs/scenes/outputs/intro");
}

#[test]
fn missing_relative_source_falls_back_to_the_package() {
    let dir = scene_output_dir("/no/such/package", "src/scene_that_does_not_exist.rs", "demo").into_path_buf();
    let s = dir.to_string_lossy().replace('\\', "/");
    assert_eq!(s, "/no/such/package/src/outputs/demo");
}

#[test]
fn first_existing_prefers_the_earliest_existing_candidate() {
    assert_eq!(first_existing(&vec![false, true, true]), 1);
    assert_eq!(first_existing(&vec![true, false]), 0);
    assert_eq!(first_existing(&vec![false, false, false]), 0);
    assert_eq!(first_existing(&vec![false, false, true]), 2);
}

#[test]
fn frame_names_join_the_output_dir() {
    let dir = scene_output_dir("/ignored", "/abs/scenes/intro.rs", "intro").into_path_buf();
    let path = dir.join(frame_file_name(4));
    assert_eq!(path.to_string_lossy().replace('\\', "/"), "/abs/scenes/outputs/intro/000005.png");
}

#[test]
fn candidates_are_tried_package_workspace_then_as_given() {
    assert_eq!(source_candidates(true, true), vec![SourceCandidate::AsGiven]);
    assert_eq!(source_candidates(true, false), vec![SourceCandidate::AsGiven]);
    assert_eq!(source_candidates(false, true), vec![SourceCandidate::InPackage, SourceCandidate::InWorkspace, SourceCandidate::AsGiven]);
    assert_eq!(source_candidates(false, false), vec![SourceCandidate::InPackage, SourceCandidate::AsGiven]);
}

#[test]
fn pick_source_takes_the_first_existing_candidate_else_the_first() {
    assert_eq!(pick_source(false, true, &vec![false, true, true]), SourceCandidate::InWorkspace);
    assert_eq!(pick_source(false, true, &vec![false, false, true]), SourceCandidate::AsGiven);
    assert_eq!(pick_source(false, true, &vec![false, false, false]), SourceCandidate::InPackage);
    assert_eq!(pick_source(false, false, &vec![false, true]), SourceCandidate::AsGiven);
    assert_eq!(pick_source(true, true, &vec![false]), SourceCandidate::AsGiven);
}
