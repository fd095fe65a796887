use fajar_wasi_p2::version;

#[test]
fn skeleton_version_matches_cargo() {
    assert_eq!(version(), "0.1.0");
}
