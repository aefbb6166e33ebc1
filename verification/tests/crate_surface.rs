use oxideav_render::CRATE_NAME;

#[test]
fn crate_name_constant_is_stable() {
    assert_eq!(CRATE_NAME, "oxideav-render");
}
