use neon_compiler::sysroot::Sysroot;

#[test]
fn directories_under_the_root() {
    let s = Sysroot::at("/opt/neon".to_string());
    assert_eq!(s.root().as_str(), "/opt/neon");
    assert_eq!(s.lib_dir(), "/opt/neon/lib");
    assert_eq!(s.stdlib(), "/opt/neon/stdlib");
    let t = Sysroot::at("/opt/neon/".to_string());
    assert_eq!(t.lib_dir(), "/opt/neon/lib");
    assert_eq!(Sysroot::at(String::new()).stdlib(), "stdlib");
}
