use fat32_slab::resolve_path;

#[test]
fn chemin_parent_depuis_dir() {
    let r = resolve_path("/DIR", "..");
    assert_eq!(r, "/");
}

#[test]
fn chemin_courant_point_file() {
    let r = resolve_path("/DIR", "./FILE.TXT");
    assert_eq!(r, "/DIR/FILE.TXT");
}

#[test]
fn chemin_absolu_ignore_courant() {
    let r = resolve_path("/DIR", "/AUTRE/XX");
    assert_eq!(r, "/AUTRE/XX");
}
