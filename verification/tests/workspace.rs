use koyashi::workspace::{source_root, PackageInfo, Workspace};

#[test]
fn crates_are_ordered_by_name_with_their_sources() {
    let packages = vec![
        PackageInfo {
            name: "zeta".to_string(),
            manifest_dir: "/ws/zeta".to_string(),
        },
        PackageInfo {
            name: "alpha".to_string(),
            manifest_dir: "/ws/alpha/".to_string(),
        },
    ];
    let workspace = Workspace::from_packages("/ws".to_string(), &packages);
    assert_eq!(workspace.root, "/ws");
    assert_eq!(workspace.crates.len(), 2);
    assert_eq!(workspace.crates[0].name, "alpha");
    assert_eq!(workspace.crates[0].src_root, "/ws/alpha/src");
    assert_eq!(workspace.crates[1].name, "zeta");
    assert_eq!(workspace.crates[1].src_root, "/ws/zeta/src");
    assert_eq!(source_root(""), "src");
}
