use fatescroll::collection::{
    classify_file_name, is_manifest_name, is_yaml_name, name_stem, normalize_dir, pick_table_files,
    split_parent, FileKind, Picked,
};
use fatescroll::collection::{choose_manifest, import_errors};

#[test]
fn normalize_dir_trims_slashes_and_dot() {
    assert_eq!(normalize_dir("core/"), "core");
    assert_eq!(normalize_dir("core//"), "core");
    assert_eq!(normalize_dir("."), "");
    assert_eq!(normalize_dir("./"), "");
    assert_eq!(normalize_dir("core/deep"), "core/deep");
    assert_eq!(normalize_dir(""), "");
}

#[test]
fn split_parent_at_last_slash() {
    assert_eq!(split_parent("core/oracle.yaml"), ("core".to_string(), "oracle.yaml".to_string()));
    assert_eq!(split_parent("oracle.yaml"), ("".to_string(), "oracle.yaml".to_string()));
    assert_eq!(split_parent("a/b/c.yml"), ("a/b".to_string(), "c.yml".to_string()));
}

#[test]
fn yaml_and_manifest_names() {
    assert!(is_yaml_name("a.yaml"));
    assert!(is_yaml_name("a.yml"));
    assert!(!is_yaml_name("a.json"));
    assert!(!is_yaml_name("yaml"));
    assert!(is_manifest_name("manifest.yaml"));
    assert!(is_manifest_name("other.manifest.yaml"));
    assert!(!is_manifest_name("manifest.yml"));
    assert!(!is_manifest_name("mymanifest.yaml"));
}

#[test]
fn name_stem_drops_last_extension() {
    assert_eq!(name_stem("oracle.yaml"), "oracle");
    assert_eq!(name_stem("a.b.yaml"), "a.b");
    assert_eq!(name_stem("noext"), "noext");
}

#[test]
fn classify_file_names_like_paths_do() {
    assert_eq!(classify_file_name("oracle.yaml"), FileKind::Table("oracle".into()));
    assert_eq!(classify_file_name("oracle.yml"), FileKind::Table("oracle".into()));
    assert_eq!(classify_file_name("a.b.yaml"), FileKind::Table("a.b".into()));
    assert_eq!(classify_file_name("manifest.yaml"), FileKind::Manifest);
    assert_eq!(classify_file_name("x.manifest.yaml"), FileKind::Manifest);
    assert_eq!(classify_file_name("readme.txt"), FileKind::Other);
    assert_eq!(classify_file_name(".yaml"), FileKind::Other);
    assert_eq!(classify_file_name("table.json"), FileKind::Other);
}

#[test]
fn pick_table_files_is_non_recursive_and_reports_unclaimed_yaml() {
    let dirs = vec!["core/".to_string(), "core/deep".to_string()];
    let paths: Vec<String> = [
        "core/oracle.yaml",
        "core/deep/combo.yaml",
        "core/deep/nested/too-deep.yaml",
        "elsewhere/stray.yaml",
        "core/readme.txt",
        "core/other.manifest.yaml",
    ]
    .iter()
    .map(|s| s.to_string())
    .collect();
    let (picked, ignored) = pick_table_files(&dirs, &paths);
    assert_eq!(
        picked,
        vec![
            Picked { file: 0, dir: 0, stem: "oracle".into() },
            Picked { file: 1, dir: 1, stem: "combo".into() },
        ]
    );
    assert_eq!(ignored, vec![2, 3]);
}

#[test]
fn pick_table_files_at_collection_root() {
    let dirs = vec![".".to_string()];
    let paths = vec!["top.yaml".to_string(), "sub/inner.yaml".to_string()];
    let (picked, ignored) = pick_table_files(&dirs, &paths);
    assert_eq!(picked, vec![Picked { file: 0, dir: 0, stem: "top".into() }]);
    assert_eq!(ignored, vec![1]);
}

#[test]
fn collection_import_errors_name_each_bad_pick() {
    let paths = vec!["core/a.yaml".to_string(), "core/b.yaml".to_string(), "core/c.yaml".to_string()];
    let picks = vec![
        Picked { file: 0, dir: 0, stem: "a".to_string() },
        Picked { file: 1, dir: 0, stem: "b".to_string() },
        Picked { file: 2, dir: 0, stem: "c".to_string() },
    ];
    let ids = vec![Ok("a".to_string()), Ok("wrong".to_string()), Err("bad yaml".to_string())];
    assert_eq!(
        import_errors(&paths, &picks, &ids),
        vec![
            "core/b.yaml: table id 'wrong' does not match filename 'b'".to_string(),
            "core/c.yaml: bad yaml".to_string(),
        ]
    );
}

#[test]
fn collection_choose_manifest_needs_exactly_one() {
    assert_eq!(
        choose_manifest(&vec![]),
        Err("No collection found. Provide --collection or run from a collection directory.".to_string())
    );
    assert_eq!(choose_manifest(&vec!["manifest.yaml".to_string()]), Ok(0));
    assert_eq!(
        choose_manifest(&vec!["a.manifest.yaml".to_string(), "manifest.yaml".to_string()]),
        Err("Multiple manifests found: a.manifest.yaml, manifest.yaml. Specify one with --collection <path>.".to_string())
    );
}

#[test]
fn collection_import_and_disk_agree_on_names() {
    for name in ["oracle.yaml", "combo.yml", "a.b.yaml", "manifest.yaml", "x.manifest.yaml", "readme.txt", "YAML", "..yaml"] {
        let picked = is_yaml_name(name) && !is_manifest_name(name);
        match classify_file_name(name) {
            FileKind::Table(stem) => {
                assert!(picked, "{name}");
                assert_eq!(stem, name_stem(name), "{name}");
            }
            _ => assert!(!picked, "{name}"),
        }
    }
    // The hidden file `.yaml` has no extension on disk.
    assert_eq!(classify_file_name(".yaml"), FileKind::Other);
    assert!(is_yaml_name(".yaml"));
}
