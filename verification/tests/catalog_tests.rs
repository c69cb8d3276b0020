use wbt::catalog::{Catalog, Package, Payload};

fn pkg(id: &str) -> Package {
    Package {
        id: id.to_string(),
        language: None,
        chip: None,
        product_arch: None,
        machine_arch: None,
        dependencies: Vec::new(),
        payloads: Vec::new(),
    }
}

#[test]
fn payload_path_joins_dir_and_name() {
    let p = Payload {
        name: "tool.vsix".to_string(),
        url: "https://example.invalid/tool.vsix".to_string(),
        sha256: "00".repeat(32),
    };
    assert_eq!(p.path("downloads"), "downloads/tool.vsix");
}

#[test]
fn is_english_accepts_unset_and_en_us() {
    let mut p = pkg("A");
    assert!(p.is_english());
    p.language = Some("en-US".to_string());
    assert!(p.is_english());
    p.language = Some("fr-FR".to_string());
    assert!(!p.is_english());
}

#[test]
fn is_x64_checks_all_three_axes() {
    let mut p = pkg("A");
    assert!(p.is_x64());
    p.chip = Some("x64".to_string());
    p.product_arch = Some("x64".to_string());
    p.machine_arch = Some("x64".to_string());
    assert!(p.is_x64());
    p.chip = Some("arm64".to_string());
    assert!(!p.is_x64());
    p.chip = Some("x64".to_string());
    p.machine_arch = Some("arm64".to_string());
    assert!(!p.is_x64());
}

#[test]
fn is_toolchain_matches_prefix() {
    assert!(pkg("Microsoft.VC.14.30.Tools").is_toolchain());
    assert!(!pkg("Microsoft.VisualStudio.Thing").is_toolchain());
}

#[test]
fn is_matching_toolchain_version_matches_prefix_and_version() {
    let p = pkg("Microsoft.VC.14.30.Tools");
    assert!(p.is_matching_toolchain_version("14.30"));
    assert!(!p.is_matching_toolchain_version("14.29"));
}

#[test]
fn toolchain_version_takes_two_components() {
    assert_eq!(
        pkg("Microsoft.VC.14.30.Tools").toolchain_version(),
        Some("14.30".to_string())
    );
    assert_eq!(
        pkg("Microsoft.VC.14.29.CRT.x64").toolchain_version(),
        Some("14.29".to_string())
    );
    assert_eq!(pkg("Microsoft.VC.14").toolchain_version(), Some("14".to_string()));
    assert_eq!(pkg("Microsoft.VC.").toolchain_version(), Some("".to_string()));
    assert_eq!(pkg("Microsoft.VisualStudio.Thing").toolchain_version(), None);
}

#[test]
fn id_sort_is_lexicographic_ascending() {
    let ids = vec![
        "Microsoft.VC.14.30.Tools".to_string(),
        "Microsoft.VC.14.29.CRT".to_string(),
        "Aaa".to_string(),
        "Ab".to_string(),
    ];
    let sorted = wbt::sort::sort_ids(ids);
    assert_eq!(
        sorted,
        vec![
            "Aaa".to_string(),
            "Ab".to_string(),
            "Microsoft.VC.14.29.CRT".to_string(),
            "Microsoft.VC.14.30.Tools".to_string(),
        ]
    );
}

#[test]
fn list_packages_keeps_only_unset_locale() {
    let mut tagged = pkg("B");
    tagged.language = Some("en-US".to_string());
    let catalog = Catalog { packages: vec![pkg("A"), tagged, pkg("C")] };
    let listed = wbt::toolchain::packages_without_locale(&catalog);
    let ids: Vec<&str> = listed.iter().map(|p| p.id.as_str()).collect();
    assert_eq!(ids, vec!["A", "C"]);
}

#[test]
fn list_toolchains_sorted_and_deduplicated() {
    let catalog = Catalog {
        packages: vec![
            pkg("Microsoft.VC.14.30.Tools"),
            pkg("Microsoft.VC.14.29.CRT"),
            pkg("Microsoft.VC.14.30.CRT"),
            pkg("Unrelated.Package"),
        ],
    };
    let versions = wbt::toolchain::toolchain_versions(&catalog);
    assert_eq!(versions, vec!["14.29".to_string(), "14.30".to_string()]);
}
