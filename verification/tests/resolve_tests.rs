use wbt::catalog::{Catalog, Package};
use wbt::errors::FatalError;
use wbt::index::CatalogIndex;

fn pkg(id: &str, deps: &[&str]) -> Package {
    Package {
        id: id.to_string(),
        language: None,
        chip: None,
        product_arch: None,
        machine_arch: None,
        dependencies: deps.iter().map(|d| d.to_string()).collect(),
        payloads: Vec::new(),
    }
}

fn ids_of(packages: &[Package]) -> Vec<String> {
    packages.iter().map(|p| p.id.clone()).collect()
}

#[test]
fn index_drops_other_locales_and_architectures() {
    let mut french = pkg("F", &[]);
    french.language = Some("fr-FR".to_string());
    let mut arm = pkg("M", &[]);
    arm.chip = Some("arm64".to_string());
    let catalog = Catalog { packages: vec![pkg("A", &[]), french, arm] };
    let (index, dups) = CatalogIndex::new(&catalog);
    assert!(index.get_package("A").is_some());
    assert!(index.get_package("F").is_none());
    assert!(index.get_package("M").is_none());
    assert!(dups.is_empty());
}

#[test]
fn index_keeps_first_seen_duplicate_and_records_warning() {
    let first = pkg("D", &["Dep.Of.First"]);
    let second = pkg("D", &["Dep.Of.Second"]);
    let catalog = Catalog { packages: vec![first, second] };
    let (index, dups) = CatalogIndex::new(&catalog);
    let kept = index.get_package("D").unwrap();
    assert_eq!(kept.dependencies, vec!["Dep.Of.First".to_string()]);
    assert_eq!(dups, vec!["D".to_string()]);
}

#[test]
fn duplicate_hidden_behind_ineligible_entry_still_warns() {
    let mut french = pkg("D", &[]);
    french.language = Some("fr-FR".to_string());
    let catalog = Catalog { packages: vec![french, pkg("D", &["X"]), pkg("D", &["Y"])] };
    let (index, dups) = CatalogIndex::new(&catalog);
    let kept = index.get_package("D").unwrap();
    assert_eq!(kept.dependencies, vec!["X".to_string()]);
    assert_eq!(dups, vec!["D".to_string()]);
}

#[test]
fn closure_includes_transitive_dependencies() {
    let catalog = Catalog {
        packages: vec![pkg("A", &["B"]), pkg("B", &["C"]), pkg("C", &[])],
    };
    let (index, _) = CatalogIndex::new(&catalog);
    let (packages, missing) = index.get_packages_with_dependencies(&vec!["A".to_string()]);
    assert_eq!(ids_of(&packages), vec!["A", "B", "C"]);
    assert!(missing.is_empty());
}

#[test]
fn resolving_twice_adds_nothing() {
    let catalog = Catalog {
        packages: vec![pkg("A", &["B"]), pkg("B", &["A", "C"]), pkg("C", &[])],
    };
    let (index, _) = CatalogIndex::new(&catalog);
    let once = index.find_recursively_dependencies(&vec!["A".to_string()]);
    let mut twice = index.find_recursively_dependencies(&once);
    let mut once_sorted = once.clone();
    once_sorted.sort();
    twice.sort();
    assert_eq!(once_sorted, twice);
}

#[test]
fn resolved_list_is_strictly_sorted_without_duplicates() {
    let catalog = Catalog {
        packages: vec![
            pkg("Zeta", &["Alpha", "Midway"]),
            pkg("Alpha", &["Zeta"]),
            pkg("Midway", &[]),
        ],
    };
    let (index, _) = CatalogIndex::new(&catalog);
    let (packages, _) = index.get_packages_with_dependencies(&vec![
        "Zeta".to_string(),
        "Zeta".to_string(),
    ]);
    let ids = ids_of(&packages);
    assert_eq!(ids, vec!["Alpha", "Midway", "Zeta"]);
    for w in ids.windows(2) {
        assert!(w[0] < w[1]);
    }
}

#[test]
fn unknown_closure_ids_are_reported_not_fatal() {
    let catalog = Catalog { packages: vec![pkg("A", &["Ghost.Package"])] };
    let (index, _) = CatalogIndex::new(&catalog);
    let (packages, missing) = index.get_packages_with_dependencies(&vec!["A".to_string()]);
    assert_eq!(ids_of(&packages), vec!["A"]);
    assert_eq!(missing, vec!["Ghost.Package".to_string()]);
}

#[test]
fn find_packages_rejects_unknown_version() {
    let catalog = Catalog { packages: vec![pkg("Microsoft.VC.14.30.Tools", &[])] };
    let r = wbt::toolchain::find_packages_to_download(&catalog, "15.99");
    assert!(matches!(r, Err(FatalError::NoMatchingToolchain)));
}

#[test]
fn find_packages_seeds_from_unfiltered_catalog() {
    let mut localized_seed = pkg("Microsoft.VC.14.30.Tools", &[]);
    localized_seed.language = Some("fr-FR".to_string());
    let catalog = Catalog { packages: vec![localized_seed] };
    let r = wbt::toolchain::find_packages_to_download(&catalog, "14.30").unwrap();
    assert!(r.packages.is_empty());
    assert_eq!(r.missing_ids, vec!["Microsoft.VC.14.30.Tools".to_string()]);
}
