use wbt::catalog::{Catalog, Package, Payload};
use wbt::digest::{bytes_match_digest, fetch_outcome, payload_satisfied};
use wbt::download::{check_unique_names, flatten_payloads, plan_fetches, post_verify};
use wbt::errors::FatalError;

const SHA256_OF_ABC: &str = "ba7816bf8f01cfea414140de5dae2223b00361a396177a9cb410ff61f20015ad";

fn payload(name: &str, sha256: &str) -> Payload {
    Payload {
        name: name.to_string(),
        url: format!("https://example.invalid/{name}"),
        sha256: sha256.to_string(),
    }
}

fn pkg_with_payloads(id: &str, deps: &[&str], payloads: Vec<Payload>) -> Package {
    Package {
        id: id.to_string(),
        language: None,
        chip: None,
        product_arch: None,
        machine_arch: None,
        dependencies: deps.iter().map(|d| d.to_string()).collect(),
        payloads,
    }
}

#[test]
fn digest_matches_known_vector() {
    assert!(bytes_match_digest(b"abc", &SHA256_OF_ABC.to_string()));
    assert!(!bytes_match_digest(b"abd", &SHA256_OF_ABC.to_string()));
    assert!(!bytes_match_digest(b"abc", &"00".repeat(32)));
}

#[test]
fn probe_treats_corrupt_file_like_absent_file() {
    let p = payload("a.vsix", SHA256_OF_ABC);
    let good = b"abc".to_vec();
    let corrupt = b"abx".to_vec();
    assert!(payload_satisfied(Some(&good), &p));
    assert!(!payload_satisfied(Some(&corrupt), &p));
    assert!(!payload_satisfied(None, &p));
}

#[test]
fn refetched_mismatch_is_fatal() {
    let p = payload("a.vsix", SHA256_OF_ABC);
    assert_eq!(fetch_outcome(&b"abc".to_vec(), &p), Ok(()));
    assert_eq!(fetch_outcome(&b"garbage".to_vec(), &p), Err(FatalError::IntegrityError));
}

#[test]
fn duplicate_payload_names_are_fatal_before_any_io() {
    let batch = vec![payload("same.vsix", &"11".repeat(32)), payload("same.vsix", &"22".repeat(32))];
    assert_eq!(check_unique_names(&batch), Err(FatalError::DuplicatePayloadName));
    let distinct = vec![payload("a.vsix", &"11".repeat(32)), payload("b.vsix", &"22".repeat(32))];
    assert_eq!(check_unique_names(&distinct), Ok(()));
}

#[test]
fn fully_satisfied_batch_plans_no_fetches() {
    let batch = vec![payload("a.vsix", &"11".repeat(32)), payload("b.vsix", &"22".repeat(32))];
    let plan = plan_fetches(&batch, &vec![true, true]);
    assert!(plan.is_empty());
}

#[test]
fn unsatisfied_payloads_are_planned_in_order() {
    let batch = vec![
        payload("a.vsix", &"11".repeat(32)),
        payload("b.vsix", &"22".repeat(32)),
        payload("c.vsix", &"33".repeat(32)),
    ];
    let plan = plan_fetches(&batch, &vec![false, true, false]);
    assert_eq!(plan, vec![0, 2]);
}

#[test]
fn post_verification_failure_is_fatal() {
    assert_eq!(post_verify(&vec![true, true]), Ok(()));
    assert_eq!(post_verify(&vec![true, false]), Err(FatalError::IntegrityError));
    assert_eq!(post_verify(&Vec::new()), Ok(()));
}

#[test]
fn end_to_end_resolution_and_flatten_order() {
    let p1 = payload("tools.vsix", &"11".repeat(32));
    let p2 = payload("crt.vsix", &"22".repeat(32));
    let catalog = Catalog {
        packages: vec![
            pkg_with_payloads(
                "Microsoft.VC.14.30.Tools",
                &["Microsoft.VC.14.30.CRT"],
                vec![p1],
            ),
            pkg_with_payloads("Microsoft.VC.14.30.CRT", &[], vec![p2]),
        ],
    };
    let resolution = wbt::toolchain::find_packages_to_download(&catalog, "14.30").unwrap();
    let ids: Vec<&str> = resolution.packages.iter().map(|p| p.id.as_str()).collect();
    assert_eq!(ids, vec!["Microsoft.VC.14.30.CRT", "Microsoft.VC.14.30.Tools"]);
    assert!(resolution.missing_ids.is_empty());
    assert!(resolution.duplicate_ids.is_empty());

    let batch = flatten_payloads(&resolution.packages);
    let names: Vec<&str> = batch.iter().map(|p| p.name.as_str()).collect();
    assert_eq!(names, vec!["crt.vsix", "tools.vsix"]);
    assert_eq!(check_unique_names(&batch), Ok(()));
}
