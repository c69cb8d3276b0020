use wbt::catalog::Payload;
use wbt::channel::{find_catalog_url, ChannelInfo, ChannelItem};
use wbt::errors::FatalError;

fn payload(name: &str, url: &str) -> Payload {
    Payload { name: name.to_string(), url: url.to_string(), sha256: "00".repeat(32) }
}

fn item(id: &str, payloads: Vec<Payload>) -> ChannelItem {
    ChannelItem { id: id.to_string(), payloads }
}

#[test]
fn finds_catalog_url_in_manifest_item() {
    let channel = ChannelInfo {
        items: vec![
            item("Some.Other.Item", vec![payload("other.json", "https://example.invalid/other")]),
            item(
                "Microsoft.VisualStudio.Manifests.VisualStudio",
                vec![
                    payload("notes.txt", "https://example.invalid/notes"),
                    payload("VisualStudio.vsman", "https://example.invalid/catalog.vsman"),
                ],
            ),
        ],
    };
    assert_eq!(
        find_catalog_url(&channel),
        Ok("https://example.invalid/catalog.vsman".to_string())
    );
}

#[test]
fn missing_manifest_id_is_fatal() {
    let channel = ChannelInfo {
        items: vec![item("Some.Other.Item", vec![payload("VisualStudio.vsman", "https://x")])],
    };
    assert_eq!(find_catalog_url(&channel), Err(FatalError::MissingManifestEntry));
}

#[test]
fn manifest_without_catalog_payload_is_fatal() {
    let channel = ChannelInfo {
        items: vec![item(
            "Microsoft.VisualStudio.Manifests.VisualStudio",
            vec![payload("notes.txt", "https://example.invalid/notes")],
        )],
    };
    assert_eq!(find_catalog_url(&channel), Err(FatalError::MissingManifestEntry));
}
