//! The channel descriptor: the top-level remote document naming where the
//! catalog document lives, and the lookup of the catalog's URL in it.

use vstd::prelude::*;
use crate::catalog::{Payload, PayloadView};
use crate::errors::FatalError;
use crate::strings::str_eq;

verus! {

/// One entry of the channel document, a named group of payloads.
pub struct ChannelItem {
    pub id: String,
    pub payloads: Vec<Payload>,
}

/// Mathematical image of a `ChannelItem`.
#[verifier::ext_equal]
pub ghost struct ChannelItemView {
    pub id: Seq<char>,
    pub payloads: Seq<PayloadView>,
}

impl View for ChannelItem {
    type V = ChannelItemView;

    open spec fn view(&self) -> ChannelItemView {
        ChannelItemView {
            id: self.id@,
            payloads: self.payloads@.map_values(|p: Payload| p@),
        }
    }
}

/// The channel document: the ordered list of its entries.
pub struct ChannelInfo {
    pub items: Vec<ChannelItem>,
}

impl View for ChannelInfo {
    type V = Seq<ChannelItemView>;

    open spec fn view(&self) -> Seq<ChannelItemView> {
        self.items@.map_values(|it: ChannelItem| it@)
    }
}

/// The id of the channel entry that carries the catalog manifest.
pub open spec fn spec_manifest_id() -> Seq<char> {
    "Microsoft.VisualStudio.Manifests.VisualStudio"@
}

/// The fixed file name of the catalog document among the manifest's payloads.
pub open spec fn spec_catalog_name() -> Seq<char> {
    "VisualStudio.vsman"@
}

/// The URL of the first payload named like the catalog document, if any.
pub open spec fn payload_url_of(ps: Seq<PayloadView>) -> Option<Seq<char>>
    decreases ps.len(),
{
    if ps.len() == 0 {
        None
    } else if ps[0].name == spec_catalog_name() {
        Some(ps[0].url)
    } else {
        payload_url_of(ps.skip(1))
    }
}

/// The catalog document's URL: in the first channel entry that bears the
/// manifest id, the URL of the first payload named like the catalog
/// document; `None` when either is absent.
pub open spec fn catalog_url_of(items: Seq<ChannelItemView>) -> Option<Seq<char>>
    decreases items.len(),
{
    if items.len() == 0 {
        None
    } else if items[0].id == spec_manifest_id() {
        payload_url_of(items[0].payloads)
    } else {
        catalog_url_of(items.skip(1))
    }
}

fn find_payload_url(payloads: &Vec<Payload>) -> (r: Option<String>)
    ensures
        match r {
            Some(url) => payload_url_of(payloads@.map_values(|p: Payload| p@)) == Some(url@),
            None => payload_url_of(payloads@.map_values(|p: Payload| p@)) is None,
        },
{
    let ghost ps = payloads@.map_values(|p: Payload| p@);
    let n = payloads.len();
    let mut i: usize = 0;
    proof {
        assert(ps.skip(0) =~= ps);
    }
    while i < n
        invariant
            i <= n,
            n == payloads@.len(),
            ps == payloads@.map_values(|p: Payload| p@),
            payload_url_of(ps) == payload_url_of(ps.skip(i as int)),
        decreases n - i,
    {
        proof {
            assert(ps.skip(i as int)[0] == ps[i as int]);
            assert(ps.skip(i as int).skip(1) =~= ps.skip(i + 1));
        }
        if str_eq(payloads[i].name.as_str(), "VisualStudio.vsman") {
            return Some(payloads[i].url.clone());
        }
        i = i + 1;
    }
    proof {
        assert(ps.skip(n as int) =~= Seq::<PayloadView>::empty());
    }
    None
}

/// The catalog document's URL, read from the channel document: the first
/// entry with the fixed manifest id must hold a payload with the catalog's
/// fixed file name; a channel missing either is fatal.
pub fn find_catalog_url(channel: &ChannelInfo) -> (r: Result<String, FatalError>)
    ensures
        match r {
            Ok(url) => catalog_url_of(channel@) == Some(url@),
            Err(e) => catalog_url_of(channel@) is None && e == FatalError::MissingManifestEntry,
        },
{
    let ghost items = channel@;
    let n = channel.items.len();
    let mut i: usize = 0;
    proof {
        assert(items.skip(0) =~= items);
    }
    while i < n
        invariant
            i <= n,
            n == channel.items@.len(),
            items == channel@,
            catalog_url_of(items) == catalog_url_of(items.skip(i as int)),
        decreases n - i,
    {
        proof {
            assert(items.skip(i as int)[0] == items[i as int]);
            assert(items.skip(i as int).skip(1) =~= items.skip(i + 1));
        }
        if str_eq(channel.items[i].id.as_str(), "Microsoft.VisualStudio.Manifests.VisualStudio") {
            return match find_payload_url(&channel.items[i].payloads) {
                Some(url) => Ok(url),
                None => Err(FatalError::MissingManifestEntry),
            };
        }
        i = i + 1;
    }
    proof {
        assert(items.skip(n as int) =~= Seq::<ChannelItemView>::empty());
    }
    Err(FatalError::MissingManifestEntry)
}

} // verus!
