//! The data model of the remote catalog: payloads, packages, and the
//! eligibility and toolchain-version predicates on them.

use vstd::prelude::*;
use vstd::string::StrSliceExecFns;
use vstd::string::StringExecFns;
use crate::strings::{has_prefix, str_eq, str_has_prefix};

verus! {

/// One downloadable artifact of a package, identified by its file name and
/// verified by its SHA-256 digest, written as 64 hex digits.
pub struct Payload {
    pub name: String,
    pub url: String,
    pub sha256: String,
}

/// Mathematical image of a `Payload`.
#[verifier::ext_equal]
pub ghost struct PayloadView {
    pub name: Seq<char>,
    pub url: Seq<char>,
    pub sha256: Seq<char>,
}

impl View for Payload {
    type V = PayloadView;

    open spec fn view(&self) -> PayloadView {
        PayloadView { name: self.name@, url: self.url@, sha256: self.sha256@ }
    }
}

impl Clone for Payload {
    fn clone(&self) -> (res: Self)
        ensures
            res == *self,
    {
        Payload { name: self.name.clone(), url: self.url.clone(), sha256: self.sha256.clone() }
    }
}

impl Payload {
    /// The local path of this payload under the download directory.
    pub fn path(&self, dl_dir: &str) -> (r: String)
        ensures
            r@ == dl_dir@ + seq!['/'] + self@.name,
    {
        let mut s = String::from_str(dl_dir);
        s.append("/");
        s.append(self.name.as_str());
        proof {
            reveal_strlit("/");
            assert("/"@ =~= seq!['/']);
        }
        s
    }
}

/// One package descriptor of the catalog. A package with no locale and no
/// architecture tags is universally applicable. Dependency version
/// constraints are ignored by resolution, so only the dependency ids are
/// kept.
pub struct Package {
    pub id: String,
    pub language: Option<String>,
    pub chip: Option<String>,
    pub product_arch: Option<String>,
    pub machine_arch: Option<String>,
    pub dependencies: Vec<String>,
    pub payloads: Vec<Payload>,
}

/// Mathematical image of a `Package`.
#[verifier::ext_equal]
pub ghost struct PackageView {
    pub id: Seq<char>,
    pub language: Option<Seq<char>>,
    pub chip: Option<Seq<char>>,
    pub product_arch: Option<Seq<char>>,
    pub machine_arch: Option<Seq<char>>,
    pub dependencies: Seq<Seq<char>>,
    pub payloads: Seq<PayloadView>,
}

pub open spec fn opt_view(o: Option<String>) -> Option<Seq<char>> {
    match o {
        Some(s) => Some(s@),
        None => None,
    }
}

impl View for Package {
    type V = PackageView;

    open spec fn view(&self) -> PackageView {
        PackageView {
            id: self.id@,
            language: opt_view(self.language),
            chip: opt_view(self.chip),
            product_arch: opt_view(self.product_arch),
            machine_arch: opt_view(self.machine_arch),
            dependencies: self.dependencies.deep_view(),
            payloads: self.payloads@.map_values(|p: Payload| p@),
        }
    }
}

/// The raw catalog: the ordered sequence of packages as received; it may
/// contain duplicate ids and entries for other locales or architectures.
pub struct Catalog {
    pub packages: Vec<Package>,
}

impl View for Catalog {
    type V = Seq<PackageView>;

    open spec fn view(&self) -> Seq<PackageView> {
        self.packages@.map_values(|p: Package| p@)
    }
}

/// The locale kept by the index filter.
pub open spec fn spec_english() -> Seq<char> {
    "en-US"@
}

/// The architecture kept by the index filter, on each of the three axes.
pub open spec fn spec_x64() -> Seq<char> {
    "x64"@
}

/// The id prefix that marks a package as part of an installable toolchain.
pub open spec fn spec_toolchain_prefix() -> Seq<char> {
    "Microsoft.VC."@
}

pub open spec fn spec_is_english(p: PackageView) -> bool {
    match p.language {
        None => true,
        Some(l) => l == spec_english(),
    }
}

pub open spec fn arch_tag_is_x64(t: Option<Seq<char>>) -> bool {
    match t {
        None => true,
        Some(a) => a == spec_x64(),
    }
}

pub open spec fn spec_is_x64(p: PackageView) -> bool {
    arch_tag_is_x64(p.chip) && arch_tag_is_x64(p.product_arch) && arch_tag_is_x64(p.machine_arch)
}

/// A package survives the index filter: English-or-unset locale and
/// x64-or-unset architecture on every axis.
pub open spec fn eligible(p: PackageView) -> bool {
    spec_is_english(p) && spec_is_x64(p)
}

/// The index, within `rest`, at which the two-component version string ends:
/// the position of the second dot, or the end of `rest` when there is no
/// second dot. `i` is the scan position and `dots` the dots seen so far.
pub open spec fn version_end(rest: Seq<char>, i: nat, dots: nat) -> nat
    decreases rest.len() - i,
{
    if i >= rest.len() {
        rest.len()
    } else if rest[i as int] == '.' && dots >= 1 {
        i
    } else if rest[i as int] == '.' {
        version_end(rest, i + 1, dots + 1)
    } else {
        version_end(rest, i + 1, dots)
    }
}

/// The first two dot-separated components of `rest`, joined by a dot:
/// everything before the second dot.
pub open spec fn spec_version_of(rest: Seq<char>) -> Seq<char> {
    rest.take(version_end(rest, 0, 0) as int)
}

/// The toolchain version a package id denotes, if the id carries the
/// toolchain prefix.
pub open spec fn spec_toolchain_version(id: Seq<char>) -> Option<Seq<char>> {
    if has_prefix(id, spec_toolchain_prefix()) {
        Some(spec_version_of(id.skip(spec_toolchain_prefix().len() as int)))
    } else {
        None
    }
}

proof fn lemma_version_end_bound(rest: Seq<char>, i: nat, dots: nat)
    requires
        i <= rest.len(),
    ensures
        i <= version_end(rest, i, dots) <= rest.len(),
    decreases rest.len() - i,
{
    if i < rest.len() {
        if rest[i as int] == '.' && dots >= 1 {
        } else if rest[i as int] == '.' {
            lemma_version_end_bound(rest, i + 1, dots + 1);
        } else {
            lemma_version_end_bound(rest, i + 1, dots);
        }
    }
}

impl Clone for Package {
    fn clone(&self) -> (res: Self)
        ensures
            res@ == self@,
    {
        broadcast use vstd::std_specs::vec::vec_clone_deep_view_proof;

        let res = Package {
            id: self.id.clone(),
            language: match &self.language {
                Some(s) => Some(s.clone()),
                None => None,
            },
            chip: match &self.chip {
                Some(s) => Some(s.clone()),
                None => None,
            },
            product_arch: match &self.product_arch {
                Some(s) => Some(s.clone()),
                None => None,
            },
            machine_arch: match &self.machine_arch {
                Some(s) => Some(s.clone()),
                None => None,
            },
            dependencies: self.dependencies.clone(),
            payloads: self.payloads.clone(),
        };
        proof {
            assert(res.payloads@ =~= self.payloads@);
            assert(res@ =~= self@);
        }
        res
    }
}

impl Package {
    /// The package's locale is unset or English.
    pub fn is_english(&self) -> (r: bool)
        ensures
            r == spec_is_english(self@),
    {
        match &self.language {
            None => true,
            Some(l) => str_eq(l.as_str(), "en-US"),
        }
    }

    /// Each of the package's three architecture tags is unset or x64.
    pub fn is_x64(&self) -> (r: bool)
        ensures
            r == spec_is_x64(self@),
    {
        let chip_ok = match &self.chip {
            None => true,
            Some(a) => str_eq(a.as_str(), "x64"),
        };
        let product_ok = match &self.product_arch {
            None => true,
            Some(a) => str_eq(a.as_str(), "x64"),
        };
        let machine_ok = match &self.machine_arch {
            None => true,
            Some(a) => str_eq(a.as_str(), "x64"),
        };
        chip_ok && product_ok && machine_ok
    }

    /// The package's id carries the toolchain prefix.
    pub fn is_toolchain(&self) -> (r: bool)
        ensures
            r == has_prefix(self@.id, spec_toolchain_prefix()),
    {
        str_has_prefix(self.id.as_str(), "Microsoft.VC.")
    }

    /// The package's id begins with the toolchain prefix followed by the
    /// requested version string.
    pub fn is_matching_toolchain_version(&self, version: &str) -> (r: bool)
        ensures
            r == has_prefix(self@.id, spec_toolchain_prefix() + version@),
    {
        let mut wanted = String::from_str("Microsoft.VC.");
        wanted.append(version);
        str_has_prefix(self.id.as_str(), wanted.as_str())
    }

    /// The two-component toolchain version the package's id denotes, if the
    /// id carries the toolchain prefix.
    pub fn toolchain_version(&self) -> (r: Option<String>)
        ensures
            match r {
                Some(v) => spec_toolchain_version(self@.id) == Some(v@),
                None => spec_toolchain_version(self@.id) is None,
            },
    {
        let prefix: &str = "Microsoft.VC.";
        if !str_has_prefix(self.id.as_str(), prefix) {
            return None;
        }
        let plen = prefix.unicode_len();
        let idlen = self.id.as_str().unicode_len();
        let ghost rest = self@.id.skip(plen as int);
        assert(rest.len() == idlen - plen);
        let mut i: usize = plen;
        let mut dots: usize = 0;
        loop
            invariant
                plen <= i <= idlen,
                idlen == self@.id.len(),
                plen == spec_toolchain_prefix().len(),
                rest == self@.id.skip(plen as int),
                dots <= 1,
                version_end(rest, 0, 0) == version_end(rest, (i - plen) as nat, dots as nat),
            ensures
                plen <= i <= idlen,
                idlen == self@.id.len(),
                version_end(rest, 0, 0) == i - plen,
            decreases idlen - i,
        {
            if i >= idlen {
                assert(version_end(rest, (i - plen) as nat, dots as nat) == rest.len());
                break;
            }
            let c = self.id.as_str().get_char(i);
            proof {
                assert(rest[(i - plen) as int] == self@.id[i as int]);
            }
            if c == '.' {
                if dots >= 1 {
                    assert(version_end(rest, (i - plen) as nat, dots as nat) == i - plen);
                    break;
                }
                dots = dots + 1;
            }
            i = i + 1;
        }
        assert(version_end(rest, 0, 0) == i - plen);
        let v = self.id.as_str().substring_char(plen, i);
        proof {
            assert(v@ =~= rest.take((i - plen) as int));
        }
        Some(v.to_owned())
    }
}

} // verus!
