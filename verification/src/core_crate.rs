//! The path under which generated code reaches the core crate.

use vstd::prelude::*;
use crate::text::copy_bytes;

verus! {

/// What a search of the manifest for a crate found.
#[derive(Clone, Debug, PartialEq, Eq)]
pub enum CrateLookup {
    /// The crate searched for is the one being compiled.
    Itself,
    /// The crate is a dependency, under this name.
    Name(Vec<u8>),
    /// The crate was not found, or the manifest could not be read.
    Missing,
}

/// The model of a [`CrateLookup`].
pub enum LookupModel {
    Itself,
    Name(Seq<u8>),
    Missing,
}

impl View for CrateLookup {
    type V = LookupModel;

    open spec fn view(&self) -> LookupModel {
        match *self {
            CrateLookup::Itself => LookupModel::Itself,
            CrateLookup::Name(n) => LookupModel::Name(n@),
            CrateLookup::Missing => LookupModel::Missing,
        }
    }
}

/// The text `crate`.
pub open spec fn own_path() -> Seq<u8> {
    seq![0x63u8, 0x72u8, 0x61u8, 0x74u8, 0x65u8]
}

/// The text `kayak_ui::core`.
pub open spec fn fallback_path() -> Seq<u8> {
    seq![
        0x6bu8,
        0x61u8,
        0x79u8,
        0x61u8,
        0x6bu8,
        0x5fu8,
        0x75u8,
        0x69u8,
        0x3au8,
        0x3au8,
        0x63u8,
        0x6fu8,
        0x72u8,
        0x65u8,
    ]
}

/// The path of the core crate: `crate` inside the core crate itself, the
/// dependency's name where the core crate is a dependency, and the module
/// of the umbrella crate in every other case.
pub open spec fn core_path(found: LookupModel) -> Seq<u8> {
    match found {
        LookupModel::Itself => own_path(),
        LookupModel::Name(n) => n,
        LookupModel::Missing => fallback_path(),
    }
}

/// A name as the manifest search hands it out: with `_` in the place of
/// each `-`.
pub open spec fn is_sanitized(found: LookupModel) -> bool {
    found matches LookupModel::Name(n) ==> !n.contains(0x2du8)
}

/// The name under which the core crate is published, and under which the
/// manifest is searched for it: `kayak_core`.
pub open spec fn core_crate_name_spec() -> Seq<char> {
    "kayak_core"@
}

/// The name of the core crate.
pub fn core_crate_name() -> (name: &'static str)
    ensures
        name@ == core_crate_name_spec(),
{
    "kayak_core"
}

/// Searches the manifest of the crate being compiled for the core crate,
/// with `proc_macro_crate::crate_name`. The outcome depends on the
/// environment and on the manifest on disk, so nothing is stated of which
/// case comes back; of a name that comes back, only that the search has
/// replaced each `-` in it by `_`. Every failure of the search is `Missing`.
#[verifier::external_body]
fn find_crate(orig_name: &str) -> (found: CrateLookup)
    requires
        orig_name@ == core_crate_name_spec(),
    ensures
        is_sanitized(found@),
{
    match proc_macro_crate::crate_name(orig_name) {
        Ok(proc_macro_crate::FoundCrate::Itself) => CrateLookup::Itself,
        Ok(proc_macro_crate::FoundCrate::Name(name)) => CrateLookup::Name(name.into_bytes()),
        Err(_) => CrateLookup::Missing,
    }
}

/// The path that stands for what the manifest search found.
pub fn path_of(found: &CrateLookup) -> (path: Vec<u8>)
    ensures
        path@ == core_path(found@),
{
    match found {
        CrateLookup::Itself => {
            let path: Vec<u8> = vec![0x63, 0x72, 0x61, 0x74, 0x65];
            assert(path@ =~= own_path());
            path
        },
        CrateLookup::Name(name) => copy_bytes(name.as_slice()),
        CrateLookup::Missing => {
            let path: Vec<u8> = vec![
                0x6b,
                0x61,
                0x79,
                0x61,
                0x6b,
                0x5f,
                0x75,
                0x69,
                0x3a,
                0x3a,
                0x63,
                0x6f,
                0x72,
                0x65,
            ];
            assert(path@ =~= fallback_path());
            path
        },
    }
}

/// The path of the core crate for the crate being compiled: that of some
/// outcome of the manifest search for `kayak_core`.
pub fn get_core_crate() -> (path: Vec<u8>)
    ensures
        exists|found: LookupModel| is_sanitized(found) && path@ == core_path(found),
{
    let found = find_crate(core_crate_name());
    path_of(&found)
}

} // verus!
