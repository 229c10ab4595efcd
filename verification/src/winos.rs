//! Which Windows this is.
//!
//! Read from the registry rather than from the version API, which lies to
//! processes without the right manifest and would quietly report an older
//! build on a current machine — precisely the number the compatibility matrix
//! gates on.

use vstd::prelude::*;
use crate::error::Error;
use crate::os::{OsBuild, WIN11_21H2};
use crate::provider::{Hive, LocV, RegLoc, RegModel, RegValue, RegValueV, RegistryProvider};
use crate::text::{chars_of, parse_u32, parse_u32_chars, replace_all, replaced, string_from, trim, trim_chars};

verus! {

pub const CURRENT_VERSION: &'static str = "SOFTWARE\\Microsoft\\Windows NT\\CurrentVersion";

pub open spec fn version_loc(name: Seq<char>) -> LocV {
    LocV { hive: Hive::LocalMachine, path: CURRENT_VERSION@, name }
}

pub fn loc(name: &str) -> (r: RegLoc)
    ensures
        r@ == version_loc(name@),
{
    RegLoc { hive: Hive::LocalMachine, path: string_from(CURRENT_VERSION), name: string_from(name) }
}

/// The build number: text that parses as one, or a DWORD; 0 otherwise.
pub open spec fn build_of(v: Option<RegValueV>) -> u32 {
    match v {
        Some(RegValueV::Sz(t)) => match parse_u32(trim(t)) {
            Some(n) => n,
            None => 0,
        },
        Some(RegValueV::Dword(d)) => d,
        _ => 0,
    }
}

/// The build a machine whose registry is `m` reports.
pub open spec fn detected(m: RegModel) -> (u32, u32, Seq<char>, Seq<char>) {
    let build = build_of(m.value_at(version_loc("CurrentBuildNumber"@)));
    let ubr = match m.value_at(version_loc("UBR"@)) {
        Some(RegValueV::Dword(d)) => d,
        _ => 0,
    };
    let display = match m.value_at(version_loc("DisplayVersion"@)) {
        Some(RegValueV::Sz(t)) => t,
        _ => Seq::empty(),
    };
    let product = match m.value_at(version_loc("ProductName"@)) {
        Some(RegValueV::Sz(t)) => if build >= WIN11_21H2 {
            replaced(t, "Windows 10"@, "Windows 11"@)
        } else {
            t
        },
        _ => "Windows"@,
    };
    (build, ubr, display, product)
}

/// The build this machine is on, read through `reg`.
pub fn detect<R: RegistryProvider>(reg: &R) -> (r: Result<OsBuild, Error>)
    requires
        reg.wf(),
    ensures
        reg.reliable() ==> r is Ok,
        r matches Ok(os) ==> (os.build, os.ubr, os.display_version@, os.product_name@) == detected(
            reg.model(),
        ),
{
    let build: u32 = match reg.read(&loc("CurrentBuildNumber"))? {
        Some(RegValue::Sz(text)) => match parse_u32_chars(&trim_chars(&chars_of(text.as_str()))) {
            Some(n) => n,
            None => 0,
        },
        Some(RegValue::Dword(d)) => d,
        _ => 0,
    };
    let ubr: u32 = match reg.read(&loc("UBR"))? {
        Some(v) => match v.as_dword() {
            Some(d) => d,
            None => 0,
        },
        None => 0,
    };
    let display_version = match reg.read(&loc("DisplayVersion"))? {
        Some(RegValue::Sz(text)) => text,
        _ => String::new(),
    };
    let product_name = match reg.read(&loc("ProductName"))? {
        Some(RegValue::Sz(text)) => {
            // The value still says "Windows 10" on Windows 11 — Microsoft never
            // updated it, and plenty of tools report the wrong OS because of it.
            if build >= WIN11_21H2 {
                proof {
                    reveal_strlit("Windows 10");
                }
                replace_all(text.as_str(), "Windows 10", "Windows 11")
            } else {
                text
            }
        },
        _ => string_from("Windows"),
    };
    Ok(OsBuild { build, ubr, display_version, product_name })
}

/// The providers every entry point starts from, and the build they run on,
/// so the app and the command line cannot drift apart.
pub fn boot<R: RegistryProvider, S>(registry: R, shell: S) -> (r: Result<(R, S, OsBuild), Error>)
    requires
        registry.wf(),
    ensures
        registry.reliable() ==> r is Ok,
        r matches Ok((reg, sh, os)) ==> reg == registry && sh == shell && (
        os.build,
        os.ubr,
        os.display_version@,
        os.product_name@,
        ) == detected(registry.model()),
{
    let os = detect(&registry)?;
    Ok((registry, shell, os))
}

} // verus!
