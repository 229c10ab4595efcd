//! Style packs: a set of settings the user wants, and nothing more — no
//! scripts, no key paths, no executables. A pack is data, and this is the only
//! shape it can take.

use vstd::prelude::*;
use crate::error::Error;
use crate::os::OsBuild;
use crate::text::{decimal, push_decimal, push_str, str_eq, string_from};
use crate::value::Value;

verus! {

/// Bumped when the format changes in a way older builds cannot read.
pub const SCHEMA_VERSION: u32 = 1;

/// The description at the root of a pack: a folder holding it and
/// its assets.
pub struct PackManifest {
    pub schema: u32,
    pub id: String,
    /// Locale code and display name, e.g. `("en", "Midnight Cairo")`, each
    /// locale once, in order.
    pub name: Vec<(String, String)>,
    pub author: Option<String>,
    pub description: Vec<(String, String)>,
    pub requires: Requires,
    /// Setting id and wanted value, each id once, in order.
    pub settings: Vec<(String, Value)>,
}

pub struct Requires {
    pub min_build: Option<u32>,
    pub max_build: Option<u32>,
}

impl Requires {
    /// Whether the pack covers the build of `os`.
    pub fn allows(&self, os: &OsBuild) -> (r: bool)
        ensures
            r == ((match self.min_build {
                Some(min) => os.build >= min,
                None => true,
            }) && (match self.max_build {
                Some(max) => os.build <= max,
                None => true,
            })),
    {
        (match self.min_build {
            Some(min) => os.build >= min,
            None => true,
        }) && (match self.max_build {
            Some(max) => os.build <= max,
            None => true,
        })
    }
}

/// The text paired with `key` first, if any.
pub open spec fn lookup(pairs: Seq<(String, String)>, key: Seq<char>) -> Option<Seq<char>>
    decreases pairs.len(),
{
    if pairs.len() == 0 {
        None
    } else if pairs[0].0@ == key {
        Some(pairs[0].1@)
    } else {
        lookup(pairs.drop_first(), key)
    }
}

/// The error a pack from a newer format gets.
pub open spec fn too_new_text(schema: u32) -> Seq<char> {
    "this pack needs a newer version of the app (schema "@ + decimal(schema as nat) + " > "@
        + decimal(SCHEMA_VERSION as nat) + ")"@
}

fn find(pairs: &Vec<(String, String)>, key: &str) -> (r: Option<String>)
    ensures
        match r {
            Some(s) => lookup(pairs@, key@) == Some(s@),
            None => lookup(pairs@, key@) is None,
        },
{
    let mut i: usize = 0;
    proof {
        assert(pairs@.skip(0) =~= pairs@);
    }
    while i < pairs.len()
        invariant
            i <= pairs.len(),
            lookup(pairs@, key@) == lookup(pairs@.skip(i as int), key@),
        decreases pairs.len() - i,
    {
        assert(pairs@.skip(i as int)[0] == pairs@[i as int]);
        assert(pairs@.skip(i as int).drop_first() =~= pairs@.skip(i + 1));
        if str_eq(pairs[i].0.as_str(), key) {
            return Some(pairs[i].1.clone());
        }
        i += 1;
    }
    None
}

impl PackManifest {
    /// A manifest as read, accepted only if this build understands its format.
    pub fn from_parsed(manifest: PackManifest) -> (r: Result<PackManifest, Error>)
        ensures
            manifest.schema <= SCHEMA_VERSION ==> r == Ok::<PackManifest, Error>(manifest),
            manifest.schema > SCHEMA_VERSION ==> (r matches Err(Error::Journal(m)) && m@
                == too_new_text(manifest.schema)),
    {
        if manifest.schema > SCHEMA_VERSION {
            let mut m = string_from("this pack needs a newer version of the app (schema ");
            push_decimal(&mut m, manifest.schema as u64);
            push_str(&mut m, " > ");
            push_decimal(&mut m, SCHEMA_VERSION as u64);
            push_str(&mut m, ")");
            return Err(Error::Journal(m));
        }
        Ok(manifest)
    }

    /// Falls back to English, then to the id, so a missing translation shows
    /// something usable rather than an empty row.
    pub fn display_name(&self, locale: &str) -> (r: String)
        ensures
            r@ == match lookup(self.name@, locale@) {
                Some(n) => n,
                None => match lookup(self.name@, "en"@) {
                    Some(n) => n,
                    None => self.id@,
                },
            },
    {
        match find(&self.name, locale) {
            Some(n) => n,
            None => match find(&self.name, "en") {
                Some(n) => n,
                None => self.id.clone(),
            },
        }
    }
}

} // verus!
