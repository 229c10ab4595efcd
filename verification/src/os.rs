//! Which Windows this is, and which settings it can take.

use vstd::prelude::*;
use crate::text::{decimal, push_char, push_decimal, push_str, string_from};

verus! {

/// Windows 11 21H2. Anything below this is out of scope.
pub const MIN_SUPPORTED_BUILD: u32 = 22000;

/// Named builds, so tweak definitions read as intent rather than as magic numbers.
pub const WIN11_21H2: u32 = 22000;
pub const WIN11_22H2: u32 = 22621;
pub const WIN11_23H2: u32 = 22631;
pub const WIN11_24H2: u32 = 26100;
pub const WIN11_25H2: u32 = 26200;

#[derive(Debug, Clone, PartialEq, Eq)]
pub struct OsBuild {
    /// e.g. 26200
    pub build: u32,
    /// Update Build Revision, e.g. 8106
    pub ubr: u32,
    /// e.g. "25H2"
    pub display_version: String,
    pub product_name: String,
}

/// `Windows 11 Pro 25H2 (build 26200.8106)`.
pub open spec fn os_text(os: OsBuild) -> Seq<char> {
    os.product_name@ + seq![' '] + os.display_version@ + " (build "@ + decimal(os.build as nat)
        + seq!['.'] + decimal(os.ubr as nat) + seq![')']
}

impl OsBuild {
    pub fn is_supported(&self) -> (r: bool)
        ensures
            r == (self.build >= MIN_SUPPORTED_BUILD),
    {
        self.build >= MIN_SUPPORTED_BUILD
    }

    /// A pretend machine on the given build, for tests and `--pretend-build`.
    pub fn fake(build: u32) -> (r: Self)
        ensures
            r.build == build,
            r.ubr == 0,
            r.display_version@ == "test"@,
            r.product_name@ == "Windows 11 (simulated)"@,
    {
        OsBuild {
            build,
            ubr: 0,
            display_version: string_from("test"),
            product_name: string_from("Windows 11 (simulated)"),
        }
    }

    pub fn duplicate(&self) -> (r: Self)
        ensures
            r.build == self.build,
            r.ubr == self.ubr,
            r.display_version@ == self.display_version@,
            r.product_name@ == self.product_name@,
    {
        OsBuild {
            build: self.build,
            ubr: self.ubr,
            display_version: self.display_version.clone(),
            product_name: self.product_name.clone(),
        }
    }

    /// How the build is described to a person.
    pub fn text(&self) -> (r: String)
        ensures
            r@ == os_text(*self),
    {
        let mut s = string_from(self.product_name.as_str());
        push_char(&mut s, ' ');
        push_str(&mut s, self.display_version.as_str());
        push_str(&mut s, " (build ");
        push_decimal(&mut s, self.build as u64);
        push_char(&mut s, '.');
        push_decimal(&mut s, self.ubr as u64);
        push_char(&mut s, ')');
        proof {
            assert(s@ =~= os_text(*self));
        }
        s
    }
}

/// Inclusive on both ends. `max: None` means "still current as far as we know".
#[derive(Debug, Clone, Copy, PartialEq, Eq, Structural)]
pub struct BuildRange {
    pub min: u32,
    pub max: Option<u32>,
}

pub open spec fn in_range(r: BuildRange, build: u32) -> bool {
    build >= r.min && match r.max {
        Some(max) => build <= max,
        None => true,
    }
}

impl BuildRange {
    pub fn from(min: u32) -> (r: Self)
        ensures
            r == (BuildRange { min, max: None }),
    {
        BuildRange { min, max: None }
    }

    pub fn between(min: u32, max: u32) -> (r: Self)
        ensures
            r == (BuildRange { min, max: Some(max) }),
    {
        BuildRange { min, max: Some(max) }
    }

    pub fn any() -> (r: Self)
        ensures
            r == (BuildRange { min: MIN_SUPPORTED_BUILD, max: None }),
    {
        BuildRange::from(MIN_SUPPORTED_BUILD)
    }

    pub fn contains(&self, build: u32) -> (r: bool)
        ensures
            r == in_range(*self, build),
    {
        build >= self.min && match self.max {
            Some(max) => build <= max,
            None => true,
        }
    }
}

/// A caveat about a setting, carried as a translation key *and* an English
/// sentence: the key is what the UI looks up, the English is what the CLI
/// prints and what the UI falls back to.
#[derive(Debug, Clone, Copy)]
pub struct SupportNote {
    pub key: &'static str,
    pub en: &'static str,
}

impl SupportNote {
    pub fn new(key: &'static str, en: &'static str) -> (r: Self)
        ensures
            r.key == key,
            r.en == en,
    {
        SupportNote { key, en }
    }
}

pub fn needs_newer_build() -> (r: SupportNote)
    ensures
        r.key@ == "needs_newer_build"@,
        r.en@ == "Needs a newer Windows 11 build."@,
{
    SupportNote::new("needs_newer_build", "Needs a newer Windows 11 build.")
}

pub fn changed_in_later_build() -> (r: SupportNote)
    ensures
        r.key@ == "changed_in_later_build"@,
        r.en@ == "Windows changed this setting in a later build."@,
{
    SupportNote::new("changed_in_later_build", "Windows changed this setting in a later build.")
}

/// Whether a tweak can be offered on the current build, and why not when it can't.
#[derive(Debug, Clone, Copy)]
pub enum Support {
    Full,
    /// Works, but with a caveat worth showing the user.
    Partial(SupportNote),
    Unsupported(SupportNote),
}

impl Support {
    pub fn is_usable(&self) -> (r: bool)
        ensures
            r == !(self is Unsupported),
    {
        match self {
            Support::Unsupported(_) => false,
            _ => true,
        }
    }

    pub fn note(&self) -> (r: Option<SupportNote>)
        ensures
            r == (match *self {
                Support::Full => None,
                Support::Partial(n) => Some(n),
                Support::Unsupported(n) => Some(n),
            }),
    {
        match self {
            Support::Full => None,
            Support::Partial(note) => Some(*note),
            Support::Unsupported(note) => Some(*note),
        }
    }
}

/// Why a setting is not offered on `build` when its range is `b`: the note's
/// key and its English.
pub open spec fn unsupported_reason(b: BuildRange, build: u32) -> (Seq<char>, Seq<char>) {
    if build < b.min {
        ("needs_newer_build"@, "Needs a newer Windows 11 build."@)
    } else {
        ("changed_in_later_build"@, "Windows changed this setting in a later build."@)
    }
}

/// `s` is the support a tweak with `builds` and `note` has on `build`: full
/// inside the range (partial with the note), and an explanation outside it.
pub open spec fn gated(builds: BuildRange, note: Option<SupportNote>, build: u32, s: Support) -> bool {
    match s {
        Support::Full => in_range(builds, build) && note is None,
        Support::Partial(n) => in_range(builds, build) && note == Some(n),
        Support::Unsupported(n) => !in_range(builds, build) && if build < builds.min {
            n.key@ == "needs_newer_build"@ && n.en@ == "Needs a newer Windows 11 build."@
        } else {
            n.key@ == "changed_in_later_build"@ && n.en@ == "Windows changed this setting in a later build."@
        },
    }
}

/// Build gating: full support inside the range (partial with a note), and an
/// explanation outside it.
pub fn gate(builds: BuildRange, note: Option<SupportNote>, build: u32) -> (r: Support)
    ensures
        gated(builds, note, build, r),
{
    if builds.contains(build) {
        match note {
            Some(n) => Support::Partial(n),
            None => Support::Full,
        }
    } else if build < builds.min {
        Support::Unsupported(needs_newer_build())
    } else {
        Support::Unsupported(changed_in_later_build())
    }
}

} // verus!
