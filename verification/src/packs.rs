//! Finding the Looks that ship with the app.
//!
//! A Look is a pack: a folder with a JSON description at its root and its
//! assets. Where that folder lives depends on how the app is running, so
//! several directories are searched, best first. Reading them is the caller's; which packs are listed,
//! and in what order, is decided here.

use vstd::prelude::*;
use crate::engine::Engine;
use crate::journal::JournalStore;
use crate::os::OsBuild;
use crate::profile::{lookup, PackManifest};
use crate::provider::{RegistryProvider, ShellRefresher};
use crate::text::{lex_less, lemma_lex_total, lemma_lex_transitive, push_str, str_eq, str_less, string_from};
use crate::value::Value;

verus! {

/// One pack as the picker shows it.
pub struct PackSummary {
    pub id: String,
    /// Absolute path to the pack folder; the page hands it straight back.
    pub dir: String,
    pub name: Vec<(String, String)>,
    pub description: Vec<(String, String)>,
    pub author: Option<String>,
    /// How many settings it touches.
    pub settings: usize,
    /// False when the pack declares a build range this machine is outside of.
    pub applicable: bool,
}

/// Whether a pack's build range covers `build`.
pub open spec fn allows_build(m: PackManifest, build: u32) -> bool {
    (match m.requires.min_build {
        Some(min) => build >= min,
        None => true,
    }) && (match m.requires.max_build {
        Some(max) => build <= max,
        None => true,
    })
}

/// The summary of the pack in folder `dir`.
pub open spec fn summary_of(dir: String, m: PackManifest, build: u32) -> PackSummary {
    PackSummary {
        id: m.id,
        dir,
        name: m.name,
        description: m.description,
        author: m.author,
        settings: m.settings@.len() as usize,
        applicable: allows_build(m, build),
    }
}

/// The entries of the first directory that held any pack.
pub open spec fn first_full(dirs: Seq<Vec<(String, PackManifest)>>) -> Seq<(String, PackManifest)>
    decreases dirs.len(),
{
    if dirs.len() == 0 {
        Seq::empty()
    } else if dirs[0]@.len() > 0 {
        dirs[0]@
    } else {
        first_full(dirs.drop_first())
    }
}

pub open spec fn summaries(es: Seq<(String, PackManifest)>, build: u32) -> Seq<PackSummary> {
    es.map_values(|e: (String, PackManifest)| summary_of(e.0, e.1, build))
}

pub open spec fn has_id(s: Seq<PackSummary>, id: Seq<char>) -> bool {
    exists|i: int| 0 <= i < s.len() && (#[trigger] s[i]).id@ == id
}

/// The first pack of each id, in order: a later one with the same id is
/// shadowed.
pub open spec fn firsts(s: Seq<PackSummary>) -> Seq<PackSummary>
    decreases s.len(),
{
    if s.len() == 0 {
        Seq::empty()
    } else {
        let r = firsts(s.drop_last());
        if has_id(r, s.last().id@) {
            r
        } else {
            r.push(s.last())
        }
    }
}

pub open spec fn ids_distinct(s: Seq<PackSummary>) -> bool {
    forall|i: int, j: int| 0 <= i < j < s.len() ==> (#[trigger] s[i]).id@ != (#[trigger] s[j]).id@
}

pub open spec fn sorted_by_id(s: Seq<PackSummary>) -> bool {
    forall|i: int, j: int| 0 <= i < j < s.len() ==> lex_less((#[trigger] s[i]).id@, (#[trigger] s[j]).id@)
}

/// `r` holds exactly the packs of `d`, each once.
pub open spec fn same_packs(r: Seq<PackSummary>, d: Seq<PackSummary>) -> bool {
    &&& r.len() == d.len()
    &&& forall|k: int| 0 <= k < d.len() ==> r.contains(#[trigger] d[k])
    &&& forall|k: int| 0 <= k < r.len() ==> d.contains(#[trigger] r[k])
}

/// What the picker lists when `dirs` holds the packs read from each searched
/// directory, best first.
pub open spec fn listed(r: Seq<PackSummary>, dirs: Seq<Vec<(String, PackManifest)>>, build: u32) -> bool {
    let d = firsts(summaries(first_full(dirs), build));
    same_packs(r, d) && sorted_by_id(r)
}

pub fn summarize(dir: String, m: PackManifest, os: &OsBuild) -> (r: PackSummary)
    ensures
        r == summary_of(dir, m, os.build),
{
    let applicable = m.requires.allows(os);
    let settings = m.settings.len();
    PackSummary {
        id: m.id,
        dir,
        name: m.name,
        description: m.description,
        author: m.author,
        settings,
        applicable,
    }
}

fn holds_id(found: &Vec<PackSummary>, id: &str) -> (r: bool)
    ensures
        r == has_id(found@, id@),
{
    let mut i: usize = 0;
    while i < found.len()
        invariant
            i <= found.len(),
            forall|j: int| 0 <= j < i ==> (#[trigger] found@[j]).id@ != id@,
        decreases found.len() - i,
    {
        if str_eq(found[i].id.as_str(), id) {
            return true;
        }
        i += 1;
    }
    false
}

/// The packs of the first directory that has any, the first of each id kept.
fn first_of_each(dirs: Vec<Vec<(String, PackManifest)>>, os: &OsBuild) -> (r: Vec<PackSummary>)
    ensures
        r@ == firsts(summaries(first_full(dirs@), os.build)),
        ids_distinct(r@),
{
    let ghost all = dirs@;
    let mut dirs = dirs;
    let mut entries: Vec<(String, PackManifest)> = Vec::new();
    let mut k: usize = 0;
    let n = dirs.len();
    let mut done = false;
    while k < n && !done
        invariant
            k <= n,
            n == all.len(),
            dirs@.len() == all.len() - k,
            forall|j: int| 0 <= j < dirs@.len() ==> dirs@[j] == all[k + j],
            done ==> entries@ == first_full(all),
            !done ==> entries@.len() == 0,
            !done ==> forall|j: int| 0 <= j < k ==> (#[trigger] all[j])@.len() == 0,
        decreases n - k,
    {
        let d = dirs.remove(0);
        proof {
            lemma_first_full_skip(all, k as int);
            assert(all.skip(k as int)[0] == all[k as int]);
        }
        if d.len() > 0 {
            entries = d;
            done = true;
        }
        k += 1;
    }
    proof {
        if !done {
            lemma_first_full_skip(all, n as int);
        }
    }
    let ghost es = entries@;
    let mut found: Vec<PackSummary> = Vec::new();
    let mut i: usize = 0;
    let m = entries.len();
    while i < m
        invariant
            i <= m,
            m == es.len(),
            entries@.len() == es.len() - i,
            forall|j: int| 0 <= j < entries@.len() ==> entries@[j] == es[i + j],
            found@ == firsts(summaries(es.take(i as int), os.build)),
            ids_distinct(found@),
        decreases m - i,
    {
        let (dir, manifest) = entries.remove(0);
        let s = summarize(dir, manifest, os);
        proof {
            let before = summaries(es.take(i as int), os.build);
            let after = summaries(es.take(i + 1), os.build);
            assert(after.drop_last() =~= before);
            assert(after.last() == s);
        }
        if !holds_id(&found, s.id.as_str()) {
            found.push(s);
        }
        i += 1;
    }
    proof {
        assert(es.take(m as int) =~= es);
    }
    found
}

proof fn lemma_first_full_skip(all: Seq<Vec<(String, PackManifest)>>, k: int)
    requires
        0 <= k <= all.len(),
        forall|j: int| 0 <= j < k ==> (#[trigger] all[j])@.len() == 0,
    ensures
        first_full(all) == first_full(all.skip(k)),
    decreases k,
{
    if k > 0 {
        lemma_first_full_skip(all, k - 1);
        assert(all.skip(k - 1)[0] == all[k - 1]);
        assert(all.skip(k - 1).drop_first() =~= all.skip(k));
    } else {
        assert(all.skip(0) =~= all);
    }
}

/// Puts `found` in order of id.
fn sort_by_id(found: Vec<PackSummary>) -> (r: Vec<PackSummary>)
    requires
        ids_distinct(found@),
    ensures
        same_packs(r@, found@),
        sorted_by_id(r@),
{
    let ghost orig = found@;
    let mut found = found;
    let mut out: Vec<PackSummary> = Vec::new();
    let mut k: usize = 0;
    let n = found.len();
    while k < n
        invariant
            k <= n,
            n == orig.len(),
            ids_distinct(orig),
            found@.len() == orig.len() - k,
            forall|j: int| 0 <= j < found@.len() ==> found@[j] == orig[k + j],
            out@.len() == k,
            sorted_by_id(out@),
            forall|j: int| 0 <= j < k ==> out@.contains(#[trigger] orig[j]),
            forall|j: int| 0 <= j < out@.len() ==> orig.take(k as int).contains(#[trigger] out@[j]),
        decreases n - k,
    {
        let x = found.remove(0);
        assert(x == orig[k as int]);
        // x differs by id from everything placed so far.
        assert forall|j: int| 0 <= j < out@.len() implies (#[trigger] out@[j]).id@ != x.id@ by {
            let q = choose|q: int| 0 <= q < k && orig.take(k as int)[q] == out@[j];
            assert(orig[q] == out@[j]);
        }
        let mut p: usize = 0;
        while p < out.len() && !str_less(x.id.as_str(), out[p].id.as_str())
            invariant
                p <= out@.len(),
                forall|j: int| 0 <= j < p ==> !lex_less(x.id@, (#[trigger] out@[j]).id@),
            decreases out@.len() - p,
        {
            p += 1;
        }
        let ghost before = out@;
        proof {
            assert forall|j: int| 0 <= j < p implies lex_less((#[trigger] before[j]).id@, x.id@) by {
                lemma_lex_total(before[j].id@, x.id@);
            }
            assert forall|j: int| p <= j < before.len() implies lex_less(x.id@, (#[trigger] before[j]).id@) by {
                if j > p {
                    lemma_lex_transitive(x.id@, before[p as int].id@, before[j].id@);
                }
            }
        }
        out.insert(p, x);
        proof {
            assert(out@ == before.insert(p as int, orig[k as int]));
            assert forall|i: int, j: int| 0 <= i < j < out@.len() implies lex_less((#[trigger] out@[i]).id@, (#[trigger] out@[j]).id@) by {
                if j < p {
                } else if i < p && j == p {
                } else if i < p {
                    lemma_lex_transitive(before[i].id@, x.id@, before[j - 1].id@);
                } else if i == p {
                } else {
                }
            }
            assert forall|j: int| 0 <= j < k + 1 implies out@.contains(#[trigger] orig[j]) by {
                if j < k {
                    let q = choose|q: int| 0 <= q < before.len() && before[q] == orig[j];
                    if q < p {
                        assert(out@[q] == orig[j]);
                    } else {
                        assert(out@[q + 1] == orig[j]);
                    }
                } else {
                    assert(out@[p as int] == orig[j]);
                }
            }
            assert forall|j: int| 0 <= j < out@.len() implies orig.take(k + 1).contains(#[trigger] out@[j]) by {
                if j == p {
                    assert(orig.take(k + 1)[k as int] == out@[j]);
                } else {
                    let b = if j < p { before[j] } else { before[j - 1] };
                    assert(out@[j] == b);
                    assert(orig.take(k as int).contains(b));
                    let q = choose|q: int| 0 <= q < k && orig.take(k as int)[q] == b;
                    assert(orig.take(k + 1)[q] == b);
                }
            }
        }
        k += 1;
    }
    proof {
        assert(orig.take(n as int) =~= orig);
    }
    out
}

/// The packs to list: those of the first directory in `dirs` that holds any
/// (the directories searched best first, each given as the packs that could
/// be read from it), one per id (the first), sorted by id. A broken pack is
/// left out by whoever reads the directory; it is skipped, not fatal.
pub fn find_all(dirs: Vec<Vec<(String, PackManifest)>>, os: &OsBuild) -> (r: Vec<PackSummary>)
    ensures
        listed(r@, dirs@, os.build),
{
    let found = first_of_each(dirs, os);
    sort_by_id(found)
}

/// A pack's settings, with its asset paths made absolute against its folder
/// `dir` (and `cwd`, where `dir` is relative).
pub fn settings_for<R: RegistryProvider, S: ShellRefresher, J: JournalStore>(
    engine: &Engine<R, S, J>,
    manifest: PackManifest,
    cwd: &str,
    dir: &str,
) -> (r: (PackManifest, Vec<(String, Value)>))
    ensures
        r.0 == manifest,
        r.1@.len() == manifest.settings@.len(),
        forall|i: int|
            0 <= i < r.1@.len() ==> (#[trigger] r.1@[i]).0@ == manifest.settings@[i].0@ && r.1@[i].1@
                == crate::engine::pack_value(
                engine.tweaks_view(),
                cwd@,
                dir@,
                manifest.settings@[i].0@,
                manifest.settings@[i].1@,
            ),
{
    let settings = engine.resolve_pack(&manifest, cwd, dir);
    (manifest, settings)
}

/// A pack's English name: its `en` entry, or its id where it has none.
pub open spec fn english_name(manifest: PackManifest) -> Seq<char> {
    match lookup(manifest.name@, "en"@) {
        Some(n) => n,
        None => manifest.id@,
    }
}

/// What the journal calls a pack applied from the command line.
pub fn applied_label(manifest: &PackManifest) -> (r: String)
    ensures
        r@ == "Applied pack: "@ + english_name(*manifest),
{
    let mut r = string_from("Applied pack: ");
    let name = manifest.display_name("en");
    push_str(&mut r, name.as_str());
    r
}

/// What the journal calls a pack worn as a Look from the app.
pub fn look_label(manifest: &PackManifest) -> (r: String)
    ensures
        r@ == "Look: "@ + english_name(*manifest),
{
    let mut r = string_from("Look: ");
    let name = manifest.display_name("en");
    push_str(&mut r, name.as_str());
    r
}

} // verus!
