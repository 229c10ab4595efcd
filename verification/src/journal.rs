//! What this app has done to the machine, and how to undo it.

use vstd::prelude::*;
use crate::error::Error;
use crate::provider::{Hive, RegValue, RegValueV, hive_long, hive_rank};
use crate::text::{hex_fixed, lemma_lex_irreflexive, lemma_lex_total, lemma_lex_transitive, lex_less, push_char, push_hex, push_str, str_eq, str_less, string_from};
use crate::utf16::{encoded, string_to_utf16_bytes};
use crate::time::{Utc, compact_text, rfc3339_text};
use crate::tweak::{Change, ChangeV, changes_view, duplicate_changes, undo_of};

verus! {

#[derive(Debug, Clone, Copy, PartialEq, Eq, Structural)]
pub enum Status {
    /// Written before the first write lands. If a crash leaves an entry in this
    /// state, a safe restore still has everything it needs to undo it.
    Pending,
    Applied,
    /// Something failed mid-batch and the already-applied changes were undone.
    RolledBack,
    /// The user reverted it later.
    Reverted,
}

pub struct JournalEntry {
    pub id: String,
    /// When it happened, as `2026-08-28T14:31:07.482Z`.
    pub when: String,
    /// What the user did, e.g. "Applied pack: Midnight Cairo" or "Dark mode".
    pub label: String,
    pub status: Status,
    /// The build this was applied on — a revert onto a different build is worth
    /// warning about.
    pub os_build: u32,
    pub tweaks: Vec<String>,
    pub changes: Vec<Change>,
}

/// A [`JournalEntry`] as mathematics sees it.
pub struct EntryV {
    pub id: Seq<char>,
    pub when: Seq<char>,
    pub label: Seq<char>,
    pub status: Status,
    pub os_build: u32,
    pub tweaks: Seq<Seq<char>>,
    pub changes: Seq<ChangeV>,
}

pub open spec fn strings_view(v: Seq<String>) -> Seq<Seq<char>> {
    v.map_values(|s: String| s@)
}

impl View for JournalEntry {
    type V = EntryV;

    open spec fn view(&self) -> EntryV {
        EntryV {
            id: self.id@,
            when: self.when@,
            label: self.label@,
            status: self.status,
            os_build: self.os_build,
            tweaks: strings_view(self.tweaks@),
            changes: changes_view(self.changes@),
        }
    }
}

/// A copy of a list of strings.
pub fn duplicate_strings(v: &Vec<String>) -> (r: Vec<String>)
    ensures
        strings_view(r@) == strings_view(v@),
{
    let mut r: Vec<String> = Vec::new();
    let mut i: usize = 0;
    while i < v.len()
        invariant
            i <= v.len(),
            r@.len() == i,
            forall|j: int| 0 <= j < i ==> #[trigger] r@[j]@ == v@[j]@,
        decreases v.len() - i,
    {
        r.push(v[i].clone());
        i += 1;
    }
    proof {
        assert(strings_view(r@) =~= strings_view(v@));
    }
    r
}

impl JournalEntry {
    /// A pending entry stamped with the instant `when`.
    pub fn at(
        label: String,
        os_build: u32,
        tweaks: Vec<String>,
        changes: Vec<Change>,
        when: Utc,
    ) -> (r: Self)
        ensures
            r@ == (EntryV {
                id: compact_text(when),
                when: rfc3339_text(when),
                label: label@,
                status: Status::Pending,
                os_build,
                tweaks: strings_view(tweaks@),
                changes: changes_view(changes@),
            }),
    {
        JournalEntry {
            id: when.compact(),
            when: when.rfc3339(),
            label,
            status: Status::Pending,
            os_build,
            tweaks,
            changes,
        }
    }

    /// A pending entry stamped with the current time.
    pub fn new(label: String, os_build: u32, tweaks: Vec<String>, changes: Vec<Change>) -> (r:
        Self)
        ensures
            exists|when: Utc|
                #[trigger] r@ == (EntryV {
                    id: compact_text(when),
                    when: rfc3339_text(when),
                    label: label@,
                    status: Status::Pending,
                    os_build,
                    tweaks: strings_view(tweaks@),
                    changes: changes_view(changes@),
                }),
    {
        let now = Utc::now();
        Self::at(label, os_build, tweaks, changes, now)
    }

    pub fn duplicate(&self) -> (r: Self)
        ensures
            r@ == self@,
    {
        JournalEntry {
            id: self.id.clone(),
            when: self.when.clone(),
            label: self.label.clone(),
            status: self.status,
            os_build: self.os_build,
            tweaks: duplicate_strings(&self.tweaks),
            changes: duplicate_changes(&self.changes),
        }
    }

    /// The changes needed to put this entry back the way it was, newest first.
    pub fn undo_changes(&self) -> (r: Vec<Change>)
        ensures
            changes_view(r@) == undo_of(changes_view(self.changes@)),
    {
        let mut r: Vec<Change> = Vec::new();
        let n = self.changes.len();
        let mut i: usize = 0;
        let ghost cs = changes_view(self.changes@);
        while i < n
            invariant
                n == self.changes.len(),
                cs == changes_view(self.changes@),
                i <= n,
                r@.len() == i,
                forall|j: int| 0 <= j < i ==> #[trigger] r@[j]@ == undo_of(cs)[j],
            decreases n - i,
        {
            r.push(self.changes[n - 1 - i].inverted());
            i += 1;
        }
        proof {
            assert(changes_view(r@) =~= undo_of(cs));
        }
        r
    }
}

/// Whether an entry still has something on the machine to undo: it changed
/// something, and it was neither rolled back nor reverted.
pub open spec fn revertible(e: EntryV) -> bool {
    (e.status == Status::Applied || e.status == Status::Pending) && e.changes.len() > 0
}

/// The first revertible entry of `s`, if there is one.
pub open spec fn first_revertible_in(s: Seq<EntryV>) -> Option<EntryV>
    decreases s.len(),
{
    if s.len() == 0 {
        None
    } else if revertible(s[0]) {
        Some(s[0])
    } else {
        first_revertible_in(s.drop_first())
    }
}

proof fn lemma_first_revertible_in(s: Seq<EntryV>, i: int)
    requires
        0 <= i <= s.len(),
        forall|j: int| 0 <= j < i ==> !revertible(#[trigger] s[j]),
    ensures
        first_revertible_in(s) == first_revertible_in(s.skip(i)),
    decreases i,
{
    if i > 0 {
        lemma_first_revertible_in(s, i - 1);
        assert(s.skip(i - 1)[0] == s[i - 1]);
        assert(s.skip(i - 1).drop_first() =~= s.skip(i));
    } else {
        assert(s.skip(0) =~= s);
    }
}

/// The first revertible entry of a list, newest first — what a safe restore
/// of the latest change targets.
pub fn first_revertible(entries: Vec<JournalEntry>) -> (r: Option<JournalEntry>)
    ensures
        match r {
            Some(e) => exists|i: int|
                0 <= i < entries@.len() && e@ == entries@[i]@ && revertible(e@) && forall|j: int|
                    0 <= j < i ==> !revertible(#[trigger] entries@[j]@),
            None => forall|j: int| 0 <= j < entries@.len() ==> !revertible(#[trigger] entries@[j]@),
        },
        match r {
            Some(e) => first_revertible_in(entries_view(entries@)) == Some(e@),
            None => first_revertible_in(entries_view(entries@)) is None,
        },
{
    let ghost s = entries_view(entries@);
    let mut i: usize = 0;
    while i < entries.len()
        invariant
            i <= entries.len(),
            s == entries_view(entries@),
            forall|j: int| 0 <= j < i ==> !revertible(#[trigger] entries@[j]@),
        decreases entries.len() - i,
    {
        let e = &entries[i];
        if (e.status == Status::Applied || e.status == Status::Pending) && e.changes.len() > 0 {
            proof {
                assert forall|j: int| 0 <= j < i implies !revertible(#[trigger] s[j]) by {
                    assert(s[j] == entries@[j]@);
                }
                lemma_first_revertible_in(s, i as int);
                assert(s.skip(i as int)[0] == entries@[i as int]@);
            }
            return Some(e.duplicate());
        }
        i += 1;
    }
    proof {
        assert forall|j: int| 0 <= j < i implies !revertible(#[trigger] s[j]) by {
            assert(s[j] == entries@[j]@);
        }
        lemma_first_revertible_in(s, i as int);
        assert(s.skip(i as int).len() == 0);
    }
    None
}

/// One thing a journal hands to storage.
pub enum Kept {
    /// An entry, as its file.
    Entry(EntryV),
    /// The `.reg` backup of the entry with this id, and its text.
    Backup(Seq<char>, Seq<char>),
}

/// What writing `e` hands to storage, in order: the entry, then, while it is
/// still pending, the `.reg` backup of its changes.
pub open spec fn kept_for(e: EntryV) -> Seq<Kept> {
    if e.status == Status::Pending {
        seq![Kept::Entry(e), Kept::Backup(e.id, backup_of(e.changes))]
    } else {
        seq![Kept::Entry(e)]
    }
}

/// `after` is `before` with the first `k` things writing `e` hands over, for
/// some `k` short of all of them: a write that stopped part way.
pub open spec fn handed_part(before: Seq<Kept>, after: Seq<Kept>, e: EntryV) -> bool {
    exists|k: int| 0 <= k < kept_for(e).len() && #[trigger] kept_for(e).take(k) == after.subrange(
        before.len() as int,
        after.len() as int,
    ) && after.len() >= before.len() && after.subrange(0, before.len() as int) == before
}

/// Where the journal keeps its entries.
///
/// `store` and `load` are a file each; `list` reads them back newest first.
/// The store behaves as a map from entry id to entry: a load gives back what
/// the last store of that id wrote.
pub trait JournalStore {
    spec fn entries(&self) -> Map<Seq<char>, EntryV>;

    /// The entries as [`list`](JournalStore::list) gives them, newest first.
    spec fn listing(&self) -> Seq<EntryV>;

    /// Whether every write succeeds; writing keeps it.
    spec fn reliable(&self) -> bool;

    /// What the store needs of itself to work; writing keeps it.
    spec fn wf(&self) -> bool;

    /// Everything handed to storage so far, oldest first.
    spec fn handed(&self) -> Seq<Kept>;

    /// Writes the entry, replacing any with the same id: hands storage the
    /// entry and, while it is pending, its `.reg` backup, and counts it as
    /// written once all of that was taken.
    fn write(&mut self, entry: &JournalEntry) -> (r: Result<(), Error>)
        requires
            old(self).wf(),
        ensures
            final(self).wf(),
            final(self).reliable() == old(self).reliable(),
            old(self).reliable() ==> r is Ok,
            r is Ok ==> final(self).entries() == old(self).entries().insert(entry.id@, entry@),
            r is Ok ==> final(self).handed() == old(self).handed() + kept_for(entry@),
            r is Err ==> final(self).entries() == old(self).entries(),
            r is Err ==> handed_part(old(self).handed(), final(self).handed(), entry@),
    ;

    /// The entry `id`, which is there to load exactly when the store holds it.
    fn load(&self, id: &str) -> (r: Result<JournalEntry, Error>)
        requires
            self.wf(),
        ensures
            r is Ok <==> self.entries().contains_key(id@),
            r matches Ok(e) ==> e@ == self.entries()[id@],
    ;

    /// Every entry held, each once, newest first.
    fn list(&self) -> (r: Result<Vec<JournalEntry>, Error>)
        requires
            self.wf(),
        ensures
            r matches Ok(v) && entries_view(v@) == self.listing(),
            self.listing().len() == self.entries().len(),
            forall|i: int|
                0 <= i < self.listing().len() ==> self.entries().contains_key(#[trigger] self.listing()[i].id)
                    && self.entries()[self.listing()[i].id] == self.listing()[i],
            forall|i: int, j: int|
                0 <= i < j < self.listing().len() ==> #[trigger] self.listing()[i].id != #[trigger] self.listing()[j].id,
    ;

    /// The most recent entry that actually changed something and has not been
    /// reverted, among those [`list`](JournalStore::list) gives: what
    /// `safe-restore` targets.
    fn latest_revertible(&self) -> (r: Result<Option<JournalEntry>, Error>)
        requires
            self.wf(),
        ensures
            r matches Ok(x) && match x {
                Some(e) => first_revertible_in(self.listing()) == Some(e@),
                None => first_revertible_in(self.listing()) is None,
            },
            r matches Ok(Some(e)) ==> revertible(e@) && self.entries().contains_key(e.id@)
                && self.entries()[e.id@] == e@,
    {
        let list = self.list()?;
        let r = first_revertible(list);
        proof {
            if r is Some {
                let e = r->Some_0;
                let i = choose|i: int| 0 <= i < list@.len() && e@ == list@[i]@ && revertible(e@) && forall|j: int|
                    0 <= j < i ==> !revertible(#[trigger] list@[j]@);
                assert(self.listing()[i] == list@[i]@);
                assert(self.entries().contains_key(self.listing()[i].id));
            }
        }
        Ok(r)
    }
}

pub open spec fn entries_view(v: Seq<JournalEntry>) -> Seq<EntryV> {
    v.map_values(|e: JournalEntry| e@)
}

/// Where an entry from `when` goes among `s`, newest first: after every
/// entry at least as recent, so that entries from the same moment keep the
/// order they came in.
pub open spec fn place_for(s: Seq<EntryV>, when: Seq<char>) -> int
    decreases s.len(),
{
    if s.len() == 0 {
        0
    } else if lex_less(s[0].when, when) {
        0
    } else {
        1 + place_for(s.drop_first(), when)
    }
}

/// `s` newest first by the time each entry records, entries from the same
/// moment in the order they came in.
pub open spec fn newest_order(s: Seq<EntryV>) -> Seq<EntryV>
    decreases s.len(),
{
    if s.len() == 0 {
        Seq::empty()
    } else {
        let r = newest_order(s.drop_last());
        r.insert(place_for(r, s.last().when), s.last())
    }
}

proof fn lemma_place_for(s: Seq<EntryV>, when: Seq<char>, p: int)
    requires
        0 <= p <= s.len(),
        forall|j: int| 0 <= j < p ==> !lex_less((#[trigger] s[j]).when, when),
        p < s.len() ==> lex_less(s[p].when, when),
    ensures
        place_for(s, when) == p,
    decreases p,
{
    if p > 0 {
        assert forall|j: int| 0 <= j < p - 1 implies !lex_less((#[trigger] s.drop_first()[j]).when, when) by {
            assert(s.drop_first()[j] == s[j + 1]);
        }
        lemma_place_for(s.drop_first(), when, p - 1);
    }
}

proof fn lemma_place_for_bounds(s: Seq<EntryV>, when: Seq<char>)
    ensures
        0 <= place_for(s, when) <= s.len(),
        forall|j: int| 0 <= j < place_for(s, when) ==> !lex_less((#[trigger] s[j]).when, when),
        place_for(s, when) < s.len() ==> lex_less(s[place_for(s, when)].when, when),
    decreases s.len(),
{
    if s.len() > 0 && !lex_less(s[0].when, when) {
        lemma_place_for_bounds(s.drop_first(), when);
        assert forall|j: int| 0 <= j < place_for(s, when) implies !lex_less((#[trigger] s[j]).when, when) by {
            if j > 0 {
                assert(s[j] == s.drop_first()[j - 1]);
            }
        }
    }
}

/// The journal lists its entries newest first: none comes before one that
/// is more recent, and none is lost or added.
pub proof fn law_listed_newest_first(s: Seq<EntryV>)
    ensures
        newest_order(s).len() == s.len(),
        newest_order(s).to_multiset() == s.to_multiset(),
        forall|i: int, j: int|
            0 <= i < j < newest_order(s).len() ==> !lex_less(
                (#[trigger] newest_order(s)[i]).when,
                (#[trigger] newest_order(s)[j]).when,
            ),
    decreases s.len(),
{
    if s.len() > 0 {
        let r = newest_order(s.drop_last());
        law_listed_newest_first(s.drop_last());
        let x = s.last();
        let w = x.when;
        let p = place_for(r, w);
        lemma_place_for_bounds(r, w);
        let t = r.insert(p, x);
        assert(t == newest_order(s));
        assert forall|i: int, j: int| 0 <= i < j < t.len() implies !lex_less(
            (#[trigger] t[i]).when,
            (#[trigger] t[j]).when,
        ) by {
            if j < p {
                assert(t[i] == r[i] && t[j] == r[j]);
            } else if j == p {
                assert(t[i] == r[i]);
            } else if i < p {
                assert(t[i] == r[i] && t[j] == r[j - 1]);
            } else if i == p {
                let y = r[j - 1];
                assert(t[j] == y);
                assert(lex_less(r[p].when, w));
                if p < j - 1 {
                    assert(!lex_less(r[p].when, y.when));
                    lemma_lex_total(r[p].when, y.when);
                    if lex_less(y.when, r[p].when) {
                        lemma_lex_transitive(y.when, r[p].when, w);
                    }
                }
                assert(lex_less(y.when, w));
                if lex_less(w, y.when) {
                    lemma_lex_transitive(w, y.when, w);
                    lemma_lex_irreflexive(w);
                }
            } else {
                assert(t[i] == r[i - 1] && t[j] == r[j - 1]);
            }
        }
        assert(s =~= s.drop_last().push(x));
        vstd::seq_lib::to_multiset_insert(r, p, x);
        vstd::seq_lib::to_multiset_build(s.drop_last(), x);
    } else {
        assert(newest_order(s) =~= s);
    }
}

/// Entries as read, put newest first: the order the journal lists them in.
pub fn newest_first(entries: Vec<JournalEntry>) -> (r: Vec<JournalEntry>)
    ensures
        entries_view(r@) == newest_order(entries_view(entries@)),
{
    let ghost orig = entries@;
    let mut rest = entries;
    let mut out: Vec<JournalEntry> = Vec::new();
    let n = rest.len();
    let mut k: usize = 0;
    while k < n
        invariant
            k <= n,
            n == orig.len(),
            rest@.len() == n - k,
            forall|j: int| 0 <= j < rest@.len() ==> rest@[j] == orig[k + j],
            entries_view(out@) == newest_order(entries_view(orig.take(k as int))),
        decreases n - k,
    {
        let x = rest.remove(0);
        assert(x == orig[k as int]);
        let mut p: usize = 0;
        while p < out.len() && !str_less(out[p].when.as_str(), x.when.as_str())
            invariant
                p <= out@.len(),
                forall|j: int| 0 <= j < p ==> !lex_less((#[trigger] out@[j]).when@, x.when@),
            decreases out@.len() - p,
        {
            p += 1;
        }
        let ghost before = entries_view(out@);
        proof {
            assert forall|j: int| 0 <= j < p implies !lex_less((#[trigger] before[j]).when, x@.when) by {
                assert(before[j] == out@[j]@);
            }
            if p < out@.len() {
                assert(before[p as int] == out@[p as int]@);
            }
            lemma_place_for(before, x@.when, p as int);
            let taken = entries_view(orig.take(k + 1));
            assert(taken.drop_last() =~= entries_view(orig.take(k as int)));
            assert(taken.last() == x@);
        }
        out.insert(p, x);
        proof {
            assert(entries_view(out@) =~= before.insert(p as int, x@));
        }
        k += 1;
    }
    proof {
        assert(orig.take(n as int) =~= orig);
    }
    out
}

/// A journal kept in memory, for tests and dry runs.
pub struct MemoryJournal {
    /// In the order they were first written.
    entries: Vec<JournalEntry>,
    model: Ghost<Map<Seq<char>, EntryV>>,
    kept: Ghost<Seq<Kept>>,
}

impl MemoryJournal {
    /// Each id once, and the model is exactly what is held.
    pub closed spec fn holds(&self) -> bool {
        &&& forall|i: int, j: int|
            0 <= i < j < self.entries@.len() ==> #[trigger] self.entries@[i].id@
                != #[trigger] self.entries@[j].id@
        &&& forall|i: int|
            0 <= i < self.entries@.len() ==> self.model@.contains_key(#[trigger] self.entries@[i].id@)
                && self.model@[self.entries@[i].id@] == self.entries@[i]@
        &&& forall|k: Seq<char>|
            #![trigger self.model@.contains_key(k)]
            self.model@.contains_key(k) ==> exists|i: int|
                0 <= i < self.entries@.len() && #[trigger] self.entries@[i].id@ == k
    }

    pub fn new() -> (r: Self)
        ensures
            r.holds(),
            r.entries() == Map::<Seq<char>, EntryV>::empty(),
    {
        MemoryJournal { entries: Vec::new(), model: Ghost(Map::empty()), kept: Ghost(Seq::empty()) }
    }

    /// How many entries are held.
    pub fn len(&self) -> (r: usize)
        requires
            self.holds(),
        ensures
            r == self.entries().len(),
    {
        proof {
            self.lemma_len();
        }
        self.entries.len()
    }

    proof fn lemma_len(&self)
        requires
            self.holds(),
        ensures
            self.entries().dom().finite(),
            self.entries().len() == self.entries@.len(),
        decreases self.entries@.len(),
    {
        let ids = self.entries@.map_values(|e: JournalEntry| e.id@);
        assert forall|i: int, j: int| 0 <= i < j < ids.len() implies ids[i] != ids[j] by {
            assert(self.entries@[i].id@ != self.entries@[j].id@);
        }
        assert(ids.no_duplicates());
        assert(ids.to_set() =~= self.model@.dom()) by {
            assert forall|k: Seq<char>| ids.to_set().contains(k) implies self.model@.contains_key(k) by {
                let i = choose|i: int| 0 <= i < ids.len() && ids[i] == k;
                assert(self.entries@[i].id@ == k);
            }
            assert forall|k: Seq<char>| self.model@.contains_key(k) implies ids.to_set().contains(k) by {
                let i = choose|i: int| 0 <= i < self.entries@.len() && #[trigger] self.entries@[i].id@ == k;
                assert(ids[i] == k);
            }
        }
        ids.unique_seq_to_set();
    }
}

impl JournalStore for MemoryJournal {
    closed spec fn entries(&self) -> Map<Seq<char>, EntryV> {
        self.model@
    }

    /// The most recently created entry first.
    closed spec fn listing(&self) -> Seq<EntryV> {
        Seq::new(self.entries@.len(), |j: int| self.entries@[self.entries@.len() - 1 - j]@)
    }

    /// Kept in memory, so every write succeeds.
    open spec fn reliable(&self) -> bool {
        true
    }

    closed spec fn wf(&self) -> bool {
        self.holds()
    }

    /// Kept in memory: every entry written, with its backup while pending.
    closed spec fn handed(&self) -> Seq<Kept> {
        self.kept@
    }

    fn write(&mut self, entry: &JournalEntry) -> (r: Result<(), Error>)
        ensures
            r is Ok,
    {
        self.kept = Ghost(self.kept@ + kept_for(entry@));
        let ghost before = self.entries@;
        let mut i: usize = 0;
        while i < self.entries.len()
            invariant
                i <= self.entries.len(),
                self.entries@ == before,
                before == old(self).entries@,
                self.model@ == old(self).model@,
                self.kept@ == old(self).kept@ + kept_for(entry@),
                old(self).holds(),
                forall|j: int| 0 <= j < i ==> #[trigger] self.entries@[j].id@ != entry.id@,
            decreases self.entries.len() - i,
        {
            if str_eq(self.entries[i].id.as_str(), entry.id.as_str()) {
                self.entries.set(i, entry.duplicate());
                self.model = Ghost(self.model@.insert(entry.id@, entry@));
                proof {
                    assert forall|a: int, b: int|
                        0 <= a < b < self.entries@.len() implies #[trigger] self.entries@[a].id@
                        != #[trigger] self.entries@[b].id@ by {
                        assert(before[a].id@ != before[b].id@);
                    }
                    assert forall|a: int|
                        0 <= a < self.entries@.len() implies self.model@.contains_key(
                        #[trigger] self.entries@[a].id@,
                    ) && self.model@[self.entries@[a].id@] == self.entries@[a]@ by {
                        if a != i {
                            assert(before[a].id@ != before[i as int].id@);
                            assert(old(self).model@.contains_key(before[a].id@));
                        }
                    }
                    assert forall|k: Seq<char>|
                        #![trigger self.model@.contains_key(k)]
                        self.model@.contains_key(k) implies exists|j: int|
                            0 <= j < self.entries@.len() && #[trigger] self.entries@[j].id@ == k by {
                        if k == entry.id@ {
                            assert(self.entries@[i as int].id@ == k);
                        } else {
                            assert(old(self).model@.contains_key(k));
                            let j = choose|j: int|
                                0 <= j < before.len() && #[trigger] before[j].id@ == k;
                            assert(j != i);
                            assert(self.entries@[j].id@ == k);
                        }
                    }
                }
                return Ok(());
            }
            i += 1;
        }
        self.entries.push(entry.duplicate());
        self.model = Ghost(self.model@.insert(entry.id@, entry@));
        proof {
            {
                assert forall|k: Seq<char>|
                    #![trigger self.model@.contains_key(k)]
                    self.model@.contains_key(k) implies exists|j: int|
                        0 <= j < self.entries@.len() && #[trigger] self.entries@[j].id@ == k by {
                    if k == entry.id@ {
                        assert(self.entries@[before.len() as int].id@ == k);
                    } else {
                        assert(old(self).model@.contains_key(k));
                        let j = choose|j: int| 0 <= j < before.len() && #[trigger] before[j].id@ == k;
                        assert(self.entries@[j].id@ == k);
                    }
                }
            }
        }
        Ok(())
    }

    fn load(&self, id: &str) -> (r: Result<JournalEntry, Error>)
        ensures
            r is Ok <==> self.entries().contains_key(id@),
    {
        let mut i: usize = 0;
        while i < self.entries.len()
            invariant
                i <= self.entries.len(),
                self.holds(),
                forall|j: int| 0 <= j < i ==> #[trigger] self.entries@[j].id@ != id@,
            decreases self.entries.len() - i,
        {
            if str_eq(self.entries[i].id.as_str(), id) {
                return Ok(self.entries[i].duplicate());
            }
            i += 1;
        }
        let mut message = string_from("no entry ");
        push_str(&mut message, id);
        Err(Error::Journal(message))
    }

    /// Newest first: the most recently created entry leads.
    fn list(&self) -> (r: Result<Vec<JournalEntry>, Error>) {
        let mut v: Vec<JournalEntry> = Vec::new();
        let mut i: usize = self.entries.len();
        while i > 0
            invariant
                i <= self.entries.len(),
                self.holds(),
                v@.len() == self.entries.len() - i,
                forall|j: int|
                    0 <= j < v@.len() ==> #[trigger] v@[j]@ == self.entries@[self.entries.len() - 1 - j]@,
            decreases i,
        {
            v.push(self.entries[i - 1].duplicate());
            i -= 1;
        }
        proof {
            self.lemma_len();
            let l = self.listing();
            assert(entries_view(v@) =~= l);
            assert forall|j: int| 0 <= j < l.len() implies self.model@.contains_key(#[trigger] l[j].id)
                && self.model@[l[j].id] == l[j] by {
                let k = self.entries.len() - 1 - j;
                assert(l[j] == self.entries@[k]@);
                assert(self.model@.contains_key(self.entries@[k].id@));
            }
            assert forall|a: int, b: int| 0 <= a < b < l.len() implies #[trigger] l[a].id != #[trigger] l[b].id by {
                let ka = self.entries.len() - 1 - a;
                let kb = self.entries.len() - 1 - b;
                assert(l[a] == self.entries@[ka]@ && l[b] == self.entries@[kb]@);
                assert(self.entries@[kb].id@ != self.entries@[ka].id@);
            }
        }
        Ok(v)
    }
}

/// Where a journal's files go. The program around the library writes them;
/// nothing is assumed of what happens there, so a journal on disk keeps its
/// own record of what it wrote and answers from that.
pub trait JournalDisk {
    /// Stores `entry` as its file, replacing any earlier one with its id.
    fn save(&mut self, entry: &JournalEntry) -> Result<(), Error>;

    /// Stores the `.reg` backup of the entry `id`.
    fn save_backup(&mut self, id: &str, text: &str) -> Result<(), Error>;
}

/// The entries `read` by id, newest first: an entry read earlier in the list
/// wins over a later one with the same id.
pub open spec fn opened(read: Seq<JournalEntry>) -> Map<Seq<char>, EntryV>
    decreases read.len(),
{
    if read.len() == 0 {
        Map::empty()
    } else {
        opened(read.drop_first()).insert(read[0].id@, read[0]@)
    }
}

/// A journal that puts every entry on disk before it counts it as written:
/// the entry itself, then, for a new entry, its `.reg` backup. What it lists
/// and loads is what was read when it was opened and what it has written
/// since; what it handed the disk since then is recorded in order.
pub struct DiskJournal<D> {
    disk: D,
    memory: MemoryJournal,
    kept: Ghost<Seq<Kept>>,
}

impl<D: JournalDisk> DiskJournal<D> {
    /// Opens the journal with the entries read from disk, newest first.
    pub fn open(disk: D, read: Vec<JournalEntry>) -> (r: Self)
        ensures
            r.wf(),
            r.entries() == opened(read@),
            r.handed() == Seq::<Kept>::empty(),
    {
        let mut memory = MemoryJournal::new();
        let mut i: usize = read.len();
        proof {
            assert(read@.skip(read@.len() as int) =~= Seq::<JournalEntry>::empty());
        }
        while i > 0
            invariant
                i <= read@.len(),
                memory.wf(),
                memory.entries() == opened(read@.skip(i as int)),
            decreases i,
        {
            let _ = memory.write(&read[i - 1]);
            proof {
                let s = read@.skip(i - 1);
                assert(s[0] == read@[i - 1]);
                assert(s.drop_first() =~= read@.skip(i as int));
            }
            i -= 1;
        }
        proof {
            assert(read@.skip(0) =~= read@);
        }
        DiskJournal { disk, memory, kept: Ghost(Seq::empty()) }
    }

    pub closed spec fn disk_view(&self) -> D {
        self.disk
    }

    /// Where the files go.
    pub fn disk(&self) -> (r: &D)
        ensures
            *r == self.disk_view(),
    {
        &self.disk
    }
}

impl<D: JournalDisk> DiskJournal<D> {
    /// Hands the disk the entry's file, and records it once the disk took it.
    fn hand_entry(&mut self, entry: &JournalEntry) -> (r: Result<(), Error>)
        ensures
            final(self).memory == old(self).memory,
            r is Ok ==> final(self).kept@ == old(self).kept@.push(Kept::Entry(entry@)),
            r is Err ==> final(self).kept@ == old(self).kept@,
    {
        self.disk.save(entry)?;
        self.kept = Ghost(self.kept@.push(Kept::Entry(entry@)));
        Ok(())
    }

    /// Hands the disk the `.reg` backup `text` of the entry `id`, and records
    /// it once the disk took it.
    fn hand_backup(&mut self, id: &str, text: &str) -> (r: Result<(), Error>)
        ensures
            final(self).memory == old(self).memory,
            r is Ok ==> final(self).kept@ == old(self).kept@.push(Kept::Backup(id@, text@)),
            r is Err ==> final(self).kept@ == old(self).kept@,
    {
        self.disk.save_backup(id, text)?;
        self.kept = Ghost(self.kept@.push(Kept::Backup(id@, text@)));
        Ok(())
    }
}

impl<D: JournalDisk> JournalStore for DiskJournal<D> {
    closed spec fn entries(&self) -> Map<Seq<char>, EntryV> {
        self.memory.entries()
    }

    closed spec fn listing(&self) -> Seq<EntryV> {
        self.memory.listing()
    }

    /// Nothing is promised of the disk, so no write is promised to succeed.
    open spec fn reliable(&self) -> bool {
        false
    }

    closed spec fn wf(&self) -> bool {
        self.memory.wf()
    }

    /// What was handed to the disk since the journal was opened.
    closed spec fn handed(&self) -> Seq<Kept> {
        self.kept@
    }

    fn write(&mut self, entry: &JournalEntry) -> (r: Result<(), Error>) {
        let ghost before = self.kept@;
        let ghost all = kept_for(entry@);
        match self.hand_entry(entry) {
            Ok(()) => {},
            Err(e) => {
                proof {
                    assert(all.take(0) =~= self.kept@.subrange(before.len() as int, self.kept@.len() as int));
                    assert(self.kept@.subrange(0, before.len() as int) =~= before);
                }
                return Err(e);
            },
        }
        if entry.status == Status::Pending {
            let text = reg_backup(&entry.changes);
            match self.hand_backup(entry.id.as_str(), text.as_str()) {
                Ok(()) => {},
                Err(e) => {
                    proof {
                        assert(all.take(1) =~= self.kept@.subrange(before.len() as int, self.kept@.len() as int));
                        assert(self.kept@.subrange(0, before.len() as int) =~= before);
                    }
                    return Err(e);
                },
            }
        }
        proof {
            assert(self.kept@ =~= before + all);
        }
        self.memory.write(entry)
    }

    fn load(&self, id: &str) -> (r: Result<JournalEntry, Error>)
        ensures
            r is Ok <==> self.entries().contains_key(id@),
    {
        self.memory.load(id)
    }

    fn list(&self) -> (r: Result<Vec<JournalEntry>, Error>) {
        self.memory.list()
    }
}

/// Where the journal lives on disk. Reading and writing the files is left to
/// the program around the library; the names are decided here.
pub struct Journal {
    dir: String,
}

impl Journal {
    pub fn new(dir: String) -> (r: Self)
        ensures
            r.dir_view() == dir@,
    {
        Journal { dir }
    }

    pub closed spec fn dir_view(&self) -> Seq<char> {
        self.dir@
    }

    pub fn dir(&self) -> (r: &str)
        ensures
            r@ == self.dir_view(),
    {
        self.dir.as_str()
    }

    /// `{id}.json`, the entry itself.
    pub fn entry_file(id: &str) -> (r: String)
        ensures
            r@ == id@ + ".json"@,
    {
        let mut s = string_from(id);
        push_str(&mut s, ".json");
        s
    }

    /// `{id}.reg`, the previous values in the format Windows imports.
    pub fn backup_file(id: &str) -> (r: String)
        ensures
            r@ == id@ + ".reg"@,
    {
        let mut s = string_from(id);
        push_str(&mut s, ".reg");
        s
    }
}

} // verus!

verus! {

// ---------------------------------------------------------------------------
// The `.reg` backup: the previous state of a batch, in the format Windows
// itself imports.
// ---------------------------------------------------------------------------

pub open spec fn escaped_char(c: char) -> Seq<char> {
    if c == '\\' {
        seq!['\\', '\\']
    } else if c == '"' {
        seq!['\\', '"']
    } else {
        seq![c]
    }
}

/// `text` with each backslash and double quote escaped by a backslash.
pub open spec fn escaped(text: Seq<char>) -> Seq<char>
    decreases text.len(),
{
    if text.len() == 0 {
        Seq::empty()
    } else {
        escaped(text.drop_last()) + escaped_char(text.last())
    }
}

/// What importing a `.reg` file makes of the text between a value's quotes:
/// a backslash stands for the character after it.
pub open spec fn reg_unescape(s: Seq<char>) -> Seq<char>
    decreases s.len(),
{
    if s.len() == 0 {
        Seq::empty()
    } else if s[0] == '\\' && s.len() >= 2 {
        seq![s[1]] + reg_unescape(s.subrange(2, s.len() as int))
    } else {
        seq![s[0]] + reg_unescape(s.drop_first())
    }
}

proof fn lemma_escaped_concat(a: Seq<char>, b: Seq<char>)
    ensures
        escaped(a + b) == escaped(a) + escaped(b),
    decreases b.len(),
{
    if b.len() == 0 {
        assert(a + b =~= a);
        assert(escaped(a) + escaped(b) =~= escaped(a));
    } else {
        lemma_escaped_concat(a, b.drop_last());
        assert((a + b).drop_last() =~= a + b.drop_last());
        assert((a + b).last() == b.last());
        assert(escaped(a) + escaped(b) =~= escaped(a) + escaped(b.drop_last()) + escaped_char(b.last()));
    }
}

/// Escaping, then importing, gives the text back: every backslash and
/// double quote in a value survives a round trip through the backup.
pub proof fn law_escape_round_trip(t: Seq<char>)
    ensures
        reg_unescape(escaped(t)) == t,
    decreases t.len(),
{
    if t.len() > 0 {
        let c = t[0];
        let rest = t.drop_first();
        assert(t =~= seq![c] + rest);
        lemma_escaped_concat(seq![c], rest);
        assert(seq![c].drop_last() =~= Seq::<char>::empty());
        assert(seq![c].last() == c);
        assert(escaped(Seq::<char>::empty()) == Seq::<char>::empty());
        assert(escaped(seq![c]) == escaped(seq![c].drop_last()) + escaped_char(c));
        assert(escaped(seq![c]) =~= escaped_char(c));
        law_escape_round_trip(rest);
        let e = escaped_char(c) + escaped(rest);
        if c == '\\' || c == '"' {
            assert(e.subrange(2, e.len() as int) =~= escaped(rest));
        } else {
            assert(e.drop_first() =~= escaped(rest));
        }
        assert(reg_unescape(e) =~= seq![c] + rest);
    }
}

/// The backup line of a text value holds, between its quotes, exactly what
/// importing turns back into the text, and the value's name likewise.
pub proof fn law_text_line_reads_back(name: Seq<char>, t: Seq<char>)
    requires
        name.len() > 0,
    ensures
        exists|en: Seq<char>, et: Seq<char>|
            value_line(name, Some(RegValueV::Sz(t))) == seq!['"'] + en + "\"=\""@ + et + "\"\r\n"@
                && #[trigger] reg_unescape(en) == name && #[trigger] reg_unescape(et) == t,
{
    law_escape_round_trip(name);
    law_escape_round_trip(t);
    let en = escaped(name);
    let et = escaped(t);
    reveal_strlit("=\"");
    reveal_strlit("\"=\"");
    reveal_strlit("\"\r\n");
    reveal_strlit("\r\n");
    assert(value_line(name, Some(RegValueV::Sz(t))) =~= seq!['"'] + en + "\"=\""@ + et + "\"\r\n"@);
}

/// Two lower-case hex digits.
pub open spec fn hex2(b: u8) -> Seq<char> {
    hex_fixed(b as nat, 2, false)
}

/// Each byte as two hex digits, separated by commas.
pub open spec fn hex_list(bytes: Seq<u8>) -> Seq<char>
    decreases bytes.len(),
{
    if bytes.len() == 0 {
        Seq::empty()
    } else if bytes.len() == 1 {
        hex2(bytes[0])
    } else {
        hex_list(bytes.drop_last()) + seq![','] + hex2(bytes.last())
    }
}

/// How a value's name is written: `@` for the default value.
pub open spec fn name_part(name: Seq<char>) -> Seq<char> {
    if name.len() == 0 {
        seq!['@']
    } else {
        seq!['"'] + escaped(name) + seq!['"']
    }
}

/// The line that puts back the value `name` as `from` had it.
pub open spec fn value_line(name: Seq<char>, from: Option<RegValueV>) -> Seq<char> {
    name_part(name) + match from {
        None => "=-"@,
        Some(RegValueV::Dword(d)) => "=dword:"@ + hex_fixed(d as nat, 8, false),
        Some(RegValueV::Sz(t)) => "=\""@ + escaped(t) + seq!['"'],
        Some(RegValueV::ExpandSz(t)) => "=hex(2):"@ + hex_list(encoded(t)),
        Some(RegValueV::Binary(b)) => "=hex:"@ + hex_list(b),
    } + "\r\n"@
}

/// A key the batch created, marked for deletion on import.
pub open spec fn absent_lines(cs: Seq<ChangeV>) -> Seq<char>
    decreases cs.len(),
{
    if cs.len() == 0 {
        Seq::empty()
    } else {
        absent_lines(cs.drop_last()) + match cs.last() {
            ChangeV::Key { hive, path, from_present, .. } => if !from_present {
                "[-"@ + hive_long(hive) + seq!['\\'] + path + "]\r\n\r\n"@
            } else {
                Seq::empty()
            },
            _ => Seq::empty(),
        }
    }
}

/// The key of a value change, as `.reg` files group them.
pub open spec fn group_of(c: ChangeV) -> Option<(Hive, Seq<char>)> {
    match c {
        ChangeV::Value { loc, .. } => Some((loc.hive, loc.path)),
        _ => None,
    }
}

/// The keys the batch's value changes are in.
pub open spec fn value_keys(cs: Seq<ChangeV>) -> Set<(Hive, Seq<char>)> {
    Set::new(
        |k: (Hive, Seq<char>)|
            exists|i: int| 0 <= i < cs.len() && #[trigger] group_of(cs[i]) == Some(k),
    )
}

/// The lines of the values in the key `k`, in the batch's order.
pub open spec fn group_lines(k: (Hive, Seq<char>), cs: Seq<ChangeV>) -> Seq<char>
    decreases cs.len(),
{
    if cs.len() == 0 {
        Seq::empty()
    } else {
        group_lines(k, cs.drop_last()) + match cs.last() {
            ChangeV::Value { loc, from, .. } => if (loc.hive, loc.path) == k {
                value_line(loc.name, from)
            } else {
                Seq::empty()
            },
            _ => Seq::empty(),
        }
    }
}

/// The section of the key `k`.
pub open spec fn group_text(k: (Hive, Seq<char>), cs: Seq<ChangeV>) -> Seq<char> {
    seq!['['] + hive_long(k.0) + seq!['\\'] + k.1 + "]\r\n"@ + group_lines(k, cs) + "\r\n"@
}

pub open spec fn groups_text(ks: Seq<(Hive, Seq<char>)>, cs: Seq<ChangeV>) -> Seq<char>
    decreases ks.len(),
{
    if ks.len() == 0 {
        Seq::empty()
    } else {
        groups_text(ks.drop_last(), cs) + group_text(ks.last(), cs)
    }
}

/// The order the sections come in: by hive, then by path.
pub open spec fn key_less(a: (Hive, Seq<char>), b: (Hive, Seq<char>)) -> bool {
    hive_rank(a.0) < hive_rank(b.0) || (a.0 == b.0 && lex_less(a.1, b.1))
}

pub open spec fn keys_sorted(ks: Seq<(Hive, Seq<char>)>) -> bool {
    forall|i: int, j: int| 0 <= i < j < ks.len() ==> key_less(#[trigger] ks[i], #[trigger] ks[j])
}

pub open spec fn backup_header() -> Seq<char> {
    "Windows Registry Editor Version 5.00\r\n\r\n"@
        + "; Previous values, written by mino-win-style before applying changes.\r\n"@
        + "; Import this file to put things back by hand.\r\n\r\n"@
}

/// The backup of the batch `cs`, its sections in the order `ks`.
pub open spec fn backup_text(cs: Seq<ChangeV>, ks: Seq<(Hive, Seq<char>)>) -> Seq<char> {
    backup_header() + absent_lines(cs) + groups_text(ks, cs)
}

proof fn lemma_key_order(a: (Hive, Seq<char>), b: (Hive, Seq<char>), c: (Hive, Seq<char>))
    ensures
        !key_less(a, a),
        key_less(a, b) && key_less(b, c) ==> key_less(a, c),
        a == b || key_less(a, b) || key_less(b, a),
{
    crate::text::lemma_lex_irreflexive(a.1);
    if key_less(a, b) && key_less(b, c) && a.0 == b.0 && b.0 == c.0 {
        crate::text::lemma_lex_transitive(a.1, b.1, c.1);
    }
    crate::text::lemma_lex_total(a.1, b.1);
    if hive_rank(a.0) == hive_rank(b.0) {
        assert(a.0 == b.0);
    }
}

/// Two sorted key lists that hold the same keys are the same list.
proof fn lemma_sorted_keys_unique(a: Seq<(Hive, Seq<char>)>, b: Seq<(Hive, Seq<char>)>)
    requires
        keys_sorted(a),
        keys_sorted(b),
        a.to_set() == b.to_set(),
    ensures
        a == b,
    decreases a.len(),
{
    if a.len() == 0 {
        if b.len() > 0 {
            assert(b.to_set().contains(b[0]));
        }
        assert(a =~= b);
    } else if b.len() == 0 {
        assert(a.to_set().contains(a[0]));
    } else {
        // Both start with the least key.
        assert(a.to_set().contains(a[0]));
        assert(b.to_set().contains(b[0]));
        let i = choose|i: int| 0 <= i < b.len() && b[i] == a[0];
        let j = choose|j: int| 0 <= j < a.len() && a[j] == b[0];
        if i > 0 {
            lemma_key_order(b[0], a[0], a[0]);
            if j > 0 {
                lemma_key_order(a[0], b[0], a[0]);
            }
        }
        if i > 0 && j > 0 {
            lemma_key_order(a[0], b[0], a[0]);
        }
        assert(a[0] == b[0]) by {
            if a[0] != b[0] {
                lemma_key_order(a[0], b[0], b[0]);
                if key_less(a[0], b[0]) {
                    assert(i > 0);
                } else {
                    assert(j > 0);
                    lemma_key_order(b[0], a[0], a[0]);
                }
            }
        }
        let ta = a.drop_first();
        let tb = b.drop_first();
        assert forall|x: (Hive, Seq<char>)| ta.to_set().contains(x) implies tb.to_set().contains(x) by {
            let k = choose|k: int| 0 <= k < ta.len() && ta[k] == x;
            assert(a[k + 1] == x);
            assert(b.to_set().contains(x));
            let q = choose|q: int| 0 <= q < b.len() && b[q] == x;
            lemma_key_order(a[0], x, x);
            if q == 0 {
                assert(key_less(a[0], a[k + 1]));
            } else {
                assert(tb[q - 1] == x);
            }
        }
        assert forall|x: (Hive, Seq<char>)| tb.to_set().contains(x) implies ta.to_set().contains(x) by {
            let k = choose|k: int| 0 <= k < tb.len() && tb[k] == x;
            assert(b[k + 1] == x);
            assert(a.to_set().contains(x));
            let q = choose|q: int| 0 <= q < a.len() && a[q] == x;
            lemma_key_order(b[0], x, x);
            if q == 0 {
                assert(key_less(b[0], b[k + 1]));
            } else {
                assert(ta[q - 1] == x);
            }
        }
        assert(ta.to_set() =~= tb.to_set());
        lemma_sorted_keys_unique(ta, tb);
        assert(a =~= seq![a[0]] + ta);
        assert(b =~= seq![b[0]] + tb);
    }
}

/// The keys of the batch's value changes, sorted.
pub open spec fn backup_keys(cs: Seq<ChangeV>) -> Seq<(Hive, Seq<char>)> {
    choose|ks: Seq<(Hive, Seq<char>)>| keys_sorted(ks) && ks.to_set() == value_keys(cs)
}

/// The `.reg` backup of the batch `cs`.
pub open spec fn backup_of(cs: Seq<ChangeV>) -> Seq<char> {
    backup_text(cs, backup_keys(cs))
}

/// `a` and `b` are the same change but for what they set.
pub open spec fn same_but_target(a: ChangeV, b: ChangeV) -> bool {
    match (a, b) {
        (ChangeV::Value { loc: l1, from: f1, .. }, ChangeV::Value { loc: l2, from: f2, .. }) => l1 == l2 && f1
            == f2,
        (
            ChangeV::Key { hive: h1, path: p1, from_present: f1, .. },
            ChangeV::Key { hive: h2, path: p2, from_present: f2, .. },
        ) => h1 == h2 && p1 == p2 && f1 == f2,
        _ => false,
    }
}

proof fn lemma_lines_ignore_targets(cs: Seq<ChangeV>, ds: Seq<ChangeV>, k: (Hive, Seq<char>))
    requires
        cs.len() == ds.len(),
        forall|i: int| 0 <= i < cs.len() ==> same_but_target(#[trigger] cs[i], ds[i]),
    ensures
        absent_lines(cs) == absent_lines(ds),
        group_lines(k, cs) == group_lines(k, ds),
    decreases cs.len(),
{
    if cs.len() > 0 {
        let (c1, d1) = (cs.drop_last(), ds.drop_last());
        assert forall|i: int| 0 <= i < c1.len() implies same_but_target(#[trigger] c1[i], d1[i]) by {
            assert(same_but_target(cs[i], ds[i]));
        }
        lemma_lines_ignore_targets(c1, d1, k);
        assert(same_but_target(cs.last(), ds.last()));
    }
}

proof fn lemma_groups_ignore_targets(ks: Seq<(Hive, Seq<char>)>, cs: Seq<ChangeV>, ds: Seq<ChangeV>)
    requires
        cs.len() == ds.len(),
        forall|i: int| 0 <= i < cs.len() ==> same_but_target(#[trigger] cs[i], ds[i]),
    ensures
        groups_text(ks, cs) == groups_text(ks, ds),
    decreases ks.len(),
{
    if ks.len() > 0 {
        lemma_groups_ignore_targets(ks.drop_last(), cs, ds);
        lemma_lines_ignore_targets(cs, ds, ks.last());
    }
}

/// The `.reg` backup records what was there before: two batches that differ
/// only in what they set back up to the same text.
pub proof fn law_backup_ignores_targets(cs: Seq<ChangeV>, ds: Seq<ChangeV>)
    requires
        cs.len() == ds.len(),
        forall|i: int| 0 <= i < cs.len() ==> same_but_target(#[trigger] cs[i], ds[i]),
    ensures
        backup_of(cs) == backup_of(ds),
{
    assert(value_keys(cs) =~= value_keys(ds)) by {
        assert forall|k: (Hive, Seq<char>)| value_keys(cs).contains(k) implies value_keys(ds).contains(k) by {
            let i = choose|i: int| 0 <= i < cs.len() && #[trigger] group_of(cs[i]) == Some(k);
            assert(same_but_target(cs[i], ds[i]));
            assert(group_of(ds[i]) == Some(k));
        }
        assert forall|k: (Hive, Seq<char>)| value_keys(ds).contains(k) implies value_keys(cs).contains(k) by {
            let i = choose|i: int| 0 <= i < ds.len() && #[trigger] group_of(ds[i]) == Some(k);
            assert(same_but_target(cs[i], ds[i]));
            assert(group_of(cs[i]) == Some(k));
        }
    }
    lemma_lines_ignore_targets(cs, ds, (Hive::CurrentUser, Seq::empty()));
    lemma_groups_ignore_targets(backup_keys(cs), cs, ds);
}

fn key_before(a: &(Hive, String), b: &(Hive, String)) -> (r: bool)
    ensures
        r == key_less((a.0, a.1@), (b.0, b.1@)),
{
    let (ra, rb) = (a.0.rank(), b.0.rank());
    if ra != rb {
        proof {
            if a.0 == b.0 {
                assert(ra == rb);
            }
        }
        return ra < rb;
    }
    proof {
        if a.0 != b.0 {
            assert(hive_rank(a.0) != hive_rank(b.0));
        }
    }
    str_less(a.1.as_str(), b.1.as_str())
}

pub open spec fn keys_view(v: Seq<(Hive, String)>) -> Seq<(Hive, Seq<char>)> {
    v.map_values(|k: (Hive, String)| (k.0, k.1@))
}

/// Adds `k` to the sorted keys, unless it is there already.
fn insert_key(v: &mut Vec<(Hive, String)>, k: (Hive, String))
    requires
        keys_sorted(keys_view(old(v)@)),
    ensures
        keys_sorted(keys_view(final(v)@)),
        keys_view(final(v)@).to_set() == keys_view(old(v)@).to_set().insert((k.0, k.1@)),
{
    let ghost before = keys_view(v@);
    let ghost x = (k.0, k.1@);
    let mut j: usize = 0;
    while j < v.len() && key_before(&v[j], &k)
        invariant
            j <= v.len(),
            keys_view(v@) == before,
            x == (k.0, k.1@),
            forall|a: int| 0 <= a < j ==> key_less(#[trigger] before[a], x),
        decreases v.len() - j,
    {
        assert(before[j as int] == (v@[j as int].0, v@[j as int].1@));
        j += 1;
    }
    if j < v.len() && v[j].0 == k.0 && str_eq(v[j].1.as_str(), k.1.as_str()) {
        proof {
            assert(before[j as int] == x);
            assert(before.to_set().insert(x) =~= before.to_set());
        }
        return;
    }
    proof {
        if j < v.len() {
            lemma_key_order(before[j as int], x, x);
            assert(key_less(x, before[j as int]));
        }
    }
    v.insert(j, k);
    proof {
        let after = keys_view(v@);
        assert(after =~= before.insert(j as int, x));
        assert forall|b: int| j < b < after.len() implies key_less(x, #[trigger] after[b]) by {
            if b - 1 > j {
                lemma_key_order(x, before[j as int], before[b - 1]);
            }
        }
        assert forall|a: int, b: int| 0 <= a < b < after.len() implies key_less(
            #[trigger] after[a],
            #[trigger] after[b],
        ) by {
            if a < j && b > j {
                lemma_key_order(after[a], x, after[b]);
            }
        }
        assert(after.to_set() =~= before.to_set().insert(x)) by {
            assert forall|s: (Hive, Seq<char>)| after.to_set().contains(s) implies before.to_set().insert(x).contains(s) by {
                let i = choose|i: int| 0 <= i < after.len() && after[i] == s;
                if i < j {
                    assert(before[i] == s);
                } else if i > j {
                    assert(before[i - 1] == s);
                }
            }
            assert forall|s: (Hive, Seq<char>)| before.to_set().insert(x).contains(s) implies after.to_set().contains(s) by {
                if s == x {
                    assert(after[j as int] == s);
                } else {
                    let i = choose|i: int| 0 <= i < before.len() && before[i] == s;
                    if i < j {
                        assert(after[i] == s);
                    } else {
                        assert(after[i + 1] == s);
                    }
                }
            }
        }
    }
}

/// Appends `text` with backslashes and double quotes escaped.
fn push_escaped(out: &mut String, text: &str)
    ensures
        final(out)@ == old(out)@ + escaped(text@),
{
    let cs = crate::text::chars_of(text);
    let mut i: usize = 0;
    while i < cs.len()
        invariant
            i <= cs.len(),
            cs@ == text@,
            out@ == old(out)@ + escaped(cs@.take(i as int)),
        decreases cs.len() - i,
    {
        let c = cs[i];
        if c == '\\' {
            push_char(out, '\\');
            push_char(out, '\\');
        } else if c == '"' {
            push_char(out, '\\');
            push_char(out, '"');
        } else {
            push_char(out, c);
        }
        proof {
            assert(cs@.take(i + 1).drop_last() =~= cs@.take(i as int));
            assert(out@ =~= old(out)@ + escaped(cs@.take(i + 1)));
        }
        i += 1;
    }
    proof {
        assert(cs@.take(cs.len() as int) =~= cs@);
    }
}

/// Appends each byte as two hex digits, separated by commas.
fn push_hex_list(out: &mut String, bytes: &Vec<u8>)
    ensures
        final(out)@ == old(out)@ + hex_list(bytes@),
{
    let mut i: usize = 0;
    while i < bytes.len()
        invariant
            i <= bytes.len(),
            out@ == old(out)@ + hex_list(bytes@.take(i as int)),
        decreases bytes.len() - i,
    {
        if i > 0 {
            push_char(out, ',');
        }
        push_hex(out, bytes[i] as u64, 2, false);
        proof {
            let t = bytes@.take(i + 1);
            assert(t.drop_last() =~= bytes@.take(i as int));
            if i == 0 {
                assert(out@ =~= old(out)@ + hex_list(t));
            } else {
                assert(out@ =~= old(out)@ + hex_list(t));
            }
        }
        i += 1;
    }
    proof {
        assert(bytes@.take(bytes.len() as int) =~= bytes@);
    }
}

/// Appends the line that puts back the value `name` as `from` had it.
fn push_value_line(out: &mut String, name: &str, from: &Option<RegValue>)
    ensures
        final(out)@ == old(out)@ + value_line(name@, crate::provider::opt_view(*from)),
{
    if name.is_empty() {
        push_char(out, '@');
    } else {
        push_char(out, '"');
        push_escaped(out, name);
        push_char(out, '"');
    }
    let ghost named = out@;
    match from {
        // `=-` means "delete this value": right for something that did not
        // exist before it was touched.
        None => push_str(out, "=-"),
        Some(RegValue::Dword(d)) => {
            push_str(out, "=dword:");
            push_hex(out, *d as u64, 8, false);
        },
        Some(RegValue::Sz(t)) => {
            push_str(out, "=\"");
            push_escaped(out, t.as_str());
            push_char(out, '"');
        },
        Some(RegValue::ExpandSz(t)) => {
            push_str(out, "=hex(2):");
            push_hex_list(out, &string_to_utf16_bytes(t.as_str()));
        },
        Some(RegValue::Binary(b)) => {
            push_str(out, "=hex:");
            push_hex_list(out, b);
        },
    }
    push_str(out, "\r\n");
    proof {
        assert(out@ =~= old(out)@ + value_line(name@, crate::provider::opt_view(*from)));
    }
}

/// Renders the previous state of `changes` as a `.reg` file.
///
/// This is the escape hatch: if every other part of this program is broken, a
/// user can still double-click the file Windows itself wrote the format for.
pub fn reg_backup(changes: &Vec<Change>) -> (r: String)
    ensures
        r@ == backup_of(changes_view(changes@)),
        keys_sorted(backup_keys(changes_view(changes@))),
        backup_keys(changes_view(changes@)).to_set() == value_keys(changes_view(changes@)),
{
    let ghost cs = changes_view(changes@);
    let mut keys: Vec<(Hive, String)> = Vec::new();
    let mut i: usize = 0;
    while i < changes.len()
        invariant
            i <= changes.len(),
            cs == changes_view(changes@),
            keys_sorted(keys_view(keys@)),
            keys_view(keys@).to_set() == value_keys(cs.take(i as int)),
        decreases changes.len() - i,
    {
        let ghost prefix = cs.take(i as int);
        let ghost next = cs.take(i + 1);
        proof {
            assert(next =~= prefix.push(cs[i as int]));
        }
        match &changes[i] {
            Change::Value { loc, .. } => {
                insert_key(&mut keys, (loc.hive, loc.path.clone()));
            },
            _ => {},
        }
        proof {
            assert(value_keys(next) =~= match group_of(cs[i as int]) {
                Some(k) => value_keys(prefix).insert(k),
                None => value_keys(prefix),
            }) by {
                assert forall|k: (Hive, Seq<char>)| value_keys(next).contains(k) implies (match group_of(cs[i as int]) {
                    Some(g) => value_keys(prefix).insert(g),
                    None => value_keys(prefix),
                }).contains(k) by {
                    let j = choose|j: int| 0 <= j < next.len() && #[trigger] group_of(next[j]) == Some(k);
                    if j < i {
                        assert(group_of(prefix[j]) == Some(k));
                    }
                }
                assert forall|k: (Hive, Seq<char>)| (match group_of(cs[i as int]) {
                    Some(g) => value_keys(prefix).insert(g),
                    None => value_keys(prefix),
                }).contains(k) implies value_keys(next).contains(k) by {
                    if value_keys(prefix).contains(k) {
                        let j = choose|j: int| 0 <= j < prefix.len() && #[trigger] group_of(prefix[j]) == Some(k);
                        assert(group_of(next[j]) == Some(k));
                    } else {
                        assert(group_of(next[i as int]) == Some(k));
                    }
                }
            }
        }
        i += 1;
    }
    proof {
        assert(cs.take(changes.len() as int) =~= cs);
    }
    let mut out = string_from("Windows Registry Editor Version 5.00\r\n\r\n");
    push_str(&mut out, "; Previous values, written by mino-win-style before applying changes.\r\n");
    push_str(&mut out, "; Import this file to put things back by hand.\r\n\r\n");
    let ghost head = out@;
    let mut i: usize = 0;
    while i < changes.len()
        invariant
            i <= changes.len(),
            cs == changes_view(changes@),
            out@ == head + absent_lines(cs.take(i as int)),
        decreases changes.len() - i,
    {
        proof {
            assert(cs.take(i + 1).drop_last() =~= cs.take(i as int));
        }
        match &changes[i] {
            Change::Key { hive, path, from_present, .. } => {
                if !*from_present {
                    // A leading minus deletes the key on import.
                    push_str(&mut out, "[-");
                    push_str(&mut out, hive.long());
                    push_char(&mut out, '\\');
                    push_str(&mut out, path.as_str());
                    push_str(&mut out, "]\r\n\r\n");
                }
            },
            _ => {},
        }
        proof {
            assert(out@ =~= head + absent_lines(cs.take(i + 1)));
        }
        i += 1;
    }
    let ghost absent = out@;
    let ghost ks = keys_view(keys@);
    let mut g: usize = 0;
    while g < keys.len()
        invariant
            g <= keys.len(),
            cs == changes_view(changes@),
            ks == keys_view(keys@),
            out@ == absent + groups_text(ks.take(g as int), cs),
        decreases keys.len() - g,
    {
        let key = &keys[g];
        let ghost k = ks[g as int];
        push_char(&mut out, '[');
        push_str(&mut out, key.0.long());
        push_char(&mut out, '\\');
        push_str(&mut out, key.1.as_str());
        push_str(&mut out, "]\r\n");
        let ghost section = out@;
        let mut j: usize = 0;
        while j < changes.len()
            invariant
                j <= changes.len(),
                cs == changes_view(changes@),
                out@ == section + group_lines(k, cs.take(j as int)),
                k == (key.0, key.1@),
            decreases changes.len() - j,
        {
            proof {
                assert(cs.take(j + 1).drop_last() =~= cs.take(j as int));
            }
            match &changes[j] {
                Change::Value { loc, from, .. } => {
                    if loc.hive == key.0 && str_eq(loc.path.as_str(), key.1.as_str()) {
                        push_value_line(&mut out, loc.name.as_str(), from);
                    }
                },
                _ => {},
            }
            proof {
                assert(out@ =~= section + group_lines(k, cs.take(j + 1)));
            }
            j += 1;
        }
        push_str(&mut out, "\r\n");
        proof {
            assert(cs.take(changes.len() as int) =~= cs);
            assert(ks.take(g + 1).drop_last() =~= ks.take(g as int));
            assert(out@ =~= absent + groups_text(ks.take(g + 1), cs));
        }
        g += 1;
    }
    proof {
        assert(ks.take(keys.len() as int) =~= ks);
        assert(cs.take(changes.len() as int) =~= cs);
        assert(out@ =~= backup_text(cs, ks));
        assert(keys_sorted(backup_keys(cs)) && backup_keys(cs).to_set() == value_keys(cs));
        lemma_sorted_keys_unique(ks, backup_keys(cs));
    }
    out
}

} // verus!
