//! The registry and the shell, as the engine is allowed to see them.
//!
//! Every side effect goes through [`RegistryProvider`] or [`ShellRefresher`].
//! A provider is described by a mathematical model — a map of values and a set
//! of keys, each named case-insensitively — and every operation states what it
//! does to that model. [`MemoryRegistry`] is the in-memory implementation used
//! by tests and dry runs, and is proved to meet that description.

use vstd::prelude::*;
use crate::error::Error;
use crate::text::{
    chars_of, fold_case, fold_case_str, lemma_lex_irreflexive, lemma_lex_total, lemma_lex_transitive,
    lex_less, push_char, push_str, same_chars, starts_with, str_eq, str_less, string_from,
};

verus! {

#[derive(Debug, Clone, Copy, PartialEq, Eq, Structural, PartialOrd, Ord, Hash)]
pub enum Hive {
    CurrentUser,
    LocalMachine,
    ClassesRoot,
}

pub open spec fn hive_short(h: Hive) -> Seq<char> {
    match h {
        Hive::CurrentUser => "HKCU"@,
        Hive::LocalMachine => "HKLM"@,
        Hive::ClassesRoot => "HKCR"@,
    }
}

pub open spec fn hive_long(h: Hive) -> Seq<char> {
    match h {
        Hive::CurrentUser => "HKEY_CURRENT_USER"@,
        Hive::LocalMachine => "HKEY_LOCAL_MACHINE"@,
        Hive::ClassesRoot => "HKEY_CLASSES_ROOT"@,
    }
}

/// The position of a hive in the order `.reg` backups list them.
pub open spec fn hive_rank(h: Hive) -> nat {
    match h {
        Hive::CurrentUser => 0,
        Hive::LocalMachine => 1,
        Hive::ClassesRoot => 2,
    }
}

impl Hive {
    pub fn short(self) -> (r: &'static str)
        ensures
            r@ == hive_short(self),
    {
        match self {
            Hive::CurrentUser => "HKCU",
            Hive::LocalMachine => "HKLM",
            Hive::ClassesRoot => "HKCR",
        }
    }

    /// The form `.reg` files use.
    pub fn long(self) -> (r: &'static str)
        ensures
            r@ == hive_long(self),
    {
        match self {
            Hive::CurrentUser => "HKEY_CURRENT_USER",
            Hive::LocalMachine => "HKEY_LOCAL_MACHINE",
            Hive::ClassesRoot => "HKEY_CLASSES_ROOT",
        }
    }

    pub fn rank(self) -> (r: u8)
        ensures
            r == hive_rank(self),
    {
        match self {
            Hive::CurrentUser => 0,
            Hive::LocalMachine => 1,
            Hive::ClassesRoot => 2,
        }
    }
}

/// A registry location fixed in the source. Built-in tweaks use this so their
/// key paths are visible at a glance and cannot be built from user input.
#[derive(Debug, Clone, Copy)]
pub struct RegSpec {
    pub hive: Hive,
    pub path: &'static str,
    pub name: &'static str,
}

/// A registry location, as mathematics sees it.
pub struct LocV {
    pub hive: Hive,
    pub path: Seq<char>,
    /// Empty means the key's unnamed default value.
    pub name: Seq<char>,
}

impl RegSpec {
    pub fn hkcu(path: &'static str, name: &'static str) -> (r: Self)
        ensures
            r.hive == Hive::CurrentUser,
            r.path@ == path@,
            r.name@ == name@,
    {
        RegSpec { hive: Hive::CurrentUser, path, name }
    }

    pub open spec fn loc_view(self) -> LocV {
        LocV { hive: self.hive, path: self.path@, name: self.name@ }
    }

    pub fn loc(&self) -> (r: RegLoc)
        ensures
            r@ == self.loc_view(),
    {
        RegLoc { hive: self.hive, path: string_from(self.path), name: string_from(self.name) }
    }
}

/// The owned form, used in plans and journal entries.
#[derive(Debug, Clone, PartialEq, Eq, PartialOrd, Ord, Hash)]
pub struct RegLoc {
    pub hive: Hive,
    pub path: String,
    /// Empty string means the key's unnamed default value.
    pub name: String,
}

impl View for RegLoc {
    type V = LocV;

    open spec fn view(&self) -> LocV {
        LocV { hive: self.hive, path: self.path@, name: self.name@ }
    }
}

/// `HKCU\path\\name`, with `(Default)` for the unnamed value.
pub open spec fn loc_text(l: LocV) -> Seq<char> {
    hive_short(l.hive) + seq!['\\'] + l.path + seq!['\\', '\\'] + if l.name.len() == 0 {
        "(Default)"@
    } else {
        l.name
    }
}

impl RegLoc {
    pub fn duplicate(&self) -> (r: Self)
        ensures
            r@ == self@,
    {
        RegLoc { hive: self.hive, path: self.path.clone(), name: self.name.clone() }
    }

    /// The location as a person reads it.
    pub fn text(&self) -> (r: String)
        ensures
            r@ == loc_text(self@),
    {
        let mut s = string_from(self.hive.short());
        push_char(&mut s, '\\');
        push_str(&mut s, self.path.as_str());
        push_char(&mut s, '\\');
        push_char(&mut s, '\\');
        if self.name.as_str().is_empty() {
            push_str(&mut s, "(Default)");
        } else {
            push_str(&mut s, self.name.as_str());
        }
        proof {
            assert(s@ =~= loc_text(self@));
        }
        s
    }
}

#[derive(Debug, Clone, PartialEq, Eq, PartialOrd, Ord, Hash)]
pub enum RegValue {
    Dword(u32),
    Sz(String),
    ExpandSz(String),
    Binary(Vec<u8>),
}

/// A registry value, as mathematics sees it.
pub enum RegValueV {
    Dword(u32),
    Sz(Seq<char>),
    ExpandSz(Seq<char>),
    Binary(Seq<u8>),
}

impl View for RegValue {
    type V = RegValueV;

    open spec fn view(&self) -> RegValueV {
        match self {
            RegValue::Dword(d) => RegValueV::Dword(*d),
            RegValue::Sz(s) => RegValueV::Sz(s@),
            RegValue::ExpandSz(s) => RegValueV::ExpandSz(s@),
            RegValue::Binary(b) => RegValueV::Binary(b@),
        }
    }
}

pub open spec fn opt_view(v: Option<RegValue>) -> Option<RegValueV> {
    match v {
        Some(x) => Some(x@),
        None => None,
    }
}

pub open spec fn kind_name_text(v: RegValueV) -> Seq<char> {
    match v {
        RegValueV::Dword(_) => "REG_DWORD"@,
        RegValueV::Sz(_) => "REG_SZ"@,
        RegValueV::ExpandSz(_) => "REG_EXPAND_SZ"@,
        RegValueV::Binary(_) => "REG_BINARY"@,
    }
}

pub fn copy_bytes(b: &Vec<u8>) -> (r: Vec<u8>)
    ensures
        r@ == b@,
{
    let mut r: Vec<u8> = Vec::new();
    let mut i: usize = 0;
    while i < b.len()
        invariant
            i <= b.len(),
            r@ == b@.take(i as int),
        decreases b.len() - i,
    {
        r.push(b[i]);
        proof {
            assert(b@.take(i + 1) == b@.take(i as int).push(b@[i as int]));
        }
        i += 1;
    }
    proof {
        assert(b@.take(b.len() as int) == b@);
    }
    r
}

pub fn same_bytes(a: &Vec<u8>, b: &Vec<u8>) -> (r: bool)
    ensures
        r == (a@ == b@),
{
    if a.len() != b.len() {
        return false;
    }
    let mut i: usize = 0;
    while i < a.len()
        invariant
            a.len() == b.len(),
            i <= a.len(),
            forall|j: int| 0 <= j < i ==> a@[j] == b@[j],
        decreases a.len() - i,
    {
        if a[i] != b[i] {
            return false;
        }
        i += 1;
    }
    proof {
        assert(a@ =~= b@);
    }
    true
}

impl RegValue {
    pub fn as_dword(&self) -> (r: Option<u32>)
        ensures
            r == (match self@ {
                RegValueV::Dword(d) => Some(d),
                _ => None::<u32>,
            }),
    {
        match self {
            RegValue::Dword(d) => Some(*d),
            _ => None,
        }
    }

    pub fn kind_name(&self) -> (r: &'static str)
        ensures
            r@ == kind_name_text(self@),
    {
        match self {
            RegValue::Dword(_) => "REG_DWORD",
            RegValue::Sz(_) => "REG_SZ",
            RegValue::ExpandSz(_) => "REG_EXPAND_SZ",
            RegValue::Binary(_) => "REG_BINARY",
        }
    }

    pub fn duplicate(&self) -> (r: Self)
        ensures
            r@ == self@,
    {
        match self {
            RegValue::Dword(d) => RegValue::Dword(*d),
            RegValue::Sz(s) => RegValue::Sz(s.clone()),
            RegValue::ExpandSz(s) => RegValue::ExpandSz(s.clone()),
            RegValue::Binary(b) => RegValue::Binary(copy_bytes(b)),
        }
    }

    pub fn same_as(&self, other: &RegValue) -> (r: bool)
        ensures
            r == (self@ == other@),
    {
        match (self, other) {
            (RegValue::Dword(a), RegValue::Dword(b)) => *a == *b,
            (RegValue::Sz(a), RegValue::Sz(b)) => crate::text::str_eq(a.as_str(), b.as_str()),
            (RegValue::ExpandSz(a), RegValue::ExpandSz(b)) => crate::text::str_eq(
                a.as_str(),
                b.as_str(),
            ),
            (RegValue::Binary(a), RegValue::Binary(b)) => same_bytes(a, b),
            _ => false,
        }
    }
}

pub fn duplicate_opt(v: &Option<RegValue>) -> (r: Option<RegValue>)
    ensures
        opt_view(r) == opt_view(*v),
{
    match v {
        Some(x) => Some(x.duplicate()),
        None => None,
    }
}

/// Whether an optional value holds exactly `to`.
pub fn holds(from: &Option<RegValue>, to: &RegValue) -> (r: bool)
    ensures
        r == (opt_view(*from) == Some(to@)),
{
    match from {
        Some(v) => v.same_as(to),
        None => false,
    }
}

// ---------------------------------------------------------------------------
// The model
// ---------------------------------------------------------------------------

/// How a value is named in the model: hive, then path and name compared
/// without regard to case, as Windows compares them.
pub type ValueKey = (Hive, Seq<char>, Seq<char>);

/// How a key is named in the model.
pub type KeyKey = (Hive, Seq<char>);

pub open spec fn value_key(l: LocV) -> ValueKey {
    (l.hive, fold_case(l.path), fold_case(l.name))
}

pub open spec fn key_key(hive: Hive, path: Seq<char>) -> KeyKey {
    (hive, fold_case(path))
}

/// `candidate` is the key `target` or lies somewhere beneath it.
pub open spec fn covered(target: Seq<char>, candidate: Seq<char>) -> bool {
    candidate == target || starts_with(candidate, target.push('\\'))
}

/// Everything a registry holds: its values, and which keys exist.
pub struct RegModel {
    pub values: Map<ValueKey, RegValueV>,
    pub keys: Set<KeyKey>,
}

impl RegModel {
    pub open spec fn value_at(self, l: LocV) -> Option<RegValueV> {
        if self.values.dom().contains(value_key(l)) {
            Some(self.values[value_key(l)])
        } else {
            None
        }
    }

    pub open spec fn has_key(self, hive: Hive, path: Seq<char>) -> bool {
        self.keys.contains(key_key(hive, path))
    }

    /// Writing a value creates the key that holds it.
    pub open spec fn with_value(self, l: LocV, v: RegValueV) -> RegModel {
        RegModel {
            values: self.values.insert(value_key(l), v),
            keys: self.keys.insert(key_key(l.hive, l.path)),
        }
    }

    pub open spec fn without_value(self, l: LocV) -> RegModel {
        RegModel { values: self.values.remove(value_key(l)), keys: self.keys }
    }

    pub open spec fn with_key(self, hive: Hive, path: Seq<char>) -> RegModel {
        RegModel { values: self.values, keys: self.keys.insert(key_key(hive, path)) }
    }

    /// Deleting a key takes everything beneath it: subkeys and their values.
    pub open spec fn without_key(self, hive: Hive, path: Seq<char>) -> RegModel {
        let target = fold_case(path);
        RegModel {
            values: self.values.restrict(
                self.values.dom().filter(|k: ValueKey| !(k.0 == hive && covered(target, k.1))),
            ),
            keys: self.keys.filter(|k: KeyKey| !(k.0 == hive && covered(target, k.1))),
        }
    }
}

/// Everything the engine is allowed to do to the registry.
///
/// Each operation states its effect on [`RegistryProvider::model`]; a failed
/// operation leaves the registry as it was. `reliable` marks providers that
/// never fail, such as the in-memory one.
pub trait RegistryProvider {
    spec fn model(&self) -> RegModel;

    /// What the provider needs of itself to work; every operation keeps it.
    spec fn wf(&self) -> bool;

    spec fn reliable(&self) -> bool;

    fn read(&self, loc: &RegLoc) -> (r: Result<Option<RegValue>, Error>)
        requires
            self.wf(),
        ensures
            self.reliable() ==> r is Ok,
            r matches Ok(v) ==> opt_view(v) == self.model().value_at(loc@),
    ;

    fn write(&mut self, loc: &RegLoc, value: &RegValue) -> (r: Result<(), Error>)
        requires
            old(self).wf(),
        ensures
            final(self).wf(),
            final(self).reliable() == old(self).reliable(),
            old(self).reliable() ==> r is Ok,
            r is Ok ==> final(self).model() == old(self).model().with_value(loc@, value@),
            r is Err ==> final(self).model() == old(self).model(),
    ;

    fn delete_value(&mut self, loc: &RegLoc) -> (r: Result<(), Error>)
        requires
            old(self).wf(),
        ensures
            final(self).wf(),
            final(self).reliable() == old(self).reliable(),
            old(self).reliable() ==> r is Ok,
            r is Ok ==> final(self).model() == old(self).model().without_value(loc@),
            r is Err ==> final(self).model() == old(self).model(),
    ;

    fn key_exists(&self, hive: Hive, path: &str) -> (r: Result<bool, Error>)
        requires
            self.wf(),
        ensures
            self.reliable() ==> r is Ok,
            r matches Ok(b) ==> b == self.model().has_key(hive, path@),
    ;

    fn create_key(&mut self, hive: Hive, path: &str) -> (r: Result<(), Error>)
        requires
            old(self).wf(),
        ensures
            final(self).wf(),
            final(self).reliable() == old(self).reliable(),
            old(self).reliable() ==> r is Ok,
            r is Ok ==> final(self).model() == old(self).model().with_key(hive, path@),
            r is Err ==> final(self).model() == old(self).model(),
    ;

    /// Deletes the key and everything under it.
    fn delete_key(&mut self, hive: Hive, path: &str) -> (r: Result<(), Error>)
        requires
            old(self).wf(),
        ensures
            final(self).wf(),
            final(self).reliable() == old(self).reliable(),
            old(self).reliable() ==> r is Ok,
            r is Ok ==> final(self).model() == old(self).model().without_key(hive, path@),
            r is Err ==> final(self).model() == old(self).model(),
    ;
}

} // verus!

verus! {

// ---------------------------------------------------------------------------
// The in-memory registry, used by tests and dry runs.
// ---------------------------------------------------------------------------

/// One stored value, under its lower-cased path and name.
#[derive(Debug, Clone, PartialEq, Eq, PartialOrd, Ord, Hash)]
pub struct StoredValue {
    pub hive: Hive,
    pub path: String,
    pub name: String,
    pub value: RegValue,
}

/// One existing key, under its lower-cased path.
#[derive(Debug, Clone, PartialEq, Eq, PartialOrd, Ord, Hash)]
pub struct StoredKey {
    pub hive: Hive,
    pub path: String,
}

pub open spec fn stored_key(e: StoredValue) -> ValueKey {
    (e.hive, e.path@, e.name@)
}

pub open spec fn stored_kkey(k: StoredKey) -> KeyKey {
    (k.hive, k.path@)
}

/// Where a hive's short name sorts among the others.
pub open spec fn short_rank(h: Hive) -> int {
    match h {
        Hive::ClassesRoot => 0,
        Hive::CurrentUser => 1,
        Hive::LocalMachine => 2,
    }
}

/// The order values are listed in: by hive (`HKCR`, `HKCU`, `HKLM`), then by
/// path, then by name.
#[verifier::opaque]
pub open spec fn key_less(a: ValueKey, b: ValueKey) -> bool {
    ||| short_rank(a.0) < short_rank(b.0)
    ||| short_rank(a.0) == short_rank(b.0) && lex_less(a.1, b.1)
    ||| short_rank(a.0) == short_rank(b.0) && a.1 == b.1 && lex_less(a.2, b.2)
}

/// Every value of `s` sorts before the ones after it.
pub open spec fn keys_ascending(s: Seq<StoredValue>) -> bool {
    forall|i: int, j: int| 0 <= i < j < s.len() ==> key_less(stored_key(#[trigger] s[i]), stored_key(#[trigger] s[j]))
}

/// `key_less` is a strict total order.
pub proof fn lemma_key_order(a: ValueKey, b: ValueKey, c: ValueKey)
    ensures
        !key_less(a, a),
        key_less(a, b) && key_less(b, c) ==> key_less(a, c),
        a == b || key_less(a, b) || key_less(b, a),
{
    reveal(key_less);
    lemma_lex_irreflexive(a.1);
    lemma_lex_irreflexive(a.2);
    lemma_lex_total(a.1, b.1);
    lemma_lex_total(a.2, b.2);
    if lex_less(a.1, b.1) && lex_less(b.1, c.1) {
        lemma_lex_transitive(a.1, b.1, c.1);
    }
    if lex_less(a.2, b.2) && lex_less(b.2, c.2) {
        lemma_lex_transitive(a.2, b.2, c.2);
    }
    if short_rank(a.0) == short_rank(b.0) {
        assert(a.0 == b.0);
    }
}

fn hive_number(h: Hive) -> (r: u8)
    ensures
        r == short_rank(h),
{
    match h {
        Hive::ClassesRoot => 0,
        Hive::CurrentUser => 1,
        Hive::LocalMachine => 2,
    }
}

/// Each value of `s` with its key.
pub open spec fn pairs(s: Seq<StoredValue>) -> Seq<(ValueKey, RegValueV)> {
    s.map_values(|e: StoredValue| (stored_key(e), e.value@))
}

/// Putting `x` anywhere in `s` adds it to the set of what `s` holds.
proof fn lemma_insert_to_set<T>(s: Seq<T>, p: int, x: T)
    requires
        0 <= p <= s.len(),
    ensures
        s.insert(p, x).to_set() == s.to_set().insert(x),
{
    let t = s.insert(p, x);
    assert forall|y: T| t.to_set().contains(y) implies s.to_set().insert(x).contains(y) by {
        let k = choose|k: int| 0 <= k < t.len() && t[k] == y;
        if k < p {
            assert(s[k] == y);
        } else if k > p {
            assert(s[k - 1] == y);
        }
    }
    assert forall|y: T| s.to_set().insert(x).contains(y) implies t.to_set().contains(y) by {
        if y == x {
            assert(t[p] == y);
        } else {
            let k = choose|k: int| 0 <= k < s.len() && s[k] == y;
            if k < p {
                assert(t[k] == y);
            } else {
                assert(t[k + 1] == y);
            }
        }
    }
    assert(t.to_set() =~= s.to_set().insert(x));
}

/// The keys of `s`, in order.
pub open spec fn keys_of(s: Seq<StoredValue>) -> Seq<ValueKey> {
    s.map_values(|e: StoredValue| stored_key(e))
}

/// Two lists of keys, each in order, that hold the same keys are the same.
proof fn lemma_ordered_keys_unique(a: Seq<ValueKey>, b: Seq<ValueKey>)
    requires
        forall|i: int, j: int| 0 <= i < j < a.len() ==> key_less(#[trigger] a[i], #[trigger] a[j]),
        forall|i: int, j: int| 0 <= i < j < b.len() ==> key_less(#[trigger] b[i], #[trigger] b[j]),
        a.to_set() == b.to_set(),
    ensures
        a == b,
    decreases a.len(),
{
    if a.len() == 0 {
        if b.len() > 0 {
            assert(b.to_set().contains(b[0]));
        }
        assert(a =~= b);
    } else if b.len() == 0 {
        assert(a.to_set().contains(a[0]));
    } else {
        assert(a.to_set().contains(a[0]));
        assert(b.to_set().contains(b[0]));
        let i = choose|i: int| 0 <= i < b.len() && b[i] == a[0];
        let j = choose|j: int| 0 <= j < a.len() && a[j] == b[0];
        assert(a[0] == b[0]) by {
            lemma_key_order(a[0], b[0], a[0]);
            if a[0] != b[0] {
                if key_less(a[0], b[0]) {
                    assert(i > 0);
                    assert(key_less(b[0], b[i]));
                } else {
                    assert(j > 0);
                    assert(key_less(a[0], a[j]));
                }
            }
        }
        let ta = a.drop_first();
        let tb = b.drop_first();
        assert forall|x: ValueKey| ta.to_set().contains(x) implies tb.to_set().contains(x) by {
            let k = choose|k: int| 0 <= k < ta.len() && ta[k] == x;
            assert(a[k + 1] == x);
            assert(b.to_set().contains(x));
            let q = choose|q: int| 0 <= q < b.len() && b[q] == x;
            lemma_key_order(a[0], x, x);
            if q == 0 {
                assert(key_less(a[0], a[k + 1]));
            } else {
                assert(tb[q - 1] == x);
            }
        }
        assert forall|x: ValueKey| tb.to_set().contains(x) implies ta.to_set().contains(x) by {
            let k = choose|k: int| 0 <= k < tb.len() && tb[k] == x;
            assert(b[k + 1] == x);
            assert(a.to_set().contains(x));
            let q = choose|q: int| 0 <= q < a.len() && a[q] == x;
            lemma_key_order(b[0], x, x);
            if q == 0 {
                assert(key_less(b[0], b[k + 1]));
            } else {
                assert(ta[q - 1] == x);
            }
        }
        assert(ta.to_set() =~= tb.to_set());
        lemma_ordered_keys_unique(ta, tb);
        assert(a =~= seq![a[0]] + ta);
        assert(b =~= seq![b[0]] + tb);
    }
}

/// Two snapshots of the same stored values agree: the same keys, in the same
/// order, with the same values. So two snapshots of one registry with nothing
/// written between them are equal.
pub proof fn law_snapshots_agree(a: Seq<StoredValue>, b: Seq<StoredValue>, m: Map<ValueKey, RegValueV>)
    requires
        values_match(a, m),
        keys_ascending(a),
        values_match(b, m),
        keys_ascending(b),
    ensures
        pairs(a) == pairs(b),
{
    let ka = keys_of(a);
    let kb = keys_of(b);
    assert forall|x: ValueKey| ka.to_set().contains(x) implies kb.to_set().contains(x) by {
        let i = choose|i: int| 0 <= i < ka.len() && ka[i] == x;
        assert(stored_key(a[i]) == x);
        assert(m.dom().contains(x));
        let j = choose|j: int| 0 <= j < b.len() && stored_key(#[trigger] b[j]) == x;
        assert(kb[j] == x);
    }
    assert forall|x: ValueKey| kb.to_set().contains(x) implies ka.to_set().contains(x) by {
        let i = choose|i: int| 0 <= i < kb.len() && kb[i] == x;
        assert(stored_key(b[i]) == x);
        assert(m.dom().contains(x));
        let j = choose|j: int| 0 <= j < a.len() && stored_key(#[trigger] a[j]) == x;
        assert(ka[j] == x);
    }
    assert(ka.to_set() =~= kb.to_set());
    assert forall|i: int, j: int| 0 <= i < j < ka.len() implies key_less(#[trigger] ka[i], #[trigger] ka[j]) by {
        assert(key_less(stored_key(a[i]), stored_key(a[j])));
    }
    assert forall|i: int, j: int| 0 <= i < j < kb.len() implies key_less(#[trigger] kb[i], #[trigger] kb[j]) by {
        assert(key_less(stored_key(b[i]), stored_key(b[j])));
    }
    lemma_ordered_keys_unique(ka, kb);
    assert forall|i: int| 0 <= i < a.len() implies #[trigger] pairs(a)[i] == pairs(b)[i] by {
        assert(ka[i] == kb[i]);
        assert(m[stored_key(a[i])] == a[i].value@);
        assert(m[stored_key(b[i])] == b[i].value@);
    }
    assert(pairs(a) =~= pairs(b));
}

/// Whether `a` is listed before `b`.
fn stored_less(a: &StoredValue, b: &StoredValue) -> (r: bool)
    ensures
        r == key_less(stored_key(*a), stored_key(*b)),
{
    reveal(key_less);
    let x = hive_number(a.hive);
    let y = hive_number(b.hive);
    if x != y {
        x < y
    } else if str_less(a.path.as_str(), b.path.as_str()) {
        true
    } else if str_eq(a.path.as_str(), b.path.as_str()) {
        str_less(a.name.as_str(), b.name.as_str())
    } else {
        false
    }
}

/// `s` lists exactly the values of `m`, each once.
pub open spec fn values_match(s: Seq<StoredValue>, m: Map<ValueKey, RegValueV>) -> bool {
    &&& forall|i: int, j: int|
        0 <= i < j < s.len() ==> stored_key(#[trigger] s[i]) != stored_key(#[trigger] s[j])
    &&& forall|k: ValueKey|
        m.dom().contains(k) <==> exists|i: int| 0 <= i < s.len() && stored_key(#[trigger] s[i]) == k
    &&& forall|i: int|
        0 <= i < s.len() ==> m.dom().contains(stored_key(#[trigger] s[i])) && m[stored_key(s[i])]
            == s[i].value@
}

/// `s` lists exactly the keys of `m`, each once.
pub open spec fn keys_match(s: Seq<StoredKey>, m: Set<KeyKey>) -> bool {
    &&& forall|i: int, j: int|
        0 <= i < j < s.len() ==> stored_kkey(#[trigger] s[i]) != stored_kkey(#[trigger] s[j])
    &&& forall|k: KeyKey|
        m.contains(k) <==> exists|i: int| 0 <= i < s.len() && stored_kkey(#[trigger] s[i]) == k
}

impl StoredValue {
    pub fn duplicate(&self) -> (r: Self)
        ensures
            stored_key(r) == stored_key(*self),
            r.value@ == self.value@,
    {
        StoredValue {
            hive: self.hive,
            path: self.path.clone(),
            name: self.name.clone(),
            value: self.value.duplicate(),
        }
    }
}

impl StoredKey {
    pub fn duplicate(&self) -> (r: Self)
        ensures
            stored_kkey(r) == stored_kkey(*self),
    {
        StoredKey { hive: self.hive, path: self.path.clone() }
    }
}

fn find_value(values: &Vec<StoredValue>, hive: Hive, path: &Vec<char>, name: &Vec<char>) -> (r:
    Option<usize>)
    ensures
        match r {
            Some(i) => i < values.len() && stored_key(values@[i as int]) == (hive, path@, name@),
            None => forall|i: int|
                0 <= i < values.len() ==> stored_key(#[trigger] values@[i]) != (hive, path@, name@),
        },
{
    let mut i: usize = 0;
    while i < values.len()
        invariant
            i <= values.len(),
            forall|j: int| 0 <= j < i ==> stored_key(#[trigger] values@[j]) != (hive, path@, name@),
        decreases values.len() - i,
    {
        let e = &values[i];
        if e.hive == hive && same_chars(&chars_of(e.path.as_str()), path) && same_chars(
            &chars_of(e.name.as_str()),
            name,
        ) {
            return Some(i);
        }
        i += 1;
    }
    None
}

fn find_key(keys: &Vec<StoredKey>, hive: Hive, path: &Vec<char>) -> (r: Option<usize>)
    ensures
        match r {
            Some(i) => i < keys.len() && stored_kkey(keys@[i as int]) == (hive, path@),
            None => forall|i: int|
                0 <= i < keys.len() ==> stored_kkey(#[trigger] keys@[i]) != (hive, path@),
        },
{
    let mut i: usize = 0;
    while i < keys.len()
        invariant
            i <= keys.len(),
            forall|j: int| 0 <= j < i ==> stored_kkey(#[trigger] keys@[j]) != (hive, path@),
        decreases keys.len() - i,
    {
        let e = &keys[i];
        if e.hive == hive && same_chars(&chars_of(e.path.as_str()), path) {
            return Some(i);
        }
        i += 1;
    }
    None
}

/// Whether `candidate` is `target` or lies beneath it.
fn covers(target: &Vec<char>, candidate: &Vec<char>) -> (r: bool)
    ensures
        r == covered(target@, candidate@),
{
    if same_chars(target, candidate) {
        return true;
    }
    if candidate.len() <= target.len() {
        proof {
            assert(!starts_with(candidate@, target@.push('\\')));
        }
        return false;
    }
    let mut i: usize = 0;
    while i < target.len()
        invariant
            i <= target.len() < candidate.len(),
            forall|j: int| 0 <= j < i ==> candidate@[j] == target@[j],
        decreases target.len() - i,
    {
        if candidate[i] != target[i] {
            proof {
                assert(candidate@.take(target.len() + 1)[i as int] != target@.push('\\')[i as int]);
            }
            return false;
        }
        i += 1;
    }
    let r = candidate[target.len()] == '\\';
    proof {
        if r {
            assert(candidate@.take(target.len() + 1) =~= target@.push('\\'));
        } else {
            assert(candidate@.take(target.len() + 1)[target.len() as int] != target@.push(
                '\\',
            )[target.len() as int]);
        }
    }
    r
}

/// The registry in memory: what tests and `--dry-run` work against.
pub struct MemoryRegistry {
    values: Vec<StoredValue>,
    keys: Vec<StoredKey>,
    model: Ghost<RegModel>,
}

impl MemoryRegistry {
    pub fn new() -> (r: Self)
        ensures
            r.wf(),
            r.model().values == Map::<ValueKey, RegValueV>::empty(),
            r.model().keys == Set::<KeyKey>::empty(),
    {
        MemoryRegistry {
            values: Vec::new(),
            keys: Vec::new(),
            model: Ghost(RegModel { values: Map::empty(), keys: Set::empty() }),
        }
    }

    /// Seeds a value, so a test can describe the machine it is pretending to be.
    pub fn seed(&mut self, loc: &RegLoc, value: RegValue)
        requires
            old(self).wf(),
        ensures
            final(self).wf(),
            final(self).model() == old(self).model().with_value(loc@, value@),
    {
        let _ = self.write(loc, &value);
    }

    /// Everything currently stored, for checking that a revert was exact,
    /// listed by hive, path and name.
    pub fn snapshot(&self) -> (r: Vec<StoredValue>)
        requires
            self.wf(),
        ensures
            values_match(r@, self.model().values),
            keys_ascending(r@),
    {
        let ghost vs = self.values@;
        let ghost m = self.model@.values;
        let mut out: Vec<StoredValue> = Vec::new();
        let mut i: usize = 0;
        proof {
            assert(pairs(out@).to_set() =~= pairs(vs.take(0)).to_set());
        }
        while i < self.values.len()
            invariant
                i <= self.values.len(),
                vs == self.values@,
                values_match(vs, m),
                keys_ascending(out@),
                pairs(out@).to_set() == pairs(vs.take(i as int)).to_set(),
            decreases self.values.len() - i,
        {
            let x = self.values[i].duplicate();
            let ghost kx = stored_key(x);
            let ghost px = (kx, x.value@);
            let ghost before = out@;
            proof {
                assert(pairs(vs.take(i + 1)) =~= pairs(vs.take(i as int)).insert(i as int, px));
                lemma_insert_to_set(pairs(vs.take(i as int)), i as int, px);
                // x's key is not among those placed so far.
                assert forall|q: int| 0 <= q < before.len() implies stored_key(#[trigger] before[q]) != kx by {
                    assert(pairs(before).to_set().contains(pairs(before)[q]));
                    let j = choose|j: int| 0 <= j < i && pairs(vs.take(i as int))[j] == pairs(before)[q];
                    assert(pairs(vs.take(i as int))[j] == (stored_key(vs[j]), vs[j].value@));
                    assert(stored_key(vs[j]) != stored_key(vs[i as int]));
                }
            }
            let mut p: usize = 0;
            while p < out.len() && stored_less(&out[p], &x)
                invariant
                    p <= out@.len(),
                    out@ == before,
                    kx == stored_key(x),
                    forall|q: int| 0 <= q < p ==> key_less(stored_key(#[trigger] out@[q]), kx),
                decreases out@.len() - p,
            {
                p += 1;
            }
            proof {
                assert forall|q: int| p <= q < before.len() implies key_less(kx, stored_key(#[trigger] before[q])) by {
                    lemma_key_order(stored_key(before[p as int]), kx, stored_key(before[q]));
                    lemma_key_order(kx, stored_key(before[p as int]), stored_key(before[q]));
                }
            }
            out.insert(p, x);
            proof {
                assert(out@ == before.insert(p as int, x));
                assert forall|a: int, b: int| 0 <= a < b < out@.len() implies key_less(
                    stored_key(#[trigger] out@[a]),
                    stored_key(#[trigger] out@[b]),
                ) by {
                    if a < p && b > p {
                        assert(out@[a] == before[a]);
                        assert(out@[b] == before[b - 1]);
                        lemma_key_order(stored_key(before[a]), kx, stored_key(before[b - 1]));
                    } else if a < p && b == p {
                        assert(out@[a] == before[a]);
                    } else if a == p {
                        assert(out@[b] == before[b - 1]);
                    } else if b < p {
                        assert(out@[a] == before[a]);
                        assert(out@[b] == before[b]);
                    } else {
                        assert(out@[a] == before[a - 1]);
                        assert(out@[b] == before[b - 1]);
                    }
                }
                assert(pairs(out@) =~= pairs(before).insert(p as int, px));
                lemma_insert_to_set(pairs(before), p as int, px);
            }
            i += 1;
        }
        proof {
            assert(vs.take(vs.len() as int) =~= vs);
            let ps = pairs(out@);
            assert forall|a: int, b: int| 0 <= a < b < out@.len() implies stored_key(#[trigger] out@[a])
                != stored_key(#[trigger] out@[b]) by {
                lemma_key_order(stored_key(out@[a]), stored_key(out@[b]), stored_key(out@[b]));
            }
            assert forall|k: ValueKey| m.dom().contains(k) implies exists|q: int|
                0 <= q < out@.len() && stored_key(#[trigger] out@[q]) == k by {
                let j = choose|j: int| 0 <= j < vs.len() && stored_key(#[trigger] vs[j]) == k;
                assert(pairs(vs)[j] == (k, vs[j].value@));
                assert(pairs(vs).to_set().contains(pairs(vs)[j]));
                let q = choose|q: int| 0 <= q < ps.len() && ps[q] == pairs(vs)[j];
                assert(stored_key(out@[q]) == k);
            }
            assert forall|k: ValueKey| (exists|q: int| 0 <= q < out@.len() && stored_key(#[trigger] out@[q]) == k)
                implies m.dom().contains(k) by {
                let q = choose|q: int| 0 <= q < out@.len() && stored_key(#[trigger] out@[q]) == k;
                assert(ps.to_set().contains(ps[q]));
                let j = choose|j: int| 0 <= j < vs.len() && pairs(vs)[j] == ps[q];
                assert(stored_key(vs[j]) == k);
            }
            assert forall|q: int| 0 <= q < out@.len() implies m.dom().contains(stored_key(#[trigger] out@[q]))
                && m[stored_key(out@[q])] == out@[q].value@ by {
                assert(ps.to_set().contains(ps[q]));
                let j = choose|j: int| 0 <= j < vs.len() && pairs(vs)[j] == ps[q];
                assert(stored_key(vs[j]) == stored_key(out@[q]));
                assert(vs[j].value@ == out@[q].value@);
            }
        }
        out
    }

    fn put(&mut self, hive: Hive, path: String, name: String, value: RegValue)
        requires
            old(self).wf(),
        ensures
            final(self).wf(),
            final(self).model() == (RegModel {
                values: old(self).model().values.insert((hive, path@, name@), value@),
                keys: old(self).model().keys,
            }),
    {
        let pc = chars_of(path.as_str());
        let nc = chars_of(name.as_str());
        let ghost k = (hive, path@, name@);
        let ghost m = self.model@.values.insert(k, value@);
        let ghost old_values = self.values@;
        match find_value(&self.values, hive, &pc, &nc) {
            Some(i) => {
                self.values.set(i, StoredValue { hive, path, name, value });
                proof {
                    assert forall|a: int, b: int|
                        0 <= a < b < self.values.len() implies stored_key(
                        #[trigger] self.values@[a],
                    ) != stored_key(#[trigger] self.values@[b]) by {
                        assert(stored_key(self.values@[a]) == stored_key(old_values[a]));
                        assert(stored_key(self.values@[b]) == stored_key(old_values[b]));
                    }
                    assert forall|kk: ValueKey| m.dom().contains(kk) implies exists|a: int|
                        0 <= a < self.values.len() && stored_key(#[trigger] self.values@[a])
                            == kk by {
                        if kk == k {
                            assert(stored_key(self.values@[i as int]) == kk);
                        } else {
                            let a = choose|a: int|
                                0 <= a < old_values.len() && stored_key(#[trigger] old_values[a])
                                    == kk;
                            assert(stored_key(self.values@[a]) == kk);
                        }
                    }
                    assert forall|a: int| 0 <= a < self.values.len() implies m.dom().contains(
                        stored_key(#[trigger] self.values@[a]),
                    ) && m[stored_key(self.values@[a])] == self.values@[a].value@ by {
                        if a != i {
                            assert(stored_key(self.values@[a]) == stored_key(old_values[a]));
                        }
                    }
                }
            },
            None => {
                self.values.push(StoredValue { hive, path, name, value });
                proof {
                    let n = old_values.len() as int;
                    assert forall|a: int, b: int|
                        0 <= a < b < self.values.len() implies stored_key(
                        #[trigger] self.values@[a],
                    ) != stored_key(#[trigger] self.values@[b]) by {
                        assert(stored_key(self.values@[a]) == stored_key(old_values[a]));
                        if b < n {
                            assert(stored_key(self.values@[b]) == stored_key(old_values[b]));
                        }
                    }
                    assert forall|kk: ValueKey| m.dom().contains(kk) implies exists|a: int|
                        0 <= a < self.values.len() && stored_key(#[trigger] self.values@[a])
                            == kk by {
                        if kk == k {
                            assert(stored_key(self.values@[n]) == kk);
                        } else {
                            let a = choose|a: int|
                                0 <= a < old_values.len() && stored_key(#[trigger] old_values[a])
                                    == kk;
                            assert(stored_key(self.values@[a]) == kk);
                        }
                    }
                    assert forall|kk: ValueKey|
                        (exists|a: int|
                            0 <= a < self.values.len() && stored_key(#[trigger] self.values@[a])
                                == kk) implies m.dom().contains(kk) by {
                        let a = choose|a: int|
                            0 <= a < self.values.len() && stored_key(#[trigger] self.values@[a])
                                == kk;
                        if a < n {
                            assert(stored_key(old_values[a]) == kk);
                        }
                    }
                    assert forall|a: int| 0 <= a < self.values.len() implies m.dom().contains(
                        stored_key(#[trigger] self.values@[a]),
                    ) && m[stored_key(self.values@[a])] == self.values@[a].value@ by {
                        if a < n {
                            assert(stored_key(self.values@[a]) == stored_key(old_values[a]));
                        }
                    }
                }
            },
        }
        self.model = Ghost(RegModel { values: m, keys: self.model@.keys });
    }

    fn add_key(&mut self, hive: Hive, path: String)
        requires
            old(self).wf(),
        ensures
            final(self).wf(),
            final(self).model() == (RegModel {
                values: old(self).model().values,
                keys: old(self).model().keys.insert((hive, path@)),
            }),
    {
        let pc = chars_of(path.as_str());
        let ghost k = (hive, path@);
        let ghost ks = self.model@.keys.insert(k);
        let ghost old_keys = self.keys@;
        match find_key(&self.keys, hive, &pc) {
            Some(i) => {
                proof {
                    assert(ks =~= self.model@.keys);
                }
            },
            None => {
                self.keys.push(StoredKey { hive, path });
                proof {
                    let n = old_keys.len() as int;
                    assert forall|a: int, b: int|
                        0 <= a < b < self.keys.len() implies stored_kkey(
                        #[trigger] self.keys@[a],
                    ) != stored_kkey(#[trigger] self.keys@[b]) by {
                        assert(stored_kkey(self.keys@[a]) == stored_kkey(old_keys[a]));
                        if b < n {
                            assert(stored_kkey(self.keys@[b]) == stored_kkey(old_keys[b]));
                        }
                    }
                    assert forall|kk: KeyKey| ks.contains(kk) implies exists|a: int|
                        0 <= a < self.keys.len() && stored_kkey(#[trigger] self.keys@[a]) == kk by {
                        if kk == k {
                            assert(stored_kkey(self.keys@[n]) == kk);
                        } else {
                            let a = choose|a: int|
                                0 <= a < old_keys.len() && stored_kkey(#[trigger] old_keys[a])
                                    == kk;
                            assert(stored_kkey(self.keys@[a]) == kk);
                        }
                    }
                    assert forall|kk: KeyKey|
                        (exists|a: int|
                            0 <= a < self.keys.len() && stored_kkey(#[trigger] self.keys@[a])
                                == kk) implies ks.contains(kk) by {
                        let a = choose|a: int|
                            0 <= a < self.keys.len() && stored_kkey(#[trigger] self.keys@[a])
                                == kk;
                        if a < n {
                            assert(stored_kkey(old_keys[a]) == kk);
                        }
                    }
                }
            },
        }
        self.model = Ghost(RegModel { values: self.model@.values, keys: ks });
    }
}

impl RegistryProvider for MemoryRegistry {
    closed spec fn model(&self) -> RegModel {
        self.model@
    }

    closed spec fn wf(&self) -> bool {
        &&& values_match(self.values@, self.model@.values)
        &&& keys_match(self.keys@, self.model@.keys)
    }

    open spec fn reliable(&self) -> bool {
        true
    }

    fn read(&self, loc: &RegLoc) -> (r: Result<Option<RegValue>, Error>) {
        let p = fold_case_str(loc.path.as_str());
        let n = fold_case_str(loc.name.as_str());
        match find_value(&self.values, loc.hive, &chars_of(p.as_str()), &chars_of(n.as_str())) {
            Some(i) => Ok(Some(self.values[i].value.duplicate())),
            None => Ok(None),
        }
    }

    fn write(&mut self, loc: &RegLoc, value: &RegValue) -> (r: Result<(), Error>) {
        let p = fold_case_str(loc.path.as_str());
        let n = fold_case_str(loc.name.as_str());
        let p2 = p.clone();
        self.put(loc.hive, p, n, value.duplicate());
        self.add_key(loc.hive, p2);
        Ok(())
    }

    fn delete_value(&mut self, loc: &RegLoc) -> (r: Result<(), Error>) {
        let p = fold_case_str(loc.path.as_str());
        let n = fold_case_str(loc.name.as_str());
        let ghost k = value_key(loc@);
        let ghost m = self.model@.values.remove(k);
        let ghost old_values = self.values@;
        match find_value(&self.values, loc.hive, &chars_of(p.as_str()), &chars_of(n.as_str())) {
            Some(i) => {
                self.values.remove(i);
                proof {
                    assert forall|a: int| 0 <= a < self.values.len() implies #[trigger] self.values@[a]
                        == (if a < i {
                        old_values[a]
                    } else {
                        old_values[a + 1]
                    }) by {}
                    assert forall|a: int, b: int|
                        0 <= a < b < self.values.len() implies stored_key(
                        #[trigger] self.values@[a],
                    ) != stored_key(#[trigger] self.values@[b]) by {
                        let oa = if a < i {
                            a
                        } else {
                            a + 1
                        };
                        let ob = if b < i {
                            b
                        } else {
                            b + 1
                        };
                        assert(self.values@[a] == old_values[oa]);
                        assert(self.values@[b] == old_values[ob]);
                    }
                    assert forall|kk: ValueKey| m.dom().contains(kk) implies exists|a: int|
                        0 <= a < self.values.len() && stored_key(#[trigger] self.values@[a])
                            == kk by {
                        let o = choose|o: int|
                            0 <= o < old_values.len() && stored_key(#[trigger] old_values[o]) == kk;
                        assert(o != i);
                        let a = if o < i {
                            o
                        } else {
                            o - 1
                        };
                        assert(self.values@[a] == old_values[o]);
                    }
                    assert forall|kk: ValueKey|
                        (exists|a: int|
                            0 <= a < self.values.len() && stored_key(#[trigger] self.values@[a])
                                == kk) implies m.dom().contains(kk) by {
                        let a = choose|a: int|
                            0 <= a < self.values.len() && stored_key(#[trigger] self.values@[a])
                                == kk;
                        let o = if a < i {
                            a
                        } else {
                            a + 1
                        };
                        assert(self.values@[a] == old_values[o]);
                        assert(stored_key(old_values[o]) != stored_key(old_values[i as int]));
                    }
                    assert forall|a: int| 0 <= a < self.values.len() implies m.dom().contains(
                        stored_key(#[trigger] self.values@[a]),
                    ) && m[stored_key(self.values@[a])] == self.values@[a].value@ by {
                        let o = if a < i {
                            a
                        } else {
                            a + 1
                        };
                        assert(self.values@[a] == old_values[o]);
                        assert(stored_key(old_values[o]) != stored_key(old_values[i as int]));
                    }
                }
            },
            None => {
                proof {
                    assert(m =~= self.model@.values);
                }
            },
        }
        self.model = Ghost(RegModel { values: m, keys: self.model@.keys });
        Ok(())
    }

    fn key_exists(&self, hive: Hive, path: &str) -> (r: Result<bool, Error>) {
        let p = fold_case_str(path);
        match find_key(&self.keys, hive, &chars_of(p.as_str())) {
            Some(_) => Ok(true),
            None => Ok(false),
        }
    }

    fn create_key(&mut self, hive: Hive, path: &str) -> (r: Result<(), Error>) {
        let p = fold_case_str(path);
        self.add_key(hive, p);
        Ok(())
    }

    fn delete_key(&mut self, hive: Hive, path: &str) -> (r: Result<(), Error>) {
        let target = chars_of(fold_case_str(path).as_str());
        let ghost m0 = self.model@;
        let ghost goal = m0.without_key(hive, path@);
        // Values.
        let mut kept: Vec<StoredValue> = Vec::new();
        let ghost mut idx: Seq<int> = Seq::empty();
        let mut i: usize = 0;
        while i < self.values.len()
            invariant
                i <= self.values.len(),
                self.model@ == m0,
                values_match(self.values@, m0.values),
                target@ == fold_case(path@),
                idx.len() == kept.len(),
                forall|a: int|
                    0 <= a < kept.len() ==> 0 <= #[trigger] idx[a] < i && stored_key(kept@[a])
                        == stored_key(self.values@[idx[a]]) && kept@[a].value@ == self.values@[idx[a]].value@,
                forall|a: int, b: int| 0 <= a < b < kept.len() ==> #[trigger] idx[a] < #[trigger] idx[b],
                forall|a: int|
                    0 <= a < kept.len() ==> !(#[trigger] kept@[a].hive == hive && covered(
                        target@,
                        kept@[a].path@,
                    )),
                forall|j: int|
                    0 <= j < i && !(#[trigger] self.values@[j].hive == hive && covered(
                        target@,
                        self.values@[j].path@,
                    )) ==> exists|a: int| 0 <= a < kept.len() && idx[a] == j,
            decreases self.values.len() - i,
        {
            let ghost before = idx;
            let ghost before_len = kept.len();
            let e = &self.values[i];
            let hit = e.hive == hive && covers(&target, &chars_of(e.path.as_str()));
            if !hit {
                kept.push(e.duplicate());
                proof {
                    idx = idx.push(i as int);
                }
            }
            proof {
                assert forall|j: int|
                    0 <= j < i + 1 && !(#[trigger] self.values@[j].hive == hive && covered(
                        target@,
                        self.values@[j].path@,
                    )) implies exists|a: int| 0 <= a < kept.len() && idx[a] == j by {
                    if j == i {
                        assert(idx[kept.len() - 1] == j);
                    } else {
                        let a = choose|a: int| 0 <= a < before_len && before[a] == j;
                        assert(idx[a] == before[a]);
                    }
                }
            }
            i += 1;
        }
        proof {
            let old_values = self.values@;
            let gm = goal.values;
            assert forall|a: int, b: int|
                0 <= a < b < kept.len() implies stored_key(#[trigger] kept@[a]) != stored_key(
                #[trigger] kept@[b],
            ) by {
                assert(idx[a] < idx[b]);
            }
            assert forall|kk: ValueKey| gm.dom().contains(kk) implies exists|a: int|
                0 <= a < kept.len() && stored_key(#[trigger] kept@[a]) == kk by {
                let o = choose|o: int|
                    0 <= o < old_values.len() && stored_key(#[trigger] old_values[o]) == kk;
                let a = choose|a: int| 0 <= a < kept.len() && idx[a] == o;
                assert(stored_key(kept@[a]) == kk);
            }
            assert forall|kk: ValueKey|
                (exists|a: int| 0 <= a < kept.len() && stored_key(#[trigger] kept@[a]) == kk)
                    implies gm.dom().contains(kk) by {
                let a = choose|a: int| 0 <= a < kept.len() && stored_key(#[trigger] kept@[a]) == kk;
                assert(stored_key(old_values[idx[a]]) == kk);
            }
            assert forall|a: int| 0 <= a < kept.len() implies gm.dom().contains(
                stored_key(#[trigger] kept@[a]),
            ) && gm[stored_key(kept@[a])] == kept@[a].value@ by {
                assert(stored_key(old_values[idx[a]]) == stored_key(kept@[a]));
            }
        }
        // Keys.
        let mut kept_keys: Vec<StoredKey> = Vec::new();
        let ghost mut kidx: Seq<int> = Seq::empty();
        let mut i: usize = 0;
        while i < self.keys.len()
            invariant
                i <= self.keys.len(),
                self.model@ == m0,
                keys_match(self.keys@, m0.keys),
                target@ == fold_case(path@),
                kidx.len() == kept_keys.len(),
                forall|a: int|
                    0 <= a < kept_keys.len() ==> 0 <= #[trigger] kidx[a] < i && stored_kkey(
                        kept_keys@[a],
                    ) == stored_kkey(self.keys@[kidx[a]]),
                forall|a: int, b: int| 0 <= a < b < kept_keys.len() ==> #[trigger] kidx[a] < #[trigger] kidx[b],
                forall|a: int|
                    0 <= a < kept_keys.len() ==> !(#[trigger] kept_keys@[a].hive == hive && covered(
                        target@,
                        kept_keys@[a].path@,
                    )),
                forall|j: int|
                    0 <= j < i && !(#[trigger] self.keys@[j].hive == hive && covered(
                        target@,
                        self.keys@[j].path@,
                    )) ==> exists|a: int| 0 <= a < kept_keys.len() && kidx[a] == j,
            decreases self.keys.len() - i,
        {
            let ghost before = kidx;
            let ghost before_len = kept_keys.len();
            let e = &self.keys[i];
            let hit = e.hive == hive && covers(&target, &chars_of(e.path.as_str()));
            if !hit {
                kept_keys.push(e.duplicate());
                proof {
                    kidx = kidx.push(i as int);
                }
            }
            proof {
                assert forall|j: int|
                    0 <= j < i + 1 && !(#[trigger] self.keys@[j].hive == hive && covered(
                        target@,
                        self.keys@[j].path@,
                    )) implies exists|a: int| 0 <= a < kept_keys.len() && kidx[a] == j by {
                    if j == i {
                        assert(kidx[kept_keys.len() - 1] == j);
                    } else {
                        let a = choose|a: int| 0 <= a < before_len && before[a] == j;
                        assert(kidx[a] == before[a]);
                    }
                }
            }
            i += 1;
        }
        proof {
            let old_keys = self.keys@;
            let gk = goal.keys;
            assert forall|a: int, b: int|
                0 <= a < b < kept_keys.len() implies stored_kkey(#[trigger] kept_keys@[a])
                != stored_kkey(#[trigger] kept_keys@[b]) by {
                assert(kidx[a] < kidx[b]);
            }
            assert forall|kk: KeyKey| gk.contains(kk) implies exists|a: int|
                0 <= a < kept_keys.len() && stored_kkey(#[trigger] kept_keys@[a]) == kk by {
                let o = choose|o: int|
                    0 <= o < old_keys.len() && stored_kkey(#[trigger] old_keys[o]) == kk;
                let a = choose|a: int| 0 <= a < kept_keys.len() && kidx[a] == o;
                assert(stored_kkey(kept_keys@[a]) == kk);
            }
            assert forall|kk: KeyKey|
                (exists|a: int| 0 <= a < kept_keys.len() && stored_kkey(#[trigger] kept_keys@[a])
                    == kk) implies gk.contains(kk) by {
                let a = choose|a: int|
                    0 <= a < kept_keys.len() && stored_kkey(#[trigger] kept_keys@[a]) == kk;
                assert(stored_kkey(old_keys[kidx[a]]) == kk);
            }
        }
        self.values = kept;
        self.keys = kept_keys;
        self.model = Ghost(goal);
        Ok(())
    }
}

/// How a change is made visible without signing out.
pub enum ShellCall {
    Broadcast(Seq<char>),
    AssocChanged,
    Cursors,
    Wallpaper(Seq<char>),
    RestartExplorer,
}

/// How a change is made visible without signing out. Most settings only need a
/// broadcast; restarting Explorer is a last resort and always user-approved.
///
/// `requested` is the sequence of refreshes asked for so far; each call adds
/// its own to the end, whether or not the shell managed it.
pub trait ShellRefresher {
    spec fn requested(&self) -> Seq<ShellCall>;

    /// Whether every request succeeds; asking keeps it.
    spec fn reliable(&self) -> bool;

    fn broadcast_setting_change(&mut self, area: &str) -> (r: Result<(), Error>)
        ensures
            final(self).requested() == old(self).requested().push(ShellCall::Broadcast(area@)),
            final(self).reliable() == old(self).reliable(),
            old(self).reliable() ==> r is Ok,
    ;

    fn notify_assoc_changed(&mut self) -> (r: Result<(), Error>)
        ensures
            final(self).requested() == old(self).requested().push(ShellCall::AssocChanged),
            final(self).reliable() == old(self).reliable(),
            old(self).reliable() ==> r is Ok,
    ;

    fn refresh_cursors(&mut self) -> (r: Result<(), Error>)
        ensures
            final(self).requested() == old(self).requested().push(ShellCall::Cursors),
            final(self).reliable() == old(self).reliable(),
            old(self).reliable() ==> r is Ok,
    ;

    /// Writing `Control Panel\Desktop\WallPaper` records the choice; the desktop
    /// only repaints once this is called.
    fn apply_wallpaper(&mut self, path: &str) -> (r: Result<(), Error>)
        ensures
            final(self).requested() == old(self).requested().push(ShellCall::Wallpaper(path@)),
            final(self).reliable() == old(self).reliable(),
            old(self).reliable() ==> r is Ok,
    ;

    fn restart_explorer(&mut self) -> (r: Result<(), Error>)
        ensures
            final(self).requested() == old(self).requested().push(ShellCall::RestartExplorer),
            final(self).reliable() == old(self).reliable(),
            old(self).reliable() ==> r is Ok,
    ;
}

/// Records what would have been refreshed, without touching the shell.
pub struct NoopRefresher {
    /// One line per request, e.g. `broadcast:ImmersiveColorSet`.
    pub calls: Vec<String>,
    pub log: Ghost<Seq<ShellCall>>,
}

impl NoopRefresher {
    pub fn new() -> (r: Self)
        ensures
            r.calls@.len() == 0,
            r.requested() == Seq::<ShellCall>::empty(),
    {
        NoopRefresher { calls: Vec::new(), log: Ghost(Seq::empty()) }
    }

    fn record(&mut self, what: String, call: Ghost<ShellCall>) -> (r: Result<(), Error>)
        ensures
            final(self).calls@ == old(self).calls@.push(what),
            final(self).log@ == old(self).log@.push(call@),
            r is Ok,
    {
        self.calls.push(what);
        self.log = Ghost(self.log@.push(call@));
        Ok(())
    }
}

impl ShellRefresher for NoopRefresher {
    open spec fn requested(&self) -> Seq<ShellCall> {
        self.log@
    }

    /// Nothing is asked of the shell, so nothing fails.
    open spec fn reliable(&self) -> bool {
        true
    }

    fn broadcast_setting_change(&mut self, area: &str) -> (r: Result<(), Error>) {
        let mut s = string_from("broadcast:");
        push_str(&mut s, area);
        self.record(s, Ghost(ShellCall::Broadcast(area@)))
    }

    fn notify_assoc_changed(&mut self) -> (r: Result<(), Error>) {
        self.record(string_from("assoc_changed"), Ghost(ShellCall::AssocChanged))
    }

    fn refresh_cursors(&mut self) -> (r: Result<(), Error>) {
        self.record(string_from("cursors"), Ghost(ShellCall::Cursors))
    }

    fn apply_wallpaper(&mut self, path: &str) -> (r: Result<(), Error>) {
        let mut s = string_from("wallpaper:");
        push_str(&mut s, path);
        self.record(s, Ghost(ShellCall::Wallpaper(path@)))
    }

    fn restart_explorer(&mut self) -> (r: Result<(), Error>) {
        self.record(string_from("restart_explorer"), Ghost(ShellCall::RestartExplorer))
    }
}

} // verus!
