//! The two shapes almost every Windows appearance setting takes: a DWORD that
//! means on/off, and a DWORD that means "one of these". Writing them once keeps
//! the individual tweak definitions to a single readable literal each.

use vstd::prelude::*;
use crate::error::Error;
use crate::os::{BuildRange, OsBuild, Support, SupportNote, gate, gated, MIN_SUPPORTED_BUILD};
use crate::provider::{
    LocV, RegLoc, RegModel, RegSpec, RegValue, RegValueV, RegistryProvider, duplicate_opt, holds,
    kind_name_text, loc_text,
};
use crate::text::{chars_of, decimal, decimal_string, parse_u32, parse_u32_chars, push_decimal, push_str, string_from, trim, trim_chars};
use crate::tweak::{Category, Change, ChangeSet, ChangeV, Privilege, Refresh, Tier, Tweak, changes_view};
use crate::value::{Value, ValueKind, ValueV, is_bad_value, quoted};

verus! {

/// The error a tweak reports when the registry holds something it cannot map.
pub open spec fn is_unexpected(e: Error, loc: LocV, detail: Seq<char>) -> bool {
    e matches Error::UnexpectedState { loc: l, detail: d } && l@ == loc_text(loc) && d@ == detail
}

/// `r` is what a read whose expected outcome is `want` returns.
pub open spec fn reads_as(r: Result<Value, Error>, want: Result<ValueV, Seq<char>>, loc: LocV) -> bool {
    match want {
        Ok(v) => r matches Ok(x) && x@ == v,
        Err(d) => r matches Err(e) && is_unexpected(e, loc, d),
    }
}

/// `r` is the plan of tweak `id`: the changes `cs`, to be made visible by `refresh`.
pub open spec fn plans_as(
    r: Result<ChangeSet, Error>,
    id: Seq<char>,
    cs: Seq<ChangeV>,
    refresh: Refresh,
) -> bool {
    r matches Ok(set) && set.tweak@ == id && changes_view(set.changes@) == cs && set.refresh
        == refresh
}

/// Setting `loc` to `to`: nothing if it already holds that, otherwise one change
/// that remembers what was there.
pub open spec fn set_value(m: RegModel, loc: LocV, to: RegValueV) -> Seq<ChangeV> {
    if m.value_at(loc) == Some(to) {
        Seq::empty()
    } else {
        seq![ChangeV::Value { loc, from: m.value_at(loc), to: Some(to) }]
    }
}

/// Adds to `changes` what [`set_value`] says, reading the current value.
pub fn push_set<R: RegistryProvider>(
    reg: &R,
    changes: &mut Vec<Change>,
    loc: RegLoc,
    to: RegValue,
) -> (r: Result<(), Error>)
    requires
        reg.wf(),
    ensures
        reg.reliable() ==> r is Ok,
        r is Ok ==> changes_view(final(changes)@) == changes_view(old(changes)@) + set_value(
            reg.model(),
            loc@,
            to@,
        ),
{
    let from = reg.read(&loc)?;
    if holds(&from, &to) {
        proof {
            assert(changes_view(changes@) =~= changes_view(changes@) + Seq::<ChangeV>::empty());
        }
        return Ok(());
    }
    let ghost before = changes@;
    changes.push(Change::Value { loc, from, to: Some(to) });
    proof {
        assert(changes_view(changes@) =~= changes_view(before) + set_value(
            reg.model(),
            loc@,
            to@,
        ));
    }
    Ok(())
}

/// A DWORD with two meaningful values.
///
/// `on`/`off` are the raw numbers, so inverted settings need no special case:
/// `HideFileExt` becomes `on: 0, off: 1` and the UI honestly reads
/// "show file extensions".
pub struct BoolTweak {
    pub id: &'static str,
    pub category: Category,
    pub tier: Tier,
    pub spec: RegSpec,
    pub on: u32,
    pub off: u32,
    /// What Windows does when the value is absent.
    pub default_on: bool,
    pub refresh: Refresh,
    pub builds: BuildRange,
    pub privilege: Privilege,
    /// Turns `Support::Full` into `Support::Partial`, for settings that work but
    /// come with a caveat the user should see.
    pub note: Option<SupportNote>,
}

impl BoolTweak {
    /// What the registry's current state reads as.
    pub open spec fn reading(self, v: Option<RegValueV>) -> Result<ValueV, Seq<char>> {
        match v {
            None => Ok(ValueV::Bool(self.default_on)),
            Some(RegValueV::Dword(d)) => if d == self.on {
                Ok(ValueV::Bool(true))
            } else if d == self.off {
                Ok(ValueV::Bool(false))
            } else {
                Err("expected "@ + decimal(self.on as nat) + " or "@ + decimal(self.off as nat)
                    + ", found "@ + decimal(d as nat))
            },
            Some(other) => Err("expected REG_DWORD, found "@ + kind_name_text(other)),
        }
    }

    /// A switch reads back what it writes, and an absent value reads as what
    /// Windows does by default: on exactly when the switch is declared
    /// `default_on`.
    pub proof fn law_switch_reads(self, b: bool)
        requires
            self.on != self.off,
        ensures
            self.reading(None) == Ok::<ValueV, Seq<char>>(ValueV::Bool(self.default_on)),
            self.reading(Some(RegValueV::Dword(if b { self.on } else { self.off }))) == Ok::<
                ValueV,
                Seq<char>,
            >(ValueV::Bool(b)),
    {
    }

    /// What setting it to `want` changes.
    pub open spec fn planned(self, m: RegModel, want: bool) -> Seq<ChangeV> {
        set_value(
            m,
            self.spec.loc_view(),
            RegValueV::Dword(
                if want {
                    self.on
                } else {
                    self.off
                },
            ),
        )
    }

    pub fn new(id: &'static str, category: Category, spec: RegSpec, refresh: Refresh) -> (r: Self)
        ensures
            r.id == id,
            r.category == category,
            r.tier == Tier::A,
            r.spec == spec,
            r.on == 1,
            r.off == 0,
            !r.default_on,
            r.refresh == refresh,
            r.builds == (BuildRange { min: MIN_SUPPORTED_BUILD, max: None }),
            r.privilege == Privilege::User,
            r.note is None,
    {
        BoolTweak {
            id,
            category,
            tier: Tier::A,
            spec,
            on: 1,
            off: 0,
            default_on: false,
            refresh,
            builds: BuildRange::any(),
            privilege: Privilege::User,
            note: None,
        }
    }

    pub fn values(self, on: u32, off: u32) -> (r: Self)
        ensures
            r == (BoolTweak { on, off, ..self }),
    {
        BoolTweak { on, off, ..self }
    }

    pub fn default_on(self, default_on: bool) -> (r: Self)
        ensures
            r == (BoolTweak { default_on, ..self }),
    {
        BoolTweak { default_on, ..self }
    }

    pub fn tier(self, tier: Tier) -> (r: Self)
        ensures
            r == (BoolTweak { tier, ..self }),
    {
        BoolTweak { tier, ..self }
    }

    pub fn builds(self, builds: BuildRange) -> (r: Self)
        ensures
            r == (BoolTweak { builds, ..self }),
    {
        BoolTweak { builds, ..self }
    }

    pub fn note(self, key: &'static str, en: &'static str) -> (r: Self)
        ensures
            r == (BoolTweak { note: Some(SupportNote { key, en }), ..self }),
    {
        BoolTweak { note: Some(SupportNote::new(key, en)), ..self }
    }

    pub fn read<R: RegistryProvider>(&self, reg: &R) -> (r: Result<Value, Error>)
        requires
            reg.wf(),
        ensures
            reg.reliable() ==> reads_as(
                r,
                self.reading(reg.model().value_at(self.spec.loc_view())),
                self.spec.loc_view(),
            ),
            r matches Ok(v) ==> self.reading(reg.model().value_at(self.spec.loc_view())) == Ok::<
                ValueV,
                Seq<char>,
            >(v@),
    {
        let loc = self.spec.loc();
        let on = match reg.read(&loc)? {
            None => self.default_on,
            Some(RegValue::Dword(d)) => {
                if d == self.on {
                    true
                } else if d == self.off {
                    false
                } else {
                    let mut detail = string_from("expected ");
                    push_decimal(&mut detail, self.on as u64);
                    push_str(&mut detail, " or ");
                    push_decimal(&mut detail, self.off as u64);
                    push_str(&mut detail, ", found ");
                    push_decimal(&mut detail, d as u64);
                    proof {
                        assert(detail@ =~= "expected "@ + decimal(self.on as nat) + " or "@
                            + decimal(self.off as nat) + ", found "@ + decimal(d as nat));
                    }
                    return Err(Error::UnexpectedState { loc: loc.text(), detail });
                }
            },
            Some(other) => {
                let mut detail = string_from("expected REG_DWORD, found ");
                push_str(&mut detail, other.kind_name());
                return Err(Error::UnexpectedState { loc: loc.text(), detail });
            },
        };
        Ok(Value::Bool(on))
    }

    pub fn plan<R: RegistryProvider>(&self, reg: &R, want: &Value) -> (r: Result<ChangeSet, Error>)
        requires
            reg.wf(),
        ensures
            match want@ {
                ValueV::Bool(b) => {
                    &&& reg.reliable() ==> r is Ok
                    &&& r is Ok ==> plans_as(
                        r,
                        self.id@,
                        self.planned(reg.model(), b),
                        if self.planned(reg.model(), b).len() == 0 {
                            Refresh::Nothing
                        } else {
                            self.refresh
                        },
                    )
                },
                _ => r matches Err(e) && is_bad_value(e, self.id@, want@, "a boolean"@),
            },
    {
        let want = want.as_bool(self.id)?;
        let mut changes: Vec<Change> = Vec::new();
        push_set(
            reg,
            &mut changes,
            self.spec.loc(),
            RegValue::Dword(
                if want {
                    self.on
                } else {
                    self.off
                },
            ),
        )?;
        proof {
            assert(changes_view(Seq::<Change>::empty()) =~= Seq::<ChangeV>::empty());
            assert(changes_view(changes@) =~= self.planned(reg.model(), want));
        }
        if changes.len() == 0 {
            return Ok(ChangeSet::nothing(self.id));
        }
        Ok(ChangeSet { tweak: string_from(self.id), changes, refresh: self.refresh })
    }
}

impl Tweak for BoolTweak {
    open spec fn build_range(&self) -> BuildRange {
        self.builds
    }

    fn id(&self) -> (r: &'static str)
        ensures
            r == self.id,
    {
        self.id
    }

    fn category(&self) -> (r: Category)
        ensures
            r == self.category,
    {
        self.category
    }

    fn tier(&self) -> (r: Tier)
        ensures
            r == self.tier,
    {
        self.tier
    }

    fn value_kind(&self) -> (r: ValueKind)
        ensures
            r is Bool,
    {
        ValueKind::Bool
    }

    fn builds(&self) -> (r: BuildRange) {
        self.builds
    }

    fn refresh(&self) -> (r: Refresh)
        ensures
            r == self.refresh,
    {
        self.refresh
    }

    fn privilege(&self) -> (r: Privilege)
        ensures
            r == self.privilege,
    {
        self.privilege
    }

    fn support(&self, os: &OsBuild) -> (r: Support)
        ensures
            gated(self.builds, self.note, os.build, r),
    {
        gate(self.builds, self.note, os.build)
    }
}

} // verus!

verus! {

/// The choice a stored number stands for: the first pair that has it.
pub open spec fn choice_for(map: Seq<(&'static str, u32)>, n: u32) -> Option<Seq<char>>
    decreases map.len(),
{
    if map.len() == 0 {
        None
    } else if map[0].1 == n {
        Some(map[0].0@)
    } else {
        choice_for(map.drop_first(), n)
    }
}

/// The number a choice is stored as: the first pair that names it.
pub open spec fn number_for(map: Seq<(&'static str, u32)>, name: Seq<char>) -> Option<u32>
    decreases map.len(),
{
    if map.len() == 0 {
        None
    } else if map[0].0@ == name {
        Some(map[0].1)
    } else {
        number_for(map.drop_first(), name)
    }
}

/// The names of a choice map, separated by `, `.
pub open spec fn names_joined(map: Seq<(&'static str, u32)>) -> Seq<char>
    decreases map.len(),
{
    if map.len() == 0 {
        Seq::empty()
    } else if map.len() == 1 {
        map[0].0@
    } else {
        map[0].0@ + ", "@ + names_joined(map.drop_first())
    }
}

/// A DWORD mapped to a small set of named options.
pub struct ChoiceTweak {
    pub id: &'static str,
    pub category: Category,
    pub tier: Tier,
    pub spec: RegSpec,
    /// Order here is the order the UI shows.
    pub map: Vec<(&'static str, u32)>,
    pub default: &'static str,
    pub refresh: Refresh,
    pub builds: BuildRange,
    pub privilege: Privilege,
    pub note: Option<SupportNote>,
    /// Windows keeps some of these as the number written out in a `REG_SZ`.
    pub stored_as_text: bool,
}

impl ChoiceTweak {
    pub open spec fn number_reading(self, n: u32) -> Result<ValueV, Seq<char>> {
        match choice_for(self.map@, n) {
            Some(c) => Ok(ValueV::Str(c)),
            None => Err(decimal(n as nat) + " is not one of the values this app knows"@),
        }
    }

    /// What the registry's current state reads as.
    pub open spec fn reading(self, v: Option<RegValueV>) -> Result<ValueV, Seq<char>> {
        match v {
            None => Ok(ValueV::Str(self.default@)),
            Some(RegValueV::Dword(d)) => self.number_reading(d),
            Some(RegValueV::Sz(t)) if self.stored_as_text => match parse_u32(trim(t)) {
                Some(n) => self.number_reading(n),
                None => Err("expected a number, found "@ + seq!['"'] + t + seq!['"']),
            },
            Some(other) => Err(
                if self.stored_as_text {
                    "expected REG_SZ, found "@
                } else {
                    "expected REG_DWORD, found "@
                } + kind_name_text(other),
            ),
        }
    }

    /// How the number `n` is written.
    pub open spec fn stored(self, n: u32) -> RegValueV {
        if self.stored_as_text {
            RegValueV::Sz(decimal(n as nat))
        } else {
            RegValueV::Dword(n)
        }
    }

    pub fn new(
        id: &'static str,
        category: Category,
        spec: RegSpec,
        map: Vec<(&'static str, u32)>,
        default: &'static str,
        refresh: Refresh,
    ) -> (r: Self)
        ensures
            r.id == id,
            r.category == category,
            r.tier == Tier::A,
            r.spec == spec,
            r.map@ == map@,
            r.default == default,
            r.refresh == refresh,
            r.builds == (BuildRange { min: MIN_SUPPORTED_BUILD, max: None }),
            r.privilege == Privilege::User,
            r.note is None,
            !r.stored_as_text,
    {
        ChoiceTweak {
            id,
            category,
            tier: Tier::A,
            spec,
            map,
            default,
            refresh,
            builds: BuildRange::any(),
            privilege: Privilege::User,
            note: None,
            stored_as_text: false,
        }
    }

    pub fn tier(self, tier: Tier) -> (r: Self)
        ensures
            r == (ChoiceTweak { tier, ..self }),
    {
        ChoiceTweak { tier, ..self }
    }

    pub fn builds(self, builds: BuildRange) -> (r: Self)
        ensures
            r == (ChoiceTweak { builds, ..self }),
    {
        ChoiceTweak { builds, ..self }
    }

    pub fn note(self, key: &'static str, en: &'static str) -> (r: Self)
        ensures
            r == (ChoiceTweak { note: Some(SupportNote { key, en }), ..self }),
    {
        ChoiceTweak { note: Some(SupportNote::new(key, en)), ..self }
    }

    /// For settings Windows keeps as a number written out in a `REG_SZ`.
    pub fn stored_as_text(self) -> (r: Self)
        ensures
            r == (ChoiceTweak { stored_as_text: true, ..self }),
    {
        ChoiceTweak { stored_as_text: true, ..self }
    }

    fn number_for(&self, choice: &str) -> (r: Option<u32>)
        ensures
            r == number_for(self.map@, choice@),
    {
        let mut i: usize = 0;
        proof {
            assert(self.map@.skip(0) =~= self.map@);
        }
        while i < self.map.len()
            invariant
                i <= self.map.len(),
                number_for(self.map@, choice@) == number_for(self.map@.skip(i as int), choice@),
            decreases self.map.len() - i,
        {
            assert(self.map@.skip(i as int)[0] == self.map@[i as int]);
            assert(self.map@.skip(i as int).drop_first() =~= self.map@.skip(i + 1));
            if crate::text::str_eq(self.map[i].0, choice) {
                return Some(self.map[i].1);
            }
            i += 1;
        }
        None
    }

    fn choice_for(&self, number: u32) -> (r: Option<&'static str>)
        ensures
            match r {
                Some(c) => choice_for(self.map@, number) == Some(c@),
                None => choice_for(self.map@, number) is None,
            },
    {
        let mut i: usize = 0;
        proof {
            assert(self.map@.skip(0) =~= self.map@);
        }
        while i < self.map.len()
            invariant
                i <= self.map.len(),
                choice_for(self.map@, number) == choice_for(self.map@.skip(i as int), number),
            decreases self.map.len() - i,
        {
            assert(self.map@.skip(i as int)[0] == self.map@[i as int]);
            assert(self.map@.skip(i as int).drop_first() =~= self.map@.skip(i + 1));
            if self.map[i].1 == number {
                return Some(self.map[i].0);
            }
            i += 1;
        }
        None
    }

    fn names(&self) -> (r: String)
        ensures
            r@ == names_joined(self.map@),
    {
        let mut s = String::new();
        let mut i: usize = self.map.len();
        // Built from the back: each name goes in front of what follows it.
        let mut tail = String::new();
        proof {
            assert(self.map@.skip(self.map.len() as int) =~= Seq::<(&'static str, u32)>::empty());
        }
        while i > 0
            invariant
                i <= self.map.len(),
                tail@ == names_joined(self.map@.skip(i as int)),
            decreases i,
        {
            let mut next = string_from(self.map[i - 1].0);
            if i < self.map.len() {
                push_str(&mut next, ", ");
            }
            push_str(&mut next, tail.as_str());
            proof {
                let rest = self.map@.skip(i - 1);
                assert(rest[0] == self.map@[i - 1]);
                assert(rest.drop_first() =~= self.map@.skip(i as int));
                if i == self.map.len() {
                    assert(tail@ == Seq::<char>::empty());
                    assert(next@ =~= names_joined(rest));
                } else {
                    assert(next@ =~= names_joined(rest));
                }
            }
            tail = next;
            i -= 1;
        }
        proof {
            assert(self.map@.skip(0) =~= self.map@);
        }
        s = tail;
        s
    }

    fn from_number(&self, loc: &RegLoc, n: u32) -> (r: Result<Value, Error>)
        requires
            loc@ == self.spec.loc_view(),
        ensures
            reads_as(r, self.number_reading(n), self.spec.loc_view()),
    {
        match self.choice_for(n) {
            Some(c) => Ok(Value::Str(string_from(c))),
            None => {
                let mut detail = String::new();
                push_decimal(&mut detail, n as u64);
                push_str(&mut detail, " is not one of the values this app knows");
                proof {
                    assert(detail@ =~= decimal(n as nat) + " is not one of the values this app knows"@);
                }
                Err(Error::UnexpectedState { loc: loc.text(), detail })
            },
        }
    }

    pub fn read<R: RegistryProvider>(&self, reg: &R) -> (r: Result<Value, Error>)
        requires
            reg.wf(),
        ensures
            reg.reliable() ==> reads_as(
                r,
                self.reading(reg.model().value_at(self.spec.loc_view())),
                self.spec.loc_view(),
            ),
            r matches Ok(v) ==> self.reading(reg.model().value_at(self.spec.loc_view())) == Ok::<
                ValueV,
                Seq<char>,
            >(v@),
    {
        let loc = self.spec.loc();
        match reg.read(&loc)? {
            None => Ok(Value::Str(string_from(self.default))),
            Some(RegValue::Dword(d)) => self.from_number(&loc, d),
            Some(RegValue::Sz(t)) if self.stored_as_text => {
                match parse_u32_chars(&trim_chars(&chars_of(t.as_str()))) {
                    Some(n) => self.from_number(&loc, n),
                    None => {
                        let mut detail = string_from("expected a number, found ");
                        let q = quoted(t.as_str());
                        push_str(&mut detail, q.as_str());
                        proof {
                            assert(detail@ =~= "expected a number, found "@ + seq!['"'] + t@
                                + seq!['"']);
                        }
                        Err(Error::UnexpectedState { loc: loc.text(), detail })
                    },
                }
            },
            Some(other) => {
                let mut detail = if self.stored_as_text {
                    string_from("expected REG_SZ, found ")
                } else {
                    string_from("expected REG_DWORD, found ")
                };
                push_str(&mut detail, other.kind_name());
                Err(Error::UnexpectedState { loc: loc.text(), detail })
            },
        }
    }

    /// What setting it to the choice `want` changes, or `None` for a choice it
    /// does not have.
    pub open spec fn planned(self, m: RegModel, want: Seq<char>) -> Option<Seq<ChangeV>> {
        match number_for(self.map@, want) {
            Some(n) => Some(set_value(m, self.spec.loc_view(), self.stored(n))),
            None => None,
        }
    }

    pub fn plan<R: RegistryProvider>(&self, reg: &R, want: &Value) -> (r: Result<ChangeSet, Error>)
        requires
            reg.wf(),
        ensures
            match want@ {
                ValueV::Str(c) => match self.planned(reg.model(), c) {
                    Some(cs) => {
                        &&& reg.reliable() ==> r is Ok
                        &&& r is Ok ==> plans_as(
                            r,
                            self.id@,
                            cs,
                            if cs.len() == 0 {
                                Refresh::Nothing
                            } else {
                                self.refresh
                            },
                        )
                    },
                    None => r matches Err(e) && e matches Error::BadValue { tweak, got, expected }
                        && tweak@ == self.id@ && got@ == seq!['"'] + c + seq!['"'] && expected@
                        == names_joined(self.map@),
                },
                _ => r matches Err(e) && is_bad_value(e, self.id@, want@, "one of the listed choices"@),
            },
    {
        let choice = want.as_choice(self.id)?;
        let number = match self.number_for(choice) {
            Some(n) => n,
            None => {
                return Err(
                    Error::BadValue {
                        tweak: string_from(self.id),
                        got: quoted(choice),
                        expected: self.names(),
                    },
                );
            },
        };
        let to = if self.stored_as_text {
            RegValue::Sz(decimal_string(number as u64))
        } else {
            RegValue::Dword(number)
        };
        let mut changes: Vec<Change> = Vec::new();
        push_set(reg, &mut changes, self.spec.loc(), to)?;
        proof {
            assert(changes_view(Seq::<Change>::empty()) =~= Seq::<ChangeV>::empty());
            assert(changes_view(changes@) =~= set_value(
                reg.model(),
                self.spec.loc_view(),
                self.stored(number),
            ));
        }
        if changes.len() == 0 {
            return Ok(ChangeSet::nothing(self.id));
        }
        Ok(ChangeSet { tweak: string_from(self.id), changes, refresh: self.refresh })
    }
}

impl Tweak for ChoiceTweak {
    open spec fn build_range(&self) -> BuildRange {
        self.builds
    }

    fn id(&self) -> (r: &'static str)
        ensures
            r == self.id,
    {
        self.id
    }

    fn category(&self) -> (r: Category)
        ensures
            r == self.category,
    {
        self.category
    }

    fn tier(&self) -> (r: Tier)
        ensures
            r == self.tier,
    {
        self.tier
    }

    fn value_kind(&self) -> (r: ValueKind)
        ensures
            r matches ValueKind::Choice { choices } && choices@.len() == self.map@.len() && forall|
                i: int,
            |
                0 <= i < choices@.len() ==> #[trigger] choices@[i]@ == self.map@[i].0@,
    {
        let mut choices: Vec<String> = Vec::new();
        let mut i: usize = 0;
        while i < self.map.len()
            invariant
                i <= self.map.len(),
                choices@.len() == i,
                forall|j: int| 0 <= j < i ==> #[trigger] choices@[j]@ == self.map@[j].0@,
            decreases self.map.len() - i,
        {
            choices.push(string_from(self.map[i].0));
            i += 1;
        }
        ValueKind::Choice { choices }
    }

    fn builds(&self) -> (r: BuildRange) {
        self.builds
    }

    fn refresh(&self) -> (r: Refresh)
        ensures
            r == self.refresh,
    {
        self.refresh
    }

    fn privilege(&self) -> (r: Privilege)
        ensures
            r == self.privilege,
    {
        self.privilege
    }

    fn support(&self, os: &OsBuild) -> (r: Support)
        ensures
            gated(self.builds, self.note, os.build, r),
    {
        gate(self.builds, self.note, os.build)
    }
}

} // verus!
