//! What the `mino` command line decides. It exists so that undoing a change
//! never depends on the app that made it; reading the arguments and writing to
//! the terminal are the program's, the rest is here.

use vstd::prelude::*;
use crate::engine::{change_total, items_view, skips_view, ApplyReport, ItemV, Plan, SkipV};
use crate::error::Error;
use crate::journal::{entries_view, revertible, EntryV, JournalEntry, JournalStore, Status};
use crate::os::{os_text, OsBuild, MIN_SUPPORTED_BUILD};
use crate::packs::allows_build;
use crate::profile::PackManifest;
use crate::text::{
    ascii_lower, ascii_lower_char, chars_of, decimal, lemma_char_as_u32, push_char, push_decimal,
    push_str, same_chars, str_eq, string_from, string_of, trim, trim_chars,
};
use crate::tweak::{change_text, Tier, TweakState};
use crate::value::{color_body, color_of_hex, describe_text, is_hex6, Color, Value, ValueV};

verus! {

pub open spec fn is_true_word(w: Seq<char>) -> bool {
    w == "true"@ || w == "on"@ || w == "yes"@ || w == "1"@
}

pub open spec fn is_false_word(w: Seq<char>) -> bool {
    w == "false"@ || w == "off"@ || w == "no"@ || w == "0"@
}

/// What a value typed on the command line means: a switch word (any case),
/// `#RRGGBB`, or else a choice id or path, trimmed. The tweak validates the
/// rest.
pub open spec fn value_from_text(t: Seq<char>) -> ValueV {
    let w = ascii_lower(trim(t));
    if is_true_word(w) {
        ValueV::Bool(true)
    } else if is_false_word(w) {
        ValueV::Bool(false)
    } else if trim(t).len() > 0 && trim(t)[0] == '#' && is_hex6(color_body(t)) {
        ValueV::Color(color_of_hex(color_body(t)))
    } else {
        ValueV::Str(trim(t))
    }
}

/// Every character of `s` is white space.
pub open spec fn all_space(s: Seq<char>) -> bool {
    forall|i: int| 0 <= i < s.len() ==> crate::text::is_space(#[trigger] s[i])
}

proof fn lemma_trim_start_spaces(a: Seq<char>, x: Seq<char>)
    requires
        all_space(a),
    ensures
        crate::text::trim_start(a + x) == crate::text::trim_start(x),
    decreases a.len(),
{
    if a.len() > 0 {
        assert((a + x).drop_first() =~= a.drop_first() + x);
        assert((a + x)[0] == a[0]);
        lemma_trim_start_spaces(a.drop_first(), x);
    } else {
        assert(a + x =~= x);
    }
}

proof fn lemma_trim_end_spaces(x: Seq<char>, b: Seq<char>)
    requires
        all_space(b),
    ensures
        crate::text::trim_end(x + b) == crate::text::trim_end(x),
    decreases b.len(),
{
    if b.len() > 0 {
        assert((x + b).drop_last() =~= x + b.drop_last());
        assert((x + b).last() == b.last());
        lemma_trim_end_spaces(x, b.drop_last());
    } else {
        assert(x + b =~= x);
    }
}

/// A word whose first and last characters are not white space, with white
/// space around it, trims to itself.
proof fn lemma_trim_word(a: Seq<char>, w: Seq<char>, b: Seq<char>)
    requires
        all_space(a),
        all_space(b),
        w.len() > 0,
        !crate::text::is_space(w[0]),
        !crate::text::is_space(w.last()),
    ensures
        trim(a + w + b) == w,
{
    assert(a + w + b =~= a + (w + b));
    lemma_trim_start_spaces(a, w + b);
    assert((w + b)[0] == w[0]);
    assert(crate::text::trim_start(w + b) == w + b);
    lemma_trim_end_spaces(w, b);
    assert(crate::text::trim_end(w) == w);
}

/// A character that lower-cases to one of the letters or digits of the
/// switch words is not white space.
proof fn lemma_word_char_not_space(c: char)
    requires
        (ascii_lower_char(c) as int) >= 0x30 && (ascii_lower_char(c) as int) <= 0x7A,
    ensures
        !crate::text::is_space(c),
{
    lemma_char_as_u32(c);
}

/// The switch words: `w`, in any ASCII case, with any white space around
/// it, parses as on for `true`, `on`, `yes` and `1`, and as off for `false`,
/// `off`, `no` and `0`.
pub proof fn law_switch_words(a: Seq<char>, w: Seq<char>, b: Seq<char>)
    requires
        all_space(a),
        all_space(b),
    ensures
        (ascii_lower(w) == "true"@ || ascii_lower(w) == "on"@ || ascii_lower(w) == "yes"@ || ascii_lower(w)
            == "1"@) ==> value_from_text(a + w + b) == ValueV::Bool(true),
        (ascii_lower(w) == "false"@ || ascii_lower(w) == "off"@ || ascii_lower(w) == "no"@ || ascii_lower(w)
            == "0"@) ==> value_from_text(a + w + b) == ValueV::Bool(false),
{
    let l = ascii_lower(w);
    if l == "true"@ || l == "on"@ || l == "yes"@ || l == "1"@ || l == "false"@ || l == "off"@ || l == "no"@
        || l == "0"@ {
        reveal_strlit("true");
        reveal_strlit("on");
        reveal_strlit("yes");
        reveal_strlit("1");
        reveal_strlit("false");
        reveal_strlit("off");
        reveal_strlit("no");
        reveal_strlit("0");
        assert(l.len() == w.len());
        assert(l.len() > 0) by {
            if l.len() == 0 {
                assert(l != "true"@ && l != "on"@ && l != "yes"@ && l != "1"@);
                assert(l != "false"@ && l != "off"@ && l != "no"@ && l != "0"@);
            }
        }
        assert(l[0] == ascii_lower_char(w[0]));
        assert(l[l.len() - 1] == ascii_lower_char(w[w.len() - 1]));
        lemma_word_char_not_space(w[0]);
        lemma_word_char_not_space(w[w.len() - 1]);
        lemma_trim_word(a, w, b);
    }
}

fn lower_ascii_chars(s: &Vec<char>) -> (r: Vec<char>)
    ensures
        r@ == ascii_lower(s@),
{
    let mut r: Vec<char> = Vec::new();
    let mut i: usize = 0;
    while i < s.len()
        invariant
            i <= s.len(),
            r@ == ascii_lower(s@.take(i as int)),
        decreases s.len() - i,
    {
        let c = s[i];
        let l = if 'A' <= c && c <= 'Z' {
            ((c as u8) + 32) as char
        } else {
            c
        };
        assert(l == ascii_lower_char(c));
        r.push(l);
        proof {
            assert(ascii_lower(s@.take(i + 1)) =~= ascii_lower(s@.take(i as int)).push(
                ascii_lower_char(c),
            ));
        }
        i += 1;
    }
    proof {
        assert(s@.take(s.len() as int) =~= s@);
    }
    r
}

fn word_is(w: &Vec<char>, word: &str) -> (r: bool)
    ensures
        r == (w@ == word@),
{
    same_chars(w, &chars_of(word))
}

/// `true`/`false` (or on/off, yes/no, 1/0), `#RRGGBB`, or a choice id.
pub fn parse_value(text: &str) -> (r: Value)
    ensures
        r@ == value_from_text(text@),
{
    let all = chars_of(text);
    let trimmed = trim_chars(&all);
    let lower = lower_ascii_chars(&trimmed);
    if word_is(&lower, "true") || word_is(&lower, "on") || word_is(&lower, "yes") || word_is(
        &lower,
        "1",
    ) {
        return Value::Bool(true);
    }
    if word_is(&lower, "false") || word_is(&lower, "off") || word_is(&lower, "no") || word_is(
        &lower,
        "0",
    ) {
        return Value::Bool(false);
    }
    if trimmed.len() > 0 && trimmed[0] == '#' {
        match Color::parse(text) {
            Ok(c) => {
                return Value::Color(c);
            },
            Err(_) => {},
        }
    }
    Value::Str(string_of(&trimmed))
}

/// The journal entry a `revert` names: the id as given, or for `latest` the
/// most recent entry there is still something to undo of.
pub fn resolve_entry<J: JournalStore>(journal: &J, entry: &str) -> (r: Result<String, Error>)
    requires
        journal.wf(),
    ensures
        entry@ != "latest"@ ==> (r matches Ok(s) && s@ == entry@),
        entry@ == "latest"@ ==> (r matches Ok(s) ==> journal.entries().contains_key(s@)
            && revertible(journal.entries()[s@]) && journal.entries()[s@].id == s@),
{
    if !str_eq(entry, "latest") {
        return Ok(string_from(entry));
    }
    match journal.latest_revertible()? {
        Some(e) => Ok(e.id),
        None => Err(Error::Journal(string_from("there is nothing to revert"))),
    }
}

/// Only `os` may run on a build older than Windows 11.
pub fn os_gate(os: &OsBuild, asking_which_os: bool) -> (r: Result<(), Error>)
    ensures
        r is Ok <==> (os.build >= MIN_SUPPORTED_BUILD || asking_which_os),
        r matches Err(Error::Unsupported { tweak, reason }) ==> tweak@ == "this app"@ && reason@
            == os_text(*os) + " is older than Windows 11 (build 22000)"@,
        r matches Err(e) ==> e is Unsupported,
{
    if !os.is_supported() && !asking_which_os {
        let mut reason = os.text();
        push_str(&mut reason, " is older than Windows 11 (build 22000)");
        return Err(Error::Unsupported { tweak: string_from("this app"), reason });
    }
    Ok(())
}

/// A pack is applied only on the builds it declares.
pub fn pack_gate(pack: &PackManifest, os: &OsBuild) -> (r: Result<(), Error>)
    ensures
        r is Ok <==> allows_build(*pack, os.build),
        r matches Err(Error::Unsupported { tweak, reason }) ==> tweak@ == pack.id@ && reason@
            == "this pack does not cover build "@ + decimal(os.build as nat),
        r matches Err(e) ==> e is Unsupported,
{
    if !pack.requires.allows(os) {
        let mut reason = string_from("this pack does not cover build ");
        push_decimal(&mut reason, os.build as u64);
        return Err(Error::Unsupported { tweak: pack.id.clone(), reason });
    }
    Ok(())
}


// ---------------------------------------------------------------- history

/// How a status is printed: its name.
pub open spec fn status_name(s: Status) -> Seq<char> {
    match s {
        Status::Pending => "Pending"@,
        Status::Applied => "Applied"@,
        Status::RolledBack => "RolledBack"@,
        Status::Reverted => "Reverted"@,
    }
}

fn status_str(s: Status) -> (r: &'static str)
    ensures
        r@ == status_name(s),
{
    match s {
        Status::Pending => "Pending",
        Status::Applied => "Applied",
        Status::RolledBack => "RolledBack",
        Status::Reverted => "Reverted",
    }
}

pub open spec fn spaces(n: nat) -> Seq<char> {
    Seq::new(n, |i: int| ' ')
}

/// `s` filled out with spaces on the right to `w` characters.
pub open spec fn pad_right(s: Seq<char>, w: nat) -> Seq<char> {
    if s.len() < w {
        s + spaces((w - s.len()) as nat)
    } else {
        s
    }
}

/// `s` filled out with spaces on the left to `w` characters.
pub open spec fn pad_left(s: Seq<char>, w: nat) -> Seq<char> {
    if s.len() < w {
        spaces((w - s.len()) as nat) + s
    } else {
        s
    }
}

fn push_spaces(out: &mut String, n: usize)
    ensures
        final(out)@ == old(out)@ + spaces(n as nat),
{
    let mut i: usize = 0;
    while i < n
        invariant
            i <= n,
            out@ == old(out)@ + spaces(i as nat),
        decreases n - i,
    {
        push_char(out, ' ');
        proof {
            assert(old(out)@ + spaces((i + 1) as nat) =~= old(out)@ + spaces(i as nat) + seq![' ']);
        }
        i += 1;
    }
}

fn push_padded_right(out: &mut String, s: &str, w: usize)
    ensures
        final(out)@ == old(out)@ + pad_right(s@, w as nat),
{
    let n = chars_of(s).len();
    push_str(out, s);
    if n < w {
        push_spaces(out, w - n);
        proof {
            assert(old(out)@ + s@ + spaces((w - n) as nat) =~= old(out)@ + (s@ + spaces((w - n) as nat)));
        }
    }
}

fn push_padded_left(out: &mut String, s: &str, w: usize)
    ensures
        final(out)@ == old(out)@ + pad_left(s@, w as nat),
{
    let n = chars_of(s).len();
    if n < w {
        push_spaces(out, w - n);
    }
    push_str(out, s);
    proof {
        if n < w {
            assert(old(out)@ + spaces((w - n) as nat) + s@ =~= old(out)@ + (spaces((w - n) as nat) + s@));
        }
    }
}

/// How many bytes UTF-8 takes for `c`.
pub open spec fn utf8_len(c: char) -> nat {
    if (c as u32) < 0x80 {
        1
    } else if (c as u32) < 0x800 {
        2
    } else if (c as u32) < 0x10000 {
        3
    } else {
        4
    }
}

/// How many bytes UTF-8 takes for `s`.
pub open spec fn utf8_total(s: Seq<char>) -> nat
    decreases s.len(),
{
    if s.len() == 0 {
        0
    } else {
        utf8_total(s.drop_last()) + utf8_len(s.last())
    }
}

/// `str::get(..n)`: the characters that make up the first `n` bytes, when `n`
/// falls between two characters; otherwise (too short, or mid-character) the
/// whole of `s`, as the caller's fallback.
pub open spec fn cut_at_bytes(s: Seq<char>, n: nat) -> Seq<char> {
    if exists|k: int| 0 <= k <= s.len() && utf8_total(#[trigger] s.take(k)) == n {
        s.take(choose|k: int| 0 <= k <= s.len() && utf8_total(#[trigger] s.take(k)) == n)
    } else {
        s
    }
}

/// The stored instant `2026-08-28T14:31:07.482Z` shown as `2026-08-28 14:31:07`.
pub open spec fn when_shown(w: Seq<char>) -> Seq<char> {
    cut_at_bytes(w, 19).map_values(|c: char| if c == 'T' { ' ' } else { c })
}

proof fn lemma_utf8_grows(s: Seq<char>, a: int, b: int)
    requires
        0 <= a < b <= s.len(),
    ensures
        utf8_total(s.take(a)) < utf8_total(s.take(b)),
    decreases b - a,
{
    assert(s.take(b).drop_last() =~= s.take(b - 1));
    if a < b - 1 {
        lemma_utf8_grows(s, a, b - 1);
    }
}

fn utf8_width(c: char) -> (r: usize)
    ensures
        r == utf8_len(c),
{
    proof {
        lemma_char_as_u32(c);
    }
    let u = c as u32;
    if u < 0x80 {
        1
    } else if u < 0x800 {
        2
    } else if u < 0x10000 {
        3
    } else {
        4
    }
}

fn shown_when(when: &str) -> (r: String)
    ensures
        r@ == when_shown(when@),
{
    let cs = chars_of(when);
    let mut bytes: usize = 0;
    let mut i: usize = 0;
    while i < cs.len() && bytes < 19
        invariant
            i <= cs@.len(),
            bytes == utf8_total(cs@.take(i as int)),
            bytes < 19 + 4,
            i > 0 ==> utf8_total(cs@.take(i - 1)) < 19,
        decreases cs@.len() - i,
    {
        proof {
            assert(cs@.take(i + 1).drop_last() =~= cs@.take(i as int));
        }
        bytes = bytes + utf8_width(cs[i]);
        i += 1;
    }
    let end = if bytes == 19 {
        i
    } else {
        cs.len()
    };
    proof {
        let s = when@;
        if bytes == 19 {
            assert(utf8_total(s.take(i as int)) == 19);
            let k = choose|k: int| 0 <= k <= s.len() && utf8_total(#[trigger] s.take(k)) == 19;
            if k < i {
                lemma_utf8_grows(s, k, i as int);
            } else if k > i {
                lemma_utf8_grows(s, i as int, k);
            }
            assert(cut_at_bytes(s, 19) == s.take(end as int));
        } else {
            assert forall|k: int| 0 <= k <= s.len() implies utf8_total(#[trigger] s.take(k)) != 19 by {
                if bytes < 19 {
                    assert(i == s.len());
                    if k < i {
                        lemma_utf8_grows(s, k, i as int);
                    }
                } else {
                    assert(i > 0);
                    if k < i - 1 {
                        lemma_utf8_grows(s, k, i - 1);
                    } else if k > i {
                        lemma_utf8_grows(s, i as int, k);
                    }
                }
            }
            assert(s.take(end as int) =~= s);
        }
    }
    let mut out = String::new();
    let mut j: usize = 0;
    while j < end
        invariant
            j <= end <= cs@.len(),
            out@ == cs@.take(j as int).map_values(|c: char| if c == 'T' { ' ' } else { c }),
        decreases end - j,
    {
        let c = cs[j];
        push_char(&mut out, if c == 'T' { ' ' } else { c });
        proof {
            assert(cs@.take(j + 1).map_values(|c: char| if c == 'T' { ' ' } else { c }) =~= cs@.take(
                j as int,
            ).map_values(|c: char| if c == 'T' { ' ' } else { c }).push(if c == 'T' { ' ' } else { c }));
        }
        j += 1;
    }
    proof {
        assert(cs@.take(end as int) == cut_at_bytes(when@, 19));
    }
    out
}

/// One entry as `history` lists it: when, status, how many changes, label.
pub open spec fn history_line(e: EntryV) -> Seq<char> {
    when_shown(e.when) + "  "@ + pad_right(status_name(e.status), 11) + "  "@ + pad_left(
        decimal(e.changes.len()),
        3,
    ) + " change(s)  "@ + e.label
}

pub open spec fn id_line(e: EntryV) -> Seq<char> {
    "            id: "@ + e.id
}

pub open spec fn history_body(es: Seq<EntryV>) -> Seq<Seq<char>>
    decreases es.len(),
{
    if es.len() == 0 {
        Seq::empty()
    } else {
        history_body(es.drop_last()).push(history_line(es.last())).push(id_line(es.last()))
    }
}

/// What `history` prints for `es`, newest first.
pub open spec fn history_text(es: Seq<EntryV>) -> Seq<Seq<char>> {
    if es.len() == 0 {
        seq!["Nothing has been changed by this app yet."@]
    } else {
        history_body(es)
    }
}

pub open spec fn lines_view(v: Seq<String>) -> Seq<Seq<char>> {
    v.map_values(|s: String| s@)
}

/// The lines `history` prints.
pub fn history_lines(entries: &Vec<JournalEntry>) -> (r: Vec<String>)
    ensures
        lines_view(r@) == history_text(entries_view(entries@)),
{
    let mut r: Vec<String> = Vec::new();
    if entries.len() == 0 {
        r.push(string_from("Nothing has been changed by this app yet."));
        proof {
            assert(lines_view(r@) =~= history_text(entries_view(entries@)));
        }
        return r;
    }
    let mut i: usize = 0;
    while i < entries.len()
        invariant
            i <= entries@.len(),
            lines_view(r@) == history_body(entries_view(entries@.take(i as int))),
        decreases entries@.len() - i,
    {
        let e = &entries[i];
        let mut line = shown_when(e.when.as_str());
        push_str(&mut line, "  ");
        push_padded_right(&mut line, status_str(e.status), 11);
        push_str(&mut line, "  ");
        let count = crate::text::decimal_string(e.changes.len() as u64);
        push_padded_left(&mut line, count.as_str(), 3);
        push_str(&mut line, " change(s)  ");
        push_str(&mut line, e.label.as_str());
        let mut id = string_from("            id: ");
        push_str(&mut id, e.id.as_str());
        let ghost before = r@;
        r.push(line);
        r.push(id);
        proof {
            let ev = entries_view(entries@.take(i + 1));
            assert(ev.drop_last() =~= entries_view(entries@.take(i as int)));
            assert(ev.last() == e@);
            assert(e@.changes.len() == e.changes@.len());
            assert(lines_view(r@) =~= lines_view(before).push(history_line(e@)).push(id_line(e@)));
        }
        i += 1;
    }
    proof {
        assert(entries@.take(entries@.len() as int) =~= entries@);
    }
    r
}


// ---------------------------------------------------------------- plans

pub open spec fn skip_line(sk: SkipV) -> Seq<char> {
    "skipped "@ + sk.tweak + ": "@ + sk.reason
}

pub open spec fn item_head(it: ItemV) -> Seq<char> {
    "  "@ + it.tweak + " : "@ + describe_text(it.from) + " -> "@ + describe_text(it.to)
}

pub open spec fn item_lines(it: ItemV) -> Seq<Seq<char>> {
    seq![item_head(it)] + it.changes.map_values(|c| "      "@ + change_text(c))
}

pub open spec fn items_lines(its: Seq<ItemV>) -> Seq<Seq<char>>
    decreases its.len(),
{
    if its.len() == 0 {
        Seq::empty()
    } else {
        items_lines(its.drop_last()) + item_lines(its.last())
    }
}

/// What is printed before a plan is applied (or instead of applying it).
pub open spec fn plan_text(skips: Seq<SkipV>, items: Seq<ItemV>, dry_run: bool) -> Seq<Seq<char>> {
    skips.map_values(|sk: SkipV| skip_line(sk)) + if items.len() == 0 {
        seq!["Already in that state \u{2014} nothing to do."@]
    } else {
        seq![decimal(change_total(items)) + " change(s):"@] + items_lines(items) + if dry_run {
            seq!["\nDry run \u{2014} nothing was written."@]
        } else {
            Seq::empty()
        }
    }
}

/// The lines that describe `plan`, and whether to go on and apply it: only
/// when there is something to do and this is no dry run.
pub fn plan_lines(plan: &Plan, dry_run: bool) -> (r: (Vec<String>, bool))
    requires
        change_total(items_view(plan.items@)) <= usize::MAX,
    ensures
        lines_view(r.0@) == plan_text(skips_view(plan.skipped@), items_view(plan.items@), dry_run),
        r.1 == (plan.items@.len() > 0 && !dry_run),
{
    let mut out: Vec<String> = Vec::new();
    let mut i: usize = 0;
    while i < plan.skipped.len()
        invariant
            i <= plan.skipped@.len(),
            lines_view(out@) == skips_view(plan.skipped@.take(i as int)).map_values(
                |sk: SkipV| skip_line(sk),
            ),
        decreases plan.skipped@.len() - i,
    {
        let sk = &plan.skipped[i];
        let mut line = string_from("skipped ");
        push_str(&mut line, sk.tweak.as_str());
        push_str(&mut line, ": ");
        push_str(&mut line, sk.reason.as_str());
        out.push(line);
        proof {
            assert(skips_view(plan.skipped@.take(i + 1)).map_values(|sk: SkipV| skip_line(sk))
                =~= skips_view(plan.skipped@.take(i as int)).map_values(|sk: SkipV| skip_line(sk)).push(
                skip_line(sk@),
            ));
        }
        i += 1;
    }
    proof {
        assert(plan.skipped@.take(plan.skipped@.len() as int) =~= plan.skipped@);
    }
    let ghost skipped_part = lines_view(out@);
    if plan.is_empty() {
        out.push(string_from("Already in that state \u{2014} nothing to do."));
        proof {
            assert(lines_view(out@) =~= skipped_part + seq!["Already in that state \u{2014} nothing to do."@]);
        }
        return (out, false);
    }
    let mut head = crate::text::decimal_string(plan.change_count() as u64);
    push_str(&mut head, " change(s):");
    let ghost head_text = head@;
    out.push(head);
    let ghost head_part = lines_view(out@);
    assert(head_part =~= skipped_part.push(head_text));
    let mut k: usize = 0;
    while k < plan.items.len()
        invariant
            k <= plan.items@.len(),
            lines_view(out@) == head_part + items_lines(items_view(plan.items@.take(k as int))),
        decreases plan.items@.len() - k,
    {
        let it = &plan.items[k];
        let ghost before = lines_view(out@);
        let mut line = string_from("  ");
        push_str(&mut line, it.tweak.as_str());
        push_str(&mut line, " : ");
        let from = it.from.describe();
        push_str(&mut line, from.as_str());
        push_str(&mut line, " -> ");
        let to = it.to.describe();
        push_str(&mut line, to.as_str());
        out.push(line);
        let mut c: usize = 0;
        while c < it.changes.len()
            invariant
                c <= it.changes@.len(),
                lines_view(out@) == before + seq![item_head(it@)] + it@.changes.take(c as int).map_values(
                    |ch| "      "@ + change_text(ch),
                ),
            decreases it.changes@.len() - c,
        {
            let mut cl = string_from("      ");
            let d = it.changes[c].describe();
            push_str(&mut cl, d.as_str());
            let ghost prev = out@;
            out.push(cl);
            proof {
                assert(lines_view(out@) =~= lines_view(prev).push(cl@));
                assert(it@.changes[c as int] == it.changes@[c as int]@);
                assert(it@.changes.take(c + 1).map_values(|ch| "      "@ + change_text(ch))
                    =~= it@.changes.take(c as int).map_values(|ch| "      "@ + change_text(ch)).push(
                    "      "@ + change_text(it@.changes[c as int]),
                ));
                assert(lines_view(out@) =~= before + seq![item_head(it@)] + it@.changes.take(c + 1).map_values(
                    |ch| "      "@ + change_text(ch),
                ));
            }
            c += 1;
        }
        proof {
            assert(it@.changes.take(it@.changes.len() as int) =~= it@.changes);
            let iv = items_view(plan.items@.take(k + 1));
            assert(iv.drop_last() =~= items_view(plan.items@.take(k as int)));
            assert(iv.last() == it@);
            assert(lines_view(out@) =~= head_part + items_lines(iv));
        }
        k += 1;
    }
    proof {
        assert(plan.items@.take(plan.items@.len() as int) =~= plan.items@);
    }
    let ghost body = lines_view(out@);
    if dry_run {
        out.push(string_from("\nDry run \u{2014} nothing was written."));
    }
    proof {
        let items = items_view(plan.items@);
        let tail: Seq<Seq<char>> = if dry_run {
            seq!["\nDry run \u{2014} nothing was written."@]
        } else {
            Seq::empty()
        };
        assert(lines_view(out@) =~= body + tail);
        assert(body =~= skipped_part + (seq![head_text] + items_lines(items)));
        assert(lines_view(out@) =~= plan_text(skips_view(plan.skipped@), items_view(plan.items@), dry_run));
    }
    (out, !dry_run)
}

/// What is printed once a plan has been applied.
pub open spec fn applied_text(id: Seq<char>, restart: bool, sign_out: bool) -> Seq<Seq<char>> {
    seq!["\nApplied. Journal entry: "@ + id, "Undo with: mino revert "@ + id] + (if restart {
        seq!["\nOne or more changes only show up once Explorer restarts."@]
    } else {
        Seq::empty()
    }) + (if sign_out {
        seq!["One or more changes need you to sign out and back in."@]
    } else {
        Seq::empty()
    })
}

pub fn applied_lines(report: &ApplyReport) -> (r: Vec<String>)
    ensures
        lines_view(r@) == applied_text(
            report.entry.id@,
            report.shell_restart_pending,
            report.sign_out_pending,
        ),
{
    let mut out: Vec<String> = Vec::new();
    let mut a = string_from("\nApplied. Journal entry: ");
    push_str(&mut a, report.entry.id.as_str());
    out.push(a);
    let mut b = string_from("Undo with: mino revert ");
    push_str(&mut b, report.entry.id.as_str());
    out.push(b);
    if report.shell_restart_pending {
        out.push(string_from("\nOne or more changes only show up once Explorer restarts."));
    }
    if report.sign_out_pending {
        out.push(string_from("One or more changes need you to sign out and back in."));
    }
    proof {
        assert(lines_view(out@) =~= applied_text(
            report.entry.id@,
            report.shell_restart_pending,
            report.sign_out_pending,
        ));
    }
    out
}


// ---------------------------------------------------------------- reverting

/// What `revert` prints: how many changes, and the caveat when Explorer has
/// to restart for some of it to show.
pub open spec fn reverted_text(changes: nat, restart: bool) -> Seq<Seq<char>> {
    seq!["Reverted "@ + decimal(changes) + " change(s)."@] + if restart {
        seq![
            "Some of it needs Explorer restarted: mino restart-shell is not"@,
            "automatic \u{2014} sign out, or restart Explorer from Task Manager."@,
        ]
    } else {
        Seq::empty()
    }
}

pub fn reverted_lines(report: &ApplyReport) -> (r: Vec<String>)
    ensures
        lines_view(r@) == reverted_text(report.entry.changes@.len(), report.shell_restart_pending),
{
    let mut out: Vec<String> = Vec::new();
    let mut a = string_from("Reverted ");
    push_decimal(&mut a, report.entry.changes.len() as u64);
    push_str(&mut a, " change(s).");
    out.push(a);
    if report.shell_restart_pending {
        out.push(string_from("Some of it needs Explorer restarted: mino restart-shell is not"));
        out.push(string_from("automatic \u{2014} sign out, or restart Explorer from Task Manager."));
    }
    proof {
        assert(lines_view(out@) =~= reverted_text(report.entry.changes@.len(), report.shell_restart_pending));
    }
    out
}

/// What `safe-restore` prints.
pub open spec fn restored_text(changes: nat) -> Seq<Seq<char>> {
    seq!["Restored the state from before the last change."@, decimal(changes) + " change(s) undone."@]
}

pub fn restored_lines(report: &ApplyReport) -> (r: Vec<String>)
    ensures
        lines_view(r@) == restored_text(report.entry.changes@.len()),
{
    let mut out: Vec<String> = Vec::new();
    out.push(string_from("Restored the state from before the last change."));
    let mut b = crate::text::decimal_string(report.entry.changes.len() as u64);
    push_str(&mut b, " change(s) undone.");
    out.push(b);
    proof {
        assert(lines_view(out@) =~= restored_text(report.entry.changes@.len()));
    }
    out
}

/// How many changes the reports undid between them.
pub open spec fn reports_changes(rs: Seq<ApplyReport>) -> nat
    decreases rs.len(),
{
    if rs.len() == 0 {
        0
    } else {
        reports_changes(rs.drop_last()) + rs.last().entry.changes@.len()
    }
}

/// What `revert-all` prints: `Reverted 2 entries (5 change(s)).`
pub open spec fn reverted_all_text(entries: nat, changes: nat) -> Seq<char> {
    "Reverted "@ + decimal(entries) + " entr"@ + (if entries == 1 {
        "y"@
    } else {
        "ies"@
    }) + " ("@ + decimal(changes) + " change(s))."@
}

pub fn reverted_all_line(reports: &Vec<ApplyReport>) -> (r: String)
    requires
        reports_changes(reports@) <= u64::MAX,
    ensures
        r@ == reverted_all_text(reports@.len(), reports_changes(reports@)),
{
    let mut total: u64 = 0;
    let mut i: usize = 0;
    while i < reports.len()
        invariant
            i <= reports@.len(),
            total == reports_changes(reports@.take(i as int)),
            reports_changes(reports@) <= u64::MAX,
        decreases reports@.len() - i,
    {
        proof {
            assert(reports@.take(i + 1).drop_last() =~= reports@.take(i as int));
            lemma_reports_changes_prefix(reports@, i + 1);
        }
        total = total + reports[i].entry.changes.len() as u64;
        i += 1;
    }
    proof {
        assert(reports@.take(reports@.len() as int) =~= reports@);
    }
    let mut line = string_from("Reverted ");
    push_decimal(&mut line, reports.len() as u64);
    push_str(&mut line, " entr");
    if reports.len() == 1 {
        push_str(&mut line, "y");
    } else {
        push_str(&mut line, "ies");
    }
    push_str(&mut line, " (");
    push_decimal(&mut line, total);
    push_str(&mut line, " change(s)).");
    line
}

proof fn lemma_reports_changes_prefix(rs: Seq<ApplyReport>, k: int)
    requires
        0 <= k <= rs.len(),
    ensures
        reports_changes(rs.take(k)) <= reports_changes(rs),
    decreases rs.len(),
{
    if k < rs.len() {
        assert(rs.drop_last().take(k) =~= rs.take(k));
        lemma_reports_changes_prefix(rs.drop_last(), k);
    } else {
        assert(rs.take(k) =~= rs);
    }
}

// ---------------------------------------------------------------- listing

/// What `os` prints.
pub open spec fn os_lines_text(os: OsBuild) -> Seq<Seq<char>> {
    seq![os_text(os), "supported: "@ + if os.build >= MIN_SUPPORTED_BUILD {
        "yes"@
    } else {
        "no"@
    }]
}

pub fn os_lines(os: &OsBuild) -> (r: Vec<String>)
    ensures
        lines_view(r@) == os_lines_text(*os),
{
    let mut out: Vec<String> = Vec::new();
    out.push(os.text());
    let mut b = string_from("supported: ");
    if os.is_supported() {
        push_str(&mut b, "yes");
    } else {
        push_str(&mut b, "no");
    }
    out.push(b);
    proof {
        assert(lines_view(out@) =~= os_lines_text(*os));
    }
    out
}

pub open spec fn tier_name(t: Tier) -> Seq<char> {
    match t {
        Tier::A => "A"@,
        Tier::B => "B"@,
        Tier::C => "C"@,
    }
}

fn tier_str(t: Tier) -> (r: &'static str)
    ensures
        r@ == tier_name(t),
{
    match t {
        Tier::A => "A",
        Tier::B => "B",
        Tier::C => "C",
    }
}

/// A setting's value as `list` shows it: the value, else why it could not be
/// read, else `unavailable`.
pub open spec fn shown_value(st: TweakState) -> Seq<char> {
    match st.value {
        Some(v) => describe_text(v@),
        None => match st.error {
            Some(e) => e@,
            None => "unavailable"@,
        },
    }
}

/// Three columns: 42 characters, 10, and the rest.
pub open spec fn row(a: Seq<char>, b: Seq<char>, c: Seq<char>) -> Seq<char> {
    pad_right(a, 42) + seq![' '] + pad_right(b, 10) + seq![' '] + c
}

pub open spec fn state_lines(st: TweakState) -> Seq<Seq<char>> {
    seq![row(st.info.id@, tier_name(st.info.tier), shown_value(st))] + match st.info.support {
        crate::os::Support::Full => Seq::empty(),
        crate::os::Support::Partial(n) => seq![row(Seq::empty(), Seq::empty(), n.en@)],
        crate::os::Support::Unsupported(n) => seq![row(Seq::empty(), Seq::empty(), n.en@)],
    }
}

pub open spec fn listed_lines(states: Seq<TweakState>, category: Option<Seq<char>>) -> Seq<Seq<char>>
    decreases states.len(),
{
    if states.len() == 0 {
        Seq::empty()
    } else {
        let st = states.last();
        let rest = listed_lines(states.drop_last(), category);
        match category {
            Some(c) => if crate::tweak::category_id(st.info.category) != c {
                rest
            } else {
                rest + state_lines(st)
            },
            None => rest + state_lines(st),
        }
    }
}

fn push_row(out: &mut Vec<String>, a: &str, b: &str, c: &str)
    ensures
        lines_view(final(out)@) == lines_view(old(out)@).push(row(a@, b@, c@)),
{
    let mut line = String::new();
    push_padded_right(&mut line, a, 42);
    push_char(&mut line, ' ');
    push_padded_right(&mut line, b, 10);
    push_char(&mut line, ' ');
    push_str(&mut line, c);
    assert(line@ =~= row(a@, b@, c@));
    out.push(line);
    proof {
        assert(lines_view(out@) =~= lines_view(old(out)@).push(row(a@, b@, c@)));
    }
}

/// The lines `list` prints: every setting (of `category`, if given) with its
/// tier and its value on this machine, and its support note under it.
pub fn list_lines(states: &Vec<TweakState>, category: Option<&str>) -> (r: Vec<String>)
    ensures
        lines_view(r@) == listed_lines(
            states@,
            match category {
                Some(c) => Some(c@),
                None => None,
            },
        ),
{
    let ghost cat = match category {
        Some(c) => Some(c@),
        None => None::<Seq<char>>,
    };
    let mut out: Vec<String> = Vec::new();
    let mut i: usize = 0;
    while i < states.len()
        invariant
            i <= states@.len(),
            cat == match category {
                Some(c) => Some(c@),
                None => None::<Seq<char>>,
            },
            lines_view(out@) == listed_lines(states@.take(i as int), cat),
        decreases states@.len() - i,
    {
        let st = &states[i];
        proof {
            assert(states@.take(i + 1).drop_last() =~= states@.take(i as int));
            assert(states@.take(i + 1).last() == *st);
        }
        let wanted = match category {
            Some(c) => str_eq(st.info.category.id(), c),
            None => true,
        };
        if wanted {
            let ghost before = lines_view(out@);
            let value = match &st.value {
                Some(v) => v.describe(),
                None => match &st.error {
                    Some(e) => string_from(e.as_str()),
                    None => string_from("unavailable"),
                },
            };
            push_row(&mut out, st.info.id, tier_str(st.info.tier), value.as_str());
            match st.info.support.note() {
                Some(n) => {
                    proof {
                        reveal_strlit("");
                    }
                    push_row(&mut out, "", "", n.en);
                },
                None => {},
            }
            proof {
                assert(lines_view(out@) =~= before + state_lines(*st));
            }
        }
        i += 1;
    }
    proof {
        assert(states@.take(states@.len() as int) =~= states@);
    }
    out
}

} // verus!
