//! Reading a player's entry: a guess, a space and its five colours, as in `lares __g_y`.
use vstd::prelude::*;
use crate::encoding::{build_bitmask, info_cells};
use crate::feedback::{is_coloring, is_word, GRAY, GREEN, YELLOW};
use crate::solver::{agrees, all_words, filter_possible_secrets};
use crate::words::{chars_of, is_ascii_letter, lower_char};

verus! {

/// Whether an entry with characters `s` and `nbytes` bytes has the form of one:
/// eleven bytes, five ASCII letters, then a space.
pub open spec fn entry_well_formed(s: Seq<char>, nbytes: int) -> bool {
    &&& nbytes == 11
    &&& s.len() >= 6
    &&& s[5] == ' '
    &&& forall|i: int| 0 <= i < 5 ==> #[trigger] is_ascii_letter(s[i])
}

/// Whether an entry with characters `s` and `nbytes` bytes can be read without running
/// out of characters: at least six where it has eleven bytes, and where it has the form of
/// an entry, five more that are not spaces.
pub open spec fn entry_readable(s: Seq<char>, nbytes: int) -> bool {
    &&& nbytes == 11 ==> s.len() >= 6
    &&& entry_well_formed(s, nbytes) ==> s.len() >= 11 && forall|i: int|
        6 <= i < 11 ==> #[trigger] s[i] != ' '
}

/// Whether entry `line` can be read: see `entry_readable`.
pub fn entry_is_readable(line: &str) -> (readable: bool)
    ensures
        readable == entry_readable(line@, line.len() as int),
{
    let chars = chars_of(line);
    if line.len() != 11 {
        return true;
    }
    if chars.len() < 6 {
        return false;
    }
    if chars[5] != ' ' {
        return true;
    }
    let mut i: usize = 0;
    while i < 5
        invariant
            chars@ == line@,
            chars@.len() >= 6,
            line.len() == 11,
            chars@[5] == ' ',
            i <= 5,
            forall|j: int| 0 <= j < i ==> #[trigger] is_ascii_letter(chars@[j]),
        decreases 5 - i,
    {
        let c = chars[i];
        if !(('a' <= c && c <= 'z') || ('A' <= c && c <= 'Z')) {
            assert(!is_ascii_letter(line@[i as int]));
            return true;
        }
        i = i + 1;
    }
    if chars.len() < 11 {
        return false;
    }
    let mut i: usize = 6;
    while i < 11
        invariant
            chars@ == line@,
            chars@.len() >= 11,
            line.len() == 11,
            chars@[5] == ' ',
            forall|j: int| 0 <= j < 5 ==> #[trigger] is_ascii_letter(chars@[j]),
            6 <= i <= 11,
            forall|j: int| 6 <= j < i ==> #[trigger] chars@[j] != ' ',
        decreases 11 - i,
    {
        if chars[i] == ' ' {
            return false;
        }
        i = i + 1;
    }
    true
}

/// The colour that character `c` of an entry stands for: `_` gray, `y` yellow, `g` green,
/// and anything else gray.
pub open spec fn color_code(c: char) -> u8 {
    if c == 'y' {
        YELLOW
    } else if c == 'g' {
        GREEN
    } else {
        GRAY
    }
}

/// The letter numbers of the guess of entry `s`.
pub open spec fn entry_guess(s: Seq<char>) -> Seq<u8> {
    Seq::new(5, |i: int| (lower_char(s[i]) as u32 - 97) as u8)
}

/// The colours of entry `s`.
pub open spec fn entry_colors(s: Seq<char>) -> Seq<u8> {
    Seq::new(5, |i: int| color_code(s[6 + i]))
}

/// Reads an entry: `None` where it does not have the form of one, else the guess's letter
/// numbers and the colours.
pub fn parse_entry(line: &str) -> (parsed: Option<([u8; 5], [u8; 5])>)
    requires
        entry_readable(line@, line.len() as int),
    ensures
        parsed is Some <==> entry_well_formed(line@, line.len() as int),
        parsed matches Some((guess, colors)) ==> guess@ == entry_guess(line@) && colors@ == entry_colors(line@),
        parsed is Some <==> (line.len() == 11 && line@.len() >= 6 && line@[5] == ' ' && forall|i: int|
            0 <= i < 5 ==> ('a' <= #[trigger] line@[i] <= 'z') || ('A' <= line@[i] <= 'Z')),
        parsed matches Some((guess, colors)) ==> forall|i: int| 0 <= i < 5 ==> #[trigger] guess@[i] as int == (if 'A' <= line@[i] <= 'Z' {
            line@[i] as int - 65
        } else {
            line@[i] as int - 97
        }),
{
    let parsed = read_entry(line);
    proof {
        lemma_entry_form(line@, line.len() as int);
    }
    parsed
}

fn read_entry(line: &str) -> (parsed: Option<([u8; 5], [u8; 5])>)
    requires
        entry_readable(line@, line.len() as int),
    ensures
        parsed is Some <==> entry_well_formed(line@, line.len() as int),
        parsed matches Some((guess, colors)) ==> guess@ == entry_guess(line@) && colors@ == entry_colors(line@),
{
    let chars = chars_of(line);
    if line.len() != 11 || chars[5] != ' ' {
        return None;
    }
    let mut i: usize = 0;
    while i < 5
        invariant
            chars@ == line@,
            chars@.len() >= 6,
            i <= 5,
            forall|j: int| 0 <= j < i ==> #[trigger] is_ascii_letter(chars@[j]),
        decreases 5 - i,
    {
        let c = chars[i];
        if !(('a' <= c && c <= 'z') || ('A' <= c && c <= 'Z')) {
            assert(!is_ascii_letter(line@[i as int]));
            return None;
        }
        i = i + 1;
    }
    let mut guess: [u8; 5] = [0; 5];
    let mut colors: [u8; 5] = [0; 5];
    let mut i: usize = 0;
    while i < 5
        invariant
            chars@ == line@,
            entry_well_formed(line@, 11),
            entry_readable(line@, 11),
            i <= 5,
            forall|j: int| 0 <= j < i ==> #[trigger] guess[j] == entry_guess(line@)[j],
            forall|j: int| 0 <= j < i ==> #[trigger] colors[j] == entry_colors(line@)[j],
        decreases 5 - i,
    {
        let c = chars[i];
        assert(is_ascii_letter(c));
        let lower = if 'A' <= c && c <= 'Z' { (c as u32) + 32 } else { c as u32 };
        guess[i] = (lower - 97) as u8;
        let k = chars[6 + i];
        colors[i] = if k == 'y' { YELLOW } else if k == 'g' { GREEN } else { GRAY };
        i = i + 1;
    }
    assert(guess@ =~= entry_guess(line@));
    assert(colors@ =~= entry_colors(line@));
    Some((guess, colors))
}


/// An entry has the form of one exactly when it has eleven bytes and its first five
/// characters are ASCII letters, `a` to `z` or `A` to `Z`, followed by a space; its guess
/// then counts each letter from `a` in either case, and its colours read `y` as yellow (1),
/// `g` as green (2) and any other character as gray (0).
pub proof fn lemma_entry_form(s: Seq<char>, nbytes: int)
    ensures
        entry_well_formed(s, nbytes) <==> (nbytes == 11 && s.len() >= 6 && s[5] == ' ' && forall|i: int|
            0 <= i < 5 ==> ('a' <= #[trigger] s[i] <= 'z') || ('A' <= s[i] <= 'Z')),
        entry_well_formed(s, nbytes) ==> forall|i: int| 0 <= i < 5 ==> #[trigger] entry_guess(s)[i] as int == (if 'A' <= s[i] <= 'Z' {
            s[i] as int - 65
        } else {
            s[i] as int - 97
        }) && entry_guess(s)[i] < 26,
        s.len() >= 11 ==> forall|i: int| 0 <= i < 5 ==> #[trigger] entry_colors(s)[i] == (if s[6 + i] == 'y' {
            1u8
        } else if s[6 + i] == 'g' {
            2u8
        } else {
            0u8
        }),
{
    if nbytes == 11 && s.len() >= 6 && s[5] == ' ' && forall|i: int|
        0 <= i < 5 ==> ('a' <= #[trigger] s[i] <= 'z') || ('A' <= s[i] <= 'Z') {
        assert forall|i: int| 0 <= i < 5 implies #[trigger] is_ascii_letter(s[i]) by {
            assert(('a' <= s[i] <= 'z') || ('A' <= s[i] <= 'Z'));
        }
    }
    if entry_well_formed(s, nbytes) {
        assert forall|i: int| 0 <= i < 5 implies ('a' <= #[trigger] s[i] <= 'z') || ('A' <= s[i] <= 'Z') by {
            assert(is_ascii_letter(s[i]));
        }
        assert forall|i: int| 0 <= i < 5 implies #[trigger] entry_guess(s)[i] as int == (if 'A' <= s[i] <= 'Z' {
            s[i] as int - 65
        } else {
            s[i] as int - 97
        }) && entry_guess(s)[i] < 26 by {
            assert(is_ascii_letter(s[i]));
        }
    }
}

/// What an entry does to the possible secrets.
pub enum EntryOutcome {
    /// The entry does not have the form of one.
    Invalid,
    /// The information would rule out every possible secret, so the entry is refused.
    EliminatesAll,
    /// The possible secrets that agree with the information, in their order.
    Narrowed(Vec<[u8; 5]>),
}

/// The possible secrets of `ps` that agree with the guess and colours of entry `s`.
pub open spec fn entry_survivors(s: Seq<char>, ps: Seq<[u8; 5]>) -> Seq<[u8; 5]> {
    ps.filter(|w: [u8; 5]| agrees(info_cells(entry_guess(s), entry_colors(s)), w))
}

/// Applies the player's entry `line` to the possible secrets `ps`: reads it, builds the
/// information bitmask of its guess and colours, and keeps the secrets that agree with it,
/// unless none would be left.
pub fn apply_entry(line: &str, ps: &Vec<[u8; 5]>) -> (outcome: EntryOutcome)
    requires
        entry_readable(line@, line.len() as int),
        all_words(ps@),
    ensures
        outcome is Invalid <==> !entry_well_formed(line@, line.len() as int),
        outcome is EliminatesAll <==> entry_well_formed(line@, line.len() as int) && entry_survivors(
            line@,
            ps@,
        ).len() == 0,
        outcome matches EntryOutcome::Narrowed(kept) ==> kept@ == entry_survivors(line@, ps@)
            && kept@.len() > 0,
        outcome is Invalid <==> !(line.len() == 11 && line@.len() >= 6 && line@[5] == ' ' && forall|i: int|
            0 <= i < 5 ==> ('a' <= #[trigger] line@[i] <= 'z') || ('A' <= line@[i] <= 'Z')),
{
    proof {
        lemma_entry_form(line@, line.len() as int);
    }
    match parse_entry(line) {
        None => EntryOutcome::Invalid,
        Some((guess, colors)) => {
            assert forall|i: int| 0 <= i < 5 implies #[trigger] guess@[i] < 26 by {
                assert(is_ascii_letter(line@[i]));
            }
            assert(is_coloring(colors@));
            let elimination_info = build_bitmask(&guess, &colors);
            let new_ps = filter_possible_secrets(ps, &elimination_info);
            assert(new_ps@ == entry_survivors(line@, ps@));
            if new_ps.len() == 0 {
                EntryOutcome::EliminatesAll
            } else {
                EntryOutcome::Narrowed(new_ps)
            }
        },
    }
}

} // verus!
