//! Words as five letters numbered from 0 (`a`) to 25 (`z`).
use vstd::prelude::*;
use vstd::utf8::{
    decode_utf8, decode_utf8_encode_utf8, encode_utf8, is_ascii_chars, is_ascii_chars_encode_utf8,
    valid_utf8,
};
use vstd::string::StringSliceAdditionalSpecFns;
use crate::feedback::is_word;

verus! {

/// The byte `b` with an upper-case ASCII letter made lower-case.
pub open spec fn ascii_lower(b: u8) -> u8 {
    if 65 <= b <= 90 {
        (b + 32) as u8
    } else {
        b
    }
}

/// Whether the bytes `b` can be encoded: five of them, each at or past `a` once lower-cased.
pub open spec fn encodable(b: Seq<u8>) -> bool {
    b.len() == 5 && forall|i: int| 0 <= i < 5 ==> #[trigger] ascii_lower(b[i]) >= 97
}

/// The letter numbers of the five bytes `b`: each lower-cased, less `a`.
pub open spec fn encoded(b: Seq<u8>) -> Seq<u8> {
    Seq::new(5, |i: int| (ascii_lower(b[i]) - 97) as u8)
}

/// The bytes that the letter numbers `e` stand for: each plus `a`.
pub open spec fn letter_bytes(e: Seq<u8>) -> Seq<u8> {
    Seq::new(e.len(), |i: int| (e[i] + 97) as u8)
}

/// Whether the letter numbers `e` can be decoded: no byte overflows and the bytes are UTF-8.
pub open spec fn decodable(e: Seq<u8>) -> bool {
    (forall|i: int| 0 <= i < e.len() ==> #[trigger] e[i] <= 158) && valid_utf8(letter_bytes(e))
}

/// Converts the bytes of `v` to a string, or `None` where they are not UTF-8.
///
/// Calls `String::from_utf8`, which by its documentation returns an error exactly
/// when the bytes are not valid UTF-8 and otherwise a string holding those bytes.
#[verifier::external_body]
fn string_from_utf8(v: Vec<u8>) -> (s: Option<String>)
    ensures
        s is Some <==> valid_utf8(v@),
        s is Some ==> s->0@ == decode_utf8(v@),
{
    String::from_utf8(v).ok()
}

/// Turns the five letters of `input` into their numbers, `a` as 0; upper-case letters
/// count as lower-case.
pub fn encode_word(input: &str) -> (word: [u8; 5])
    requires
        encodable(input.spec_bytes()),
    ensures
        word@ == encoded(input.spec_bytes()),
        forall|i: int| 0 <= i < 5 ==> #[trigger] word@[i] as int == (if 65 <= input.spec_bytes()[i] <= 90 {
            input.spec_bytes()[i] + 32
        } else {
            input.spec_bytes()[i] as int
        }) - 97,
{
    let bytes = input.as_bytes();
    let mut word: [u8; 5] = [0; 5];
    let mut i: usize = 0;
    while i < 5
        invariant
            bytes@ == input.spec_bytes(),
            encodable(bytes@),
            i <= 5,
            forall|j: int| 0 <= j < i ==> #[trigger] word[j] == encoded(bytes@)[j],
        decreases 5 - i,
    {
        let b = bytes[i];
        let lower = if 65 <= b && b <= 90 { b + 32 } else { b };
        assert(lower == ascii_lower(bytes@[i as int]));
        word[i] = lower - 97;
        i = i + 1;
    }
    assert(word@ =~= encoded(bytes@));
    proof {
        lemma_encoded_letter_numbers(bytes@);
    }
    word
}

/// Turns five letter numbers back into the word they spell, `0` as `a`.
pub fn decode_word(input: &[u8; 5]) -> (word: String)
    requires
        decodable(input@),
    ensures
        word@ == decode_utf8(letter_bytes(input@)),
        is_word(input@) ==> word@ == Seq::new(5, |i: int| (input@[i] + 97) as char),
{
    let mut bytes: Vec<u8> = Vec::new();
    let mut i: usize = 0;
    while i < 5
        invariant
            decodable(input@),
            i <= 5,
            bytes@ == letter_bytes(input@).subrange(0, i as int),
        decreases 5 - i,
    {
        bytes.push(input[i] + 97);
        i = i + 1;
        assert(bytes@ =~= letter_bytes(input@).subrange(0, i as int));
    }
    assert(bytes@ =~= letter_bytes(input@));
    proof {
        if is_word(input@) {
            lemma_decode_spells_letters(input@);
        }
    }
    match string_from_utf8(bytes) {
        Some(word) => word,
        None => {
            proof { assert(false); }
            String::new()
        },
    }
}

/// The byte that letter number `e[i]` stands for is `e[i]` past `a`.
pub proof fn lemma_letter_bytes_count_from_a(e: Seq<u8>)
    requires
        forall|i: int| 0 <= i < e.len() ==> #[trigger] e[i] <= 158,
    ensures
        letter_bytes(e).len() == e.len(),
        forall|i: int| 0 <= i < e.len() ==> #[trigger] letter_bytes(e)[i] as int == e[i] + 97,
{
}

/// Encoding a byte lower-cases an upper-case ASCII letter and counts from `a`: `A` and `a`
/// are 0, `Z` and `z` are 25.
pub proof fn lemma_encoded_letter_numbers(b: Seq<u8>)
    requires
        encodable(b),
    ensures
        encoded(b).len() == 5,
        forall|i: int| 0 <= i < 5 ==> #[trigger] encoded(b)[i] as int == (if 65 <= b[i] <= 90 {
            b[i] + 32
        } else {
            b[i] as int
        }) - 97,
        forall|i: int| 0 <= i < 5 && 97 <= #[trigger] b[i] <= 122 ==> encoded(b)[i] as int == b[i] - 97,
        forall|i: int| 0 <= i < 5 && 65 <= #[trigger] b[i] <= 90 ==> encoded(b)[i] as int == b[i] - 65,
{
}

/// A word decodes to the characters its letter numbers count from `a`: 0 is `a`, 25 is `z`.
pub proof fn lemma_decode_spells_letters(e: Seq<u8>)
    requires
        is_word(e),
    ensures
        decodable(e),
        decode_utf8(letter_bytes(e)) == Seq::new(5, |i: int| (e[i] + 97) as char),
        forall|i: int| 0 <= i < 5 ==> 'a' <= #[trigger] decode_utf8(letter_bytes(e))[i] <= 'z',
{
    let b = letter_bytes(e);
    assert forall|i: int| 0 <= i < b.len() implies #[trigger] b[i] < 128 by {}
    lemma_ascii_bytes_decode(b);
    assert(Seq::new(b.len(), |i: int| b[i] as char) =~= Seq::new(5, |i: int| (e[i] + 97) as char));
}

/// A trimmed line is a word exactly when it is five ASCII letters, `a` to `z` or `A` to `Z`,
/// and its letter numbers count from `a` in either case.
pub proof fn lemma_word_lines_are_five_letters(l: Seq<char>)
    ensures
        is_word_line(l) <==> (l.len() == 5 && forall|i: int|
            0 <= i < 5 ==> ('a' <= #[trigger] l[i] <= 'z') || ('A' <= l[i] <= 'Z')),
        is_word_line(l) ==> forall|i: int| 0 <= i < 5 ==> #[trigger] line_word(l)[i] as int == (if 'A' <= l[i] <= 'Z' {
            l[i] as int - 65
        } else {
            l[i] as int - 97
        }),
        is_word_line(l) ==> is_word(line_word(l)),
{
    if l.len() == 5 && forall|i: int| 0 <= i < 5 ==> ('a' <= #[trigger] l[i] <= 'z') || ('A' <= l[i] <= 'Z') {
        assert forall|i: int| 0 <= i < 5 implies #[trigger] is_ascii_letter(l[i]) by {
            assert(('a' <= l[i] <= 'z') || ('A' <= l[i] <= 'Z'));
        }
    }
    if is_word_line(l) {
        assert forall|i: int| 0 <= i < 5 implies ('a' <= #[trigger] l[i] <= 'z') || ('A' <= l[i] <= 'Z') by {
            assert(is_ascii_letter(l[i]));
        }
        assert forall|i: int| 0 <= i < 5 implies #[trigger] line_word(l)[i] < 26 by {
            assert(is_ascii_letter(l[i]));
        }
        assert forall|i: int| 0 <= i < 5 implies #[trigger] line_word(l)[i] as int == (if 'A' <= l[i] <= 'Z' {
            l[i] as int - 65
        } else {
            l[i] as int - 97
        }) by {
            assert(is_ascii_letter(l[i]));
        }
    }
}

/// ASCII bytes are valid UTF-8 and decode to the characters with the same numbers.
pub proof fn lemma_ascii_bytes_decode(b: Seq<u8>)
    requires
        forall|i: int| 0 <= i < b.len() ==> #[trigger] b[i] < 128,
    ensures
        valid_utf8(b),
        decode_utf8(b) == Seq::new(b.len(), |i: int| b[i] as char),
{
    let chars = Seq::new(b.len(), |i: int| b[i] as char);
    assert(is_ascii_chars(chars));
    is_ascii_chars_encode_utf8(chars);
    assert(encode_utf8(chars) =~= b);
    vstd::utf8::encode_utf8_valid_utf8(chars);
    vstd::utf8::encode_utf8_decode_utf8(chars);
}

/// Decoding a word and encoding the result gives the word back.
pub proof fn lemma_encode_decoded(e: Seq<u8>)
    requires
        is_word(e),
    ensures
        decodable(e),
        encodable(encode_utf8(decode_utf8(letter_bytes(e)))),
        encoded(encode_utf8(decode_utf8(letter_bytes(e)))) == e,
{
    let b = letter_bytes(e);
    lemma_ascii_bytes_decode(b);
    decode_utf8_encode_utf8(b);
    assert(encoded(b) =~= e);
}

/// Encoding five ASCII letters and decoding the result gives them back in lower case.
pub proof fn lemma_decode_encoded(b: Seq<u8>)
    requires
        b.len() == 5,
        forall|i: int| 0 <= i < 5 ==> (65 <= #[trigger] b[i] <= 90 || 97 <= b[i] <= 122),
    ensures
        encodable(b),
        is_word(encoded(b)),
        decodable(encoded(b)),
        decode_utf8(letter_bytes(encoded(b))) == Seq::new(5, |i: int| ascii_lower(b[i]) as char),
{
    let e = encoded(b);
    let lb = letter_bytes(e);
    assert forall|i: int| 0 <= i < 5 implies #[trigger] lb[i] == ascii_lower(b[i]) && lb[i] < 128 by {}
    lemma_ascii_bytes_decode(lb);
    assert(Seq::new(5, |i: int| lb[i] as char) =~= Seq::new(5, |i: int| ascii_lower(b[i]) as char));
}


/// Whether `c` is an ASCII letter.
pub open spec fn is_ascii_letter(c: char) -> bool {
    ('a' <= c <= 'z') || ('A' <= c <= 'Z')
}

/// The ASCII lower-case form of `c`.
pub open spec fn lower_char(c: char) -> char {
    if 'A' <= c <= 'Z' {
        ((c as u32) + 32) as char
    } else {
        c
    }
}

/// The characters of `line`.
pub fn chars_of(line: &str) -> (chars: Vec<char>)
    ensures
        chars@ == line@,
{
    let mut chars: Vec<char> = Vec::new();
    for c in it: line.chars()
        invariant
            chars@ == it.seq().take(it.index() as int),
    {
        chars.push(c);
    }
    proof {
        vstd::string::axiom_spec_iter(line);
    }
    chars
}

/// Whether `c` has the Unicode property White_Space, as `char::is_whitespace` tests.
pub open spec fn is_white_space(c: char) -> bool {
    let u = c as u32;
    (0x09 <= u <= 0x0d) || u == 0x20 || u == 0x85 || u == 0xa0 || u == 0x1680 || (0x2000 <= u
        <= 0x200a) || u == 0x2028 || u == 0x2029 || u == 0x202f || u == 0x205f || u == 0x3000
}

/// `s` without its leading white space.
pub open spec fn trim_start(s: Seq<char>) -> Seq<char>
    decreases s.len(),
{
    if s.len() > 0 && is_white_space(s[0]) {
        trim_start(s.drop_first())
    } else {
        s
    }
}

/// `s` without its trailing white space.
pub open spec fn trim_end(s: Seq<char>) -> Seq<char>
    decreases s.len(),
{
    if s.len() > 0 && is_white_space(s.last()) {
        trim_end(s.drop_last())
    } else {
        s
    }
}

/// `s` without its leading and trailing white space.
pub open spec fn trim(s: Seq<char>) -> Seq<char> {
    trim_end(trim_start(s))
}

/// The pieces of `s` between line feeds; a text without one is one piece.
pub open spec fn split_lines(s: Seq<char>) -> Seq<Seq<char>>
    decreases s.len(),
{
    if s.len() == 0 {
        seq![Seq::<char>::empty()]
    } else {
        let prev = split_lines(s.drop_last());
        if s.last() == '\n' {
            prev.push(Seq::<char>::empty())
        } else {
            prev.update(prev.len() - 1, prev.last().push(s.last()))
        }
    }
}

/// The lines of a word list: the pieces of the trimmed text between line feeds, each trimmed.
pub open spec fn word_list_lines(text: Seq<char>) -> Seq<Seq<char>> {
    split_lines(trim(text)).map_values(|l: Seq<char>| trim(l))
}

/// Whether line `l` is a word: five ASCII letters.
pub open spec fn is_word_line(l: Seq<char>) -> bool {
    l.len() == 5 && forall|i: int| 0 <= i < 5 ==> #[trigger] is_ascii_letter(l[i])
}

/// The letter numbers of the word on line `l`.
pub open spec fn line_word(l: Seq<char>) -> Seq<u8> {
    Seq::new(5, |i: int| (lower_char(l[i]) as u32 - 97) as u8)
}

fn white_space(c: char) -> (w: bool)
    ensures
        w == is_white_space(c),
{
    let u = c as u32;
    (0x09 <= u && u <= 0x0d) || u == 0x20 || u == 0x85 || u == 0xa0 || u == 0x1680 || (0x2000 <= u
        && u <= 0x200a) || u == 0x2028 || u == 0x2029 || u == 0x202f || u == 0x205f || u == 0x3000
}

/// Bounds of the characters of `s` from `lo` to `hi` without their leading and trailing
/// white space.
fn trim_bounds(s: &Vec<char>, lo: usize, hi: usize) -> (bounds: (usize, usize))
    requires
        lo <= hi <= s@.len(),
    ensures
        lo <= bounds.0 <= bounds.1 <= hi,
        s@.subrange(bounds.0 as int, bounds.1 as int) == trim(s@.subrange(lo as int, hi as int)),
{
    let mut a = lo;
    while a < hi && white_space(s[a])
        invariant
            lo <= a <= hi <= s@.len(),
            trim_start(s@.subrange(lo as int, hi as int)) == trim_start(s@.subrange(a as int, hi as int)),
        decreases hi - a,
    {
        assert(s@.subrange(a as int, hi as int).drop_first() =~= s@.subrange(a + 1, hi as int));
        a = a + 1;
    }
    let mut b = hi;
    while b > a && white_space(s[b - 1])
        invariant
            lo <= a <= b <= hi <= s@.len(),
            trim_end(s@.subrange(a as int, hi as int)) == trim_end(s@.subrange(a as int, b as int)),
        decreases b - a,
    {
        assert(s@.subrange(a as int, b as int).drop_last() =~= s@.subrange(a as int, b - 1));
        b = b - 1;
    }
    (a, b)
}

/// The word on the characters of `s` from `lo` to `hi`, once trimmed; `None` where they
/// are not five ASCII letters.
fn word_on_line(s: &Vec<char>, lo: usize, hi: usize) -> (word: Option<[u8; 5]>)
    requires
        lo <= hi <= s@.len(),
    ensures
        word is Some <==> is_word_line(trim(s@.subrange(lo as int, hi as int))),
        word matches Some(w) ==> w@ == line_word(trim(s@.subrange(lo as int, hi as int))),
{
    let ghost l = trim(s@.subrange(lo as int, hi as int));
    let (a, b) = trim_bounds(s, lo, hi);
    if b - a != 5 {
        return None;
    }
    let mut word: [u8; 5] = [0; 5];
    let mut i: usize = 0;
    while i < 5
        invariant
            l == s@.subrange(a as int, b as int),
            l == trim(s@.subrange(lo as int, hi as int)),
            lo <= hi <= s@.len(),
            b - a == 5,
            a <= b <= s@.len(),
            i <= 5,
            forall|j: int| 0 <= j < i ==> #[trigger] is_ascii_letter(l[j]),
            forall|j: int| 0 <= j < i ==> #[trigger] word@[j] == line_word(l)[j],
        decreases 5 - i,
    {
        let c = s[a + i];
        assert(l[i as int] == c);
        if !(('a' <= c && c <= 'z') || ('A' <= c && c <= 'Z')) {
            assert(l[i as int] == s@[a + i]);
            assert(!is_ascii_letter(l[i as int]));
            return None;
        }
        let lower = if 'A' <= c && c <= 'Z' { (c as u32) + 32 } else { c as u32 };
        word[i] = (lower - 97) as u8;
        i = i + 1;
    }
    assert(word@ =~= line_word(l));
    Some(word)
}

proof fn lemma_split_lines_nonempty(s: Seq<char>)
    ensures
        split_lines(s).len() >= 1,
    decreases s.len(),
{
    if s.len() > 0 {
        lemma_split_lines_nonempty(s.drop_last());
    }
}

/// Completed lines of a prefix of `s` are lines of `s`.
proof fn lemma_split_lines_prefix(s: Seq<char>, m: int)
    requires
        0 <= m <= s.len(),
    ensures
        split_lines(s.subrange(0, m)).len() <= split_lines(s).len(),
        forall|k: int|
            0 <= k < split_lines(s.subrange(0, m)).len() - 1 ==> #[trigger] split_lines(s)[k]
                == split_lines(s.subrange(0, m))[k],
    decreases s.len(),
{
    if m == s.len() {
        assert(s.subrange(0, m) =~= s);
    } else {
        let d = s.drop_last();
        assert(d.subrange(0, m) =~= s.subrange(0, m));
        lemma_split_lines_prefix(d, m);
        lemma_split_lines_nonempty(d);
    }
}

/// Reads a word list: the lines of the trimmed `text`, each trimmed, as words; `None`
/// where a line is not five ASCII letters.
pub fn words_from_text(text: &str) -> (words: Option<Vec<[u8; 5]>>)
    ensures
        words is Some <==> forall|k: int|
            0 <= k < word_list_lines(text@).len() ==> #[trigger] is_word_line(word_list_lines(text@)[k]),
        words matches Some(ws) ==> ws@.len() == word_list_lines(text@).len() && forall|k: int|
            0 <= k < ws@.len() ==> #[trigger] ws@[k]@ == line_word(word_list_lines(text@)[k]),
        words is Some <==> forall|k: int|
            0 <= k < word_list_lines(text@).len() ==> (#[trigger] word_list_lines(text@)[k]).len() == 5
                && forall|i: int| 0 <= i < 5 ==> ('a' <= #[trigger] word_list_lines(text@)[k][i] <= 'z') || (
                'A' <= word_list_lines(text@)[k][i] <= 'Z'),
{
    let words = read_words(text);
    proof {
        assert forall|k: int| 0 <= k < word_list_lines(text@).len() implies (is_word_line(
            #[trigger] word_list_lines(text@)[k],
        ) <==> (word_list_lines(text@)[k].len() == 5 && forall|i: int|
            0 <= i < 5 ==> ('a' <= #[trigger] word_list_lines(text@)[k][i] <= 'z') || ('A' <= word_list_lines(text@)[k][i] <= 'Z'))) by {
            lemma_word_lines_are_five_letters(word_list_lines(text@)[k]);
        }
    }
    words
}

fn read_words(text: &str) -> (words: Option<Vec<[u8; 5]>>)
    ensures
        words is Some <==> forall|k: int|
            0 <= k < word_list_lines(text@).len() ==> #[trigger] is_word_line(word_list_lines(text@)[k]),
        words matches Some(ws) ==> ws@.len() == word_list_lines(text@).len() && forall|k: int|
            0 <= k < ws@.len() ==> #[trigger] ws@[k]@ == line_word(word_list_lines(text@)[k]),
{
    let chars = chars_of(text);
    let (a, b) = trim_bounds(&chars, 0, chars.len());
    assert(chars@.subrange(0, chars@.len() as int) =~= text@);
    let ghost body = chars@.subrange(a as int, b as int);
    assert(body == trim(text@));
    let mut words: Vec<[u8; 5]> = Vec::new();
    let mut start = a;
    let mut i = a;
    while i < b
        invariant
            a <= start <= i <= b <= chars@.len(),
            body == chars@.subrange(a as int, b as int),
            body == trim(text@),
            split_lines(chars@.subrange(a as int, i as int)).len() == words@.len() + 1,
            split_lines(chars@.subrange(a as int, i as int)).last() == chars@.subrange(start as int, i as int),
            forall|k: int| 0 <= k < words@.len() ==> #[trigger] is_word_line(trim(split_lines(chars@.subrange(a as int, i as int))[k])),
            forall|k: int| 0 <= k < words@.len() ==> #[trigger] words@[k]@ == line_word(trim(split_lines(chars@.subrange(a as int, i as int))[k])),
        decreases b - i,
    {
        let ghost prefix = chars@.subrange(a as int, i as int);
        let ghost next = chars@.subrange(a as int, i + 1);
        assert(next.drop_last() =~= prefix);
        proof {
            lemma_split_lines_nonempty(prefix);
            assert(body.subrange(0, i + 1 - a) =~= next);
            lemma_split_lines_prefix(body, i + 1 - a);
        }
        if chars[i] == '\n' {
            match word_on_line(&chars, start, i) {
                None => {
                    proof {
                        let k = words@.len() as int;
                        assert(split_lines(next)[k] == chars@.subrange(start as int, i as int));
                        assert(word_list_lines(text@)[k] == trim(split_lines(body)[k]));
                        assert(!is_word_line(word_list_lines(text@)[k]));
                    }
                    return None;
                },
                Some(w) => {
                    words.push(w);
                },
            }
            start = i + 1;
            assert(chars@.subrange(start as int, i + 1) =~= Seq::<char>::empty());
        } else {
            assert(chars@.subrange(start as int, i + 1) =~= chars@.subrange(start as int, i as int).push(chars@[i as int]));
        }
        i = i + 1;
    }
    assert(chars@.subrange(a as int, i as int) =~= body);
    let ghost k = words@.len() as int;
    match word_on_line(&chars, start, b) {
        None => {
            assert(!is_word_line(word_list_lines(text@)[k]));
            None
        },
        Some(w) => {
            words.push(w);
            assert forall|j: int| 0 <= j < word_list_lines(text@).len() implies #[trigger] is_word_line(word_list_lines(text@)[j]) by {
                assert(word_list_lines(text@)[j] == trim(split_lines(body)[j]));
            }
            assert forall|j: int| 0 <= j < words@.len() implies #[trigger] words@[j]@ == line_word(word_list_lines(text@)[j]) by {
                assert(word_list_lines(text@)[j] == trim(split_lines(body)[j]));
            }
            Some(words)
        },
    }
}

} // verus!
