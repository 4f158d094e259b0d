//! The `{number}-{slug}.md` naming convention: reading the ordering key off a
//! name and writing a name for a key and a slug.

use crate::seqs::{lemma_absent, lemma_first_index};
use crate::text::{chars_of, string_of};
use vstd::prelude::*;

verus! {

/// True for the ten ASCII decimal digits.
pub open spec fn is_digit(c: char) -> bool {
    '0' <= c && c <= '9'
}

/// The number a decimal digit stands for; zero for any other character.
pub open spec fn digit_value(c: char) -> nat {
    if is_digit(c) {
        (c as int - '0' as int) as nat
    } else {
        0
    }
}

/// True when every character of `s` is a decimal digit.
pub open spec fn all_digits(s: Seq<char>) -> bool {
    forall|i: int| 0 <= i < s.len() ==> is_digit(#[trigger] s[i])
}

/// The number that the digits of `s` write in base ten, most significant
/// digit first.
pub open spec fn decimal_value(s: Seq<char>) -> nat
    decreases s.len(),
{
    if s.len() == 0 {
        0
    } else {
        decimal_value(s.drop_last()) * 10 + digit_value(s.last())
    }
}

/// The unsigned integer that `s` denotes: an optional `+`, then one or more
/// decimal digits whose value fits in 64 bits. Anything else denotes nothing.
pub open spec fn unsigned_decimal(s: Seq<char>) -> Option<u64> {
    let body = if s.len() > 0 && s[0] == '+' {
        s.skip(1)
    } else {
        s
    };
    if body.len() > 0 && all_digits(body) && decimal_value(body) <= u64::MAX {
        Some(decimal_value(body) as u64)
    } else {
        None
    }
}

/// A longer digit string is worth at least as much as any of its prefixes.
pub proof fn lemma_decimal_value_prefix(s: Seq<char>, n: int)
    requires
        0 <= n <= s.len(),
    ensures
        decimal_value(s.take(n)) <= decimal_value(s),
    decreases s.len() - n,
{
    if n == s.len() {
        assert(s.take(n) == s);
    } else {
        lemma_decimal_value_prefix(s, n + 1);
        assert(s.take(n + 1).drop_last() == s.take(n));
    }
}

/// Reads an unsigned decimal number from the characters `s[from..to]`.
pub(crate) fn parse_unsigned(s: &Vec<char>, from: usize, to: usize) -> (r: Option<u64>)
    requires
        from <= to <= s.len(),
    ensures
        r == unsigned_decimal(s@.subrange(from as int, to as int)),
{
    let ghost whole = s@.subrange(from as int, to as int);
    let mut i: usize = from;
    if i < to && s[i] == '+' {
        i += 1;
    }
    let start: usize = i;
    let ghost body = s@.subrange(start as int, to as int);
    assert(body == if whole.len() > 0 && whole[0] == '+' {
        whole.skip(1)
    } else {
        whole
    });
    if start == to {
        return None;
    }
    let mut acc: u64 = 0;
    while i < to
        invariant
            from <= start <= i <= to <= s.len(),
            whole == s@.subrange(from as int, to as int),
            body == s@.subrange(start as int, to as int),
            body == if whole.len() > 0 && whole[0] == '+' {
                whole.skip(1)
            } else {
                whole
            },
            all_digits(body.take(i - start)),
            acc == decimal_value(body.take(i - start)),
        decreases to - i,
    {
        let c: char = s[i];
        if !(c >= '0' && c <= '9') {
            assert(!is_digit(body[i - start]));
            return None;
        }
        let d: u64 = (c as u64) - ('0' as u64);
        assert(d == digit_value(c));
        proof {
            assert(body.take(i - start + 1).drop_last() == body.take(i - start));
            assert(body.take(i - start + 1).last() == c);
            lemma_decimal_value_prefix(body, i - start + 1);
        }
        if acc > (u64::MAX - d) / 10 {
            assert(decimal_value(body.take(i - start + 1)) > u64::MAX);
            return None;
        }
        acc = acc * 10 + d;
        i += 1;
    }
    assert(body.take(i - start) == body);
    Some(acc)
}

/// The ordering key that a note's stem carries: the number written before
/// its first `-`. A stem without a `-`, or with anything but a number before
/// it, carries none.
pub open spec fn ordering_key(stem: Seq<char>) -> Option<u64> {
    match stem.index_of_first('-') {
        Some(dash) => unsigned_decimal(stem.take(dash)),
        None => None,
    }
}

/// The position of the first `-` among `s`, if there is one.
fn find_dash(s: &Vec<char>) -> (r: Option<usize>)
    ensures
        match r {
            Some(dash) => dash < s.len() && s@.index_of_first('-') == Some(dash as int),
            None => s@.index_of_first('-') is None,
        },
{
    let mut i: usize = 0;
    while i < s.len()
        invariant
            i <= s.len(),
            forall|j: int| 0 <= j < i ==> s@[j] != '-',
        decreases s.len() - i,
    {
        if s[i] == '-' {
            proof {
                lemma_first_index(s@, '-', i as int);
            }
            return Some(i);
        }
        i += 1;
    }
    proof {
        lemma_absent(s@, '-');
    }
    None
}

/// Reads the ordering key off a note's stem.
pub fn parse_file_number(name: &str) -> (key: Option<u64>)
    ensures
        key == ordering_key(name@),
{
    let chars = chars_of(name);
    match find_dash(&chars) {
        Some(dash) => {
            assert(chars@.subrange(0, dash as int) == chars@.take(dash as int));
            parse_unsigned(&chars, 0, dash)
        },
        None => None,
    }
}

/// The character that writes the digit `d`.
pub open spec fn digit_char(d: nat) -> char
    recommends
        d < 10,
{
    ('0' as int + d) as char
}

/// The decimal digits of `n`, most significant first, without leading zeros.
pub open spec fn decimal_digits(n: nat) -> Seq<char>
    decreases n,
{
    if n < 10 {
        seq![digit_char(n)]
    } else {
        decimal_digits(n / 10).push(digit_char(n % 10))
    }
}

/// The digits of a number are digits, and they write that number.
pub proof fn lemma_decimal_digits(n: nat)
    ensures
        decimal_digits(n).len() > 0,
        all_digits(decimal_digits(n)),
        decimal_value(decimal_digits(n)) == n,
    decreases n,
{
    if n < 10 {
        let s = decimal_digits(n);
        assert(s.drop_last().len() == 0);
        assert(decimal_value(s.drop_last()) == 0);
        assert(s.last() == digit_char(n));
    } else {
        lemma_decimal_digits(n / 10);
        let s = decimal_digits(n);
        assert(s.drop_last() == decimal_digits(n / 10));
        assert(s.last() == digit_char(n % 10));
    }
}

/// The extension that marks a file as a note, with its dot.
pub open spec fn note_suffix() -> Seq<char> {
    seq!['.', 'm', 'd']
}

/// The slug of a note whose title gives none.
pub open spec fn untitled() -> Seq<char> {
    seq!['u', 'n', 't', 'i', 't', 'l', 'e', 'd']
}

/// The stem written for a key and a slug: `{number}-{slug}`.
pub open spec fn stem_of(number: u64, slug: Seq<char>) -> Seq<char> {
    decimal_digits(number as nat) + seq!['-'] + slug
}

/// The file name written for a key and a slug: `{number}-{slug}.md`.
pub open spec fn filename_of(number: u64, slug: Seq<char>) -> Seq<char> {
    stem_of(number, slug) + note_suffix()
}

/// The decimal digits of `n`.
fn decimal_chars(n: u64) -> (digits: Vec<char>)
    ensures
        digits@ == decimal_digits(n as nat),
{
    let mut rest: u64 = n;
    let mut tail: Vec<char> = Vec::new();
    while rest >= 10
        invariant
            decimal_digits(n as nat) == decimal_digits(rest as nat) + tail@,
        decreases rest,
    {
        let d: u8 = (rest % 10) as u8;
        let c: char = ('0' as u8 + d) as char;
        assert(c == digit_char((rest % 10) as nat));
        proof {
            assert(decimal_digits(rest as nat) + tail@ == decimal_digits((rest / 10) as nat)
                + tail@.insert(0, c));
        }
        tail.insert(0, c);
        rest = rest / 10;
    }
    let d: u8 = rest as u8;
    let c: char = ('0' as u8 + d) as char;
    assert(c == digit_char(rest as nat));
    proof {
        assert(decimal_digits(rest as nat) + tail@ == tail@.insert(0, c));
    }
    tail.insert(0, c);
    tail
}

/// Writes the file name of a note: `{number}-{slug}.md`.
pub fn format_filename(number: u64, slug: &str) -> (name: String)
    ensures
        name@ == filename_of(number, slug@),
{
    let digits = decimal_chars(number);
    let mut name = string_of(&digits);
    name.push('-');
    name.append(slug);
    name.push('.');
    name.push('m');
    name.push('d');
    assert(name@ == filename_of(number, slug@));
    name
}

/// Reading the key off a written name gives back the key it was written
/// for, whatever the slug; so does reading it off the stem alone.
pub proof fn lemma_key_round_trip(number: u64, slug: Seq<char>)
    ensures
        ordering_key(stem_of(number, slug)) == Some(number),
        ordering_key(filename_of(number, slug)) == Some(number),
{
    let digits = decimal_digits(number as nat);
    lemma_decimal_digits(number as nat);
    let stem = stem_of(number, slug);
    let name = filename_of(number, slug);
    let dash = digits.len() as int;
    assert forall|j: int| 0 <= j < dash implies stem[j] != '-' && name[j] != '-' by {
        assert(is_digit(digits[j]));
    }
    lemma_first_index(stem, '-', dash);
    lemma_first_index(name, '-', dash);
    assert(stem.take(dash) == digits);
    assert(name.take(dash) == digits);
    assert(is_digit(digits[0]));
}

/// The slug that a stem carries: what follows its first `-`. A stem with
/// nothing there stands for an untitled note.
pub open spec fn stem_slug(stem: Seq<char>) -> Seq<char> {
    match stem.index_of_first('-') {
        Some(dash) => if dash + 1 < stem.len() {
            stem.skip(dash + 1)
        } else {
            untitled()
        },
        None => untitled(),
    }
}

/// The characters of the word `untitled`.
fn untitled_chars() -> (word: Vec<char>)
    ensures
        word@ == untitled(),
{
    let word = chars_of("untitled");
    proof {
        reveal_strlit("untitled");
        assert(word@ =~= untitled());
    }
    word
}

/// The slug carried by the stem `stem`.
fn slug_chars(stem: &Vec<char>) -> (slug: Vec<char>)
    ensures
        slug@ == stem_slug(stem@),
{
    match find_dash(stem) {
        Some(dash) => {
            if dash + 1 < stem.len() {
                let mut slug: Vec<char> = Vec::new();
                let mut i: usize = dash + 1;
                while i < stem.len()
                    invariant
                        dash + 1 <= i <= stem.len(),
                        slug@ == stem@.subrange(dash + 1, i as int),
                    decreases stem.len() - i,
                {
                    slug.push(stem[i]);
                    i += 1;
                }
                assert(slug@ == stem@.skip(dash + 1));
                slug
            } else {
                untitled_chars()
            }
        },
        None => untitled_chars(),
    }
}

/// Takes the slug out of a note's stem, so that it can be kept when the
/// note gets another number.
pub fn extract_slug(stem: &str) -> (slug: String)
    ensures
        slug@ == stem_slug(stem@),
{
    let chars = chars_of(stem);
    let slug = slug_chars(&chars);
    string_of(&slug)
}

/// True when `name` is the file name of a note: something, then `.md`.
pub open spec fn is_note_name(name: Seq<char>) -> bool {
    name.len() > 3 && name.skip(name.len() - 3) == note_suffix()
}

/// A file name without the note extension; a name that has none is its
/// own stem.
pub open spec fn note_stem(name: Seq<char>) -> Seq<char> {
    if is_note_name(name) {
        name.take(name.len() - 3)
    } else {
        name
    }
}

/// The ordering key of the file `name`: that of its stem where it is a
/// note, none where it is anything else.
pub open spec fn note_key(name: Seq<char>) -> Option<u64> {
    if is_note_name(name) {
        ordering_key(note_stem(name))
    } else {
        None
    }
}

/// The slug that the note `name` keeps when it is renumbered.
pub open spec fn note_slug(name: Seq<char>) -> Seq<char> {
    stem_slug(note_stem(name))
}

/// The stem of the note whose file name is `name`, if `name` names a note.
pub(crate) fn note_stem_chars(name: &Vec<char>) -> (stem: Option<Vec<char>>)
    ensures
        stem is Some <==> is_note_name(name@),
        stem matches Some(chars) ==> chars@ == note_stem(name@),
{
    let n: usize = name.len();
    if n > 3 && name[n - 3] == '.' && name[n - 2] == 'm' && name[n - 1] == 'd' {
        assert(name@.skip(n - 3) =~= note_suffix());
        let mut stem: Vec<char> = Vec::new();
        let mut i: usize = 0;
        while i < n - 3
            invariant
                n == name.len(),
                n > 3,
                i <= n - 3,
                stem@ == name@.take(i as int),
            decreases n - i,
        {
            stem.push(name[i]);
            i += 1;
        }
        Some(stem)
    } else {
        proof {
            if n > 3 {
                let tail = name@.skip(n - 3);
                assert(tail[0] == name@[n - 3] && tail[1] == name@[n - 2] && tail[2] == name@[n
                    - 1]);
                assert(note_suffix()[0] == '.' && note_suffix()[1] == 'm' && note_suffix()[2]
                    == 'd');
            }
        }
        None
    }
}

/// Splits a note's file name into its stem and nothing else; `None` for a
/// file that is no note.
pub fn note_stem_of(name: &str) -> (stem: Option<String>)
    ensures
        stem is Some <==> is_note_name(name@),
        stem matches Some(s) ==> s@ == note_stem(name@),
{
    let chars = chars_of(name);
    match note_stem_chars(&chars) {
        Some(stem) => Some(string_of(&stem)),
        None => None,
    }
}

/// Reads the ordering key off a file name in a notes directory.
pub fn note_number(name: &str) -> (key: Option<u64>)
    ensures
        key == note_key(name@),
{
    let chars = chars_of(name);
    match note_stem_chars(&chars) {
        Some(stem) => match find_dash(&stem) {
            Some(dash) => {
                assert(stem@.subrange(0, dash as int) == stem@.take(dash as int));
                parse_unsigned(&stem, 0, dash)
            },
            None => None,
        },
        None => None,
    }
}

/// The slug that the file `name` keeps when it gets another number.
pub fn kept_slug(name: &str) -> (slug: String)
    ensures
        slug@ == note_slug(name@),
{
    let chars = chars_of(name);
    let slug = match note_stem_chars(&chars) {
        Some(stem) => slug_chars(&stem),
        None => slug_chars(&chars),
    };
    string_of(&slug)
}

/// True for the stems of the earlier naming scheme: a timestamp in
/// milliseconds, written as ten or more decimal digits and nothing else.
pub open spec fn is_legacy_stem(stem: Seq<char>) -> bool {
    stem.len() >= 10 && all_digits(stem)
}

/// Tells whether the characters `stem` make a stem of the earlier scheme.
pub(crate) fn is_legacy_chars(stem: &Vec<char>) -> (legacy: bool)
    ensures
        legacy == is_legacy_stem(stem@),
{
    if stem.len() < 10 {
        return false;
    }
    let mut i: usize = 0;
    while i < stem.len()
        invariant
            i <= stem.len(),
            all_digits(stem@.take(i as int)),
        decreases stem.len() - i,
    {
        let c: char = stem[i];
        if !(c >= '0' && c <= '9') {
            assert(!is_digit(stem@[i as int]));
            return false;
        }
        i += 1;
    }
    assert(stem@.take(i as int) == stem@);
    true
}

/// Tells whether a stem follows the earlier, timestamp-only naming scheme.
pub fn is_old_timestamp_format(name: &str) -> (legacy: bool)
    ensures
        legacy == is_legacy_stem(name@),
{
    let chars = chars_of(name);
    is_legacy_chars(&chars)
}

/// A written file name is the name of a note, its stem is the stem that was
/// written, and it carries the key and the slug it was written for.
pub proof fn lemma_written_name(number: u64, slug: Seq<char>)
    ensures
        is_note_name(filename_of(number, slug)),
        note_stem(filename_of(number, slug)) == stem_of(number, slug),
        note_key(filename_of(number, slug)) == Some(number),
        slug.len() > 0 ==> note_slug(filename_of(number, slug)) == slug,
        slug.len() == 0 ==> note_slug(filename_of(number, slug)) == untitled(),
{
    let stem = stem_of(number, slug);
    let name = filename_of(number, slug);
    let digits = decimal_digits(number as nat);
    lemma_decimal_digits(number as nat);
    lemma_key_round_trip(number, slug);
    assert(name.skip(name.len() - 3) =~= note_suffix());
    assert(name.take(name.len() - 3) =~= stem);
    let dash = digits.len() as int;
    assert forall|j: int| 0 <= j < dash implies stem[j] != '-' by {
        assert(is_digit(digits[j]));
    }
    lemma_first_index(stem, '-', dash);
    assert(stem.skip(dash + 1) =~= slug);
}

} // verus!
