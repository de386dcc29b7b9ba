//! Note names: MIDI key numbers and their scientific pitch names ("C4" is key 60).

use vstd::prelude::*;
use crate::text::{decimal, signed_decimal, push_char, push_decimal, chars_of};

verus! {

/// The name of pitch class `i` (`0..12`), spelled with sharps.
pub open spec fn pitch_class_name(i: int) -> Seq<char> {
    if i == 0 { seq!['C'] }
    else if i == 1 { seq!['C', '#'] }
    else if i == 2 { seq!['D'] }
    else if i == 3 { seq!['D', '#'] }
    else if i == 4 { seq!['E'] }
    else if i == 5 { seq!['F'] }
    else if i == 6 { seq!['F', '#'] }
    else if i == 7 { seq!['G'] }
    else if i == 8 { seq!['G', '#'] }
    else if i == 9 { seq!['A'] }
    else if i == 10 { seq!['A', '#'] }
    else { seq!['B'] }
}

/// The name of a key: its pitch class followed by its octave, where key 0 lies
/// in octave -1.
pub open spec fn key_name(key: u8) -> Seq<char> {
    pitch_class_name((key % 12) as int) + signed_decimal(key / 12 - 1)
}

/// Whitespace as `str::trim` understands it (the Unicode White_Space property).
pub open spec fn is_white_space(c: char) -> bool {
    ||| '\u{9}' <= c <= '\u{d}'
    ||| c == ' '
    ||| c == '\u{85}'
    ||| c == '\u{a0}'
    ||| c == '\u{1680}'
    ||| '\u{2000}' <= c <= '\u{200a}'
    ||| c == '\u{2028}'
    ||| c == '\u{2029}'
    ||| c == '\u{202f}'
    ||| c == '\u{205f}'
    ||| c == '\u{3000}'
}

/// `s` without its leading whitespace.
pub open spec fn trim_front(s: Seq<char>) -> Seq<char>
    decreases s.len(),
{
    if s.len() > 0 && is_white_space(s[0]) { trim_front(s.drop_first()) } else { s }
}

/// `s` without its trailing whitespace.
pub open spec fn trim_back(s: Seq<char>) -> Seq<char>
    decreases s.len(),
{
    if s.len() > 0 && is_white_space(s.last()) { trim_back(s.drop_last()) } else { s }
}

/// `s` without leading and trailing whitespace.
pub open spec fn trimmed(s: Seq<char>) -> Seq<char> {
    trim_back(trim_front(s))
}

/// The pitch class of a natural note letter.
pub open spec fn natural_class(c: char) -> Option<int> {
    if c == 'C' { Some(0) }
    else if c == 'D' { Some(2) }
    else if c == 'E' { Some(4) }
    else if c == 'F' { Some(5) }
    else if c == 'G' { Some(7) }
    else if c == 'A' { Some(9) }
    else if c == 'B' { Some(11) }
    else { None }
}

/// The pitch class that a note name such as "C", "C#" or "Db" denotes:
/// sharps exist on C, D, F, G and A, flats on D, E, G, A and B.
pub open spec fn pitch_class_of(p: Seq<char>) -> Option<int> {
    if p.len() == 1 {
        natural_class(p[0])
    } else if p.len() == 2 && p[1] == '#' && (p[0] == 'C' || p[0] == 'D' || p[0] == 'F' || p[0] == 'G' || p[0] == 'A') {
        Some(natural_class(p[0]).unwrap() + 1)
    } else if p.len() == 2 && p[1] == 'b' && (p[0] == 'D' || p[0] == 'E' || p[0] == 'G' || p[0] == 'A' || p[0] == 'B') {
        Some(natural_class(p[0]).unwrap() - 1)
    } else {
        None
    }
}

pub open spec fn is_digit(c: char) -> bool {
    '0' <= c <= '9'
}

/// The value of a string of decimal digits.
pub open spec fn digits_value(d: Seq<char>) -> nat
    decreases d.len(),
{
    if d.len() == 0 {
        0
    } else {
        digits_value(d.drop_last()) * 10 + ((d.last() as int - '0' as int) as nat)
    }
}

/// A non-empty string of decimal digits.
pub open spec fn all_digits(d: Seq<char>) -> bool {
    d.len() > 0 && forall|i: int| 0 <= i < d.len() ==> is_digit(#[trigger] d[i])
}

/// What `str::parse::<i8>` gives: an optional sign followed by decimal digits,
/// whose value lies in the range of `i8`.
pub open spec fn parse_i8(r: Seq<char>) -> Option<int> {
    let (neg, d) = if r.len() > 0 && r[0] == '-' {
        (true, r.drop_first())
    } else if r.len() > 0 && r[0] == '+' {
        (false, r.drop_first())
    } else {
        (false, r)
    };
    if !all_digits(d) {
        None
    } else {
        let v: int = if neg { -(digits_value(d) as int) } else { digits_value(d) as int };
        if -128 <= v <= 127 { Some(v) } else { None }
    }
}

/// The note part of a trimmed name: the first character, together with the
/// second when that is an accidental ('#' or 'b').
pub open spec fn note_part_len(t: Seq<char>) -> int {
    if t[1] == '#' || t[1] == 'b' { 2 } else { 1 }
}

/// The key that a pitch name denotes: a note name ("C", "C#", "Db", ...)
/// followed by an octave from -1 to 9, surrounding whitespace ignored.
pub open spec fn key_of_name(s: Seq<char>) -> Option<u8> {
    let t = trimmed(s);
    if t.len() < 2 || t[0] == '#' || t[0] == 'b' {
        None
    } else {
        let k = note_part_len(t);
        match (pitch_class_of(t.subrange(0, k)), parse_i8(t.subrange(k, t.len() as int))) {
            (Some(pc), Some(oct)) =>
                if -1 <= oct <= 9 { Some((((oct + 1) * 12 + pc) % 128) as u8) } else { None },
            _ => None,
        }
    }
}

/// Names a key: pitch class (with sharps) and octave, e.g. 60 is "C4" and 0 is "C-1".
pub fn key_to_name(key: u8) -> (name: String)
    ensures
        name@ == key_name(key),
{
    let mut s = String::new();
    let pc = key % 12;
    let letter = if pc <= 1 { 'C' }
        else if pc <= 3 { 'D' }
        else if pc == 4 { 'E' }
        else if pc <= 6 { 'F' }
        else if pc <= 8 { 'G' }
        else if pc <= 10 { 'A' }
        else { 'B' };
    push_char(&mut s, letter);
    if pc == 1 || pc == 3 || pc == 6 || pc == 8 || pc == 10 {
        push_char(&mut s, '#');
    }
    assert(s@ == pitch_class_name(pc as int));
    let octave_plus_one = key / 12;
    if octave_plus_one == 0 {
        push_char(&mut s, '-');
        push_char(&mut s, '1');
        assert(decimal(1) == seq!['1']);
    } else {
        push_decimal(&mut s, (octave_plus_one - 1) as usize);
    }
    s
}

/// Whether `c` is whitespace (the Unicode White_Space property).
pub fn is_white_space_char(c: char) -> (b: bool)
    ensures
        b == is_white_space(c),
{
    ('\u{9}' <= c && c <= '\u{d}') || c == ' ' || c == '\u{85}' || c == '\u{a0}' || c == '\u{1680}'
        || ('\u{2000}' <= c && c <= '\u{200a}') || c == '\u{2028}' || c == '\u{2029}'
        || c == '\u{202f}' || c == '\u{205f}' || c == '\u{3000}'
}

proof fn lemma_trim_front_sub(s: Seq<char>, i: int)
    requires
        0 <= i <= s.len(),
        forall|j: int| 0 <= j < i ==> is_white_space(#[trigger] s[j]),
        i == s.len() || !is_white_space(s[i]),
    ensures
        trim_front(s) == s.subrange(i, s.len() as int),
    decreases i,
{
    if i > 0 {
        assert forall|j: int| 0 <= j < i - 1 implies is_white_space(#[trigger] s.drop_first()[j]) by {
            assert(s.drop_first()[j] == s[j + 1]);
        }
        if i - 1 < s.drop_first().len() {
            assert(s.drop_first()[i - 1] == s[i]);
        }
        lemma_trim_front_sub(s.drop_first(), i - 1);
        assert(s.drop_first().subrange(i - 1, s.drop_first().len() as int) == s.subrange(i, s.len() as int));
    } else {
        assert(s.subrange(0, s.len() as int) == s);
    }
}

proof fn lemma_trim_back_sub(s: Seq<char>, e: int)
    requires
        0 <= e <= s.len(),
        forall|j: int| e <= j < s.len() ==> is_white_space(#[trigger] s[j]),
        e == 0 || !is_white_space(s[e - 1]),
    ensures
        trim_back(s) == s.subrange(0, e),
    decreases s.len() - e,
{
    if e < s.len() {
        assert forall|j: int| e <= j < s.drop_last().len() implies is_white_space(#[trigger] s.drop_last()[j]) by {
            assert(s.drop_last()[j] == s[j]);
        }
        if e > 0 {
            assert(s.drop_last()[e - 1] == s[e - 1]);
        }
        assert(is_white_space(s[s.len() - 1]));
        lemma_trim_back_sub(s.drop_last(), e);
        assert(s.drop_last().subrange(0, e) == s.subrange(0, e));
    } else {
        assert(s.subrange(0, s.len() as int) == s);
    }
}

/// The value of an optional sign followed by digits, where any magnitude of
/// 1000 or more is reported as 1000.
pub open spec fn capped(v: nat) -> nat {
    if v >= 1000 { 1000 } else { v }
}

/// Parses `c[from..to]` as an `i8` the way `str::parse::<i8>` does and keeps it
/// when it lies in `-1..=9`.
fn parse_octave(c: &Vec<char>, from: usize, to: usize) -> (res: Option<i8>)
    requires
        from <= to <= c@.len(),
    ensures
        match parse_i8(c@.subrange(from as int, to as int)) {
            Some(v) => if -1 <= v <= 9 { res == Some(v as i8) } else { res is None },
            None => res is None,
        },
{
    let ghost r = c@.subrange(from as int, to as int);
    let mut i = from;
    let mut neg = false;
    if i < to && c[i] == '-' {
        neg = true;
        i = i + 1;
    } else if i < to && c[i] == '+' {
        i = i + 1;
    }
    let ghost d = c@.subrange(i as int, to as int);
    assert(d == (if r.len() > 0 && r[0] == '-' { r.drop_first() }
        else if r.len() > 0 && r[0] == '+' { r.drop_first() } else { r }));
    if i == to {
        assert(!all_digits(d));
        return None;
    }
    let start = i;
    let mut acc: u32 = 0;
    while i < to
        invariant
            start <= i <= to <= c@.len(),
            from <= start,
            r == c@.subrange(from as int, to as int),
            d == c@.subrange(start as int, to as int),
            d == (if r.len() > 0 && r[0] == '-' { r.drop_first() }
                else if r.len() > 0 && r[0] == '+' { r.drop_first() } else { r }),
            neg == (r.len() > 0 && r[0] == '-'),
            forall|j: int| 0 <= j < i - start ==> is_digit(#[trigger] d[j]),
            acc == capped(digits_value(d.subrange(0, i - start))),
        decreases to - i,
    {
        let ch = c[i];
        if !('0' <= ch && ch <= '9') {
            assert(d[i - start] == ch);
            assert(!all_digits(d));
            return None;
        }
        let dv = (ch as u32) - ('0' as u32);
        proof {
            let p = d.subrange(0, i + 1 - start);
            assert(p.drop_last() == d.subrange(0, i - start));
            assert(p.last() == ch);
        }
        acc = if acc >= 1000 { 1000 } else if acc * 10 + dv >= 1000 { 1000 } else { acc * 10 + dv };
        i = i + 1;
    }
    assert(d.subrange(0, d.len() as int) == d);
    assert(all_digits(d));
    if neg {
        if acc == 1 {
            Some(-1i8)
        } else if acc == 0 {
            Some(0i8)
        } else {
            None
        }
    } else if acc <= 9 {
        Some(acc as i8)
    } else {
        None
    }
}

/// The key that a pitch name denotes, such as 60 for "C4", 61 for "C#4" or
/// "Db4"; `None` for anything else. Octaves run from -1 to 9.
pub fn name_to_key(name: &str) -> (res: Option<u8>)
    ensures
        res == key_of_name(name@),
{
    let c = chars_of(name);
    let n = c.len();
    let mut lo: usize = 0;
    while lo < n && is_white_space_char(c[lo])
        invariant
            n == c@.len(),
            lo <= n,
            forall|j: int| 0 <= j < lo ==> is_white_space(#[trigger] c@[j]),
        decreases n - lo,
    {
        lo = lo + 1;
    }
    proof { lemma_trim_front_sub(c@, lo as int); }
    let ghost f = c@.subrange(lo as int, n as int);
    let mut hi: usize = n;
    while hi > lo && is_white_space_char(c[hi - 1])
        invariant
            n == c@.len(),
            lo <= hi <= n,
            forall|j: int| hi <= j < n ==> is_white_space(#[trigger] c@[j]),
        decreases hi - lo,
    {
        hi = hi - 1;
    }
    proof {
        assert forall|j: int| hi - lo <= j < f.len() implies is_white_space(#[trigger] f[j]) by {
            assert(f[j] == c@[lo + j]);
        }
        if hi > lo {
            assert(f[hi - lo - 1] == c@[hi - 1]);
        }
        lemma_trim_back_sub(f, hi - lo);
        assert(f.subrange(0, hi - lo) == c@.subrange(lo as int, hi as int));
    }
    let ghost t = c@.subrange(lo as int, hi as int);
    assert(t == trimmed(name@));
    if hi - lo < 2 {
        return None;
    }
    let c0 = c[lo];
    let c1 = c[lo + 1];
    assert(t[0] == c0 && t[1] == c1);
    if c0 == '#' || c0 == 'b' {
        return None;
    }
    let two = c1 == '#' || c1 == 'b';
    let pc: u8 = if !two {
            assert(t.subrange(0, 1)[0] == c0);
        if c0 == 'C' { 0 }
        else if c0 == 'D' { 2 }
        else if c0 == 'E' { 4 }
        else if c0 == 'F' { 5 }
        else if c0 == 'G' { 7 }
        else if c0 == 'A' { 9 }
        else if c0 == 'B' { 11 }
        else { return None; }
    } else {
        assert(t.subrange(0, 2)[0] == c0 && t.subrange(0, 2)[1] == c1);
        if c1 == '#' {
            if c0 == 'C' { 1 }
            else if c0 == 'D' { 3 }
            else if c0 == 'F' { 6 }
            else if c0 == 'G' { 8 }
            else if c0 == 'A' { 10 }
            else { return None; }
        } else {
            if c0 == 'D' { 1 }
            else if c0 == 'E' { 3 }
            else if c0 == 'G' { 6 }
            else if c0 == 'A' { 8 }
            else if c0 == 'B' { 10 }
            else { return None; }
        }
    };
    let k: usize = if two { 2 } else { 1 };
    assert(pitch_class_of(t.subrange(0, k as int)) == Some(pc as int));
    assert(t.subrange(k as int, t.len() as int) == c@.subrange((lo + k) as int, hi as int));
    match parse_octave(&c, lo + k, hi) {
        Some(oct) => {
            let v: u8 = (((oct + 1) as u8) * 12 + pc) % 128;
            Some(v)
        },
        None => None,
    }
}

/// Reading back the name of a key gives the key: for every key in the MIDI
/// range `0..=127`, `key_of_name(key_name(key)) == Some(key)`.
pub proof fn lemma_name_round_trip(key: u8)
    requires
        key <= 127,
    ensures
        key_of_name(key_name(key)) == Some(key),
{
    let s = key_name(key);
    let pc = key % 12;
    let oct = key / 12 - 1;
    let p = pitch_class_name(pc as int);
    let o = signed_decimal(oct);
    assert(s == p + o);
    // no whitespace anywhere
    assert(decimal(0) == seq!['0']);
    assert(1 <= p.len() <= 2);
    if oct == -1 {
        assert(decimal(1) == seq!['1']);
        assert(o == seq!['-', '1']);
    } else if oct <= 9 {
        assert(o == seq![digit_char_of(oct)]) by {
            reveal_with_fuel(decimal, 2);
        }
    }
    assert(forall|j: int| 0 <= j < s.len() ==> !is_white_space(#[trigger] s[j])) by {
        assert forall|j: int| 0 <= j < s.len() implies !is_white_space(#[trigger] s[j]) by {
            if j < p.len() {
                assert(s[j] == p[j]);
            } else {
                assert(s[j] == o[j - p.len()]);
            }
        }
    }
    lemma_no_white_space_trimmed(s);
    assert(trimmed(s) == s);
    let k = note_part_len(s);
    assert(s.subrange(0, k) == p);
    assert(s.subrange(k, s.len() as int) == o);
    if oct == -1 {
        assert(o.drop_first() == seq!['1']);
        lemma_single_digit('1');
        assert(all_digits(o.drop_first()));
    } else {
        assert(o == seq![digit_char_of(oct)]);
        lemma_single_digit(digit_char_of(oct));
        assert(all_digits(o));
    }
}

/// Every key that a name denotes lies in the MIDI range `0..=127`.
pub proof fn law_named_keys_in_range(s: Seq<char>)
    ensures
        key_of_name(s) matches Some(k) ==> k < 128,
{
}

/// The digit character of `d` in `0..=9`.
pub open spec fn digit_char_of(d: int) -> char {
    crate::text::digit_char(d as nat)
}

proof fn lemma_single_digit(c: char)
    requires
        is_digit(c),
    ensures
        digits_value(seq![c]) == c as int - '0' as int,
{
    assert(seq![c].drop_last() =~= Seq::<char>::empty());
    assert(digits_value(Seq::<char>::empty()) == 0);
}

proof fn lemma_no_white_space_trimmed(s: Seq<char>)
    requires
        forall|j: int| 0 <= j < s.len() ==> !is_white_space(#[trigger] s[j]),
    ensures
        trimmed(s) == s,
{
    if s.len() > 0 {
        assert(!is_white_space(s[0]));
        assert(!is_white_space(s.last()));
    }
}

} // verus!
