//! Text: characters, white space, decimal numbers.
use vstd::prelude::*;

verus! {

/// `String::push` appends a character.
pub assume_specification[ String::push ](s: &mut String, c: char)
    ensures
        final(s)@ == old(s)@.push(c),
;

/// `String::push_str` appends a string.
pub assume_specification[ String::push_str ](s: &mut String, t: &str)
    ensures
        final(s)@ == old(s)@ + t@,
;

/// Characters with the Unicode property `White_Space`.
pub open spec fn white_space(c: char) -> bool {
    ||| 0x09 <= c as u32 <= 0x0D
    ||| c as u32 == 0x20
    ||| c as u32 == 0x85
    ||| c as u32 == 0xA0
    ||| c as u32 == 0x1680
    ||| 0x2000 <= c as u32 <= 0x200A
    ||| c as u32 == 0x2028
    ||| c as u32 == 0x2029
    ||| c as u32 == 0x202F
    ||| c as u32 == 0x205F
    ||| c as u32 == 0x3000
}

/// `char::is_whitespace` tells whether a character has the Unicode property `White_Space`.
pub assume_specification[ char::is_whitespace ](c: char) -> (r: bool)
    ensures
        r == white_space(c),
;

/// The upper-case form of a character, which may be several characters.
pub uninterp spec fn upper_case(c: char) -> Seq<char>;

/// Characters of ASCII.
pub open spec fn plain(s: Seq<char>) -> bool {
    forall|i: int| 0 <= i < s.len() ==> (#[trigger] s[i] as u32) < 0x80
}

/// The capital letter for a small one of ASCII, and any other character for itself.
pub open spec fn capital(c: char) -> char {
    if 0x61 <= c as u32 <= 0x7A {
        (c as u32 - 0x20) as char
    } else {
        c
    }
}

/// The small letter for a capital one of ASCII, and any other character for itself.
pub open spec fn small(c: char) -> char {
    if 0x41 <= c as u32 <= 0x5A {
        (c as u32 + 0x20) as char
    } else {
        c
    }
}

/// `char::to_uppercase` gives the upper-case form of a character. That of a character of ASCII is its
/// capital letter.
#[verifier::external_body]
pub(crate) fn to_upper(c: char) -> (r: String)
    ensures
        r@ == upper_case(c),
        (c as u32) < 0x80 ==> r@ == seq![capital(c)],
{
    c.to_uppercase().to_string()
}

/// The lower-case form of a text.
pub uninterp spec fn lower_case(s: Seq<char>) -> Seq<char>;

/// `str::to_lowercase` gives the lower-case form of a text. That of a text in ASCII has its small letters.
#[verifier::external_body]
pub(crate) fn to_lower(s: &str) -> (r: String)
    ensures
        r@ == lower_case(s@),
        plain(s@) ==> r@ == s@.map_values(|c: char| small(c)),
{
    s.to_lowercase()
}

// ---------------------------------------------------------------------------
// Characters
// ---------------------------------------------------------------------------

/// The characters of a text.
pub fn chars_of(s: &str) -> (r: Vec<char>)
    ensures
        r@ == s@,
{
    let mut out: Vec<char> = Vec::new();
    for c in it: s.chars()
        invariant
            it.seq() == s@,
            out@ == s@.take(it.index() as int),
    {
        assert(s@.take(it.index() + 1) == s@.take(it.index() as int).push(s@[it.index() as int]));
        out.push(c);
    }
    assert(s@.take(s@.len() as int) == s@);
    out
}

/// The text of characters `from..to`.
pub fn text_of(chars: &Vec<char>, from: usize, to: usize) -> (r: String)
    requires
        from <= to <= chars@.len(),
    ensures
        r@ == chars@.subrange(from as int, to as int),
{
    let mut out: String = String::new();
    let mut i: usize = from;
    while i < to
        invariant
            from <= i <= to <= chars@.len(),
            out@ == chars@.subrange(from as int, i as int),
        decreases to - i,
    {
        assert(chars@.subrange(from as int, i + 1) == chars@.subrange(from as int, i as int).push(
            chars@[i as int],
        ));
        out.push(chars[i]);
        i += 1;
    }
    out
}

/// The two texts hold the same characters.
pub fn same_text(a: &str, b: &str) -> (r: bool)
    ensures
        r == (a@ == b@),
{
    let x = chars_of(a);
    let y = chars_of(b);
    if x.len() != y.len() {
        return false;
    }
    let mut i: usize = 0;
    while i < x.len()
        invariant
            x@ == a@,
            y@ == b@,
            x@.len() == y@.len(),
            i <= x@.len(),
            forall|j: int| 0 <= j < i ==> x@[j] == y@[j],
        decreases x@.len() - i,
    {
        if x[i] != y[i] {
            return false;
        }
        i += 1;
    }
    assert(x@ =~= y@);
    true
}

// ---------------------------------------------------------------------------
// Parts
// ---------------------------------------------------------------------------

/// `part` stands in `s` at position `at`.
pub open spec fn stands_at(s: Seq<char>, part: Seq<char>, at: int) -> bool {
    0 <= at && at + part.len() <= s.len() && s.subrange(at, at + part.len()) == part
}

/// `part` stands somewhere in `s`.
pub open spec fn contains_text(s: Seq<char>, part: Seq<char>) -> bool {
    exists|at: int| #[trigger] stands_at(s, part, at)
}

/// `s` starts with `part`.
pub open spec fn begins_with(s: Seq<char>, part: Seq<char>) -> bool {
    stands_at(s, part, 0)
}

/// `s` ends with `part`.
pub open spec fn finishes_with(s: Seq<char>, part: Seq<char>) -> bool {
    stands_at(s, part, s.len() - part.len())
}

fn found_at(s: &Vec<char>, part: &Vec<char>, at: usize) -> (r: bool)
    requires
        at + part@.len() <= s@.len(),
    ensures
        r == stands_at(s@, part@, at as int),
{
    let n: usize = s.len();
    let mut i: usize = 0;
    while i < part.len()
        invariant
            n == s@.len(),
            at + part@.len() <= n,
            i <= part@.len(),
            forall|j: int| 0 <= j < i ==> s@[at + j] == part@[j],
        decreases part@.len() - i,
    {
        if s[at + i] != part[i] {
            assert(s@.subrange(at as int, at + part@.len())[i as int] == s@[at + i]);
            return false;
        }
        i += 1;
    }
    assert(s@.subrange(at as int, at + part@.len()) =~= part@);
    true
}

/// Whether `part` stands somewhere in `s`.
pub fn has_part(s: &str, part: &str) -> (r: bool)
    ensures
        r == contains_text(s@, part@),
{
    let x = chars_of(s);
    let y = chars_of(part);
    if y.len() > x.len() {
        return false;
    }
    let last: usize = x.len() - y.len();
    let mut at: usize = 0;
    loop
        invariant
            x@ == s@,
            y@ == part@,
            at <= last,
            last == x@.len() - y@.len(),
            forall|k: int| 0 <= k < at ==> !#[trigger] stands_at(s@, part@, k),
        decreases last - at,
    {
        if found_at(&x, &y, at) {
            return true;
        }
        if at == last {
            assert forall|k: int| !#[trigger] stands_at(s@, part@, k) by {
                if k > last {
                    assert(k + part@.len() > s@.len());
                }
            }
            return false;
        }
        at += 1;
    }
}

/// Whether `s` starts with `part`.
pub fn has_prefix(s: &str, part: &str) -> (r: bool)
    ensures
        r == begins_with(s@, part@),
{
    let x = chars_of(s);
    let y = chars_of(part);
    y.len() <= x.len() && found_at(&x, &y, 0)
}

/// Whether `s` ends with `part`.
pub fn has_suffix(s: &str, part: &str) -> (r: bool)
    ensures
        r == finishes_with(s@, part@),
{
    let x = chars_of(s);
    let y = chars_of(part);
    y.len() <= x.len() && found_at(&x, &y, x.len() - y.len())
}

// ---------------------------------------------------------------------------
// White space
// ---------------------------------------------------------------------------

/// Leading white space removed.
pub open spec fn trimmed_start(s: Seq<char>) -> Seq<char>
    decreases s.len(),
{
    if s.len() > 0 && white_space(s[0]) {
        trimmed_start(s.skip(1))
    } else {
        s
    }
}

/// Trailing white space removed.
pub open spec fn trimmed_end(s: Seq<char>) -> Seq<char>
    decreases s.len(),
{
    if s.len() > 0 && white_space(s.last()) {
        trimmed_end(s.drop_last())
    } else {
        s
    }
}

/// White space removed from both ends.
pub open spec fn trimmed(s: Seq<char>) -> Seq<char> {
    trimmed_end(trimmed_start(s))
}

/// White space removed from the front.
pub fn trim_start(s: &str) -> (r: String)
    ensures
        r@ == trimmed_start(s@),
{
    let chars = chars_of(s);
    let from = first_visible(&chars);
    text_of(&chars, from, chars.len())
}

fn first_visible(chars: &Vec<char>) -> (from: usize)
    ensures
        from <= chars@.len(),
        chars@.subrange(from as int, chars@.len() as int) == trimmed_start(chars@),
{
    let mut from: usize = 0;
    assert(chars@.skip(0) == chars@);
    while from < chars.len() && chars[from].is_whitespace()
        invariant
            from <= chars@.len(),
            trimmed_start(chars@.skip(from as int)) == trimmed_start(chars@),
        decreases chars@.len() - from,
    {
        assert(chars@.skip(from as int).skip(1) == chars@.skip(from + 1));
        from += 1;
    }
    assert(chars@.skip(from as int) == chars@.subrange(from as int, chars@.len() as int));
    from
}

/// White space removed from both ends.
pub fn trim(s: &str) -> (r: String)
    ensures
        r@ == trimmed(s@),
{
    let chars = chars_of(s);
    let from = first_visible(&chars);
    let mut to: usize = chars.len();
    while from < to && chars[to - 1].is_whitespace()
        invariant
            from <= to <= chars@.len(),
            trimmed_end(chars@.subrange(from as int, to as int)) == trimmed(s@),
        decreases to,
    {
        assert(chars@.subrange(from as int, to as int).drop_last() == chars@.subrange(
            from as int,
            to - 1,
        ));
        to -= 1;
    }
    text_of(&chars, from, to)
}

proof fn lemma_trimmed_start_form(s: Seq<char>)
    ensures
        trimmed_start(s).len() <= s.len(),
        trimmed_start(s) == s.skip(s.len() - trimmed_start(s).len()),
        trimmed_start(s).len() > 0 ==> !white_space(trimmed_start(s)[0]),
    decreases s.len(),
{
    if s.len() > 0 && white_space(s[0]) {
        lemma_trimmed_start_form(s.skip(1));
        assert(s.skip(1).skip(s.len() - 1 - trimmed_start(s).len()) == s.skip(
            s.len() - trimmed_start(s).len(),
        ));
    } else {
        assert(s.skip(0) == s);
    }
}

proof fn lemma_trimmed_end_form(s: Seq<char>)
    ensures
        trimmed_end(s).len() <= s.len(),
        trimmed_end(s) == s.take(trimmed_end(s).len() as int),
        trimmed_end(s).len() > 0 ==> !white_space(trimmed_end(s).last()),
    decreases s.len(),
{
    if s.len() > 0 && white_space(s.last()) {
        lemma_trimmed_end_form(s.drop_last());
        assert(s.drop_last().take(trimmed_end(s).len() as int) == s.take(
            trimmed_end(s).len() as int,
        ));
    } else {
        assert(s.take(s.len() as int) == s);
    }
}

/// Only white space is removed from the front, and all of it: what is left is the end of the text from its
/// first character on that is no white space.
pub proof fn law_front_loses_white_space_alone(s: Seq<char>)
    ensures
        ({
            let cut = s.len() - trimmed_start(s).len();
            &&& 0 <= cut
            &&& trimmed_start(s) == s.subrange(cut, s.len() as int)
            &&& forall|i: int| 0 <= i < cut ==> white_space(#[trigger] s[i])
            &&& cut < s.len() ==> !white_space(s[cut])
        }),
    decreases s.len(),
{
    lemma_trimmed_start_form(s);
    let cut = s.len() - trimmed_start(s).len();
    assert(s.skip(cut) =~= s.subrange(cut, s.len() as int));
    if s.len() > 0 && white_space(s[0]) {
        law_front_loses_white_space_alone(s.skip(1));
        assert forall|i: int| 0 <= i < cut implies white_space(#[trigger] s[i]) by {
            if i > 0 {
                assert(s[i] == s.skip(1)[i - 1]);
            }
        }
        if cut < s.len() {
            assert(s[cut] == s.skip(1)[cut - 1]);
        }
    }
}

/// `s` from `from` to `to` is all that is left of it once white space is removed from both ends.
pub open spec fn visible_part(s: Seq<char>, from: int, to: int, r: Seq<char>) -> bool {
    &&& 0 <= from <= to <= s.len()
    &&& r == s.subrange(from, to)
    &&& forall|i: int| 0 <= i < from || to <= i < s.len() ==> white_space(#[trigger] s[i])
    &&& from < to ==> !white_space(s[from]) && !white_space(s[to - 1])
}

/// Only white space is removed from both ends, and all of it.
pub proof fn law_ends_lose_white_space_alone(s: Seq<char>)
    ensures
        exists|from: int, to: int| #[trigger] visible_part(s, from, to, trimmed(s)),
    decreases s.len(),
{
    law_front_loses_white_space_alone(s);
    let a = trimmed_start(s);
    let from = s.len() - a.len();
    lemma_end_part(a);
    let b = trimmed_end(a);
    let to = from + b.len();
    assert(b =~= s.subrange(from, to));
    assert forall|i: int| 0 <= i < from || to <= i < s.len() implies white_space(
        #[trigger] s[i],
    ) by {
        if i >= to {
            assert(s[i] == a[i - from]);
        }
    }
    if from < to {
        assert(s[from] == a[0]);
        assert(s[to - 1] == a[b.len() - 1]);
    }
    assert(visible_part(s, from, to, trimmed(s)));
}

proof fn lemma_end_part(s: Seq<char>)
    ensures
        ({
            let n = trimmed_end(s).len() as int;
            &&& n <= s.len()
            &&& trimmed_end(s) == s.take(n)
            &&& forall|i: int| n <= i < s.len() ==> white_space(#[trigger] s[i])
            &&& n > 0 ==> !white_space(s[n - 1])
        }),
    decreases s.len(),
{
    lemma_trimmed_end_form(s);
    if s.len() > 0 && white_space(s.last()) {
        lemma_end_part(s.drop_last());
        let n = trimmed_end(s).len() as int;
        assert forall|i: int| n <= i < s.len() implies white_space(#[trigger] s[i]) by {
            if i < s.len() - 1 {
                assert(s[i] == s.drop_last()[i]);
            }
        }
    }
}

/// Trimming leaves a contiguous part of the text without white space at either end, and trimming
/// it once more changes nothing.
pub proof fn law_trimming_is_idempotent(s: Seq<char>)
    ensures
        exists|from: int, to: int|
            0 <= from <= to <= s.len() && trimmed(s) == #[trigger] s.subrange(from, to),
        trimmed(s).len() > 0 ==> !white_space(trimmed(s)[0]) && !white_space(trimmed(s).last()),
        trimmed(trimmed(s)) == trimmed(s),
{
    lemma_trimmed_start_form(s);
    let a = trimmed_start(s);
    lemma_trimmed_end_form(a);
    let b = trimmed_end(a);
    let from = s.len() - a.len();
    assert(b == s.subrange(from, from + b.len()));
    if b.len() > 0 {
        assert(b[0] == a[0]);
    }
}

// ---------------------------------------------------------------------------
// Decimal numbers
// ---------------------------------------------------------------------------

/// The character of a digit.
pub open spec fn digit(d: nat) -> char {
    ('0' as int + d) as char
}

/// The digits of a number, without leading zeros.
pub open spec fn decimal_digits(n: nat) -> Seq<char>
    decreases n,
{
    if n < 10 {
        seq![digit(n)]
    } else {
        decimal_digits(n / 10).push(digit(n % 10))
    }
}

/// The digits of a number, with zeros in front up to a width.
pub open spec fn padded_digits(n: nat, width: nat) -> Seq<char> {
    let d = decimal_digits(n);
    Seq::new((if width > d.len() { width - d.len() } else { 0 }) as nat, |i: int| '0') + d
}

/// The number that characters spell with digits alone, if they do.
pub open spec fn digits_value(s: Seq<char>) -> Option<nat>
    decreases s.len(),
{
    if s.len() == 0 {
        Some(0)
    } else {
        match digits_value(s.drop_last()) {
            Some(v) => if '0' <= s.last() && s.last() <= '9' {
                Some(v * 10 + (s.last() as nat - '0' as nat) as nat)
            } else {
                None
            },
            None => None,
        }
    }
}

/// The number that a text spells: digits, at least one, with a plus sign in front or without.
pub open spec fn number_of(s: Seq<char>) -> Option<nat> {
    let digits = if s.len() > 0 && s[0] == '+' { s.skip(1) } else { s };
    if digits.len() == 0 {
        None
    } else {
        digits_value(digits)
    }
}

fn digit_char(d: u64) -> (c: char)
    requires
        d < 10,
    ensures
        c == digit(d as nat),
{
    (48u8 + d as u8) as char
}

/// A number in decimal.
pub fn decimal(n: u64) -> (r: String)
    ensures
        r@ == decimal_digits(n as nat),
    decreases n,
{
    if n < 10 {
        let mut out: String = String::new();
        out.push(digit_char(n));
        assert(out@ == seq![digit(n as nat)]);
        out
    } else {
        let mut out = decimal(n / 10);
        out.push(digit_char(n % 10));
        out
    }
}

/// A number in decimal, with zeros in front up to a width.
pub fn padded_decimal(n: u64, width: usize) -> (r: String)
    ensures
        r@ == padded_digits(n as nat, width as nat),
{
    let digits = decimal(n);
    let len: usize = chars_of(digits.as_str()).len();
    let mut out: String = String::new();
    let mut i: usize = len;
    while i < width
        invariant
            len <= i,
            i <= width || i == len,
            out@ == Seq::new((i - len) as nat, |k: int| '0'),
        decreases width - i,
    {
        assert(Seq::new((i + 1 - len) as nat, |k: int| '0') == Seq::new(
            (i - len) as nat,
            |k: int| '0',
        ).push('0'));
        out.push('0');
        i += 1;
    }
    out.push_str(digits.as_str());
    out
}

proof fn lemma_digits_bound(s: Seq<char>, k: int)
    requires
        0 <= k <= s.len(),
    ensures
        digits_value(s) matches Some(v) ==> digits_value(s.take(k)) matches Some(u) && u <= v,
    decreases s.len(),
{
    if k == s.len() {
        assert(s.take(k) == s);
    } else {
        lemma_digits_bound(s.drop_last(), k);
        assert(s.drop_last().take(k) == s.take(k));
    }
}

/// The number that a text spells, if it is at most `limit`.
pub fn parse_number(s: &str, limit: u64) -> (r: Option<u64>)
    ensures
        match number_of(s@) {
            Some(n) => if n <= limit {
                r == Some(n as u64)
            } else {
                r is None
            },
            None => r is None,
        },
{
    let chars = chars_of(s);
    let start: usize = if chars.len() > 0 && chars[0] == '+' { 1 } else { 0 };
    if start == chars.len() {
        return None;
    }
    let ghost digits = chars@.skip(start as int);
    assert(chars@.skip(0) == chars@);
    assert(number_of(s@) == digits_value(digits));
    let mut value: u64 = 0;
    let mut i: usize = start;
    assert(digits.take(0).len() == 0);
    while i < chars.len()
        invariant
            start <= i <= chars@.len(),
            digits == chars@.skip(start as int),
            digits_value(digits.take(i - start)) == Some(value as nat),
            number_of(s@) == digits_value(digits),
            value <= limit,
        decreases chars@.len() - i,
    {
        let c = chars[i];
        proof {
            lemma_digits_bound(digits, i - start + 1);
            assert(digits.take(i - start + 1).drop_last() == digits.take(i - start));
            assert(digits.take(i - start + 1).last() == c);
        }
        if c < '0' || c > '9' {
            return None;
        }
        let d: u64 = c as u64 - '0' as u64;
        if value > (limit - (if d < limit { d } else { limit })) / 10 || d > limit {
            assert(value * 10 + d > limit);
            return None;
        }
        value = value * 10 + d;
        i += 1;
    }
    assert(digits.take(i - start) == digits);
    Some(value)
}

/// Reading a number back from its decimal form gives the number.
pub proof fn law_decimal_roundtrip(n: nat)
    ensures
        number_of(decimal_digits(n)) == Some(n),
    decreases n,
{
    lemma_decimal_value(n);
    assert(decimal_digits(n)[0] != '+');
}

proof fn lemma_decimal_value(n: nat)
    ensures
        digits_value(decimal_digits(n)) == Some(n),
        decimal_digits(n).len() > 0,
        '0' <= decimal_digits(n)[0] <= '9',
    decreases n,
{
    if n < 10 {
        let s = seq![digit(n)];
        assert(s.drop_last() == Seq::<char>::empty());
        assert(digits_value(s.drop_last()) == Some(0nat));
    } else {
        lemma_decimal_value(n / 10);
        let s = decimal_digits(n);
        assert(s.drop_last() == decimal_digits(n / 10));
    }
}

/// Zeros in front do not change the number that characters spell.
proof fn lemma_zeros_in_front(zeros: Seq<char>, s: Seq<char>)
    requires
        forall|i: int| 0 <= i < zeros.len() ==> zeros[i] == '0',
    ensures
        digits_value(zeros + s) == digits_value(s),
    decreases zeros.len() + s.len(),
{
    let all = zeros + s;
    if s.len() > 0 {
        assert(all.drop_last() =~= zeros + s.drop_last());
        assert(all.last() == s.last());
        lemma_zeros_in_front(zeros, s.drop_last());
    } else if zeros.len() > 0 {
        assert(all.drop_last() =~= zeros.drop_last() + s);
        assert(all.last() == '0');
        lemma_zeros_in_front(zeros.drop_last(), s);
    } else {
        assert(all =~= s);
    }
}

proof fn lemma_few_digits(n: nat)
    ensures
        n < 100 ==> decimal_digits(n).len() <= 2,
        n < 1000 ==> decimal_digits(n).len() <= 3,
{
    reveal_with_fuel(decimal_digits, 3);
}

/// A padded number reads back as the number and is as wide as asked for, or wider where it has more
/// digits.
pub proof fn law_padding_keeps_the_number(n: nat, width: nat)
    ensures
        digits_value(padded_digits(n, width)) == Some(n),
        padded_digits(n, width).len() >= width,
        width == 2 && n < 100 ==> padded_digits(n, width).len() == 2,
        width == 3 && n < 1000 ==> padded_digits(n, width).len() == 3,
{
    let d = decimal_digits(n);
    let zeros = Seq::new(
        (if width > d.len() {
            width - d.len()
        } else {
            0
        }) as nat,
        |i: int| '0',
    );
    lemma_zeros_in_front(zeros, d);
    lemma_decimal_value(n);
    lemma_few_digits(n);
}

} // verus!
