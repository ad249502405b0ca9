//! Time stamps and names of directories.
use crate::text::{
    decimal, decimal_digits, digits_value, law_padding_keeps_the_number, padded_decimal,
    padded_digits,
};
use vstd::prelude::*;

verus! {

/// Milliseconds as hours, minutes, seconds and milliseconds.
pub open spec fn clock_text(total_ms: nat) -> Seq<char> {
    let total_s = total_ms / 1000;
    let total_m = total_s / 60;
    padded_digits(total_m / 60, 2) + seq![':'] + padded_digits(total_m % 60, 2) + seq![':']
        + padded_digits(total_s % 60, 2) + seq!['.'] + padded_digits(total_ms % 1000, 3)
}

/// Milliseconds in the form `hh:mm:ss.mmm`.
pub fn format_hhmmss_millis(total_ms: u64) -> (r: String)
    ensures
        r@ == clock_text(total_ms as nat),
{
    let ms: u64 = total_ms % 1000;
    let total_s: u64 = total_ms / 1000;
    let s: u64 = total_s % 60;
    let total_m: u64 = total_s / 60;
    let m: u64 = total_m % 60;
    let h: u64 = total_m / 60;
    let mut out: String = String::new();
    out.push_str(padded_decimal(h, 2).as_str());
    out.push(':');
    out.push_str(padded_decimal(m, 2).as_str());
    out.push(':');
    out.push_str(padded_decimal(s, 2).as_str());
    out.push('.');
    out.push_str(padded_decimal(ms, 3).as_str());
    assert(out@ =~= clock_text(total_ms as nat));
    out
}

/// The four fields make up the time again, and each one but the hours stays below its limit.
pub proof fn law_clock_fields_recompose(total_ms: nat)
    ensures
        ({
            let total_s = total_ms / 1000;
            let total_m = total_s / 60;
            &&& total_ms == (((total_m / 60) * 60 + total_m % 60) * 60 + total_s % 60) * 1000
                + total_ms % 1000
            &&& total_m % 60 < 60
            &&& total_s % 60 < 60
            &&& total_ms % 1000 < 1000
        }),
{
}

/// A name for output: a prefix and the time in seconds.
pub fn default_out_dir(prefix: &str, unix_seconds: u64) -> (r: String)
    ensures
        r@ == prefix@ + seq!['-'] + decimal_digits(unix_seconds as nat),
{
    let mut out: String = String::new();
    out.push_str(prefix);
    out.push('-');
    out.push_str(decimal(unix_seconds).as_str());
    assert(out@ =~= prefix@ + seq!['-'] + decimal_digits(unix_seconds as nat));
    out
}

/// The number that part of a text spells with digits.
pub open spec fn spelled(s: Seq<char>, from: int, to: int) -> int {
    match digits_value(s.subrange(from, to)) {
        Some(v) => v as int,
        None => -1,
    }
}

/// The text of a time ends in minutes, seconds and milliseconds of two, two and three digits behind the
/// hours, and what its fields spell makes up the time.
pub proof fn law_clock_text_tells_the_time(total_ms: nat)
    ensures
        ({
            let s = clock_text(total_ms);
            let n = s.len() as int;
            &&& n >= 12
            &&& s[n - 10] == ':' && s[n - 7] == ':' && s[n - 4] == '.'
            &&& 0 <= spelled(s, n - 9, n - 7) < 60
            &&& 0 <= spelled(s, n - 6, n - 4) < 60
            &&& 0 <= spelled(s, n - 3, n) < 1000
            &&& spelled(s, 0, n - 10) * 3600000 + spelled(s, n - 9, n - 7) * 60000 + spelled(
                s,
                n - 6,
                n - 4,
            ) * 1000 + spelled(s, n - 3, n) == total_ms
        }),
{
    let s = clock_text(total_ms);
    let n = s.len() as int;
    let total_s = total_ms / 1000;
    let total_m = total_s / 60;
    law_padding_keeps_the_number(total_m / 60, 2);
    law_padding_keeps_the_number(total_m % 60, 2);
    law_padding_keeps_the_number(total_s % 60, 2);
    law_padding_keeps_the_number(total_ms % 1000, 3);
    assert(s.subrange(0, n - 10) =~= padded_digits(total_m / 60, 2));
    assert(s.subrange(n - 9, n - 7) =~= padded_digits(total_m % 60, 2));
    assert(s.subrange(n - 6, n - 4) =~= padded_digits(total_s % 60, 2));
    assert(s.subrange(n - 3, n) =~= padded_digits(total_ms % 1000, 3));
}

} // verus!
