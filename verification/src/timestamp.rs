//! The timestamp codec: millisecond epoch integers to and from the
//! `YYYY-MM-DDTHH:MM:SSZ` text form, with a tolerant multi-format parser.
//!
//! The calendar is the proleptic Gregorian one over the years 0000 to 9999;
//! an epoch value outside that span renders as the Unix-epoch string rather
//! than failing.

use vstd::prelude::*;
use crate::error::AppError;
use crate::chars::{is_ws_char, is_ws_x, lemma_trim_back_take, lemma_trim_front_skip, trim_back, trim_front, trim_ws};

verus! {

/// Milliseconds from 0000-01-01T00:00:00Z up to the Unix epoch.
pub const YEAR0_TO_EPOCH_MILLIS: i64 = 62167219200000;

/// The smallest epoch value the text form can express (0000-01-01T00:00:00Z).
pub const MIN_RENDERABLE_MILLIS: i64 = -62167219200000;

/// The largest epoch value the text form can express (within
/// 9999-12-31T23:59:59.999Z).
pub const MAX_RENDERABLE_MILLIS: i64 = 253402300799999;

/// Whether the text form can express `ts` (years 0000 through 9999).
pub open spec fn ts_in_range(ts: int) -> bool {
    MIN_RENDERABLE_MILLIS <= ts <= MAX_RENDERABLE_MILLIS
}

/// Gregorian leap-year rule.
pub open spec fn is_leap_year(y: int) -> bool {
    (y % 4 == 0 && y % 100 != 0) || y % 400 == 0
}

/// Days in year `y`.
pub open spec fn days_in_year(y: int) -> int {
    if is_leap_year(y) {
        366
    } else {
        365
    }
}

/// Days in month `m` (1-based) of year `y`.
pub open spec fn days_in_month(y: int, m: int) -> int {
    if m == 1 {
        31
    } else if m == 2 {
        if is_leap_year(y) {
            29
        } else {
            28
        }
    } else if m == 3 {
        31
    } else if m == 4 {
        30
    } else if m == 5 {
        31
    } else if m == 6 {
        30
    } else if m == 7 {
        31
    } else if m == 8 {
        31
    } else if m == 9 {
        30
    } else if m == 10 {
        31
    } else if m == 11 {
        30
    } else if m == 12 {
        31
    } else {
        0
    }
}

/// Days in the months of year `y` strictly before month `m`.
pub open spec fn days_before_month(y: int, m: int) -> int
    decreases m,
{
    if m <= 1 {
        0
    } else {
        days_before_month(y, m - 1) + days_in_month(y, m - 1)
    }
}

/// Days in the years strictly before year `y`, counted from year 0.
pub open spec fn days_before_year(y: int) -> int
    decreases y,
{
    if y <= 0 {
        0
    } else {
        days_before_year(y - 1) + days_in_year(y - 1)
    }
}

/// Walks forward from year `y` consuming whole years out of the day count
/// `d`; stops in year 9999 at the latest.  Returns the year reached and the
/// days left over.
pub open spec fn year_split(d: int, y: int) -> (int, int)
    decreases 10000 - y,
{
    if y >= 9999 || d < days_in_year(y) {
        (y, d)
    } else {
        year_split(d - days_in_year(y), y + 1)
    }
}

/// Walks forward from month `m` of year `y` consuming whole months out of
/// the day count `d`; stops in month 12 at the latest.
pub open spec fn month_split(y: int, d: int, m: int) -> (int, int)
    decreases 13 - m,
{
    if m >= 12 || d < days_in_month(y, m) {
        (m, d)
    } else {
        month_split(y, d - days_in_month(y, m), m + 1)
    }
}

/// The closed form of [`days_before_year`]: 365 days a year plus one for
/// every leap year passed.
pub proof fn lemma_days_before_year_closed(y: int)
    requires
        0 <= y <= 10000,
    ensures
        days_before_year(y) == 365 * y + (y + 3) / 4 - (y + 99) / 100 + (y + 399) / 400,
    decreases y,
{
    if y > 0 {
        lemma_days_before_year_closed(y - 1);
    }
}

/// The months of a year account for exactly its days.
pub proof fn lemma_days_before_month_total(y: int)
    ensures
        days_before_month(y, 13) == days_in_year(y),
{
    assert(days_before_month(y, 13) == days_in_year(y)) by {
        assert(days_before_month(y, 1) == 0);
        assert(days_before_month(y, 2) == days_before_month(y, 1) + days_in_month(y, 1));
        assert(days_before_month(y, 3) == days_before_month(y, 2) + days_in_month(y, 2));
        assert(days_before_month(y, 4) == days_before_month(y, 3) + days_in_month(y, 3));
        assert(days_before_month(y, 5) == days_before_month(y, 4) + days_in_month(y, 4));
        assert(days_before_month(y, 6) == days_before_month(y, 5) + days_in_month(y, 5));
        assert(days_before_month(y, 7) == days_before_month(y, 6) + days_in_month(y, 6));
        assert(days_before_month(y, 8) == days_before_month(y, 7) + days_in_month(y, 7));
        assert(days_before_month(y, 9) == days_before_month(y, 8) + days_in_month(y, 8));
        assert(days_before_month(y, 10) == days_before_month(y, 9) + days_in_month(y, 9));
        assert(days_before_month(y, 11) == days_before_month(y, 10) + days_in_month(y, 10));
        assert(days_before_month(y, 12) == days_before_month(y, 11) + days_in_month(y, 11));
        assert(days_before_month(y, 13) == days_before_month(y, 12) + days_in_month(y, 12));
    }
}

/// What [`year_split`] finds: the same day count, now split into whole years
/// and a valid day-of-year, as long as the count stays inside year 9999.
pub proof fn lemma_year_split(d: int, y: int)
    requires
        0 <= y <= 9999,
        0 <= d,
        days_before_year(y) + d < days_before_year(10000),
    ensures
        ({
            let (ry, rd) = year_split(d, y);
            &&& days_before_year(ry) + rd == days_before_year(y) + d
            &&& 0 <= rd < days_in_year(ry)
            &&& y <= ry <= 9999
        }),
    decreases 10000 - y,
{
    if y >= 9999 || d < days_in_year(y) {
        if y == 9999 {
            assert(days_before_year(10000) == days_before_year(9999) + days_in_year(9999));
        }
    } else {
        assert(days_before_year(y + 1) == days_before_year(y) + days_in_year(y));
        lemma_year_split(d - days_in_year(y), y + 1);
    }
}

/// What [`month_split`] finds: the same day count, split into whole months
/// and a valid day-of-month, for any day count inside the year.
pub proof fn lemma_month_split(y: int, d: int, m: int)
    requires
        1 <= m <= 12,
        0 <= d,
        days_before_month(y, m) + d < days_in_year(y),
    ensures
        ({
            let (rm, rd) = month_split(y, d, m);
            &&& days_before_month(y, rm) + rd == days_before_month(y, m) + d
            &&& 0 <= rd < days_in_month(y, rm)
            &&& m <= rm <= 12
        }),
    decreases 13 - m,
{
    lemma_days_before_month_total(y);
    if m >= 12 || d < days_in_month(y, m) {
        if m == 12 {
            assert(days_before_month(y, 13) == days_before_month(y, 12) + days_in_month(y, 12));
        }
    } else {
        assert(days_before_month(y, m + 1) == days_before_month(y, m) + days_in_month(y, m));
        lemma_month_split(y, d - days_in_month(y, m), m + 1);
    }
}

/// The decimal digit character for `d` (0 through 9).
pub open spec fn digit_char(d: int) -> char {
    if d == 0 {
        '0'
    } else if d == 1 {
        '1'
    } else if d == 2 {
        '2'
    } else if d == 3 {
        '3'
    } else if d == 4 {
        '4'
    } else if d == 5 {
        '5'
    } else if d == 6 {
        '6'
    } else if d == 7 {
        '7'
    } else if d == 8 {
        '8'
    } else {
        '9'
    }
}

/// Two-digit zero-padded rendering of `n` (0 through 99).
pub open spec fn pad2(n: int) -> Seq<char> {
    seq![digit_char(n / 10), digit_char(n % 10)]
}

/// Four-digit zero-padded rendering of `n` (0 through 9999).
pub open spec fn pad4(n: int) -> Seq<char> {
    pad2(n / 100) + pad2(n % 100)
}

/// The `YYYY-MM-DDTHH:MM:SSZ` rendering of the given civil fields.
pub open spec fn iso_repr(y: int, mo: int, d: int, h: int, mi: int, s: int) -> Seq<char> {
    pad4(y) + seq!['-'] + pad2(mo) + seq!['-'] + pad2(d) + seq!['T'] + pad2(h) + seq![':'] + pad2(
        mi,
    ) + seq![':'] + pad2(s) + seq!['Z']
}

/// The civil fields (year, month, day, hour, minute, second) of an in-range
/// epoch value, sub-second part truncated.
pub open spec fn civil_of_ts(ts: int) -> (int, int, int, int, int, int) {
    let shifted = ts + YEAR0_TO_EPOCH_MILLIS;
    let secs = shifted / 1000;
    let day = secs / 86400;
    let sod = secs % 86400;
    let (y, doy) = year_split(day, 0);
    let (mo, dom) = month_split(y, doy, 1);
    (y, mo, dom + 1, sod / 3600, (sod % 3600) / 60, sod % 60)
}

/// The text rendering of an epoch value: its civil fields when the value is
/// in range, the Unix-epoch string otherwise.
pub open spec fn iso_of_millis(ts: int) -> Seq<char> {
    if ts_in_range(ts) {
        let (y, mo, d, h, mi, s) = civil_of_ts(ts);
        iso_repr(y, mo, d, h, mi, s)
    } else {
        iso_repr(1970, 1, 1, 0, 0, 0)
    }
}

/// The decimal digit character for `d`.
pub(crate) fn digit_char_x(d: i64) -> (c: char)
    requires
        0 <= d <= 9,
    ensures
        c == digit_char(d as int),
{
    if d == 0 {
        '0'
    } else if d == 1 {
        '1'
    } else if d == 2 {
        '2'
    } else if d == 3 {
        '3'
    } else if d == 4 {
        '4'
    } else if d == 5 {
        '5'
    } else if d == 6 {
        '6'
    } else if d == 7 {
        '7'
    } else if d == 8 {
        '8'
    } else {
        '9'
    }
}

/// Appends the two-digit rendering of `n` to `buf`.
fn push_pad2(buf: &mut Vec<char>, n: i64)
    requires
        0 <= n <= 99,
    ensures
        final(buf)@ == old(buf)@ + pad2(n as int),
{
    buf.push(digit_char_x(n / 10));
    buf.push(digit_char_x(n % 10));
    proof {
        assert(final(buf)@ =~= old(buf)@ + pad2(n as int));
    }
}

/// Appends the four-digit rendering of `n` to `buf`.
fn push_pad4(buf: &mut Vec<char>, n: i64)
    requires
        0 <= n <= 9999,
    ensures
        final(buf)@ == old(buf)@ + pad4(n as int),
{
    push_pad2(buf, n / 100);
    push_pad2(buf, n % 100);
    proof {
        assert(final(buf)@ =~= old(buf)@ + pad4(n as int));
    }
}

/// Days in year `y`.
fn days_in_year_x(y: i64) -> (r: i64)
    requires
        0 <= y <= 9999,
    ensures
        r as int == days_in_year(y as int),
{
    if (y % 4 == 0 && y % 100 != 0) || y % 400 == 0 {
        366
    } else {
        365
    }
}

/// Days in month `m` of year `y`.
fn days_in_month_x(y: i64, m: i64) -> (r: i64)
    requires
        0 <= y <= 9999,
        1 <= m <= 12,
    ensures
        r as int == days_in_month(y as int, m as int),
{
    if m == 1 {
        31
    } else if m == 2 {
        if (y % 4 == 0 && y % 100 != 0) || y % 400 == 0 {
            29
        } else {
            28
        }
    } else if m == 3 {
        31
    } else if m == 4 {
        30
    } else if m == 5 {
        31
    } else if m == 6 {
        30
    } else if m == 7 {
        31
    } else if m == 8 {
        31
    } else if m == 9 {
        30
    } else if m == 10 {
        31
    } else if m == 11 {
        30
    } else {
        31
    }
}

/// Appends the `YYYY-MM-DDTHH:MM:SSZ` rendering of the given fields.
fn push_iso_repr(buf: &mut Vec<char>, y: i64, mo: i64, d: i64, h: i64, mi: i64, s: i64)
    requires
        0 <= y <= 9999,
        0 <= mo <= 99,
        0 <= d <= 99,
        0 <= h <= 99,
        0 <= mi <= 99,
        0 <= s <= 99,
    ensures
        final(buf)@ == old(buf)@ + iso_repr(y as int, mo as int, d as int, h as int, mi as int, s as int),
{
    push_pad4(buf, y);
    buf.push('-');
    push_pad2(buf, mo);
    buf.push('-');
    push_pad2(buf, d);
    buf.push('T');
    push_pad2(buf, h);
    buf.push(':');
    push_pad2(buf, mi);
    buf.push(':');
    push_pad2(buf, s);
    buf.push('Z');
    proof {
        assert(final(buf)@ =~= old(buf)@ + iso_repr(
            y as int,
            mo as int,
            d as int,
            h as int,
            mi as int,
            s as int,
        ));
    }
}

/// Splits a day count (from year 0) into a year and a day-of-year.
fn year_of_day_x(day: i64) -> (r: (i64, i64))
    requires
        0 <= day,
        (day as int) < days_before_year(10000),
    ensures
        (r.0 as int, r.1 as int) == year_split(day as int, 0),
        days_before_year(r.0 as int) + r.1 as int == day as int,
        0 <= (r.1 as int) && (r.1 as int) < days_in_year(r.0 as int),
        0 <= r.0 <= 9999,
{
    let mut y: i64 = 0;
    let mut d: i64 = day;
    proof {
        lemma_year_split(day as int, 0);
    }
    while y < 9999 && d >= days_in_year_x(y)
        invariant
            0 <= y <= 9999,
            0 <= d,
            year_split(day as int, 0) == year_split(d as int, y as int),
            days_before_year(y as int) + d as int == day as int,
            (day as int) < days_before_year(10000),
        decreases 9999 - y,
    {
        proof {
            assert(days_before_year(y as int + 1) == days_before_year(y as int) + days_in_year(
                y as int,
            ));
        }
        d = d - days_in_year_x(y);
        y = y + 1;
    }
    proof {
        assert(year_split(d as int, y as int) == (y as int, d as int));
        lemma_year_split(day as int, 0);
    }
    (y, d)
}

/// Splits a day-of-year into a month and a day-of-month.
fn month_of_doy_x(y: i64, doy: i64) -> (r: (i64, i64))
    requires
        0 <= y <= 9999,
        0 <= doy,
        (doy as int) < days_in_year(y as int),
    ensures
        (r.0 as int, r.1 as int) == month_split(y as int, doy as int, 1),
        days_before_month(y as int, r.0 as int) + r.1 as int == doy as int,
        0 <= (r.1 as int) && (r.1 as int) < days_in_month(y as int, r.0 as int),
        1 <= r.0 <= 12,
{
    let mut m: i64 = 1;
    let mut d: i64 = doy;
    proof {
        lemma_month_split(y as int, doy as int, 1);
    }
    while m < 12 && d >= days_in_month_x(y, m)
        invariant
            0 <= y <= 9999,
            1 <= m <= 12,
            0 <= d,
            month_split(y as int, doy as int, 1) == month_split(y as int, d as int, m as int),
            days_before_month(y as int, m as int) + d as int == doy as int,
            (doy as int) < days_in_year(y as int),
        decreases 12 - m,
    {
        d = d - days_in_month_x(y, m);
        m = m + 1;
    }
    proof {
        assert(month_split(y as int, d as int, m as int) == (m as int, d as int));
        lemma_month_split(y as int, doy as int, 1);
    }
    (m, d)
}

/// Renders an epoch-millisecond value as `YYYY-MM-DDTHH:MM:SSZ`, truncating
/// to whole seconds.  Never fails: a value outside the representable years
/// renders as the Unix-epoch string.
pub fn timestamp_to_iso(ts: i64) -> (r: String)
    ensures
        r@ == iso_of_millis(ts as int),
{
    let mut buf: Vec<char> = Vec::new();
    if ts < MIN_RENDERABLE_MILLIS || ts > MAX_RENDERABLE_MILLIS {
        push_iso_repr(&mut buf, 1970, 1, 1, 0, 0, 0);
        return crate::chars::string_of_chars(&buf);
    }
    let shifted: i64 = ts + YEAR0_TO_EPOCH_MILLIS;
    let secs: i64 = shifted / 1000;
    let day: i64 = secs / 86400;
    let sod: i64 = secs % 86400;
    proof {
        lemma_days_before_year_closed(10000);
        assert(days_before_year(10000) == 3652425);
    }
    let (y, doy) = year_of_day_x(day);
    let (mo, dom) = month_of_doy_x(y, doy);
    let h: i64 = sod / 3600;
    let mi: i64 = (sod % 3600) / 60;
    let s: i64 = sod % 60;
    push_iso_repr(&mut buf, y, mo, dom + 1, h, mi, s);
    crate::chars::string_of_chars(&buf)
}





/// Turns every remaining space into the `T` separator.
pub open spec fn space_to_t(s: Seq<char>) -> Seq<char> {
    s.map_values(|c: char| if c == ' ' { 'T' } else { c })
}

/// The parser's input normalization: trim, then separator fixup.
pub open spec fn normalize_ts(s: Seq<char>) -> Seq<char> {
    space_to_t(trim_ws(s))
}

/// Whether `c` is a decimal digit.
pub open spec fn is_digit_char(c: char) -> bool {
    48 <= (c as int) && (c as int) <= 57
}

/// The numeric value of a digit character.
pub open spec fn digit_val(c: char) -> int {
    (c as int) - 48
}

/// Whether two digit characters stand at `i` and `i + 1`.
pub open spec fn is_digit2(s: Seq<char>, i: int) -> bool {
    is_digit_char(s[i]) && is_digit_char(s[i + 1])
}

/// The value of the two digits at `i` and `i + 1`.
pub open spec fn val2(s: Seq<char>, i: int) -> int {
    digit_val(s[i]) * 10 + digit_val(s[i + 1])
}

/// Whether four digit characters stand at `i` through `i + 3`.
pub open spec fn is_digit4(s: Seq<char>, i: int) -> bool {
    is_digit2(s, i) && is_digit2(s, i + 2)
}

/// The value of the four digits at `i` through `i + 3`.
pub open spec fn val4(s: Seq<char>, i: int) -> int {
    val2(s, i) * 100 + val2(s, i + 2)
}

/// Whether `t` starts with the fixed `YYYY-MM-DDTHH:MM:SS` layout.
pub open spec fn datetime_head_ok(t: Seq<char>) -> bool {
    &&& t.len() >= 19
    &&& is_digit4(t, 0)
    &&& t[4] == '-'
    &&& is_digit2(t, 5)
    &&& t[7] == '-'
    &&& is_digit2(t, 8)
    &&& t[10] == 'T'
    &&& is_digit2(t, 11)
    &&& t[13] == ':'
    &&& is_digit2(t, 14)
    &&& t[16] == ':'
    &&& is_digit2(t, 17)
}

/// The length of the run of digits that starts the sequence.
pub open spec fn digit_prefix_len(s: Seq<char>) -> int
    decreases s.len(),
{
    if s.len() > 0 && is_digit_char(s[0]) {
        1 + digit_prefix_len(s.drop_first())
    } else {
        0
    }
}

/// The millisecond value of a fractional-second digit run: the first three
/// digits, zero-padded on the right.
pub open spec fn frac_ms(digs: Seq<char>) -> int {
    if digs.len() >= 3 {
        digit_val(digs[0]) * 100 + digit_val(digs[1]) * 10 + digit_val(digs[2])
    } else if digs.len() == 2 {
        digit_val(digs[0]) * 100 + digit_val(digs[1]) * 10
    } else if digs.len() == 1 {
        digit_val(digs[0]) * 100
    } else {
        0
    }
}

/// The sign a UTC offset contributes.
pub open spec fn offset_sign(c: char) -> int {
    if c == '-' {
        -1
    } else {
        1
    }
}

/// Parses what may follow the seconds (and any fraction): nothing or a lone
/// `Z` mean UTC; otherwise a `+HH:MM`, `-HH:MM`, `+HHMM` or `-HHMM` offset.
/// The result is the offset in minutes.
pub open spec fn parse_offset(u: Seq<char>) -> Option<int> {
    if u.len() == 0 {
        Some(0)
    } else if u.len() == 1 && u[0] == 'Z' {
        Some(0)
    } else if u.len() == 6 && (u[0] == '+' || u[0] == '-') && is_digit2(u, 1) && u[3] == ':'
        && is_digit2(u, 4) && val2(u, 1) <= 23 && val2(u, 4) <= 59 {
        Some(offset_sign(u[0]) * (val2(u, 1) * 60 + val2(u, 4)))
    } else if u.len() == 5 && (u[0] == '+' || u[0] == '-') && is_digit2(u, 1) && is_digit2(u, 3)
        && val2(u, 1) <= 23 && val2(u, 3) <= 59 {
        Some(offset_sign(u[0]) * (val2(u, 1) * 60 + val2(u, 3)))
    } else {
        None
    }
}

/// Parses everything after the seconds: an optional `.digits` fraction, then
/// an offset or nothing.  The result is the fraction in milliseconds and the
/// offset in minutes.
pub open spec fn parse_suffix(u: Seq<char>) -> Option<(int, int)> {
    if u.len() > 0 && u[0] == '.' {
        let n = digit_prefix_len(u.drop_first());
        if n == 0 {
            None
        } else {
            match parse_offset(u.skip(1 + n)) {
                Some(off) => Some((frac_ms(u.subrange(1, 1 + n)), off)),
                None => None,
            }
        }
    } else {
        match parse_offset(u) {
            Some(off) => Some((0, off)),
            None => None,
        }
    }
}

/// Whether the parsed civil fields name a real instant.
pub open spec fn fields_valid(y: int, mo: int, d: int, h: int, mi: int, s: int) -> bool {
    &&& 1 <= mo <= 12
    &&& 1 <= d <= days_in_month(y, mo)
    &&& h <= 23
    &&& mi <= 59
    &&& s <= 59
}

/// The epoch-millisecond value of the given civil fields read as UTC.
pub open spec fn civil_to_millis(y: int, mo: int, d: int, h: int, mi: int, s: int, ms: int) -> int {
    ((days_before_year(y) + days_before_month(y, mo) + d - 1) * 86400 + h * 3600 + mi * 60 + s)
        * 1000 + ms - YEAR0_TO_EPOCH_MILLIS
}

/// Parses an already-normalized timestamp string.
pub open spec fn parse_normalized(t: Seq<char>) -> Option<int> {
    if datetime_head_ok(t) {
        match parse_suffix(t.skip(19)) {
            Some((ms, off)) => {
                let y = val4(t, 0);
                let mo = val2(t, 5);
                let d = val2(t, 8);
                let h = val2(t, 11);
                let mi = val2(t, 14);
                let s = val2(t, 17);
                if fields_valid(y, mo, d, h, mi, s) {
                    Some(civil_to_millis(y, mo, d, h, mi, s, ms) - off * 60000)
                } else {
                    None
                }
            },
            None => None,
        }
    } else {
        None
    }
}

/// What the timestamp parser accepts, and the value it reads.
pub open spec fn parse_iso_spec(s: Seq<char>) -> Option<int> {
    parse_normalized(normalize_ts(s))
}



proof fn lemma_digit_prefix_len(s: Seq<char>, n: int)
    requires
        0 <= n <= s.len(),
        forall|j: int| 0 <= j < n ==> is_digit_char(#[trigger] s[j]),
        n == s.len() || !is_digit_char(s[n]),
    ensures
        digit_prefix_len(s) == n,
    decreases n,
{
    if n == 0 {
    } else {
        lemma_digit_prefix_len(s.drop_first(), n - 1);
    }
}


/// Whether `c` is a decimal digit.
fn is_digit_x(c: char) -> (b: bool)
    ensures
        b == is_digit_char(c),
{
    let u = c as u32;
    48 <= u && u <= 57
}

/// The numeric value of the digit `c`.
fn digit_val_x(c: char) -> (r: i64)
    requires
        is_digit_char(c),
    ensures
        r as int == digit_val(c),
        0 <= r <= 9,
{
    ((c as u32) - 48) as i64
}

/// The value of the two digits at `i` and `i + 1`.
fn val2_x(t: &Vec<char>, i: usize) -> (r: i64)
    requires
        i + 1 < t@.len(),
        t@.len() <= usize::MAX,
        is_digit2(t@, i as int),
    ensures
        r as int == val2(t@, i as int),
        0 <= r <= 99,
{
    digit_val_x(t[i]) * 10 + digit_val_x(t[i + 1])
}

/// Days in the years before `y`, computed by the closed form.
fn days_before_year_x(y: i64) -> (r: i64)
    requires
        0 <= y <= 9999,
    ensures
        r as int == days_before_year(y as int),
        0 <= r <= 3652424,
{
    proof {
        lemma_days_before_year_closed(y as int);
        lemma_days_before_year_closed(10000);
        if y < 10000 {
            assert(days_before_year(y as int) <= days_before_year(10000) - 365) by {
                assert(days_before_year(10000) == 365 * 10000 + 2500 - 100 + 25);
            }
        }
    }
    365 * y + (y + 3) / 4 - (y + 99) / 100 + (y + 399) / 400
}

/// Days in the months of year `y` before month `mo`.
fn days_before_month_x(y: i64, mo: i64) -> (r: i64)
    requires
        0 <= y <= 9999,
        1 <= mo <= 12,
    ensures
        r as int == days_before_month(y as int, mo as int),
        0 <= r <= 341,
{
    let mut m: i64 = 1;
    let mut acc: i64 = 0;
    while m < mo
        invariant
            1 <= m <= mo,
            mo <= 12,
            0 <= y <= 9999,
            acc as int == days_before_month(y as int, m as int),
            0 <= acc <= 31 * (m - 1),
        decreases mo - m,
    {
        acc = acc + days_in_month_x(y, m);
        m = m + 1;
    }
    acc
}

/// The error a string gets when no accepted timestamp form matches it.
fn invalid_timestamp(s: &str) -> (e: AppError)
    ensures
        e matches AppError::InvalidTimestamp(t) && t@ == s@,
{
    AppError::InvalidTimestamp(String::from_str(s))
}

/// Normalizes a timestamp string: surrounding whitespace dropped, interior
/// spaces turned into the `T` separator.
fn normalize_x(s: &str) -> (t: Vec<char>)
    ensures
        t@ == normalize_ts(s@),
{
    let cs = crate::chars::chars_of(s);
    let n = cs.len();
    let mut start: usize = 0;
    while start < n && is_ws_x(cs[start])
        invariant
            cs@ == s@,
            n == cs@.len(),
            start <= n,
            forall|j: int| 0 <= j < start ==> is_ws_char(#[trigger] s@[j]),
        decreases n - start,
    {
        start = start + 1;
    }
    let mut end: usize = n;
    while end > start && is_ws_x(cs[end - 1])
        invariant
            cs@ == s@,
            n == cs@.len(),
            start <= end <= n,
            forall|j: int| 0 <= j < start ==> is_ws_char(#[trigger] s@[j]),
            forall|j: int| end <= j < n ==> is_ws_char(#[trigger] s@[j]),
        decreases end,
    {
        end = end - 1;
    }
    let ghost trimmed = s@.subrange(start as int, end as int);
    proof {
        lemma_trim_front_skip(s@, start as int);
        let sk = s@.skip(start as int);
        assert forall|j: int| (end - start) <= j < sk.len() implies is_ws_char(
            #[trigger] sk[j],
        ) by {
            assert(sk[j] == s@[j + start]);
        }
        if end > start {
            assert(sk[end - start - 1] == s@[end - 1]);
        }
        lemma_trim_back_take(sk, end - start);
        assert(sk.take(end - start) =~= trimmed);
        assert(trim_ws(s@) == trimmed);
    }
    let mut t: Vec<char> = Vec::new();
    let mut i: usize = start;
    while i < end
        invariant
            cs@ == s@,
            start <= i <= end <= cs@.len(),
            trimmed == s@.subrange(start as int, end as int),
            t@.len() == i - start,
            forall|k: int|
                0 <= k < i - start ==> #[trigger] t@[k] == (if trimmed[k] == ' ' {
                    'T'
                } else {
                    trimmed[k]
                }),
        decreases end - i,
    {
        let c = cs[i];
        if c == ' ' {
            t.push('T');
        } else {
            t.push(c);
        }
        i = i + 1;
    }
    proof {
        assert(trim_ws(s@) == trimmed);
        let norm = normalize_ts(s@);
        assert(norm.len() == trimmed.len());
        assert forall|k: int| 0 <= k < norm.len() implies norm[k] == t@[k] by {
            assert(norm[k] == (if trimmed[k] == ' ' {
                'T'
            } else {
                trimmed[k]
            }));
        }
        assert(t@ =~= norm);
    }
    t
}

/// Checks the fixed `YYYY-MM-DDTHH:MM:SS` layout of the first 19 characters.
fn head_ok_x(t: &Vec<char>) -> (b: bool)
    requires
        t@.len() >= 19,
    ensures
        b == datetime_head_ok(t@),
{
    is_digit_x(t[0]) && is_digit_x(t[1]) && is_digit_x(t[2]) && is_digit_x(t[3]) && t[4] == '-'
        && is_digit_x(t[5]) && is_digit_x(t[6]) && t[7] == '-' && is_digit_x(t[8]) && is_digit_x(
        t[9],
    ) && t[10] == 'T' && is_digit_x(t[11]) && is_digit_x(t[12]) && t[13] == ':' && is_digit_x(
        t[14],
    ) && is_digit_x(t[15]) && t[16] == ':' && is_digit_x(t[17]) && is_digit_x(t[18])
}

/// Reads the offset (or nothing) that starts at position `p`.
fn parse_offset_x(t: &Vec<char>, p: usize) -> (r: Option<i64>)
    requires
        p <= t@.len(),
    ensures
        match r {
            Some(v) => parse_offset(t@.skip(p as int)) == Some(v as int) && -1439 <= v <= 1439,
            None => parse_offset(t@.skip(p as int)) is None,
        },
{
    let ghost w = t@.skip(p as int);
    let rem = t.len() - p;
    proof {
        assert(w.len() == rem as int);
        assert(forall|k: int| 0 <= k < w.len() ==> #[trigger] w[k] == t@[k + p]);
    }
    if rem == 0 {
        Some(0)
    } else if rem == 1 && t[p] == 'Z' {
        assert(w[0] == 'Z');
        Some(0)
    } else if rem == 6 && (t[p] == '+' || t[p] == '-') && is_digit_x(t[p + 1]) && is_digit_x(
        t[p + 2],
    ) && t[p + 3] == ':' && is_digit_x(t[p + 4]) && is_digit_x(t[p + 5]) {
        let hh = val2_x(t, p + 1);
        let mm = val2_x(t, p + 4);
        proof {
            assert(is_digit2(w, 1) && is_digit2(w, 4));
            assert(val2(w, 1) == hh as int);
            assert(val2(w, 4) == mm as int);
        }
        if hh <= 23 && mm <= 59 {
            let v = if t[p] == '-' {
                -(hh * 60 + mm)
            } else {
                hh * 60 + mm
            };
            proof {
                assert(w[0] == t@[p as int]);
                assert(parse_offset(w) == Some(
                    offset_sign(w[0]) * (val2(w, 1) * 60 + val2(w, 4)),
                ));
            }
            Some(v)
        } else {
            None
        }
    } else if rem == 5 && (t[p] == '+' || t[p] == '-') && is_digit_x(t[p + 1]) && is_digit_x(
        t[p + 2],
    ) && is_digit_x(t[p + 3]) && is_digit_x(t[p + 4]) {
        let hh = val2_x(t, p + 1);
        let mm = val2_x(t, p + 3);
        proof {
            assert(is_digit2(w, 1) && is_digit2(w, 3));
            assert(val2(w, 1) == hh as int);
            assert(val2(w, 3) == mm as int);
        }
        if hh <= 23 && mm <= 59 {
            let v = if t[p] == '-' {
                -(hh * 60 + mm)
            } else {
                hh * 60 + mm
            };
            proof {
                assert(w[0] == t@[p as int]);
                assert(parse_offset(w) == Some(
                    offset_sign(w[0]) * (val2(w, 1) * 60 + val2(w, 3)),
                ));
            }
            Some(v)
        } else {
            None
        }
    } else {
        None
    }
}

/// Reads the optional fraction and the offset that follow the seconds.
fn parse_suffix_x(t: &Vec<char>) -> (r: Option<(i64, i64)>)
    requires
        t@.len() >= 19,
    ensures
        match r {
            Some(v) => parse_suffix(t@.skip(19)) == Some((v.0 as int, v.1 as int)) && 0 <= v.0
                <= 999 && -1439 <= v.1 <= 1439,
            None => parse_suffix(t@.skip(19)) is None,
        },
{
    let ghost u = t@.skip(19);
    proof {
        assert(forall|k: int| 0 <= k < u.len() ==> #[trigger] u[k] == t@[k + 19]);
    }
    if t.len() > 19 && t[19] == '.' {
        assert(u[0] == '.');
        let mut j: usize = 20;
        while j < t.len() && is_digit_x(t[j])
            invariant
                20 <= j <= t@.len(),
                t@.len() >= 20,
                forall|k: int| 20 <= k < j ==> is_digit_char(#[trigger] t@[k]),
            decreases t@.len() - j,
        {
            j = j + 1;
        }
        let run = j - 20;
        proof {
            let d20 = t@.skip(20);
            assert forall|k: int| 0 <= k < run implies is_digit_char(#[trigger] d20[k]) by {
                assert(d20[k] == t@[k + 20]);
            }
            if j < t.len() {
                assert(d20[run as int] == t@[j as int]);
            }
            lemma_digit_prefix_len(d20, run as int);
            assert(u.drop_first() =~= d20);
        }
        if run == 0 {
            return None;
        }
        let mut ms: i64 = digit_val_x(t[20]) * 100;
        if run >= 2 {
            ms = ms + digit_val_x(t[21]) * 10;
        }
        if run >= 3 {
            ms = ms + digit_val_x(t[22]);
        }
        proof {
            let digs = u.subrange(1, 1 + run);
            assert(digs.len() == run);
            assert(forall|k: int| 0 <= k < run ==> #[trigger] digs[k] == t@[k + 20]);
            assert(ms as int == frac_ms(digs));
        }
        match parse_offset_x(t, j) {
            Some(off) => {
                proof {
                    assert(u.skip(1 + run) =~= t@.skip(j as int));
                }
                Some((ms, off))
            },
            None => {
                proof {
                    assert(u.skip(1 + run) =~= t@.skip(j as int));
                }
                None
            },
        }
    } else {
        proof {
            if u.len() > 0 {
                assert(u[0] == t@[19]);
            }
            assert(u =~= t@.skip(19));
        }
        match parse_offset_x(t, 19) {
            Some(off) => Some((0, off)),
            None => None,
        }
    }
}

/// Parses an ISO-8601 timestamp string to epoch milliseconds.
///
/// Accepted, after surrounding whitespace is dropped and interior spaces
/// become the `T` separator: `YYYY-MM-DDTHH:MM:SS`, optionally followed by a
/// `.digits` fraction, and then optionally a `Z` or a `+HH:MM`, `-HH:MM`,
/// `+HHMM` or `-HHMM` offset; a form with neither `Z` nor an offset is read
/// as UTC.  Anything else is an `InvalidTimestamp` error.
pub fn iso_to_timestamp(s: &str) -> (r: Result<i64, AppError>)
    ensures
        match r {
            Ok(v) => parse_iso_spec(s@) == Some(v as int),
            Err(e) => parse_iso_spec(s@) is None && (e matches AppError::InvalidTimestamp(t)
                && t@ == s@),
        },
{
    let t = normalize_x(s);
    let ghost norm = normalize_ts(s@);
    if t.len() < 19 {
        return Err(invalid_timestamp(s));
    }
    if !head_ok_x(&t) {
        return Err(invalid_timestamp(s));
    }
    let suffix = parse_suffix_x(&t);
    let (ms, off) = match suffix {
        Some(v) => v,
        None => {
            return Err(invalid_timestamp(s));
        },
    };
    let y = val2_x(&t, 0) * 100 + val2_x(&t, 2);
    let mo = val2_x(&t, 5);
    let d = val2_x(&t, 8);
    let h = val2_x(&t, 11);
    let mi = val2_x(&t, 14);
    let sec = val2_x(&t, 17);
    assert(y as int == val4(norm, 0));
    if mo < 1 || mo > 12 || d < 1 || h > 23 || mi > 59 || sec > 59 {
        assert(!fields_valid(y as int, mo as int, d as int, h as int, mi as int, sec as int));
        return Err(invalid_timestamp(s));
    }
    if d > days_in_month_x(y, mo) {
        assert(!fields_valid(y as int, mo as int, d as int, h as int, mi as int, sec as int));
        return Err(invalid_timestamp(s));
    }
    assert(fields_valid(y as int, mo as int, d as int, h as int, mi as int, sec as int));
    let days: i64 = days_before_year_x(y) + days_before_month_x(y, mo) + d - 1;
    let total: i64 = (days * 86400 + h * 3600 + mi * 60 + sec) * 1000 + ms - YEAR0_TO_EPOCH_MILLIS
        - off * 60000;
    assert(total as int == civil_to_millis(
        y as int,
        mo as int,
        d as int,
        h as int,
        mi as int,
        sec as int,
        ms as int,
    ) - (off as int) * 60000);
    Ok(total)
}

/// The server-mtime precedence rule: an externally supplied modification
/// time overrides the document's own `updated` value only when it is
/// strictly greater.
pub open spec fn reconcile_updated_spec(doc_updated: int, server_mtime: Option<int>) -> int {
    match server_mtime {
        Some(m) => if m > doc_updated {
            m
        } else {
            doc_updated
        },
        None => doc_updated,
    }
}

/// Applies the server-mtime precedence rule.
pub fn reconcile_updated(doc_updated: i64, server_mtime: Option<i64>) -> (r: i64)
    ensures
        r as int == reconcile_updated_spec(
            doc_updated as int,
            match server_mtime {
                Some(m) => Some(m as int),
                None => None,
            },
        ),
{
    match server_mtime {
        Some(m) => if m > doc_updated {
            m
        } else {
            doc_updated
        },
        None => doc_updated,
    }
}

proof fn lemma_digit_char_props(d: int)
    requires
        0 <= d <= 9,
    ensures
        is_digit_char(digit_char(d)),
        digit_val(digit_char(d)) == d,
        !is_ws_char(digit_char(d)),
        digit_char(d) != ' ',
{
}

proof fn lemma_pad2_props(n: int)
    requires
        0 <= n <= 99,
    ensures
        pad2(n).len() == 2,
        is_digit_char(pad2(n)[0]),
        is_digit_char(pad2(n)[1]),
        digit_val(pad2(n)[0]) * 10 + digit_val(pad2(n)[1]) == n,
        !is_ws_char(pad2(n)[0]) && pad2(n)[0] != ' ',
        !is_ws_char(pad2(n)[1]) && pad2(n)[1] != ' ',
{
    lemma_digit_char_props(n / 10);
    lemma_digit_char_props(n % 10);
}

proof fn lemma_iso_repr_fields(y: int, mo: int, d: int, h: int, mi: int, s: int)
    requires
        0 <= y <= 9999,
        0 <= mo <= 99,
        0 <= d <= 99,
        0 <= h <= 99,
        0 <= mi <= 99,
        0 <= s <= 99,
    ensures
        ({
            let t = iso_repr(y, mo, d, h, mi, s);
            &&& t.len() == 20
            &&& datetime_head_ok(t)
            &&& val4(t, 0) == y
            &&& val2(t, 5) == mo
            &&& val2(t, 8) == d
            &&& val2(t, 11) == h
            &&& val2(t, 14) == mi
            &&& val2(t, 17) == s
            &&& t[19] == 'Z'
            &&& forall|i: int| 0 <= i < 20 ==> !is_ws_char(#[trigger] t[i]) && t[i] != ' '
        }),
{
    let t = iso_repr(y, mo, d, h, mi, s);
    lemma_pad2_props(y / 100);
    lemma_pad2_props(y % 100);
    lemma_pad2_props(mo);
    lemma_pad2_props(d);
    lemma_pad2_props(h);
    lemma_pad2_props(mi);
    lemma_pad2_props(s);
    assert(pad4(y).len() == 4);
    assert(t.len() == 20);
    assert(t[0] == pad2(y / 100)[0]);
    assert(t[1] == pad2(y / 100)[1]);
    assert(t[2] == pad2(y % 100)[0]);
    assert(t[3] == pad2(y % 100)[1]);
    assert(t[4] == '-');
    assert(t[5] == pad2(mo)[0]);
    assert(t[6] == pad2(mo)[1]);
    assert(t[7] == '-');
    assert(t[8] == pad2(d)[0]);
    assert(t[9] == pad2(d)[1]);
    assert(t[10] == 'T');
    assert(t[11] == pad2(h)[0]);
    assert(t[12] == pad2(h)[1]);
    assert(t[13] == ':');
    assert(t[14] == pad2(mi)[0]);
    assert(t[15] == pad2(mi)[1]);
    assert(t[16] == ':');
    assert(t[17] == pad2(s)[0]);
    assert(t[18] == pad2(s)[1]);
    assert(t[19] == 'Z');
    assert(val2(t, 0) == y / 100);
    assert(val2(t, 2) == y % 100);
    assert(val4(t, 0) == (y / 100) * 100 + y % 100);
    assert(val4(t, 0) == y);
}

/// A rendered timestamp is twenty characters, none of them whitespace; it
/// passes through line splitting and trimming unchanged.
pub proof fn lemma_iso_of_millis_clean(ts: int)
    ensures
        iso_of_millis(ts).len() == 20,
        forall|i: int| 0 <= i < 20 ==> !is_ws_char(#[trigger] iso_of_millis(ts)[i]),
{
    if ts_in_range(ts) {
        let shifted = ts + YEAR0_TO_EPOCH_MILLIS;
        let secs = shifted / 1000;
        let day = secs / 86400;
        let sod = secs % 86400;
        assert(0 <= shifted <= 315569519999999);
        lemma_days_before_year_closed(10000);
        assert(day < 3652425);
        lemma_year_split(day, 0);
        let (y, doy) = year_split(day, 0);
        lemma_month_split(y, doy, 1);
        let (mo, dom) = month_split(y, doy, 1);
        assert(0 <= sod < 86400);
        lemma_iso_repr_fields(y, mo, dom + 1, sod / 3600, (sod % 3600) / 60, sod % 60);
    } else {
        lemma_iso_repr_fields(1970, 1, 1, 0, 0, 0);
    }
}

/// The timestamp round trip: rendering an in-range whole-second epoch value
/// and parsing the result gives the value back exactly.
pub proof fn lemma_iso_round_trip(t: int)
    requires
        ts_in_range(t),
        t % 1000 == 0,
    ensures
        parse_iso_spec(iso_of_millis(t)) == Some(t),
{
    let shifted = t + YEAR0_TO_EPOCH_MILLIS;
    let secs = shifted / 1000;
    let day = secs / 86400;
    let sod = secs % 86400;
    assert(0 <= shifted <= 315569519999999);
    assert(shifted % 1000 == 0);
    assert(secs * 1000 == shifted);
    assert(day * 86400 + sod == secs);
    assert(0 <= sod < 86400);
    lemma_days_before_year_closed(10000);
    assert(days_before_year(10000) == 3652425);
    assert(day < 3652425);
    lemma_year_split(day, 0);
    let (y, doy) = year_split(day, 0);
    lemma_month_split(y, doy, 1);
    let (mo, dom) = month_split(y, doy, 1);
    let d = dom + 1;
    let h = sod / 3600;
    let mi = (sod % 3600) / 60;
    let s = sod % 60;
    assert(0 <= h <= 23);
    assert(0 <= mi <= 59);
    assert(0 <= s <= 59);
    assert((sod % 3600) % 60 == sod % 60);
    assert(h * 3600 + mi * 60 + s == sod);
    assert(civil_of_ts(t) == (y, mo, d, h, mi, s));
    let iso = iso_repr(y, mo, d, h, mi, s);
    assert(iso_of_millis(t) == iso);
    lemma_iso_repr_fields(y, mo, d, h, mi, s);
    // Normalization leaves the rendering unchanged.
    assert(!is_ws_char(iso[0]));
    assert(trim_front(iso) == iso);
    assert(iso.last() == 'Z');
    assert(!is_ws_char(iso.last()));
    assert(trim_back(iso) == iso);
    assert(space_to_t(iso) =~= iso);
    assert(normalize_ts(iso) == iso);
    // The suffix is the lone `Z`.
    let u = iso.skip(19);
    assert(u.len() == 1);
    assert(u[0] == iso[19]);
    assert(u[0] == 'Z');
    assert(parse_offset(u) == Some(0int));
    assert(parse_suffix(u) == Some((0int, 0int)));
    // The fields are valid and reassemble to the original value.
    assert(fields_valid(y, mo, d, h, mi, s));
    assert(days_before_year(y) + days_before_month(y, mo) + d - 1 == day);
    assert(civil_to_millis(y, mo, d, h, mi, s, 0) == t);
    assert(parse_normalized(iso) == Some(t));
}

} // verus!
