//! Atoms of the query language: dates, timestamps, numbers, identifiers and the null word.
use vstd::prelude::*;
use crate::text::chars_of;

verus! {

/// A day of the proleptic Gregorian calendar.
#[derive(Debug, Clone, Copy, PartialEq, Eq, Structural)]
pub struct CalendarDate {
    pub year: i32,
    pub month: u8,
    pub day: u8,
}

/// An instant with its UTC offset, as RFC 3339 writes it.
#[derive(Debug, Clone, Copy, PartialEq, Eq, Structural)]
pub struct Timestamp {
    pub date: CalendarDate,
    pub hour: u8,
    pub minute: u8,
    pub second: u8,
    pub nanosecond: u32,
    pub offset_seconds: i32,
}

/// ASCII upper-case letters in lower case, other characters as they are.
pub open spec fn ascii_lower(c: char) -> char {
    if 'A' <= c && c <= 'Z' {
        ((c as u8) + 32) as char
    } else {
        c
    }
}

/// Equality up to the case of ASCII letters.
pub open spec fn ascii_ci_equal(a: Seq<char>, b: Seq<char>) -> bool {
    a.len() == b.len() && forall|i: int| 0 <= i < a.len() ==> ascii_lower(#[trigger] a[i]) == ascii_lower(b[i])
}

fn lower_char(c: char) -> (r: char)
    ensures
        r == ascii_lower(c),
{
    if 'A' <= c && c <= 'Z' {
        ((c as u8) + 32) as char
    } else {
        c
    }
}

/// Whether `a` and `b` are equal up to the case of ASCII letters.
pub fn ascii_ci_eq(a: &Vec<char>, b: &Vec<char>) -> (r: bool)
    ensures
        r == ascii_ci_equal(a@, b@),
{
    if a.len() != b.len() {
        return false;
    }
    let mut i: usize = 0;
    while i < a.len()
        invariant
            a.len() == b.len(),
            i <= a.len(),
            forall|j: int| 0 <= j < i ==> ascii_lower(#[trigger] a@[j]) == ascii_lower(b@[j]),
        decreases a.len() - i,
    {
        if lower_char(a[i]) != lower_char(b[i]) {
            return false;
        }
        i += 1;
    }
    true
}

/// The word that stands for SQL NULL in any comparison.
pub open spec fn is_null_word(v: Seq<char>) -> bool {
    ascii_ci_equal(v, seq!['n', 'u', 'l', 'l'])
}

/// Whether `v` is the null word, in any case.
pub fn is_null_value(v: &Vec<char>) -> (r: bool)
    ensures
        r == is_null_word(v@),
{
    let w = vec!['n', 'u', 'l', 'l'];
    assert(w@ =~= seq!['n', 'u', 'l', 'l']);
    ascii_ci_eq(v, &w)
}

/// `true` or `false`, in any case.
pub open spec fn boolean_of(v: Seq<char>) -> Option<bool> {
    if ascii_ci_equal(v, seq!['t', 'r', 'u', 'e']) {
        Some(true)
    } else if ascii_ci_equal(v, seq!['f', 'a', 'l', 's', 'e']) {
        Some(false)
    } else {
        None
    }
}

/// Reads `true` or `false`, in any case.
pub fn parse_boolean(v: &Vec<char>) -> (r: Option<bool>)
    ensures
        r == boolean_of(v@),
{
    let t = vec!['t', 'r', 'u', 'e'];
    let f = vec!['f', 'a', 'l', 's', 'e'];
    assert(t@ =~= seq!['t', 'r', 'u', 'e']);
    assert(f@ =~= seq!['f', 'a', 'l', 's', 'e']);
    if ascii_ci_eq(v, &t) {
        Some(true)
    } else if ascii_ci_eq(v, &f) {
        Some(false)
    } else {
        None
    }
}

/// The integer that `s` writes in decimal: an optional `+` or `-`, then one or more
/// digits. This is what `str::parse` reads for the integer types, before the range check.
pub open spec fn decimal_of(s: Seq<char>) -> Option<int> {
    if s.len() > 0 && (s[0] == '+' || s[0] == '-') {
        let body = s.drop_first();
        if body.len() > 0 && all_digits(body) {
            Some(if s[0] == '-' { -digits_value(body) } else { digits_value(body) })
        } else {
            None
        }
    } else if s.len() > 0 && all_digits(s) {
        Some(digits_value(s))
    } else {
        None
    }
}

/// What `str::parse::<i64>` reads from `s`: its decimal integer, when in range.
pub open spec fn integer_of(s: Seq<char>) -> Option<i64> {
    match decimal_of(s) {
        Some(n) => if i64::MIN <= n <= i64::MAX {
            Some(n as i64)
        } else {
            None
        },
        None => None,
    }
}

proof fn lemma_digits_grow(s: Seq<char>, i: int)
    requires
        all_digits(s),
        0 <= i <= s.len(),
    ensures
        digits_value(s) >= digits_value(s.take(i)),
    decreases s.len() - i,
{
    if i < s.len() {
        lemma_digits_grow(s, i + 1);
        assert(s.take(i + 1).drop_last() =~= s.take(i));
        assert(all_digits(s.take(i))) by {
            assert forall|j: int| 0 <= j < s.take(i).len() implies is_digit(#[trigger] s.take(i)[j]) by {
                assert(s.take(i)[j] == s[j]);
            }
        }
        lemma_digits_bound(s.take(i));
        assert(is_digit(s[i]));
        assert(s.take(i + 1).last() == s[i]);
    } else {
        assert(s.take(i) =~= s);
    }
}

/// Reads a decimal `i64` as `str::parse` does.
pub(crate) fn parse_i64(s: &str) -> (r: Option<i64>)
    ensures
        r == integer_of(s@),
{
    let cs = chars_of(s);
    if cs.len() == 0 {
        return None;
    }
    let signed = cs[0] == '+' || cs[0] == '-';
    let negative = cs[0] == '-';
    let from: usize = if signed { 1 } else { 0 };
    let ghost body = cs@.skip(from as int);
    assert(signed ==> body =~= cs@.drop_first());
    assert(!signed ==> body =~= cs@);
    if from == cs.len() {
        return None;
    }
    let bound: u128 = 9_223_372_036_854_775_808;
    let mut v: u128 = 0;
    let mut i: usize = from;
    assert(body.take(0) =~= Seq::<char>::empty());
    while i < cs.len()
        invariant
            from <= i <= cs.len(),
            cs@ == s@,
            cs.len() > 0,
            signed == (s@[0] == '+' || s@[0] == '-'),
            from == (if signed { 1usize } else { 0usize }),
            bound == 9_223_372_036_854_775_808u128,
            body == cs@.skip(from as int),
            signed ==> body == s@.drop_first(),
            !signed ==> body == s@,
            negative == (s@[0] == '-'),
            all_digits(body.take(i - from)),
            v as int == digits_value(body.take(i - from)),
            v <= bound,
        decreases cs.len() - i,
    {
        let c = cs[i];
        let ghost k = (i - from) as int;
        assert(body[k] == cs@[i as int]);
        if !(c >= '0' && c <= '9') {
            assert(!is_digit(body[k]));
            assert(!all_digits(body));
            assert(decimal_of(s@) is None);
            return None;
        }
        assert(body.take(k + 1).drop_last() =~= body.take(k));
        assert(body.take(k + 1).last() == c);
        assert(all_digits(body.take(k + 1))) by {
            assert forall|j: int| 0 <= j < body.take(k + 1).len() implies is_digit(#[trigger] body.take(k + 1)[j]) by {
                if j < k {
                    assert(body.take(k + 1)[j] == body.take(k)[j]);
                }
            }
        }
        assert(v * 10 <= bound * 10) by (nonlinear_arith)
            requires v <= bound;
        v = v * 10 + ((c as u32) - ('0' as u32)) as u128;
        i += 1;
        assert(v as int == digits_value(body.take(k + 1)));
        if v > bound {
            proof {
                if all_digits(body) {
                    lemma_digits_grow(body, k + 1);
                    assert(digits_value(body) > 9_223_372_036_854_775_808);
                }
                assert(decimal_of(s@) matches Some(n) ==> !(i64::MIN <= n <= i64::MAX));
            }
            return None;
        }
    }
    assert(body.take(body.len() as int) =~= body);
    if negative {
        Some((0 - (v as i128)) as i64)
    } else if v < bound {
        Some(v as i64)
    } else {
        None
    }
}

/// What `uuid::Uuid::parse_str` reads from `s`, as a 128-bit number.
pub uninterp spec fn uuid_of(s: Seq<char>) -> Option<u128>;

/// Relies on `uuid::Uuid::parse_str` and `Uuid::as_u128`: the text forms of a UUID.
#[verifier::external_body]
pub(crate) fn parse_uuid_str(s: &str) -> (r: Option<u128>)
    ensures
        r == uuid_of(s@),
{
    match uuid::Uuid::parse_str(s) {
        Ok(u) => Some(u.as_u128()),
        Err(_) => None,
    }
}

/// What `time::OffsetDateTime::parse` with the RFC 3339 description reads from `s`.
pub uninterp spec fn rfc3339_of(s: Seq<char>) -> Option<Timestamp>;

/// Relies on `time::OffsetDateTime::parse` with `well_known::Rfc3339`: a date, a time and
/// an offset as RFC 3339 writes them.
#[verifier::external_body]
pub(crate) fn parse_rfc3339(s: &str) -> (r: Option<Timestamp>)
    ensures
        r == rfc3339_of(s@),
{
    match time::OffsetDateTime::parse(s, &time::format_description::well_known::Rfc3339) {
        Ok(t) => Some(Timestamp {
            date: CalendarDate { year: t.year(), month: t.month() as u8, day: t.day() },
            hour: t.hour(),
            minute: t.minute(),
            second: t.second(),
            nanosecond: t.nanosecond(),
            offset_seconds: t.offset().whole_seconds(),
        }),
        Err(_) => None,
    }
}

/// Leap years of the Gregorian calendar.
pub open spec fn is_leap_year(y: int) -> bool {
    (y % 4 == 0 && y % 100 != 0) || y % 400 == 0
}

/// The number of days of month `m` (1 to 12) of year `y`.
pub open spec fn days_in_month(y: int, m: int) -> int {
    if m == 2 {
        if is_leap_year(y) { 29 } else { 28 }
    } else if m == 4 || m == 6 || m == 9 || m == 11 {
        30
    } else {
        31
    }
}

/// A day that the calendar has, in years 0 to 9999.
pub open spec fn valid_date(d: CalendarDate) -> bool {
    0 <= d.year <= 9999 && 1 <= d.month <= 12 && 1 <= d.day <= days_in_month(
        d.year as int,
        d.month as int,
    )
}

pub open spec fn is_digit(c: char) -> bool {
    '0' <= c && c <= '9'
}

pub open spec fn digit_value(c: char) -> int {
    (c as u32 - '0' as u32) as int
}

/// The number written by the decimal digits `s`.
pub open spec fn digits_value(s: Seq<char>) -> int
    decreases s.len(),
{
    if s.len() == 0 {
        0
    } else {
        digits_value(s.drop_last()) * 10 + digit_value(s.last())
    }
}

pub open spec fn all_digits(s: Seq<char>) -> bool {
    forall|i: int| 0 <= i < s.len() ==> is_digit(#[trigger] s[i])
}

/// The day that `YYYY-MM-DD` names, if the calendar has it.
pub open spec fn iso_date_of(s: Seq<char>) -> Option<CalendarDate> {
    if s.len() == 10 && s[4] == '-' && s[7] == '-' && all_digits(s.take(4)) && all_digits(
        s.subrange(5, 7),
    ) && all_digits(s.subrange(8, 10)) {
        let d = CalendarDate {
            year: digits_value(s.take(4)) as i32,
            month: digits_value(s.subrange(5, 7)) as u8,
            day: digits_value(s.subrange(8, 10)) as u8,
        };
        if valid_date(d) {
            Some(d)
        } else {
            None
        }
    } else {
        None
    }
}

proof fn lemma_digits_bound(s: Seq<char>)
    requires
        all_digits(s),
    ensures
        0 <= digits_value(s) < pow10(s.len()),
    decreases s.len(),
{
    if s.len() > 0 {
        assert(all_digits(s.drop_last()));
        lemma_digits_bound(s.drop_last());
        assert(is_digit(s[s.len() - 1]));
    }
}

pub open spec fn pow10(n: nat) -> int
    decreases n,
{
    if n == 0 {
        1
    } else {
        10 * pow10((n - 1) as nat)
    }
}

/// The number written by the decimal digits `s[from..to]`, with at most four digits.
fn digits_number(s: &Vec<char>, from: usize, to: usize) -> (r: u32)
    requires
        from <= to <= s.len(),
        to - from <= 4,
        all_digits(s@.subrange(from as int, to as int)),
    ensures
        r == digits_value(s@.subrange(from as int, to as int)),
{
    let mut r: u32 = 0;
    let mut i: usize = from;
    while i < to
        invariant
            from <= i <= to <= s.len(),
            to - from <= 4,
            all_digits(s@.subrange(from as int, to as int)),
            r == digits_value(s@.subrange(from as int, i as int)),
            r < pow10((i - from) as nat),
        decreases to - i,
    {
        assert(s@.subrange(from as int, i + 1).drop_last() =~= s@.subrange(from as int, i as int));
        assert(is_digit(s@.subrange(from as int, to as int)[i - from]));
        assert(pow10((i - from) as nat) <= 1000) by {
            reveal_with_fuel(pow10, 5);
        }
        assert(pow10((i + 1 - from) as nat) == 10 * pow10((i - from) as nat));
        r = r * 10 + (s[i] as u32 - '0' as u32);
        i += 1;
    }
    r
}

/// Reads a calendar day written `YYYY-MM-DD`.
pub fn parse_iso_date(s: &Vec<char>) -> (r: Option<CalendarDate>)
    ensures
        r == iso_date_of(s@),
{
    if s.len() != 10 || s[4] != '-' || s[7] != '-' {
        return None;
    }
    let mut i: usize = 0;
    while i < 10
        invariant
            s.len() == 10,
            i <= 10,
            forall|j: int| 0 <= j < i && j != 4 && j != 7 ==> is_digit(#[trigger] s@[j]),
        decreases 10 - i,
    {
        if i != 4 && i != 7 && !(s[i] >= '0' && s[i] <= '9') {
            assert(!all_digits(s@.take(4)) || !all_digits(s@.subrange(5, 7)) || !all_digits(
                s@.subrange(8, 10),
            )) by {
                if i < 4 {
                    assert(!is_digit(s@.take(4)[i as int]));
                } else if i < 7 {
                    assert(!is_digit(s@.subrange(5, 7)[i - 5]));
                } else {
                    assert(!is_digit(s@.subrange(8, 10)[i - 8]));
                }
            }
            return None;
        }
        i += 1;
    }
    assert(all_digits(s@.take(4)));
    assert(all_digits(s@.subrange(5, 7)));
    assert(all_digits(s@.subrange(8, 10)));
    assert(s@.subrange(0, 4) =~= s@.take(4));
    let y = digits_number(s, 0, 4);
    let m = digits_number(s, 5, 7);
    let d = digits_number(s, 8, 10);
    proof {
        lemma_digits_bound(s@.take(4));
        lemma_digits_bound(s@.subrange(5, 7));
        lemma_digits_bound(s@.subrange(8, 10));
        reveal_with_fuel(pow10, 5);
    }
    let date = CalendarDate { year: y as i32, month: m as u8, day: d as u8 };
    let leap = (y % 4 == 0 && y % 100 != 0) || y % 400 == 0;
    let dim: u32 = if m == 2 {
        if leap { 29 } else { 28 }
    } else if m == 4 || m == 6 || m == 9 || m == 11 {
        30
    } else {
        31
    };
    if 1 <= m && m <= 12 && 1 <= d && d <= dim {
        Some(date)
    } else {
        None
    }
}

/// The day `days` days after `d` (before it, for a negative count), as `time` counts.
pub uninterp spec fn date_after(d: CalendarDate, days: int) -> Option<CalendarDate>;

/// Relies on `time::Date::checked_add`: the calendar day that many days away, if
/// `time` can represent it.
#[verifier::external_body]
fn shift_date(d: CalendarDate, days: i64) -> (r: Option<CalendarDate>)
    requires
        valid_date(d),
        -1_000_000 <= days <= 1_000_000,
    ensures
        r == date_after(d, days as int),
{
    let month = time::Month::try_from(d.month).ok()?;
    let date = time::Date::from_calendar_date(d.year as i32, month, d.day).ok()?;
    let shifted = date.checked_add(time::Duration::days(days))?;
    Some(CalendarDate { year: shifted.year(), month: shifted.month() as u8, day: shifted.day() })
}

/// The length of the longest prefix of decimal digits.
pub open spec fn digit_prefix_len(v: Seq<char>) -> nat
    decreases v.len(),
{
    if v.len() > 0 && is_digit(v[0]) {
        1 + digit_prefix_len(v.drop_first())
    } else {
        0
    }
}

/// The day offset that a day phrase names: `today`, `yesterday`, `tomorrow`,
/// `last week`, `next week`, in any case. These resolve to dates.
pub open spec fn human_day_offset(v: Seq<char>) -> Option<int> {
    if ascii_ci_equal(v, word_today()) {
        Some(0)
    } else if ascii_ci_equal(v, word_yesterday()) {
        Some(-1)
    } else if ascii_ci_equal(v, word_tomorrow()) {
        Some(1)
    } else if ascii_ci_equal(v, word_last_week()) {
        Some(-7)
    } else if ascii_ci_equal(v, word_next_week()) {
        Some(7)
    } else {
        None
    }
}

pub open spec fn word_today() -> Seq<char> {
    seq!['t', 'o', 'd', 'a', 'y']
}

pub open spec fn word_yesterday() -> Seq<char> {
    seq!['y', 'e', 's', 't', 'e', 'r', 'd', 'a', 'y']
}

pub open spec fn word_tomorrow() -> Seq<char> {
    seq!['t', 'o', 'm', 'o', 'r', 'r', 'o', 'w']
}

pub open spec fn word_last_week() -> Seq<char> {
    seq!['l', 'a', 's', 't', ' ', 'w', 'e', 'e', 'k']
}

pub open spec fn word_next_week() -> Seq<char> {
    seq!['n', 'e', 'x', 't', ' ', 'w', 'e', 'e', 'k']
}

pub open spec fn word_now() -> Seq<char> {
    seq!['n', 'o', 'w']
}

pub open spec fn word_ago() -> Seq<char> {
    seq![' ', 'a', 'g', 'o']
}

pub open spec fn word_in() -> Seq<char> {
    seq!['i', 'n', ' ']
}

pub open spec fn word_a() -> Seq<char> {
    seq!['a', ' ']
}

pub open spec fn word_an() -> Seq<char> {
    seq!['a', 'n', ' ']
}

pub open spec fn word_second() -> Seq<char> {
    seq!['s', 'e', 'c', 'o', 'n', 'd']
}

pub open spec fn word_seconds() -> Seq<char> {
    seq!['s', 'e', 'c', 'o', 'n', 'd', 's']
}

pub open spec fn word_minute() -> Seq<char> {
    seq!['m', 'i', 'n', 'u', 't', 'e']
}

pub open spec fn word_minutes() -> Seq<char> {
    seq!['m', 'i', 'n', 'u', 't', 'e', 's']
}

pub open spec fn word_hour() -> Seq<char> {
    seq!['h', 'o', 'u', 'r']
}

pub open spec fn word_hours() -> Seq<char> {
    seq!['h', 'o', 'u', 'r', 's']
}

pub open spec fn word_day() -> Seq<char> {
    seq!['d', 'a', 'y']
}

pub open spec fn word_days() -> Seq<char> {
    seq!['d', 'a', 'y', 's']
}

pub open spec fn word_week() -> Seq<char> {
    seq!['w', 'e', 'e', 'k']
}

pub open spec fn word_weeks() -> Seq<char> {
    seq!['w', 'e', 'e', 'k', 's']
}

/// The seconds in one of the units `second`, `minute`, `hour`, `day`, `week`
/// (singular or plural, any case).
pub open spec fn unit_seconds(w: Seq<char>) -> Option<int> {
    if ascii_ci_equal(w, word_second()) || ascii_ci_equal(w, word_seconds()) {
        Some(1)
    } else if ascii_ci_equal(w, word_minute()) || ascii_ci_equal(w, word_minutes()) {
        Some(60)
    } else if ascii_ci_equal(w, word_hour()) || ascii_ci_equal(w, word_hours()) {
        Some(3600)
    } else if ascii_ci_equal(w, word_day()) || ascii_ci_equal(w, word_days()) {
        Some(86400)
    } else if ascii_ci_equal(w, word_week()) || ascii_ci_equal(w, word_weeks()) {
        Some(604800)
    } else {
        None
    }
}

/// The seconds that an amount names: `N unit` (N of one to four digits), `a unit`
/// or `an unit`.
pub open spec fn amount_seconds(b: Seq<char>) -> Option<int> {
    let k = digit_prefix_len(b);
    if 1 <= k <= 4 && b.len() > k && b[k as int] == ' ' {
        match unit_seconds(b.skip((k + 1) as int)) {
            Some(u) => Some(digits_value(b.take(k as int)) * u),
            None => None,
        }
    } else if b.len() >= 2 && ascii_ci_equal(b.take(2), word_a()) {
        unit_seconds(b.skip(2))
    } else if b.len() >= 3 && ascii_ci_equal(b.take(3), word_an()) {
        unit_seconds(b.skip(3))
    } else {
        None
    }
}

/// The offset in seconds that an instant phrase names: `now`, `<amount> ago` or
/// `in <amount>`, in any case. These resolve to instants. Months, years and
/// weekday phrases are not read.
pub open spec fn human_second_offset(v: Seq<char>) -> Option<int> {
    if ascii_ci_equal(v, word_now()) {
        Some(0)
    } else if v.len() >= 4 && ascii_ci_equal(v.skip(v.len() - 4), word_ago()) {
        match amount_seconds(v.take(v.len() - 4)) {
            Some(n) => Some(-n),
            None => None,
        }
    } else if v.len() >= 3 && ascii_ci_equal(v.take(3), word_in()) {
        amount_seconds(v.skip(3))
    } else {
        None
    }
}

fn digit_prefix_length(v: &Vec<char>) -> (r: usize)
    ensures
        r == digit_prefix_len(v@),
        r <= v.len(),
        all_digits(v@.take(r as int)),
{
    let mut i: usize = 0;
    assert(v@.skip(0) =~= v@);
    while i < v.len() && v[i] >= '0' && v[i] <= '9'
        invariant
            i <= v.len(),
            digit_prefix_len(v@) == i + digit_prefix_len(v@.skip(i as int)),
            all_digits(v@.take(i as int)),
        decreases v.len() - i,
    {
        assert(v@.skip(i as int).drop_first() =~= v@.skip(i + 1));
        assert(v@.take(i + 1)[i as int] == v@[i as int]);
        i += 1;
    }
    if i < v.len() {
        assert(v@.skip(i as int)[0] == v@[i as int]);
    }
    i
}

fn vec_range(v: &Vec<char>, from: usize) -> (r: Vec<char>)
    requires
        from <= v.len(),
    ensures
        r@ == v@.skip(from as int),
{
    let mut r: Vec<char> = Vec::new();
    let mut i: usize = from;
    while i < v.len()
        invariant
            from <= i <= v.len(),
            r@ == v@.subrange(from as int, i as int),
        decreases v.len() - i,
    {
        r.push(v[i]);
        i += 1;
        assert(r@ =~= v@.subrange(from as int, i as int));
    }
    r
}

fn vec_take(v: &Vec<char>, n: usize) -> (r: Vec<char>)
    requires
        n <= v.len(),
    ensures
        r@ == v@.take(n as int),
{
    let mut r: Vec<char> = Vec::new();
    let mut i: usize = 0;
    while i < n
        invariant
            i <= n <= v.len(),
            r@ == v@.take(i as int),
        decreases n - i,
    {
        r.push(v[i]);
        i += 1;
        assert(r@ =~= v@.take(i as int));
    }
    r
}

/// Reads a day phrase as a day offset.
pub fn human_offset(v: &Vec<char>) -> (r: Option<i64>)
    ensures
        match r {
            Some(n) => human_day_offset(v@) == Some(n as int) && -7 <= n <= 7,
            None => human_day_offset(v@) is None,
        },
{
    let today = vec!['t', 'o', 'd', 'a', 'y'];
    let yesterday = vec!['y', 'e', 's', 't', 'e', 'r', 'd', 'a', 'y'];
    let tomorrow = vec!['t', 'o', 'm', 'o', 'r', 'r', 'o', 'w'];
    let last_week = vec!['l', 'a', 's', 't', ' ', 'w', 'e', 'e', 'k'];
    let next_week = vec!['n', 'e', 'x', 't', ' ', 'w', 'e', 'e', 'k'];
    assert(today@ =~= word_today());
    assert(yesterday@ =~= word_yesterday());
    assert(tomorrow@ =~= word_tomorrow());
    assert(last_week@ =~= word_last_week());
    assert(next_week@ =~= word_next_week());
    if ascii_ci_eq(v, &today) {
        Some(0)
    } else if ascii_ci_eq(v, &yesterday) {
        Some(-1)
    } else if ascii_ci_eq(v, &tomorrow) {
        Some(1)
    } else if ascii_ci_eq(v, &last_week) {
        Some(-7)
    } else if ascii_ci_eq(v, &next_week) {
        Some(7)
    } else {
        None
    }
}

fn unit_seconds_exec(w: &Vec<char>) -> (r: Option<i64>)
    ensures
        match r {
            Some(u) => unit_seconds(w@) == Some(u as int) && 1 <= u <= 604800,
            None => unit_seconds(w@) is None,
        },
{
    let second = vec!['s', 'e', 'c', 'o', 'n', 'd'];
    let seconds = vec!['s', 'e', 'c', 'o', 'n', 'd', 's'];
    assert(second@ =~= word_second() && seconds@ =~= word_seconds());
    let minute = vec!['m', 'i', 'n', 'u', 't', 'e'];
    let minutes = vec!['m', 'i', 'n', 'u', 't', 'e', 's'];
    assert(minute@ =~= word_minute() && minutes@ =~= word_minutes());
    let hour = vec!['h', 'o', 'u', 'r'];
    let hours = vec!['h', 'o', 'u', 'r', 's'];
    assert(hour@ =~= word_hour() && hours@ =~= word_hours());
    let day = vec!['d', 'a', 'y'];
    let days = vec!['d', 'a', 'y', 's'];
    assert(day@ =~= word_day() && days@ =~= word_days());
    let week = vec!['w', 'e', 'e', 'k'];
    let weeks = vec!['w', 'e', 'e', 'k', 's'];
    assert(week@ =~= word_week() && weeks@ =~= word_weeks());
    if ascii_ci_eq(w, &second) || ascii_ci_eq(w, &seconds) {
        Some(1)
    } else if ascii_ci_eq(w, &minute) || ascii_ci_eq(w, &minutes) {
        Some(60)
    } else if ascii_ci_eq(w, &hour) || ascii_ci_eq(w, &hours) {
        Some(3600)
    } else if ascii_ci_eq(w, &day) || ascii_ci_eq(w, &days) {
        Some(86400)
    } else if ascii_ci_eq(w, &week) || ascii_ci_eq(w, &weeks) {
        Some(604800)
    } else {
        None
    }
}

fn amount_seconds_exec(b: &Vec<char>) -> (r: Option<i64>)
    ensures
        match r {
            Some(n) => amount_seconds(b@) == Some(n as int) && 0 <= n <= 6_048_000_000,
            None => amount_seconds(b@) is None,
        },
{
    let k = digit_prefix_length(b);
    if 1 <= k && k <= 4 && b.len() > k && b[k] == ' ' {
        let n = digits_number(b, 0, k);
        assert(b@.subrange(0, k as int) =~= b@.take(k as int));
        proof {
            lemma_digits_bound(b@.take(k as int));
            reveal_with_fuel(pow10, 5);
        }
        return match unit_seconds_exec(&vec_range(b, k + 1)) {
            Some(u) => {
                assert((n as int) * (u as int) <= 10000 * 604800) by (nonlinear_arith)
                    requires n < 10000, 1 <= u <= 604800;
                assert((n as int) * (u as int) >= 0) by (nonlinear_arith)
                    requires n >= 0, u >= 1;
                Some((n as i64) * u)
            },
            None => None,
        };
    }
    let a = vec!['a', ' '];
    let an = vec!['a', 'n', ' '];
    assert(a@ =~= word_a() && an@ =~= word_an());
    if b.len() >= 2 && ascii_ci_eq(&vec_take(b, 2), &a) {
        unit_seconds_exec(&vec_range(b, 2))
    } else if b.len() >= 3 && ascii_ci_eq(&vec_take(b, 3), &an) {
        unit_seconds_exec(&vec_range(b, 3))
    } else {
        None
    }
}

/// Reads an instant phrase as an offset in seconds.
pub fn human_seconds(v: &Vec<char>) -> (r: Option<i64>)
    ensures
        match r {
            Some(n) => human_second_offset(v@) == Some(n as int) && -6_048_000_000 <= n <= 6_048_000_000,
            None => human_second_offset(v@) is None,
        },
{
    let now = vec!['n', 'o', 'w'];
    let ago = vec![' ', 'a', 'g', 'o'];
    let inw = vec!['i', 'n', ' '];
    assert(now@ =~= word_now() && ago@ =~= word_ago() && inw@ =~= word_in());
    if ascii_ci_eq(v, &now) {
        Some(0)
    } else if v.len() >= 4 && ascii_ci_eq(&vec_range(v, v.len() - 4), &ago) {
        match amount_seconds_exec(&vec_take(v, v.len() - 4)) {
            Some(n) => Some(-n),
            None => None,
        }
    } else if v.len() >= 3 && ascii_ci_eq(&vec_take(v, 3), &inw) {
        amount_seconds_exec(&vec_range(v, 3))
    } else {
        None
    }
}

/// The instant `seconds` seconds after `t` (before it, when negative), at the same
/// offset, with the calendar day moved as `date_after` moves it.
pub open spec fn timestamp_after(t: Timestamp, seconds: int) -> Option<Timestamp> {
    let total = t.hour * 3600 + t.minute * 60 + t.second + seconds;
    let rem = total % 86400;
    match date_after(t.date, total / 86400) {
        Some(d) => Some(
            Timestamp {
                date: d,
                hour: (rem / 3600) as u8,
                minute: ((rem % 3600) / 60) as u8,
                second: (rem % 60) as u8,
                nanosecond: t.nanosecond,
                offset_seconds: t.offset_seconds,
            },
        ),
        None => None,
    }
}

/// A timestamp whose fields are in range.
pub open spec fn valid_timestamp(t: Timestamp) -> bool {
    valid_date(t.date) && t.hour < 24 && t.minute < 60 && t.second < 60
}

/// The instant `seconds` seconds after `t`.
pub fn shift_timestamp(t: Timestamp, seconds: i64) -> (r: Option<Timestamp>)
    requires
        valid_timestamp(t),
        -6_048_000_000 <= seconds <= 6_048_000_000,
    ensures
        r == timestamp_after(t, seconds as int),
{
    let day: i64 = 86400;
    let base: i64 = 100_000;
    let total: i64 = (t.hour as i64) * 3600 + (t.minute as i64) * 60 + (t.second as i64) + seconds;
    let shifted: i64 = total + base * day;
    let days: i64 = shifted / day - base;
    let rem: i64 = shifted % day;
    proof {
        vstd::arithmetic::div_mod::lemma_hoist_over_denominator(total as int, base as int, 86400);
        vstd::arithmetic::div_mod::lemma_mod_multiples_vanish(base as int, total as int, 86400);
        assert(shifted as int == total as int + (base as int) * 86400);
        assert(days as int == (total as int) / 86400);
        assert(rem as int == (total as int) % 86400);
    }
    match shift_date(t.date, days) {
        Some(d) => Some(Timestamp {
            date: d,
            hour: (rem / 3600) as u8,
            minute: ((rem % 3600) / 60) as u8,
            second: (rem % 60) as u8,
            nanosecond: t.nanosecond,
            offset_seconds: t.offset_seconds,
        }),
        None => None,
    }
}

/// The day a date value names: `YYYY-MM-DD`, or a phrase of relative time counted from `today`.
pub open spec fn date_value_of(v: Seq<char>, today: CalendarDate) -> Option<CalendarDate> {
    match iso_date_of(v) {
        Some(d) => Some(d),
        None => match human_day_offset(v) {
            Some(n) => date_after(today, n),
            None => None,
        },
    }
}

/// Reads a date value, counting relative phrases from `today`.
pub fn parse_date_value(v: &Vec<char>, today: CalendarDate) -> (r: Option<CalendarDate>)
    requires
        valid_date(today),
    ensures
        r == date_value_of(v@, today),
{
    match parse_iso_date(v) {
        Some(d) => Some(d),
        None => match human_offset(v) {
            Some(n) => shift_date(today, n),
            None => None,
        },
    }
}

} // verus!
