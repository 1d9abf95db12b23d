//! Revisions as entity tags: `"<revision>"` in `ETag`, read back from `If-Match`.
use vstd::prelude::*;
use crate::error::Error;
use crate::text::{chars_of, string_of};
use crate::value::{decimal_of, parse_i64};

verus! {

/// The decimal digits of `n`, with `-` before a negative number.
pub open spec fn decimal(n: int) -> Seq<char>
    decreases (if n < 0 { -n + 1 } else { n }),
{
    if n < 0 {
        seq!['-'] + decimal(-n)
    } else if n < 10 {
        seq![(n + '0' as int) as char]
    } else {
        decimal(n / 10) + seq![((n % 10) + '0' as int) as char]
    }
}

/// The decimal digits of the non-negative `n`.
fn digits(n: u64) -> (r: Vec<char>)
    ensures
        r@ == decimal(n as int),
{
    let mut m: u64 = n;
    let mut tail: Vec<char> = Vec::new();
    assert(decimal(n as int) =~= decimal(m as int) + tail@);
    while m >= 10
        invariant
            decimal(n as int) == decimal(m as int) + tail@,
        decreases m,
    {
        let d = (m % 10) as u8;
        let ghost before = tail@;
        tail.insert(0, (d + 48) as char);
        assert(decimal(m as int) == decimal((m / 10) as int) + seq![(((m % 10) as int) + '0' as int) as char]);
        m = m / 10;
        assert(decimal(n as int) =~= decimal(m as int) + tail@);
    }
    let mut r: Vec<char> = vec![((m as u8) + 48) as char];
    let mut i: usize = 0;
    let ghost first = r@;
    assert(first =~= decimal(m as int));
    while i < tail.len()
        invariant
            i <= tail.len(),
            r@ == first + tail@.take(i as int),
        decreases tail.len() - i,
    {
        r.push(tail[i]);
        i += 1;
        assert(r@ =~= first + tail@.take(i as int));
    }
    assert(tail@.take(tail.len() as int) =~= tail@);
    r
}

/// The entity tag of a revision: its decimal digits in double quotes.
pub fn etag(revision: i32) -> (r: String)
    ensures
        r@ == seq!['"'] + decimal(revision as int) + seq!['"'],
{
    let wide = revision as i64;
    let magnitude: u64 = if wide < 0 { (-wide) as u64 } else { wide as u64 };
    let ds = digits(magnitude);
    let mut out: Vec<char> = vec!['"'];
    if wide < 0 {
        out.push('-');
    }
    let ghost head = out@;
    let mut i: usize = 0;
    while i < ds.len()
        invariant
            i <= ds.len(),
            out@ == head + ds@.take(i as int),
        decreases ds.len() - i,
    {
        out.push(ds[i]);
        i += 1;
        assert(out@ =~= head + ds@.take(i as int));
    }
    assert(ds@.take(ds.len() as int) =~= ds@);
    out.push('"');
    assert(out@ =~= seq!['"'] + decimal(revision as int) + seq!['"']);
    string_of(&out)
}

/// What `str::parse::<i32>` reads from `s`: its decimal integer, when in range.
pub open spec fn int32_of(s: Seq<char>) -> Option<i32> {
    match decimal_of(s) {
        Some(n) => if i32::MIN <= n <= i32::MAX {
            Some(n as i32)
        } else {
            None
        },
        None => None,
    }
}

/// Reads a decimal `i32` as `str::parse` does.
fn parse_i32(s: &str) -> (r: Option<i32>)
    ensures
        r == int32_of(s@),
{
    match parse_i64(s) {
        Some(n) => if i32::MIN as i64 <= n && n <= i32::MAX as i64 {
            Some(n as i32)
        } else {
            None
        },
        None => None,
    }
}

/// The number of double quotes that `s` starts with.
pub open spec fn leading_quotes(s: Seq<char>) -> nat
    decreases s.len(),
{
    if s.len() > 0 && s[0] == '"' {
        1 + leading_quotes(s.drop_first())
    } else {
        0
    }
}

/// The number of double quotes that `s` ends with.
pub open spec fn trailing_quotes(s: Seq<char>) -> nat
    decreases s.len(),
{
    if s.len() > 0 && s.last() == '"' {
        1 + trailing_quotes(s.drop_last())
    } else {
        0
    }
}

/// `s` without the double quotes at either end.
pub open spec fn strip_quotes(s: Seq<char>) -> Seq<char> {
    let t = s.skip(leading_quotes(s) as int);
    t.take(t.len() - trailing_quotes(t))
}

/// The revision that an `If-Match` value names.
pub open spec fn if_match_revision(value: Seq<char>) -> Result<i32, Error> {
    match int32_of(strip_quotes(value)) {
        Some(r) => Ok(r),
        None => Err(Error::InvalidIfMatch),
    }
}

/// Reads the revision of an `If-Match` value, such as `"3"`.
pub fn revision_from_if_match(value: &str) -> (r: Result<i32, Error>)
    ensures
        r == if_match_revision(value@),
{
    let cs = chars_of(value);
    let mut a: usize = 0;
    assert(cs@.skip(0) =~= cs@);
    while a < cs.len() && cs[a] == '"'
        invariant
            a <= cs.len(),
            leading_quotes(cs@) == a + leading_quotes(cs@.skip(a as int)),
        decreases cs.len() - a,
    {
        assert(cs@.skip(a as int).drop_first() =~= cs@.skip(a + 1));
        a += 1;
    }
    if a < cs.len() {
        assert(cs@.skip(a as int)[0] == cs@[a as int]);
    }
    let ghost t = cs@.skip(a as int);
    let mut b: usize = cs.len();
    assert(t.take((b - a) as int) =~= t);
    while b > a && cs[b - 1] == '"'
        invariant
            a <= b <= cs.len(),
            t == cs@.skip(a as int),
            trailing_quotes(t) == (cs.len() - b) + trailing_quotes(t.take((b - a) as int)),
        decreases b,
    {
        assert(t.take((b - a) as int).drop_last() =~= t.take((b - 1 - a) as int));
        b -= 1;
    }
    if b > a {
        assert(t.take((b - a) as int).last() == cs@[b - 1]);
    }
    let mut inner: Vec<char> = Vec::new();
    let mut k: usize = a;
    while k < b
        invariant
            a <= k <= b <= cs.len(),
            inner@ == cs@.subrange(a as int, k as int),
        decreases b - k,
    {
        inner.push(cs[k]);
        k += 1;
        assert(inner@ =~= cs@.subrange(a as int, k as int));
    }
    assert(inner@ =~= strip_quotes(value@));
    let s = string_of(&inner);
    match parse_i32(s.as_str()) {
        Some(r) => Ok(r),
        None => Err(Error::InvalidIfMatch),
    }
}

/// The revision that a required `If-Match` header names; its absence fails.
pub fn required_revision(header: Option<&str>) -> (r: Result<i32, Error>)
    ensures
        match header {
            None => r == Err::<i32, Error>(Error::MissingIfMatch),
            Some(v) => r == if_match_revision(v@),
        },
{
    match header {
        None => Err(Error::MissingIfMatch),
        Some(v) => revision_from_if_match(v),
    }
}

} // verus!
