//! Hierarchical group paths: `A/B\/C` names group `B/C` under `A`.
//!
//! Within a segment `\/` stands for a literal `/` and `\\` for a literal `\`.
use vstd::prelude::*;
use crate::error::Error;
use crate::text::{chars_of, string_of};

verus! {

/// The largest number of segments a path may have.
pub const MAX_PATH_DEPTH: usize = 20;

/// The views of a sequence of strings.
pub open spec fn strings_view(v: Seq<String>) -> Seq<Seq<char>> {
    v.map_values(|s: String| s@)
}

/// What percent-decoding `s` as UTF-8 gives, or `None` where the bytes are not UTF-8.
pub uninterp spec fn url_decoded(s: Seq<char>) -> Option<Seq<char>>;

/// Relies on `urlencoding::decode`: each `%XX` pair of hex digits becomes the byte it
/// names, other bytes are kept, and the result must be UTF-8. A string without `%` is
/// returned as it is.
#[verifier::external_body]
fn url_decode(s: &str) -> (r: Option<String>)
    ensures
        match r {
            Some(d) => url_decoded(s@) == Some(d@),
            None => url_decoded(s@) is None,
        },
        !s@.contains('%') ==> r is Some && r->Some_0@ == s@,
{
    match urlencoding::decode(s) {
        Ok(d) => Some(d.into_owned()),
        Err(_) => None,
    }
}

/// The names once the whole path is read, or the failure on too many of them.
pub open spec fn finish_path(names: Seq<Seq<char>>) -> Result<Seq<Seq<char>>, Error> {
    if names.len() > MAX_PATH_DEPTH {
        Err(Error::PathTooDeep(names.len() as usize))
    } else {
        Ok(names)
    }
}

/// Reads `rest`, with `cur` the segment read so far and `names` the segments before it.
pub open spec fn scan_path(rest: Seq<char>, cur: Seq<char>, names: Seq<Seq<char>>) -> Result<
    Seq<Seq<char>>,
    Error,
>
    decreases rest.len(),
{
    if rest.len() == 0 {
        if cur.len() > 0 {
            finish_path(names.push(cur))
        } else if names.len() > 0 {
            Err(Error::TrailingPathDelimiter)
        } else {
            Err(Error::EmptyPath)
        }
    } else if rest[0] == '\\' {
        if rest.len() == 1 {
            Err(Error::IncompletePathEscape)
        } else if rest[1] == '/' || rest[1] == '\\' {
            scan_path(rest.subrange(2, rest.len() as int), cur.push(rest[1]), names)
        } else {
            Err(Error::InvalidPathEscape(rest[1]))
        }
    } else if rest[0] == '/' {
        if cur.len() == 0 {
            Err(Error::EmptyPathSegment)
        } else {
            scan_path(rest.subrange(1, rest.len() as int), Seq::empty(), names.push(cur))
        }
    } else {
        scan_path(rest.subrange(1, rest.len() as int), cur.push(rest[0]), names)
    }
}

/// The group names that a decoded path denotes, or why it denotes none.
pub open spec fn split_path(p: Seq<char>) -> Result<Seq<Seq<char>>, Error> {
    scan_path(p, Seq::empty(), Seq::empty())
}

/// What `parse_path` gives for the raw (percent-encoded) path `raw`.
pub open spec fn parsed_path(raw: Seq<char>) -> Result<Seq<Seq<char>>, Error> {
    match url_decoded(raw) {
        None => Err(Error::InvalidUrlEncoding),
        Some(d) => split_path(d),
    }
}

/// A character as it stands in a path segment.
pub open spec fn escape_char(c: char) -> Seq<char> {
    if c == '/' || c == '\\' {
        seq!['\\', c]
    } else {
        seq![c]
    }
}

/// A group name as it stands in a path.
pub open spec fn escape_name(s: Seq<char>) -> Seq<char>
    decreases s.len(),
{
    if s.len() == 0 {
        Seq::empty()
    } else {
        escape_name(s.drop_last()) + escape_char(s.last())
    }
}

/// The path of a sequence of group names: escaped names joined by `/`.
pub open spec fn encode_path(names: Seq<Seq<char>>) -> Seq<char>
    decreases names.len(),
{
    if names.len() == 0 {
        Seq::empty()
    } else if names.len() == 1 {
        escape_name(names[0])
    } else {
        encode_path(names.drop_last()) + seq!['/'] + escape_name(names.last())
    }
}

/// The path text of the segments `names` before, and `cur` in, the segment being read.
pub open spec fn path_prefix(names: Seq<Seq<char>>, cur: Seq<char>) -> Seq<char> {
    if names.len() == 0 {
        escape_name(cur)
    } else {
        encode_path(names) + seq!['/'] + escape_name(cur)
    }
}

proof fn lemma_encode_push(names: Seq<Seq<char>>, cur: Seq<char>)
    ensures
        encode_path(names.push(cur)) == path_prefix(names, cur),
{
    assert(names.push(cur).drop_last() =~= names);
}

proof fn lemma_escape_push(cur: Seq<char>, c: char)
    ensures
        escape_name(cur.push(c)) == escape_name(cur) + escape_char(c),
{
    assert(cur.push(c).drop_last() =~= cur);
}

proof fn lemma_scan_encodes(rest: Seq<char>, cur: Seq<char>, names: Seq<Seq<char>>)
    requires
        scan_path(rest, cur, names) is Ok,
    ensures
        encode_path(scan_path(rest, cur, names)->Ok_0) == path_prefix(names, cur) + rest,
    decreases rest.len(),
{
    if rest.len() == 0 {
        lemma_encode_push(names, cur);
        assert(path_prefix(names, cur) + rest =~= path_prefix(names, cur));
    } else if rest[0] == '\\' {
        let c = rest[1];
        let tail = rest.subrange(2, rest.len() as int);
        lemma_scan_encodes(tail, cur.push(c), names);
        lemma_escape_push(cur, c);
        assert(path_prefix(names, cur.push(c)) =~= path_prefix(names, cur) + seq!['\\', c]);
        assert(seq!['\\', c] + tail =~= rest);
        assert(path_prefix(names, cur) + seq!['\\', c] + tail =~= path_prefix(names, cur) + rest);
    } else if rest[0] == '/' {
        let tail = rest.subrange(1, rest.len() as int);
        lemma_scan_encodes(tail, Seq::empty(), names.push(cur));
        lemma_encode_push(names, cur);
        assert(escape_name(Seq::<char>::empty()) =~= Seq::<char>::empty());
        assert(path_prefix(names.push(cur), Seq::empty()) =~= path_prefix(names, cur) + seq!['/']);
        assert(seq!['/'] + tail =~= rest);
        assert(path_prefix(names, cur) + seq!['/'] + tail =~= path_prefix(names, cur) + rest);
    } else {
        let c = rest[0];
        let tail = rest.subrange(1, rest.len() as int);
        lemma_scan_encodes(tail, cur.push(c), names);
        lemma_escape_push(cur, c);
        assert(path_prefix(names, cur.push(c)) =~= path_prefix(names, cur) + seq![c]);
        assert(seq![c] + tail =~= rest);
        assert(path_prefix(names, cur) + seq![c] + tail =~= path_prefix(names, cur) + rest);
    }
}

/// Encoding the names that a legal decoded path denotes gives that path back.
pub proof fn lemma_path_round_trip(p: Seq<char>)
    requires
        split_path(p) is Ok,
    ensures
        encode_path(split_path(p)->Ok_0) == p,
{
    lemma_scan_encodes(p, Seq::empty(), Seq::empty());
    assert(escape_name(Seq::<char>::empty()) =~= Seq::<char>::empty());
    assert(Seq::<char>::empty() + p =~= p);
}

/// For a raw path that parses, encoding its names gives the path once percent-decoded.
pub proof fn lemma_raw_path_round_trip(raw: Seq<char>)
    requires
        parsed_path(raw) is Ok,
    ensures
        url_decoded(raw) == Some(encode_path(parsed_path(raw)->Ok_0)),
{
    lemma_path_round_trip(url_decoded(raw)->Some_0);
}

proof fn lemma_scan_escaped(s: Seq<char>, rest: Seq<char>, cur: Seq<char>, names: Seq<Seq<char>>)
    ensures
        scan_path(escape_name(s) + rest, cur, names) == scan_path(rest, cur + s, names),
    decreases s.len(),
{
    if s.len() == 0 {
        assert(escape_name(s) + rest =~= rest);
        assert(cur + s =~= cur);
    } else {
        let c = s.last();
        let front = s.drop_last();
        assert(escape_name(s) + rest =~= escape_name(front) + (escape_char(c) + rest));
        lemma_scan_escaped(front, escape_char(c) + rest, cur, names);
        let t = escape_char(c) + rest;
        if c == '/' || c == '\\' {
            assert(t.subrange(2, t.len() as int) =~= rest);
        } else {
            assert(t.subrange(1, t.len() as int) =~= rest);
        }
        assert((cur + front).push(c) =~= cur + s);
    }
}

/// Every name is non-empty.
pub open spec fn names_non_empty(ns: Seq<Seq<char>>) -> bool {
    forall|i: int| 0 <= i < ns.len() ==> #[trigger] ns[i].len() > 0
}

proof fn lemma_scan_encoded(ns: Seq<Seq<char>>, rest: Seq<char>, pre: Seq<Seq<char>>)
    requires
        ns.len() >= 1,
        names_non_empty(ns),
    ensures
        scan_path(encode_path(ns) + rest, Seq::empty(), pre) == scan_path(rest, ns.last(), pre + ns.drop_last()),
    decreases ns.len(),
{
    if ns.len() == 1 {
        lemma_scan_escaped(ns[0], rest, Seq::empty(), pre);
        assert(Seq::<char>::empty() + ns[0] =~= ns[0]);
        assert(pre + ns.drop_last() =~= pre);
    } else {
        let front = ns.drop_last();
        assert(names_non_empty(front)) by {
            assert forall|i: int| 0 <= i < front.len() implies #[trigger] front[i].len() > 0 by {
                assert(front[i] == ns[i]);
            }
        }
        let tail = seq!['/'] + escape_name(ns.last()) + rest;
        assert(encode_path(ns) + rest =~= encode_path(front) + tail);
        lemma_scan_encoded(front, tail, pre);
        assert(front.last().len() > 0) by {
            assert(front.last() == ns[ns.len() - 2]);
        }
        assert(tail.subrange(1, tail.len() as int) =~= escape_name(ns.last()) + rest);
        lemma_scan_escaped(ns.last(), rest, Seq::empty(), (pre + front.drop_last()).push(front.last()));
        assert((pre + front.drop_last()).push(front.last()) =~= pre + ns.drop_last());
        assert(Seq::<char>::empty() + ns.last() =~= ns.last());
    }
}

/// Splitting the path of one to [`MAX_PATH_DEPTH`] non-empty names gives those names back.
pub proof fn lemma_encode_then_split(ns: Seq<Seq<char>>)
    requires
        1 <= ns.len() <= MAX_PATH_DEPTH,
        names_non_empty(ns),
    ensures
        split_path(encode_path(ns)) == Ok::<Seq<Seq<char>>, Error>(ns),
{
    lemma_scan_encoded(ns, Seq::empty(), Seq::empty());
    assert(encode_path(ns) + Seq::<char>::empty() =~= encode_path(ns));
    assert(Seq::<Seq<char>>::empty() + ns.drop_last() =~= ns.drop_last());
    assert(ns.last().len() > 0);
    assert(ns.drop_last().push(ns.last()) =~= ns);
}

proof fn lemma_scan_depth(rest: Seq<char>, cur: Seq<char>, names: Seq<Seq<char>>)
    ensures
        scan_path(rest, cur, names) matches Ok(ns) ==> ns.len() <= MAX_PATH_DEPTH,
    decreases rest.len(),
{
    if rest.len() > 0 {
        if rest[0] == '\\' {
            if rest.len() > 1 && (rest[1] == '/' || rest[1] == '\\') {
                lemma_scan_depth(rest.subrange(2, rest.len() as int), cur.push(rest[1]), names);
            }
        } else if rest[0] == '/' {
            if cur.len() > 0 {
                lemma_scan_depth(rest.subrange(1, rest.len() as int), Seq::empty(), names.push(cur));
            }
        } else {
            lemma_scan_depth(rest.subrange(1, rest.len() as int), cur.push(rest[0]), names);
        }
    }
}

/// A path that parses names at most [`MAX_PATH_DEPTH`] groups.
pub proof fn lemma_path_depth_bounded(raw: Seq<char>)
    ensures
        parsed_path(raw) matches Ok(ns) ==> ns.len() <= MAX_PATH_DEPTH,
{
    if let Some(d) = url_decoded(raw) {
        lemma_scan_depth(d, Seq::empty(), Seq::empty());
    }
}

/// Splits a decoded path into its group names.
pub fn split_decoded_path(decoded: &str) -> (r: Result<Vec<String>, Error>)
    ensures
        match r {
            Ok(v) => split_path(decoded@) == Ok::<Seq<Seq<char>>, Error>(strings_view(v@)),
            Err(e) => split_path(decoded@) == Err::<Seq<Seq<char>>, Error>(e),
        },
{
    let cs = chars_of(decoded);
    let n = cs.len();
    let mut names: Vec<String> = Vec::new();
    let mut cur: Vec<char> = Vec::new();
    let mut i: usize = 0;
    assert(cs@.subrange(0, n as int) =~= cs@);
    assert(strings_view(names@) =~= Seq::<Seq<char>>::empty());
    assert(cur@ =~= Seq::<char>::empty());
    while i < n
        invariant
            i <= n,
            n == cs@.len(),
            cs@ == decoded@,
            scan_path(cs@.subrange(i as int, n as int), cur@, strings_view(names@)) == split_path(
                decoded@,
            ),
        decreases n - i,
    {
        let ghost rest = cs@.subrange(i as int, n as int);
        let c = cs[i];
        if c == '\\' {
            if i + 1 == n {
                return Err(Error::IncompletePathEscape);
            }
            let d = cs[i + 1];
            if d == '/' || d == '\\' {
                cur.push(d);
                i += 2;
                assert(cs@.subrange(i as int, n as int) =~= rest.subrange(2, rest.len() as int));
            } else {
                return Err(Error::InvalidPathEscape(d));
            }
        } else if c == '/' {
            if cur.len() == 0 {
                return Err(Error::EmptyPathSegment);
            }
            let ghost old_names = strings_view(names@);
            let s = string_of(&cur);
            names.push(s);
            cur = Vec::new();
            i += 1;
            assert(strings_view(names@) =~= old_names.push(s@));
            assert(cs@.subrange(i as int, n as int) =~= rest.subrange(1, rest.len() as int));
        } else {
            cur.push(c);
            i += 1;
            assert(cs@.subrange(i as int, n as int) =~= rest.subrange(1, rest.len() as int));
        }
    }
    assert(cs@.subrange(i as int, n as int).len() == 0);
    if cur.len() > 0 {
        let ghost old_names = strings_view(names@);
        let s = string_of(&cur);
        names.push(s);
        assert(strings_view(names@) =~= old_names.push(s@));
        if names.len() > MAX_PATH_DEPTH {
            return Err(Error::PathTooDeep(names.len()));
        }
        Ok(names)
    } else if names.len() > 0 {
        Err(Error::TrailingPathDelimiter)
    } else {
        Err(Error::EmptyPath)
    }
}

/// Parses a percent-encoded group path into its group names, root first.
pub fn parse_path(encoded_path: &str) -> (r: Result<Vec<String>, Error>)
    ensures
        match r {
            Ok(v) => parsed_path(encoded_path@) == Ok::<Seq<Seq<char>>, Error>(strings_view(v@)),
            Err(e) => parsed_path(encoded_path@) == Err::<Seq<Seq<char>>, Error>(e),
        },
        !encoded_path@.contains('%') ==> parsed_path(encoded_path@) == split_path(encoded_path@),
{
    match url_decode(encoded_path) {
        None => Err(Error::InvalidUrlEncoding),
        Some(decoded) => split_decoded_path(decoded.as_str()),
    }
}

} // verus!
