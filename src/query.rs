//! The text query language: `field op value|value&...`, with full-text terms.
//!
//! A query is a conjunction of parts separated by `&`. A part that starts with a
//! field name (letters, digits, `_`, `:`) directly followed by an operator is a
//! constraint on that field, with the rest of the part a `|`-separated list of
//! values; any other part is a full-text term, also a `|`-separated list. A
//! backslash makes the next character literal; only `& | = ! ~ > < \` may follow
//! it. Empty parts are skipped.
use vstd::prelude::*;
use crate::error::Error;
use crate::path::strings_view;
use crate::text::{chars_of, string_of};

verus! {

/// Comparison and combination operators of the query language.
#[derive(Debug, Clone, Copy, PartialEq, Eq, Structural)]
pub enum Operator {
    Equal,
    NotEqual,
    Like,
    NotLike,
    GreaterThan,
    GreaterThanOrEqual,
    LessThan,
    LessThanOrEqual,
    And,
    Or,
}

/// The text of each operator.
pub open spec fn operator_symbol(op: Operator) -> Seq<char> {
    match op {
        Operator::Equal => seq!['='],
        Operator::NotEqual => seq!['!', '='],
        Operator::Like => seq!['~'],
        Operator::NotLike => seq!['!', '~'],
        Operator::GreaterThan => seq!['>'],
        Operator::GreaterThanOrEqual => seq!['>', '='],
        Operator::LessThan => seq!['<'],
        Operator::LessThanOrEqual => seq!['<', '='],
        Operator::And => seq!['&'],
        Operator::Or => seq!['|'],
    }
}

impl Operator {
    /// The operator's text.
    pub fn symbol(&self) -> (r: String)
        ensures
            r@ == operator_symbol(*self),
    {
        let v: Vec<char> = match self {
            Operator::Equal => vec!['='],
            Operator::NotEqual => vec!['!', '='],
            Operator::Like => vec!['~'],
            Operator::NotLike => vec!['!', '~'],
            Operator::GreaterThan => vec!['>'],
            Operator::GreaterThanOrEqual => vec!['>', '='],
            Operator::LessThan => vec!['<'],
            Operator::LessThanOrEqual => vec!['<', '='],
            Operator::And => vec!['&'],
            Operator::Or => vec!['|'],
        };
        let r = string_of(&v);
        assert(r@ =~= operator_symbol(*self));
        r
    }

    /// The operator whose text is `s`, if any.
    pub fn from_symbol(s: &str) -> (r: Option<Operator>)
        ensures
            r matches Some(op) ==> operator_symbol(op) == s@,
            r is None ==> forall|op: Operator| operator_symbol(op) != s@,
    {
        let cs = chars_of(s);
        if cs.len() == 1 {
            let c = cs[0];
            let r = if c == '=' {
                Some(Operator::Equal)
            } else if c == '~' {
                Some(Operator::Like)
            } else if c == '>' {
                Some(Operator::GreaterThan)
            } else if c == '<' {
                Some(Operator::LessThan)
            } else if c == '&' {
                Some(Operator::And)
            } else if c == '|' {
                Some(Operator::Or)
            } else {
                None
            };
            assert(r matches Some(op) ==> operator_symbol(op) =~= s@);
            assert forall|op: Operator| r is None implies operator_symbol(op) != s@ by {
                if operator_symbol(op).len() == 1 {
                    assert(operator_symbol(op)[0] != s@[0]);
                }
            }
            r
        } else if cs.len() == 2 {
            let c = cs[0];
            let d = cs[1];
            let r = if d != '=' && d != '~' {
                None
            } else if c == '!' && d == '=' {
                Some(Operator::NotEqual)
            } else if c == '!' {
                Some(Operator::NotLike)
            } else if c == '>' && d == '=' {
                Some(Operator::GreaterThanOrEqual)
            } else if c == '<' && d == '=' {
                Some(Operator::LessThanOrEqual)
            } else {
                None
            };
            assert(r matches Some(op) ==> operator_symbol(op) =~= s@);
            assert forall|op: Operator| r is None implies operator_symbol(op) != s@ by {
                if operator_symbol(op).len() == 2 {
                    assert(operator_symbol(op)[0] != s@[0] || operator_symbol(op)[1] != s@[1]);
                }
            }
            r
        } else {
            None
        }
    }
}

/// A character of a query, with whether a backslash made it literal.
pub type Unit = (char, bool);

/// The characters a backslash may make literal.
pub open spec fn escapable(c: char) -> bool {
    c == '&' || c == '|' || c == '=' || c == '!' || c == '~' || c == '>' || c == '<' || c == '\\'
}

/// Reads `q` from position `i` on, resolving escapes.
pub open spec fn unescape_from(q: Seq<char>, i: int) -> Result<Seq<Unit>, Error>
    decreases q.len() - i,
{
    if i < 0 || i >= q.len() {
        Ok(Seq::empty())
    } else if q[i] == '\\' {
        if i + 1 < q.len() && escapable(q[i + 1]) {
            match unescape_from(q, i + 2) {
                Ok(r) => Ok(seq![(q[i + 1], true)] + r),
                Err(e) => Err(e),
            }
        } else {
            Err(Error::InvalidQueryEscape(i as usize))
        }
    } else {
        match unescape_from(q, i + 1) {
            Ok(r) => Ok(seq![(q[i], false)] + r),
            Err(e) => Err(e),
        }
    }
}

/// Splits `units` at each unescaped `d`; there is always one piece more than delimiters.
pub open spec fn split_units(units: Seq<Unit>, d: char) -> Seq<Seq<Unit>>
    decreases units.len(),
{
    if units.len() == 0 {
        seq![Seq::empty()]
    } else {
        let pieces = split_units(units.drop_last(), d);
        if units.last() == (d, false) {
            pieces.push(Seq::empty())
        } else {
            pieces.update(pieces.len() - 1, pieces.last().push(units.last()))
        }
    }
}

/// Pieces joined again, with `sep` between each two.
pub open spec fn join_units(pieces: Seq<Seq<Unit>>, sep: Unit) -> Seq<Unit>
    decreases pieces.len(),
{
    if pieces.len() == 0 {
        Seq::empty()
    } else if pieces.len() == 1 {
        pieces[0]
    } else {
        join_units(pieces.drop_last(), sep) + seq![sep] + pieces.last()
    }
}

proof fn lemma_join_extend_last(pieces: Seq<Seq<Unit>>, sep: Unit, u: Unit)
    requires
        pieces.len() >= 1,
    ensures
        join_units(pieces.update(pieces.len() - 1, pieces.last().push(u)), sep) == join_units(
            pieces,
            sep,
        ).push(u),
{
    let extended = pieces.update(pieces.len() - 1, pieces.last().push(u));
    if pieces.len() > 1 {
        assert(extended.drop_last() =~= pieces.drop_last());
        assert(join_units(extended, sep) =~= join_units(pieces, sep).push(u));
    }
}

/// Splitting at a delimiter loses nothing and leaves no unescaped delimiter inside a
/// piece: a delimiter that a backslash made literal stays, as its character, within
/// the value it stands in, and only unescaped ones separate values.
pub proof fn lemma_split_keeps_escaped(units: Seq<Unit>, d: char)
    ensures
        split_units(units, d).len() >= 1,
        join_units(split_units(units, d), (d, false)) == units,
        forall|i: int, j: int|
            0 <= i < split_units(units, d).len() && 0 <= j < split_units(units, d)[i].len()
                ==> #[trigger] split_units(units, d)[i][j] != (d, false),
    decreases units.len(),
{
    if units.len() == 0 {
        assert(join_units(split_units(units, d), (d, false)) =~= units);
    } else {
        let prev = units.drop_last();
        lemma_split_keeps_escaped(prev, d);
        let ps = split_units(prev, d);
        let u = units.last();
        if u == (d, false) {
            assert(ps.push(Seq::<Unit>::empty()).drop_last() =~= ps);
            assert(join_units(split_units(units, d), (d, false)) =~= units);
        } else {
            lemma_join_extend_last(ps, (d, false), u);
            assert(prev.push(u) =~= units);
            let r = split_units(units, d);
            assert forall|i: int, j: int| 0 <= i < r.len() && 0 <= j < r[i].len() implies #[trigger] r[i][j] != (d, false) by {
                if i == ps.len() - 1 && j == ps.last().len() {
                    assert(r[i][j] == u);
                } else {
                    assert(r[i][j] == ps[i][j]);
                }
            }
        }
    }
}

/// The characters of some units.
pub open spec fn unit_chars(units: Seq<Unit>) -> Seq<char> {
    units.map_values(|u: Unit| u.0)
}

/// The values of a `|`-separated list.
pub open spec fn value_list(units: Seq<Unit>) -> Seq<Seq<char>> {
    split_units(units, '|').map_values(|p: Seq<Unit>| unit_chars(p))
}

/// A character that may stand in a field name.
pub open spec fn field_char(u: Unit) -> bool {
    let c = u.0;
    !u.1 && (('a' <= c && c <= 'z') || ('A' <= c && c <= 'Z') || ('0' <= c && c <= '9') || c
        == '_' || c == ':')
}

/// The length of the longest prefix of field characters.
pub open spec fn field_len(units: Seq<Unit>) -> nat
    decreases units.len(),
{
    if units.len() > 0 && field_char(units[0]) {
        1 + field_len(units.drop_first())
    } else {
        0
    }
}

/// Whether `units` holds the unescaped character `c` at `k`.
pub open spec fn plain_at(units: Seq<Unit>, k: int, c: char) -> bool {
    0 <= k < units.len() && units[k] == (c, false)
}

/// The comparison operator at position `k`, with its length; two-character operators first.
pub open spec fn operator_at(units: Seq<Unit>, k: int) -> Option<(Operator, nat)> {
    if plain_at(units, k, '!') && plain_at(units, k + 1, '=') {
        Some((Operator::NotEqual, 2))
    } else if plain_at(units, k, '!') && plain_at(units, k + 1, '~') {
        Some((Operator::NotLike, 2))
    } else if plain_at(units, k, '>') && plain_at(units, k + 1, '=') {
        Some((Operator::GreaterThanOrEqual, 2))
    } else if plain_at(units, k, '<') && plain_at(units, k + 1, '=') {
        Some((Operator::LessThanOrEqual, 2))
    } else if plain_at(units, k, '=') {
        Some((Operator::Equal, 1))
    } else if plain_at(units, k, '~') {
        Some((Operator::Like, 1))
    } else if plain_at(units, k, '>') {
        Some((Operator::GreaterThan, 1))
    } else if plain_at(units, k, '<') {
        Some((Operator::LessThan, 1))
    } else {
        None
    }
}

/// One part of a query: a constraint when `field` is present, else a full-text term.
#[derive(Debug, Clone, PartialEq, Eq)]
pub struct Constraint {
    pub field: Option<String>,
    pub op: Option<Operator>,
    pub values: Vec<String>,
}

/// The mathematical value of a [`Constraint`].
pub struct ConstraintView {
    pub field: Option<Seq<char>>,
    pub op: Option<Operator>,
    pub values: Seq<Seq<char>>,
}

impl View for Constraint {
    type V = ConstraintView;

    open spec fn view(&self) -> ConstraintView {
        ConstraintView {
            field: match self.field {
                Some(f) => Some(f@),
                None => None,
            },
            op: self.op,
            values: strings_view(self.values@),
        }
    }
}

/// What one non-empty part of a query means.
pub open spec fn part_meaning(part: Seq<Unit>) -> ConstraintView {
    let k = field_len(part);
    if k > 0 && operator_at(part, k as int) is Some {
        let (op, n) = operator_at(part, k as int)->Some_0;
        ConstraintView {
            field: Some(unit_chars(part.take(k as int))),
            op: Some(op),
            values: value_list(part.skip((k + n) as int)),
        }
    } else {
        ConstraintView { field: None, op: None, values: value_list(part) }
    }
}

/// The meanings of the non-empty parts, in order.
pub open spec fn parts_meaning(parts: Seq<Seq<Unit>>) -> Seq<ConstraintView>
    decreases parts.len(),
{
    if parts.len() == 0 {
        Seq::empty()
    } else if parts.last().len() == 0 {
        parts_meaning(parts.drop_last())
    } else {
        parts_meaning(parts.drop_last()).push(part_meaning(parts.last()))
    }
}

/// The constraints that the query text `q` denotes, or why it denotes none.
pub open spec fn query_meaning(q: Seq<char>) -> Result<Seq<ConstraintView>, Error> {
    match unescape_from(q, 0) {
        Ok(units) => Ok(parts_meaning(split_units(units, '&'))),
        Err(e) => Err(e),
    }
}

/// The views of a sequence of constraints.
pub open spec fn constraints_view(v: Seq<Constraint>) -> Seq<ConstraintView> {
    v.map_values(|c: Constraint| c@)
}

/// Reading escapes fails only on a misplaced backslash.
pub proof fn lemma_unescape_error(q: Seq<char>, i: int)
    ensures
        unescape_from(q, i) matches Err(e) ==> e is InvalidQueryEscape,
    decreases q.len() - i,
{
    if 0 <= i < q.len() {
        if q[i] == '\\' {
            if i + 1 < q.len() && escapable(q[i + 1]) {
                lemma_unescape_error(q, i + 2);
            }
        } else {
            lemma_unescape_error(q, i + 1);
        }
    }
}

/// `r` with `front` before its value.
pub open spec fn prepend_ok(front: Seq<Unit>, r: Result<Seq<Unit>, Error>) -> Result<Seq<Unit>, Error> {
    match r {
        Ok(x) => Ok(front + x),
        Err(e) => Err(e),
    }
}

/// Resolves the escapes of a query.
pub fn unescape(q: &str) -> (r: Result<Vec<Unit>, Error>)
    ensures
        match r {
            Ok(v) => unescape_from(q@, 0) == Ok::<Seq<Unit>, Error>(v@),
            Err(e) => unescape_from(q@, 0) == Err::<Seq<Unit>, Error>(e),
        },
{
    let cs = chars_of(q);
    let n = cs.len();
    let mut out: Vec<Unit> = Vec::new();
    let mut i: usize = 0;
    assert(prepend_ok(out@, unescape_from(q@, 0)) =~= unescape_from(q@, 0)) by {
        match unescape_from(q@, 0) {
            Ok(x) => { assert(out@ + x =~= x); },
            Err(e) => {},
        }
    }
    while i < n
        invariant
            i <= n,
            n == cs@.len(),
            cs@ == q@,
            prepend_ok(out@, unescape_from(q@, i as int)) == unescape_from(q@, 0),
        decreases n - i,
    {
        let c = cs[i];
        if c == '\\' {
            if i + 1 < n {
                let d = cs[i + 1];
                if d == '&' || d == '|' || d == '=' || d == '!' || d == '~' || d == '>' || d == '<'
                    || d == '\\' {
                    let ghost before = out@;
                    out.push((d, true));
                    i += 2;
                    assert(prepend_ok(out@, unescape_from(q@, i as int)) == prepend_ok(before, unescape_from(q@, i - 2))) by {
                        match unescape_from(q@, i as int) {
                            Ok(x) => { assert(out@ + x =~= before + (seq![(d, true)] + x)); },
                            Err(e) => {},
                        }
                    }
                } else {
                    return Err(Error::InvalidQueryEscape(i));
                }
            } else {
                return Err(Error::InvalidQueryEscape(i));
            }
        } else {
            let ghost before = out@;
            out.push((c, false));
            i += 1;
            assert(prepend_ok(out@, unescape_from(q@, i as int)) == prepend_ok(before, unescape_from(q@, i - 1))) by {
                match unescape_from(q@, i as int) {
                    Ok(x) => { assert(out@ + x =~= before + (seq![(c, false)] + x)); },
                    Err(e) => {},
                }
            }
        }
    }
    assert(out@ + Seq::<Unit>::empty() =~= out@);
    Ok(out)
}

/// The views of a sequence of unit vectors.
pub open spec fn pieces_view(v: Seq<Vec<Unit>>) -> Seq<Seq<Unit>> {
    v.map_values(|p: Vec<Unit>| p@)
}

/// Splits `units` at each unescaped `d`.
pub fn split_at_delimiter(units: &Vec<Unit>, d: char) -> (r: Vec<Vec<Unit>>)
    ensures
        pieces_view(r@) == split_units(units@, d),
{
    let mut done: Vec<Vec<Unit>> = Vec::new();
    let mut cur: Vec<Unit> = Vec::new();
    let mut i: usize = 0;
    assert(units@.take(0) =~= Seq::<Unit>::empty());
    assert(pieces_view(done@).push(cur@) =~= split_units(units@.take(0), d));
    while i < units.len()
        invariant
            i <= units.len(),
            pieces_view(done@).push(cur@) == split_units(units@.take(i as int), d),
        decreases units.len() - i,
    {
        let u = units[i];
        let ghost prev = units@.take(i as int);
        assert(units@.take(i + 1).drop_last() =~= prev);
        assert(units@.take(i + 1).last() == u);
        if u.0 == d && !u.1 {
            let ghost dv = pieces_view(done@);
            let c = cur;
            done.push(c);
            cur = Vec::new();
            assert(pieces_view(done@) =~= dv.push(c@));
            assert(pieces_view(done@).push(cur@) =~= split_units(prev, d).push(Seq::empty()));
        } else {
            let ghost dv = pieces_view(done@);
            let ghost cv = cur@;
            cur.push(u);
            assert(pieces_view(done@).push(cur@) =~= dv.push(cv).update(dv.len() as int, cv.push(u)));
        }
        i += 1;
    }
    assert(units@.take(units.len() as int) =~= units@);
    done.push(cur);
    assert(pieces_view(done@) =~= split_units(units@, d));
    done
}

/// The string of the characters of some units.
fn unit_string(units: &Vec<Unit>) -> (r: String)
    ensures
        r@ == unit_chars(units@),
{
    let mut cs: Vec<char> = Vec::new();
    let mut i: usize = 0;
    while i < units.len()
        invariant
            i <= units.len(),
            cs@ == unit_chars(units@.take(i as int)),
        decreases units.len() - i,
    {
        cs.push(units[i].0);
        i += 1;
        assert(cs@ =~= unit_chars(units@.take(i as int)));
    }
    assert(units@.take(units.len() as int) =~= units@);
    string_of(&cs)
}

/// The units of `units` from `start` to `end`.
fn units_range(units: &Vec<Unit>, start: usize, end: usize) -> (r: Vec<Unit>)
    requires
        start <= end <= units.len(),
    ensures
        r@ == units@.subrange(start as int, end as int),
{
    let mut r: Vec<Unit> = Vec::new();
    let mut i: usize = start;
    while i < end
        invariant
            start <= i <= end <= units.len(),
            r@ == units@.subrange(start as int, i as int),
        decreases end - i,
    {
        r.push(units[i]);
        i += 1;
        assert(r@ =~= units@.subrange(start as int, i as int));
    }
    r
}

/// The values of a `|`-separated list.
fn values_of(units: &Vec<Unit>) -> (r: Vec<String>)
    ensures
        strings_view(r@) == value_list(units@),
{
    let pieces = split_at_delimiter(units, '|');
    let mut r: Vec<String> = Vec::new();
    let mut i: usize = 0;
    while i < pieces.len()
        invariant
            i <= pieces.len(),
            pieces_view(pieces@) == split_units(units@, '|'),
            strings_view(r@) == value_list(units@).take(i as int),
        decreases pieces.len() - i,
    {
        let s = unit_string(&pieces[i]);
        let ghost before = strings_view(r@);
        r.push(s);
        i += 1;
        assert(strings_view(r@) =~= before.push(s@));
        assert(pieces_view(pieces@)[i - 1] == pieces@[i - 1]@);
        assert(strings_view(r@) =~= value_list(units@).take(i as int));
    }
    assert(value_list(units@).take(pieces.len() as int) =~= value_list(units@));
    r
}

fn is_field_unit(u: Unit) -> (r: bool)
    ensures
        r == field_char(u),
{
    let c = u.0;
    !u.1 && (('a' <= c && c <= 'z') || ('A' <= c && c <= 'Z') || ('0' <= c && c <= '9') || c == '_'
        || c == ':')
}

/// The length of the longest prefix of field characters.
fn field_length(units: &Vec<Unit>) -> (r: usize)
    ensures
        r == field_len(units@),
{
    let mut i: usize = 0;
    assert(units@.skip(0) =~= units@);
    while i < units.len() && is_field_unit(units[i])
        invariant
            i <= units.len(),
            field_len(units@) == i + field_len(units@.skip(i as int)),
        decreases units.len() - i,
    {
        assert(units@.skip(i as int).drop_first() =~= units@.skip(i + 1));
        i += 1;
    }
    proof { lemma_field_len_end(units@, i as int); }
    i
}

proof fn lemma_field_len_end(units: Seq<Unit>, i: int)
    requires
        0 <= i <= units.len(),
        i == units.len() || !field_char(units[i]),
    ensures
        field_len(units.skip(i)) == 0,
{
    if i < units.len() {
        assert(units.skip(i)[0] == units[i]);
    }
}

/// Whether `units` holds the unescaped character `c` at `k`.
fn plain_at_exec(units: &Vec<Unit>, k: usize, c: char) -> (r: bool)
    ensures
        r == plain_at(units@, k as int, c),
{
    k < units.len() && units[k].0 == c && !units[k].1
}

/// The comparison operator at position `k`, with its length.
fn operator_at_exec(units: &Vec<Unit>, k: usize) -> (r: Option<(Operator, usize)>)
    requires
        k < units.len(),
    ensures
        match r {
            Some((op, n)) => operator_at(units@, k as int) == Some((op, n as nat)),
            None => operator_at(units@, k as int) is None,
        },
{
    let k1 = k + 1;
    if plain_at_exec(units, k, '!') && plain_at_exec(units, k1, '=') {
        Some((Operator::NotEqual, 2))
    } else if plain_at_exec(units, k, '!') && plain_at_exec(units, k1, '~') {
        Some((Operator::NotLike, 2))
    } else if plain_at_exec(units, k, '>') && plain_at_exec(units, k1, '=') {
        Some((Operator::GreaterThanOrEqual, 2))
    } else if plain_at_exec(units, k, '<') && plain_at_exec(units, k1, '=') {
        Some((Operator::LessThanOrEqual, 2))
    } else if plain_at_exec(units, k, '=') {
        Some((Operator::Equal, 1))
    } else if plain_at_exec(units, k, '~') {
        Some((Operator::Like, 1))
    } else if plain_at_exec(units, k, '>') {
        Some((Operator::GreaterThan, 1))
    } else if plain_at_exec(units, k, '<') {
        Some((Operator::LessThan, 1))
    } else {
        None
    }
}

/// What one part of a query means.
fn constraint_of(part: &Vec<Unit>) -> (r: Constraint)
    ensures
        r@ == part_meaning(part@),
{
    let k = field_length(part);
    if k > 0 && k < part.len() {
        match operator_at_exec(part, k) {
            Some((op, n)) => {
                let field = unit_string(&units_range(part, 0, k));
                let rest = units_range(part, k + n, part.len());
                assert(part@.subrange(0, k as int) =~= part@.take(k as int));
                assert(part@.subrange((k + n) as int, part@.len() as int) =~= part@.skip((k + n) as int));
                let values = values_of(&rest);
                return Constraint { field: Some(field), op: Some(op), values };
            },
            None => {},
        }
    }
    assert(k > 0 ==> k >= part.len() ==> operator_at(part@, k as int) is None);
    let values = values_of(part);
    Constraint { field: None, op: None, values }
}

/// Parses a query into its constraints, in order.
pub fn parse_query(q: &str) -> (r: Result<Vec<Constraint>, Error>)
    ensures
        match r {
            Ok(v) => query_meaning(q@) == Ok::<Seq<ConstraintView>, Error>(constraints_view(v@)),
            Err(e) => query_meaning(q@) == Err::<Seq<ConstraintView>, Error>(e),
        },
{
    let units = match unescape(q) {
        Ok(u) => u,
        Err(e) => return Err(e),
    };
    let parts = split_at_delimiter(&units, '&');
    let mut r: Vec<Constraint> = Vec::new();
    let mut i: usize = 0;
    assert(pieces_view(parts@).take(0) =~= Seq::<Seq<Unit>>::empty());
    assert(constraints_view(r@) =~= Seq::<ConstraintView>::empty());
    while i < parts.len()
        invariant
            i <= parts.len(),
            constraints_view(r@) == parts_meaning(pieces_view(parts@).take(i as int)),
        decreases parts.len() - i,
    {
        let ghost pv = pieces_view(parts@);
        assert(pv.take(i + 1).drop_last() =~= pv.take(i as int));
        assert(pv[i as int] == parts@[i as int]@);
        if parts[i].len() > 0 {
            let c = constraint_of(&parts[i]);
            let ghost before = constraints_view(r@);
            r.push(c);
            assert(constraints_view(r@) =~= before.push(c@));
        }
        i += 1;
    }
    assert(pieces_view(parts@).take(parts.len() as int) =~= pieces_view(parts@));
    Ok(r)
}

} // verus!
