//! Turning parsed queries into predicates over typed columns.
//!
//! A [`Filter`] is a conjunction of clauses; each clause is a conjunction or a
//! disjunction of predicates on single columns. A constraint on a field gives one
//! predicate per value, joined by OR, except for `!=` and `!~`, whose predicates
//! are joined by AND. A full-text term gives, for each value, a case-insensitive
//! substring predicate on each text column, in the order the columns were declared,
//! all joined by OR.
use vstd::prelude::*;
use crate::error::Error;
use crate::path::strings_view;
use crate::query::{lemma_unescape_error, parse_query, query_meaning, Constraint, ConstraintView, Operator, constraints_view};
use crate::text::{chars_of, string_of};
use crate::value::{CalendarDate, Timestamp, ascii_ci_equal, ascii_ci_eq, is_null_word, is_null_value, boolean_of, parse_boolean, integer_of, parse_i64, uuid_of, parse_uuid_str, rfc3339_of, parse_rfc3339, date_value_of, parse_date_value, valid_date, valid_timestamp, human_second_offset, human_seconds, timestamp_after, shift_timestamp};

verus! {

/// The type of a column, which decides how values are read and compared.
#[derive(Debug, Clone, PartialEq, Eq)]
pub enum ColumnType {
    Text,
    /// A database enum type with its name and its variants.
    Enum(String, Vec<String>),
    Integer,
    Boolean,
    Uuid,
    Date,
    Timestamp,
    /// A JSON document; `column:key` addresses the text at `key`.
    Json,
    /// An array of text.
    TextArray,
}

pub enum ColumnTypeView {
    Text,
    Enum(Seq<char>, Seq<Seq<char>>),
    Integer,
    Boolean,
    Uuid,
    Date,
    Timestamp,
    Json,
    TextArray,
}

impl View for ColumnType {
    type V = ColumnTypeView;

    open spec fn view(&self) -> ColumnTypeView {
        match self {
            ColumnType::Text => ColumnTypeView::Text,
            ColumnType::Enum(t, vs) => ColumnTypeView::Enum(t@, strings_view(vs@)),
            ColumnType::Integer => ColumnTypeView::Integer,
            ColumnType::Boolean => ColumnTypeView::Boolean,
            ColumnType::Uuid => ColumnTypeView::Uuid,
            ColumnType::Date => ColumnTypeView::Date,
            ColumnType::Timestamp => ColumnTypeView::Timestamp,
            ColumnType::Json => ColumnTypeView::Json,
            ColumnType::TextArray => ColumnTypeView::TextArray,
        }
    }
}

/// A column that queries may name.
#[derive(Debug, Clone, PartialEq, Eq)]
pub struct Column {
    pub name: String,
    pub kind: ColumnType,
}

pub struct ColumnView {
    pub name: Seq<char>,
    pub kind: ColumnTypeView,
}

impl View for Column {
    type V = ColumnView;

    open spec fn view(&self) -> ColumnView {
        ColumnView { name: self.name@, kind: self.kind@ }
    }
}

/// The columns of an entity, in declaration order.
#[derive(Debug, Clone, PartialEq, Eq)]
pub struct Columns {
    pub columns: Vec<Column>,
}

impl View for Columns {
    type V = Seq<ColumnView>;

    open spec fn view(&self) -> Seq<ColumnView> {
        self.columns@.map_values(|c: Column| c@)
    }
}

impl Columns {
    /// No columns.
    pub fn new() -> (r: Columns)
        ensures
            r@ == Seq::<ColumnView>::empty(),
    {
        let r = Columns { columns: Vec::new() };
        assert(r@ =~= Seq::<ColumnView>::empty());
        r
    }

    /// These columns and one more after them.
    pub fn add(self, name: &str, kind: ColumnType) -> (r: Columns)
        ensures
            r@ == self@.push(ColumnView { name: name@, kind: kind@ }),
    {
        let mut columns = self.columns;
        let ghost before = self@;
        columns.push(Column { name: String::from_str(name), kind });
        let r = Columns { columns };
        assert(r@ =~= before.push(ColumnView { name: name@, kind: kind@ }));
        r
    }
}

/// A value compared against a column.
#[derive(Debug, Clone, PartialEq, Eq)]
pub enum Value {
    Text(String),
    Integer(i64),
    Boolean(bool),
    Uuid(u128),
    Date(CalendarDate),
    Timestamp(Timestamp),
    /// A variant cast to the named database enum type.
    Enum(String, String),
}

pub enum ValueView {
    Text(Seq<char>),
    Integer(i64),
    Boolean(bool),
    Uuid(u128),
    Date(CalendarDate),
    Timestamp(Timestamp),
    Enum(Seq<char>, Seq<char>),
}

impl View for Value {
    type V = ValueView;

    open spec fn view(&self) -> ValueView {
        match self {
            Value::Text(s) => ValueView::Text(s@),
            Value::Integer(n) => ValueView::Integer(*n),
            Value::Boolean(b) => ValueView::Boolean(*b),
            Value::Uuid(u) => ValueView::Uuid(*u),
            Value::Date(d) => ValueView::Date(*d),
            Value::Timestamp(t) => ValueView::Timestamp(*t),
            Value::Enum(t, v) => ValueView::Enum(t@, v@),
        }
    }
}

/// What a predicate looks at.
#[derive(Debug, Clone, PartialEq, Eq)]
pub enum Target {
    /// A column.
    Column(String),
    /// The text at a key of a JSON column.
    JsonField(String, String),
    /// The elements of a text-array column joined by `|`.
    JoinedArray(String),
}

pub enum TargetView {
    Column(Seq<char>),
    JsonField(Seq<char>, Seq<char>),
    JoinedArray(Seq<char>),
}

impl View for Target {
    type V = TargetView;

    open spec fn view(&self) -> TargetView {
        match self {
            Target::Column(c) => TargetView::Column(c@),
            Target::JsonField(c, k) => TargetView::JsonField(c@, k@),
            Target::JoinedArray(c) => TargetView::JoinedArray(c@),
        }
    }
}

/// What a predicate asks of its target.
#[derive(Debug, Clone, PartialEq, Eq)]
pub enum Test {
    IsNull,
    IsNotNull,
    /// A comparison by `=`, `!=`, `<`, `<=`, `>` or `>=`.
    Compare(Operator, Value),
    /// A case-insensitive match of a LIKE pattern.
    Like(String),
    /// A case-insensitive mismatch of a LIKE pattern.
    NotLike(String),
    /// The array holds the value.
    Contains(Value),
    /// The array does not hold the value.
    NotContains(Value),
}

pub enum TestView {
    IsNull,
    IsNotNull,
    Compare(Operator, ValueView),
    Like(Seq<char>),
    NotLike(Seq<char>),
    Contains(ValueView),
    NotContains(ValueView),
}

impl View for Test {
    type V = TestView;

    open spec fn view(&self) -> TestView {
        match self {
            Test::IsNull => TestView::IsNull,
            Test::IsNotNull => TestView::IsNotNull,
            Test::Compare(op, v) => TestView::Compare(*op, v@),
            Test::Like(p) => TestView::Like(p@),
            Test::NotLike(p) => TestView::NotLike(p@),
            Test::Contains(v) => TestView::Contains(v@),
            Test::NotContains(v) => TestView::NotContains(v@),
        }
    }
}

/// A test on one target.
#[derive(Debug, Clone, PartialEq, Eq)]
pub struct Predicate {
    pub target: Target,
    pub test: Test,
}

pub struct PredicateView {
    pub target: TargetView,
    pub test: TestView,
}

impl View for Predicate {
    type V = PredicateView;

    open spec fn view(&self) -> PredicateView {
        PredicateView { target: self.target@, test: self.test@ }
    }
}

/// Predicates joined by AND (`all`) or by OR.
#[derive(Debug, Clone, PartialEq, Eq)]
pub struct Clause {
    pub all: bool,
    pub predicates: Vec<Predicate>,
}

pub struct ClauseView {
    pub all: bool,
    pub predicates: Seq<PredicateView>,
}

impl View for Clause {
    type V = ClauseView;

    open spec fn view(&self) -> ClauseView {
        ClauseView { all: self.all, predicates: self.predicates@.map_values(|p: Predicate| p@) }
    }
}

/// Clauses joined by AND; no clause at all holds of every row.
#[derive(Debug, Clone, PartialEq, Eq)]
pub struct Filter {
    pub clauses: Vec<Clause>,
}

impl View for Filter {
    type V = Seq<ClauseView>;

    open spec fn view(&self) -> Seq<ClauseView> {
        self.clauses@.map_values(|c: Clause| c@)
    }
}

/// Why a query gives no filter.
pub enum BuildFailure {
    /// The text does not parse.
    Query(Error),
    UnknownField(Seq<char>),
    UnsupportedOperator(Seq<char>),
    ValueParse(Seq<char>, Seq<char>),
}

/// The failure that an error of the library reports.
pub open spec fn failure_of(e: Error) -> BuildFailure {
    match e {
        Error::UnknownField(f) => BuildFailure::UnknownField(f@),
        Error::UnsupportedOperator(f) => BuildFailure::UnsupportedOperator(f@),
        Error::ValueParse(f, v) => BuildFailure::ValueParse(f@, v@),
        _ => BuildFailure::Query(e),
    }
}

/// The first position, from `i` on, of a column named `name`.
pub open spec fn find_column(cols: Seq<ColumnView>, name: Seq<char>, i: int) -> Option<int>
    decreases cols.len() - i,
{
    if i < 0 || i >= cols.len() {
        None
    } else if cols[i].name == name {
        Some(i)
    } else {
        find_column(cols, name, i + 1)
    }
}

/// The first position, from `i` on, of the character `c`.
pub open spec fn find_char(s: Seq<char>, c: char, i: int) -> Option<int>
    decreases s.len() - i,
{
    if i < 0 || i >= s.len() {
        None
    } else if s[i] == c {
        Some(i)
    } else {
        find_char(s, c, i + 1)
    }
}

/// A field resolved against the columns: the column's name, the JSON key if any, and
/// the type by which values are read.
pub struct Resolved {
    pub column: Seq<char>,
    pub key: Option<Seq<char>>,
    pub kind: ColumnTypeView,
}

/// What a field names: `column` or, for a JSON column, `column:key`.
pub open spec fn resolve_field(cols: Seq<ColumnView>, f: Seq<char>) -> Option<Resolved> {
    match find_char(f, ':', 0) {
        Some(k) => match find_column(cols, f.take(k), 0) {
            Some(i) => if cols[i].kind is Json {
                Some(Resolved { column: f.take(k), key: Some(f.skip(k + 1)), kind: ColumnTypeView::Text })
            } else {
                None
            },
            None => None,
        },
        None => match find_column(cols, f, 0) {
            Some(i) => Some(Resolved { column: f, key: None, kind: cols[i].kind }),
            None => None,
        },
    }
}

/// The target of a resolved field.
pub open spec fn target_of(r: Resolved) -> TargetView {
    match r.key {
        Some(k) => TargetView::JsonField(r.column, k),
        None => TargetView::Column(r.column),
    }
}

/// `v` with `%` and `_` made literal for LIKE.
pub open spec fn escape_like(v: Seq<char>) -> Seq<char>
    decreases v.len(),
{
    if v.len() == 0 {
        Seq::empty()
    } else {
        let c = v.last();
        escape_like(v.drop_last()) + if c == '%' || c == '_' {
            seq!['\\', c]
        } else {
            seq![c]
        }
    }
}

/// The LIKE pattern matching every text that holds `v`.
pub open spec fn like_pattern(v: Seq<char>) -> Seq<char> {
    seq!['%'] + escape_like(v) + seq!['%']
}

/// The first variant equal to `v` up to ASCII case, from `i` on.
pub open spec fn find_variant(vs: Seq<Seq<char>>, v: Seq<char>, i: int) -> Option<int>
    decreases vs.len() - i,
{
    if i < 0 || i >= vs.len() {
        None
    } else if ascii_ci_equal(vs[i], v) {
        Some(i)
    } else {
        find_variant(vs, v, i + 1)
    }
}

/// Whether the operator negates, so that its predicates are joined by AND.
pub open spec fn negating(op: Operator) -> bool {
    op == Operator::NotEqual || op == Operator::NotLike
}

/// Whether the operator compares by equality or order.
pub open spec fn comparing(op: Operator) -> bool {
    op == Operator::Equal || op == Operator::NotEqual || op == Operator::GreaterThan || op
        == Operator::GreaterThanOrEqual || op == Operator::LessThan || op
        == Operator::LessThanOrEqual
}

/// The value to compare with for a column of type `kind`, if `v` reads as one.
pub open spec fn typed_value(kind: ColumnTypeView, v: Seq<char>, now: Timestamp) -> Option<ValueView> {
    match kind {
        ColumnTypeView::Enum(t, vs) => match find_variant(vs, v, 0) {
            Some(j) => Some(ValueView::Enum(t, vs[j])),
            None => None,
        },
        ColumnTypeView::Integer => match integer_of(v) {
            Some(n) => Some(ValueView::Integer(n)),
            None => None,
        },
        ColumnTypeView::Boolean => match boolean_of(v) {
            Some(b) => Some(ValueView::Boolean(b)),
            None => None,
        },
        ColumnTypeView::Uuid => match uuid_of(v) {
            Some(u) => Some(ValueView::Uuid(u)),
            None => None,
        },
        ColumnTypeView::Date => match date_value_of(v, now.date) {
            Some(d) => Some(ValueView::Date(d)),
            None => None,
        },
        ColumnTypeView::Timestamp => match rfc3339_of(v) {
            Some(t) => Some(ValueView::Timestamp(t)),
            None => match date_value_of(v, now.date) {
                Some(d) => Some(ValueView::Date(d)),
                None => match human_second_offset(v) {
                    Some(n) => match timestamp_after(now, n) {
                        Some(t) => Some(ValueView::Timestamp(t)),
                        None => None,
                    },
                    None => None,
                },
            },
        },
        _ => Some(ValueView::Text(v)),
    }
}

/// The predicate of the constraint `field op v`, with `field` resolved to `r`.
pub open spec fn predicate_meaning(
    r: Resolved,
    field: Seq<char>,
    op: Operator,
    v: Seq<char>,
    now: Timestamp,
) -> Result<PredicateView, BuildFailure> {
    let target = target_of(r);
    if is_null_word(v) {
        Ok(
            PredicateView {
                target,
                test: if negating(op) {
                    TestView::IsNotNull
                } else {
                    TestView::IsNull
                },
            },
        )
    } else if op == Operator::Like || op == Operator::NotLike {
        let pattern = like_pattern(v);
        let test = if op == Operator::Like {
            TestView::Like(pattern)
        } else {
            TestView::NotLike(pattern)
        };
        match r.kind {
            ColumnTypeView::Text | ColumnTypeView::Json => Ok(PredicateView { target, test }),
            ColumnTypeView::TextArray => Ok(
                PredicateView { target: TargetView::JoinedArray(r.column), test },
            ),
            _ => Err(BuildFailure::UnsupportedOperator(field)),
        }
    } else if !comparing(op) {
        Err(BuildFailure::UnsupportedOperator(field))
    } else if r.kind is TextArray {
        if op == Operator::Equal {
            Ok(PredicateView { target, test: TestView::Contains(ValueView::Text(v)) })
        } else if op == Operator::NotEqual {
            Ok(PredicateView { target, test: TestView::NotContains(ValueView::Text(v)) })
        } else {
            Err(BuildFailure::UnsupportedOperator(field))
        }
    } else {
        match typed_value(r.kind, v, now) {
            Some(val) => Ok(PredicateView { target, test: TestView::Compare(op, val) }),
            None => Err(BuildFailure::ValueParse(field, v)),
        }
    }
}

/// The predicates of a constraint, one per value, or the first failure.
pub open spec fn predicates_meaning(
    r: Resolved,
    field: Seq<char>,
    op: Operator,
    values: Seq<Seq<char>>,
    now: Timestamp,
) -> Result<Seq<PredicateView>, BuildFailure>
    decreases values.len(),
{
    if values.len() == 0 {
        Ok(Seq::empty())
    } else {
        match predicates_meaning(r, field, op, values.drop_last(), now) {
            Err(e) => Err(e),
            Ok(ps) => match predicate_meaning(r, field, op, values.last(), now) {
                Err(e) => Err(e),
                Ok(p) => Ok(ps.push(p)),
            },
        }
    }
}

/// Substring predicates for `v` on each text column, in declaration order.
pub open spec fn text_predicates(cols: Seq<ColumnView>, v: Seq<char>) -> Seq<PredicateView>
    decreases cols.len(),
{
    if cols.len() == 0 {
        Seq::empty()
    } else {
        let before = text_predicates(cols.drop_last(), v);
        let c = cols.last();
        match c.kind {
            ColumnTypeView::Text => before.push(
                PredicateView { target: TargetView::Column(c.name), test: TestView::Like(like_pattern(v)) },
            ),
            ColumnTypeView::TextArray => before.push(
                PredicateView {
                    target: TargetView::JoinedArray(c.name),
                    test: TestView::Like(like_pattern(v)),
                },
            ),
            _ => before,
        }
    }
}

/// The predicates of a full-text term: for each value in turn, those of [`text_predicates`].
pub open spec fn full_text_predicates(cols: Seq<ColumnView>, values: Seq<Seq<char>>) -> Seq<PredicateView>
    decreases values.len(),
{
    if values.len() == 0 {
        Seq::empty()
    } else {
        full_text_predicates(cols, values.drop_last()) + text_predicates(cols, values.last())
    }
}

/// The clause of one constraint.
pub open spec fn clause_meaning(cols: Seq<ColumnView>, c: ConstraintView, now: Timestamp) -> Result<ClauseView, BuildFailure> {
    match (c.field, c.op) {
        (Some(f), Some(op)) => match resolve_field(cols, f) {
            None => Err(BuildFailure::UnknownField(f)),
            Some(r) => match predicates_meaning(r, f, op, c.values, now) {
                Err(e) => Err(e),
                Ok(ps) => Ok(ClauseView { all: negating(op), predicates: ps }),
            },
        },
        _ => Ok(ClauseView { all: false, predicates: full_text_predicates(cols, c.values) }),
    }
}

/// The clauses of the constraints, in order, or the first failure.
pub open spec fn clauses_meaning(cols: Seq<ColumnView>, cs: Seq<ConstraintView>, now: Timestamp) -> Result<Seq<ClauseView>, BuildFailure>
    decreases cs.len(),
{
    if cs.len() == 0 {
        Ok(Seq::empty())
    } else {
        match clauses_meaning(cols, cs.drop_last(), now) {
            Err(e) => Err(e),
            Ok(r) => match clause_meaning(cols, cs.last(), now) {
                Err(e) => Err(e),
                Ok(c) => Ok(r.push(c)),
            },
        }
    }
}

/// The filter that the query text `q` denotes over `cols`, with relative time
/// resolved against `now`, the server's local time.
pub open spec fn filter_meaning(q: Seq<char>, cols: Seq<ColumnView>, now: Timestamp) -> Result<Seq<ClauseView>, BuildFailure> {
    match query_meaning(q) {
        Err(e) => Err(BuildFailure::Query(e)),
        Ok(cs) => clauses_meaning(cols, cs, now),
    }
}

/// The view of an optional string.
pub open spec fn opt_view(o: Option<String>) -> Option<Seq<char>> {
    match o {
        Some(s) => Some(s@),
        None => None,
    }
}

fn find_column_exec(cols: &Columns, name: &String) -> (r: Option<usize>)
    ensures
        match r {
            Some(i) => find_column(cols@, name@, 0) == Some(i as int) && i < cols.columns.len(),
            None => find_column(cols@, name@, 0) is None,
        },
{
    let mut i: usize = 0;
    while i < cols.columns.len()
        invariant
            i <= cols.columns.len(),
            find_column(cols@, name@, 0) == find_column(cols@, name@, i as int),
        decreases cols.columns.len() - i,
    {
        assert(cols@[i as int] == cols.columns@[i as int]@);
        if cols.columns[i].name == *name {
            return Some(i);
        }
        i += 1;
    }
    None
}

fn find_char_exec(s: &Vec<char>, c: char) -> (r: Option<usize>)
    ensures
        match r {
            Some(i) => find_char(s@, c, 0) == Some(i as int) && i < s.len(),
            None => find_char(s@, c, 0) is None,
        },
{
    let mut i: usize = 0;
    while i < s.len()
        invariant
            i <= s.len(),
            find_char(s@, c, 0) == find_char(s@, c, i as int),
        decreases s.len() - i,
    {
        if s[i] == c {
            return Some(i);
        }
        i += 1;
    }
    None
}

fn chars_range(v: &Vec<char>, from: usize, to: usize) -> (r: Vec<char>)
    requires
        from <= to <= v.len(),
    ensures
        r@ == v@.subrange(from as int, to as int),
{
    let mut r: Vec<char> = Vec::new();
    let mut i: usize = from;
    while i < to
        invariant
            from <= i <= to <= v.len(),
            r@ == v@.subrange(from as int, i as int),
        decreases to - i,
    {
        r.push(v[i]);
        i += 1;
        assert(r@ =~= v@.subrange(from as int, i as int));
    }
    r
}

/// The resolution of a field: the column's position, its name and the JSON key if any.
fn resolve_exec(cols: &Columns, f: &Vec<char>) -> (r: Option<(usize, String, Option<String>)>)
    ensures
        match r {
            None => resolve_field(cols@, f@) is None,
            Some((i, c, k)) => i < cols.columns.len() && resolve_field(cols@, f@) == Some(
                Resolved {
                    column: c@,
                    key: opt_view(k),
                    kind: if k is Some {
                        ColumnTypeView::Text
                    } else {
                        cols@[i as int].kind
                    },
                },
            ),
        },
{
    match find_char_exec(f, ':') {
        Some(k) => {
            let base = string_of(&chars_range(f, 0, k));
            let key = string_of(&chars_range(f, k + 1, f.len()));
            assert(f@.subrange(0, k as int) =~= f@.take(k as int));
            assert(f@.subrange(k + 1, f@.len() as int) =~= f@.skip(k + 1));
            match find_column_exec(cols, &base) {
                Some(i) => {
                    assert(cols@[i as int] == cols.columns@[i as int]@);
                    match cols.columns[i].kind {
                        ColumnType::Json => Some((i, base, Some(key))),
                        _ => None,
                    }
                },
                None => None,
            }
        },
        None => {
            let name = string_of(f);
            match find_column_exec(cols, &name) {
                Some(i) => {
                    assert(cols@[i as int] == cols.columns@[i as int]@);
                    Some((i, name, None))
                },
                None => None,
            }
        },
    }
}

/// The LIKE pattern matching every text that holds `v`.
pub fn like_pattern_of(v: &Vec<char>) -> (r: String)
    ensures
        r@ == like_pattern(v@),
{
    let mut out: Vec<char> = vec!['%'];
    let mut i: usize = 0;
    assert(v@.take(0) =~= Seq::<char>::empty());
    assert(out@ =~= seq!['%'] + escape_like(v@.take(0)));
    while i < v.len()
        invariant
            i <= v.len(),
            out@ == seq!['%'] + escape_like(v@.take(i as int)),
        decreases v.len() - i,
    {
        let c = v[i];
        let ghost before = out@;
        if c == '%' || c == '_' {
            out.push('\\');
        }
        out.push(c);
        assert(v@.take(i + 1).drop_last() =~= v@.take(i as int));
        i += 1;
        assert(out@ =~= seq!['%'] + escape_like(v@.take(i as int)));
    }
    assert(v@.take(v.len() as int) =~= v@);
    out.push('%');
    string_of(&out)
}

fn target_exec(column: &String, key: &Option<String>) -> (r: Target)
    ensures
        r@ == match opt_view(*key) {
            Some(k) => TargetView::JsonField(column@, k),
            None => TargetView::Column(column@),
        },
{
    match key {
        Some(k) => Target::JsonField(column.clone(), k.clone()),
        None => Target::Column(column.clone()),
    }
}

fn find_variant_exec(vs: &Vec<String>, v: &Vec<char>) -> (r: Option<usize>)
    ensures
        match r {
            Some(j) => find_variant(strings_view(vs@), v@, 0) == Some(j as int) && j < vs.len(),
            None => find_variant(strings_view(vs@), v@, 0) is None,
        },
{
    let mut j: usize = 0;
    while j < vs.len()
        invariant
            j <= vs.len(),
            find_variant(strings_view(vs@), v@, 0) == find_variant(strings_view(vs@), v@, j as int),
        decreases vs.len() - j,
    {
        let w = chars_of(vs[j].as_str());
        if ascii_ci_eq(&w, v) {
            return Some(j);
        }
        j += 1;
    }
    None
}

/// The field resolution of column `i`, with the JSON key `key` if any.
pub open spec fn resolved_at(cols: Seq<ColumnView>, i: int, column: Seq<char>, key: Option<Seq<char>>) -> Resolved {
    Resolved {
        column,
        key,
        kind: if key is Some {
            ColumnTypeView::Text
        } else {
            cols[i].kind
        },
    }
}

fn predicate_exec(
    cols: &Columns,
    i: usize,
    column: &String,
    key: &Option<String>,
    field: &String,
    op: Operator,
    v: &String,
    now: Timestamp,
) -> (r: Result<Predicate, Error>)
    requires
        i < cols.columns.len(),
        valid_timestamp(now),
    ensures
        match r {
            Ok(p) => predicate_meaning(resolved_at(cols@, i as int, column@, opt_view(*key)), field@, op, v@, now)
                == Ok::<PredicateView, BuildFailure>(p@),
            Err(e) => predicate_meaning(resolved_at(cols@, i as int, column@, opt_view(*key)), field@, op, v@, now)
                == Err::<PredicateView, BuildFailure>(failure_of(e)),
        },
{
    let ghost res = resolved_at(cols@, i as int, column@, opt_view(*key));
    assert(cols@[i as int] == cols.columns@[i as int]@);
    let vc = chars_of(v.as_str());
    let target = target_exec(column, key);
    if is_null_value(&vc) {
        let test = if op == Operator::NotEqual || op == Operator::NotLike {
            Test::IsNotNull
        } else {
            Test::IsNull
        };
        return Ok(Predicate { target, test });
    }
    let json_key = key.is_some();
    if op == Operator::Like || op == Operator::NotLike {
        let pattern = like_pattern_of(&vc);
        let test = if op == Operator::Like {
            Test::Like(pattern)
        } else {
            Test::NotLike(pattern)
        };
        if json_key {
            return Ok(Predicate { target, test });
        }
        return match &cols.columns[i].kind {
            ColumnType::Text | ColumnType::Json => Ok(Predicate { target, test }),
            ColumnType::TextArray => Ok(Predicate { target: Target::JoinedArray(column.clone()), test }),
            _ => Err(Error::UnsupportedOperator(field.clone())),
        };
    }
    if !(op == Operator::Equal || op == Operator::NotEqual || op == Operator::GreaterThan || op
        == Operator::GreaterThanOrEqual || op == Operator::LessThan || op
        == Operator::LessThanOrEqual) {
        return Err(Error::UnsupportedOperator(field.clone()));
    }
    if json_key {
        return Ok(Predicate { target, test: Test::Compare(op, Value::Text(v.clone())) });
    }
    match &cols.columns[i].kind {
        ColumnType::TextArray => {
            if op == Operator::Equal {
                Ok(Predicate { target, test: Test::Contains(Value::Text(v.clone())) })
            } else if op == Operator::NotEqual {
                Ok(Predicate { target, test: Test::NotContains(Value::Text(v.clone())) })
            } else {
                Err(Error::UnsupportedOperator(field.clone()))
            }
        },
        ColumnType::Enum(t, vs) => match find_variant_exec(vs, &vc) {
            Some(j) => Ok(
                Predicate { target, test: Test::Compare(op, Value::Enum(t.clone(), vs[j].clone())) },
            ),
            None => Err(Error::ValueParse(field.clone(), v.clone())),
        },
        ColumnType::Integer => match parse_i64(v.as_str()) {
            Some(n) => Ok(Predicate { target, test: Test::Compare(op, Value::Integer(n)) }),
            None => Err(Error::ValueParse(field.clone(), v.clone())),
        },
        ColumnType::Boolean => match parse_boolean(&vc) {
            Some(b) => Ok(Predicate { target, test: Test::Compare(op, Value::Boolean(b)) }),
            None => Err(Error::ValueParse(field.clone(), v.clone())),
        },
        ColumnType::Uuid => match parse_uuid_str(v.as_str()) {
            Some(u) => Ok(Predicate { target, test: Test::Compare(op, Value::Uuid(u)) }),
            None => Err(Error::ValueParse(field.clone(), v.clone())),
        },
        ColumnType::Date => match parse_date_value(&vc, now.date) {
            Some(d) => Ok(Predicate { target, test: Test::Compare(op, Value::Date(d)) }),
            None => Err(Error::ValueParse(field.clone(), v.clone())),
        },
        ColumnType::Timestamp => match parse_rfc3339(v.as_str()) {
            Some(t) => Ok(Predicate { target, test: Test::Compare(op, Value::Timestamp(t)) }),
            None => match parse_date_value(&vc, now.date) {
                Some(d) => Ok(Predicate { target, test: Test::Compare(op, Value::Date(d)) }),
                None => match human_seconds(&vc) {
                    Some(n) => match shift_timestamp(now, n) {
                        Some(t) => Ok(Predicate { target, test: Test::Compare(op, Value::Timestamp(t)) }),
                        None => Err(Error::ValueParse(field.clone(), v.clone())),
                    },
                    None => Err(Error::ValueParse(field.clone(), v.clone())),
                },
            },
        },
        ColumnType::Text | ColumnType::Json => Ok(
            Predicate { target, test: Test::Compare(op, Value::Text(v.clone())) },
        ),
    }
}

proof fn lemma_predicates_error_stays(
    r: Resolved,
    field: Seq<char>,
    op: Operator,
    values: Seq<Seq<char>>,
    k: int,
    now: Timestamp,
)
    requires
        0 <= k <= values.len(),
        predicates_meaning(r, field, op, values.take(k), now) is Err,
    ensures
        predicates_meaning(r, field, op, values, now) == predicates_meaning(r, field, op, values.take(k), now),
    decreases values.len() - k,
{
    if k < values.len() {
        assert(values.take(k + 1).drop_last() =~= values.take(k));
        lemma_predicates_error_stays(r, field, op, values, k + 1, now);
    } else {
        assert(values.take(k) =~= values);
    }
}

proof fn lemma_clauses_error_stays(cols: Seq<ColumnView>, cs: Seq<ConstraintView>, k: int, now: Timestamp)
    requires
        0 <= k <= cs.len(),
        clauses_meaning(cols, cs.take(k), now) is Err,
    ensures
        clauses_meaning(cols, cs, now) == clauses_meaning(cols, cs.take(k), now),
    decreases cs.len() - k,
{
    if k < cs.len() {
        assert(cs.take(k + 1).drop_last() =~= cs.take(k));
        lemma_clauses_error_stays(cols, cs, k + 1, now);
    } else {
        assert(cs.take(k) =~= cs);
    }
}

/// The views of some predicates.
pub open spec fn predicates_view(v: Seq<Predicate>) -> Seq<PredicateView> {
    v.map_values(|p: Predicate| p@)
}

/// Appends the substring predicates for `v` on each text column.
fn push_text_predicates(cols: &Columns, v: &Vec<char>, out: &mut Vec<Predicate>)
    ensures
        predicates_view(final(out)@) == predicates_view(old(out)@) + text_predicates(cols@, v@),
{
    let mut i: usize = 0;
    let ghost start = predicates_view(out@);
    assert(cols@.take(0) =~= Seq::<ColumnView>::empty());
    assert(predicates_view(out@) =~= start + text_predicates(cols@.take(0), v@));
    while i < cols.columns.len()
        invariant
            i <= cols.columns.len(),
            predicates_view(out@) == start + text_predicates(cols@.take(i as int), v@),
        decreases cols.columns.len() - i,
    {
        let ghost before = predicates_view(out@);
        assert(cols@.take(i + 1).drop_last() =~= cols@.take(i as int));
        assert(cols@.take(i + 1).last() == cols.columns@[i as int]@);
        match &cols.columns[i].kind {
            ColumnType::Text => {
                let p = Predicate {
                    target: Target::Column(cols.columns[i].name.clone()),
                    test: Test::Like(like_pattern_of(v)),
                };
                out.push(p);
                assert(predicates_view(out@) =~= before.push(p@));
            },
            ColumnType::TextArray => {
                let p = Predicate {
                    target: Target::JoinedArray(cols.columns[i].name.clone()),
                    test: Test::Like(like_pattern_of(v)),
                };
                out.push(p);
                assert(predicates_view(out@) =~= before.push(p@));
            },
            _ => {},
        }
        i += 1;
    }
    assert(cols@.take(cols.columns.len() as int) =~= cols@);
}

/// The clause of one constraint.
fn clause_exec(cols: &Columns, c: &Constraint, now: Timestamp) -> (r: Result<Clause, Error>)
    requires
        valid_timestamp(now),
    ensures
        match r {
            Ok(cl) => clause_meaning(cols@, c@, now) == Ok::<ClauseView, BuildFailure>(cl@),
            Err(e) => clause_meaning(cols@, c@, now) == Err::<ClauseView, BuildFailure>(failure_of(e)),
        },
{
    let values = &c.values;
    match (&c.field, c.op) {
        (Some(f), Some(op)) => {
            let fc = chars_of(f.as_str());
            match resolve_exec(cols, &fc) {
                None => Err(Error::UnknownField(f.clone())),
                Some((i, column, key)) => {
                    let ghost res = resolved_at(cols@, i as int, column@, opt_view(key));
                    let mut preds: Vec<Predicate> = Vec::new();
                    let mut j: usize = 0;
                    assert(strings_view(values@).take(0) =~= Seq::<Seq<char>>::empty());
                    assert(predicates_view(preds@) =~= Seq::<PredicateView>::empty());
                    while j < values.len()
                        invariant
                            j <= values.len(),
                            i < cols.columns.len(),
                            valid_timestamp(now),
                            res == resolved_at(cols@, i as int, column@, opt_view(key)),
                            strings_view(values@) == c@.values,
                            c@.field == Some(f@),
                            c@.op == Some(op),
                            resolve_field(cols@, f@) == Some(res),
                            predicates_meaning(res, f@, op, strings_view(values@).take(j as int), now)
                                == Ok::<Seq<PredicateView>, BuildFailure>(predicates_view(preds@)),
                        decreases values.len() - j,
                    {
                        let ghost vs = strings_view(values@);
                        assert(vs.take(j + 1).drop_last() =~= vs.take(j as int));
                        assert(vs.take(j + 1).last() == values@[j as int]@);
                        match predicate_exec(cols, i, &column, &key, f, op, &values[j], now) {
                            Ok(p) => {
                                let ghost before = predicates_view(preds@);
                                preds.push(p);
                                assert(predicates_view(preds@) =~= before.push(p@));
                            },
                            Err(e) => {
                                proof {
                                    lemma_predicates_error_stays(res, f@, op, vs, j + 1, now);
                                }
                                return Err(e);
                            },
                        }
                        j += 1;
                    }
                    assert(strings_view(values@).take(values.len() as int) =~= strings_view(values@));
                    let all = op == Operator::NotEqual || op == Operator::NotLike;
                    Ok(Clause { all, predicates: preds })
                },
            }
        },
        _ => {
            let mut preds: Vec<Predicate> = Vec::new();
            let mut j: usize = 0;
            assert(strings_view(values@).take(0) =~= Seq::<Seq<char>>::empty());
            assert(predicates_view(preds@) =~= Seq::<PredicateView>::empty());
            while j < values.len()
                invariant
                    j <= values.len(),
                    predicates_view(preds@) == full_text_predicates(cols@, strings_view(values@).take(j as int)),
                decreases values.len() - j,
            {
                let ghost vs = strings_view(values@);
                assert(vs.take(j + 1).drop_last() =~= vs.take(j as int));
                assert(vs.take(j + 1).last() == values@[j as int]@);
                let vc = chars_of(values[j].as_str());
                push_text_predicates(cols, &vc, &mut preds);
                j += 1;
            }
            assert(strings_view(values@).take(values.len() as int) =~= strings_view(values@));
            Ok(Clause { all: false, predicates: preds })
        },
    }
}

/// Builds the filter that the query text `q` denotes over `columns`. Relative time is
/// resolved against `now`, the server's local time: day phrases (`yesterday`, `last
/// week`) give dates, instant phrases (`now`, `3 days ago`, `in 2 hours`, `an hour
/// ago`) give instants. Months, years and weekday phrases are not read.
pub fn build_filter(q: &str, columns: &Columns, now: Timestamp) -> (r: Result<Filter, Error>)
    requires
        valid_timestamp(now),
    ensures
        match r {
            Ok(f) => filter_meaning(q@, columns@, now) == Ok::<Seq<ClauseView>, BuildFailure>(f@),
            Err(e) => filter_meaning(q@, columns@, now) == Err::<Seq<ClauseView>, BuildFailure>(failure_of(e)),
        },
{
    let cs = match parse_query(q) {
        Ok(cs) => cs,
        Err(e) => {
            proof {
                lemma_unescape_error(q@, 0);
            }
            return Err(e);
        },
    };
    let mut clauses: Vec<Clause> = Vec::new();
    let mut i: usize = 0;
    let ghost cv = constraints_view(cs@);
    assert(cv.take(0) =~= Seq::<ConstraintView>::empty());
    assert(clauses@.map_values(|c: Clause| c@) =~= Seq::<ClauseView>::empty());
    while i < cs.len()
        invariant
            i <= cs.len(),
            valid_timestamp(now),
            cv == constraints_view(cs@),
            query_meaning(q@) == Ok::<Seq<ConstraintView>, Error>(cv),
            clauses_meaning(columns@, cv.take(i as int), now) == Ok::<Seq<ClauseView>, BuildFailure>(
                clauses@.map_values(|c: Clause| c@),
            ),
        decreases cs.len() - i,
    {
        assert(cv.take(i + 1).drop_last() =~= cv.take(i as int));
        assert(cv.take(i + 1).last() == cs@[i as int]@);
        match clause_exec(columns, &cs[i], now) {
            Ok(c) => {
                let ghost before = clauses@.map_values(|c: Clause| c@);
                clauses.push(c);
                assert(clauses@.map_values(|c: Clause| c@) =~= before.push(c@));
            },
            Err(e) => {
                proof {
                    lemma_clauses_error_stays(columns@, cv, i + 1, now);
                }
                return Err(e);
            },
        }
        i += 1;
    }
    assert(cv.take(cs.len() as int) =~= cv);
    Ok(Filter { clauses })
}

/// The filter is a function of the query text, the columns and the day: two builds
/// from the same inputs give the same filter, with clauses in query order and
/// full-text predicates in column declaration order.
pub proof fn lemma_build_deterministic(
    q: Seq<char>,
    cols: Seq<ColumnView>,
    now: Timestamp,
    a: Seq<ClauseView>,
    b: Seq<ClauseView>,
)
    requires
        filter_meaning(q, cols, now) == Ok::<Seq<ClauseView>, BuildFailure>(a),
        filter_meaning(q, cols, now) == Ok::<Seq<ClauseView>, BuildFailure>(b),
    ensures
        a == b,
{
}

/// The clauses of some filters, one filter after another.
pub open spec fn joined_clauses(fs: Seq<Seq<ClauseView>>) -> Seq<ClauseView>
    decreases fs.len(),
{
    if fs.len() == 0 {
        Seq::empty()
    } else {
        joined_clauses(fs.drop_last()) + fs.last()
    }
}

impl Filter {
    /// The conjunction of some filters.
    pub fn all(filters: Vec<Filter>) -> (r: Filter)
        ensures
            r@ == joined_clauses(filters@.map_values(|f: Filter| f@)),
    {
        let ghost fv = filters@.map_values(|f: Filter| f@);
        let mut clauses: Vec<Clause> = Vec::new();
        assert(fv.take(0) =~= Seq::<Seq<ClauseView>>::empty());
        for f in it: filters
            invariant
                fv == it.seq().map_values(|f: Filter| f@),
                clauses@.map_values(|c: Clause| c@) == joined_clauses(fv.take(it.index() as int)),
        {
            let ghost before = clauses@.map_values(|c: Clause| c@);
            let ghost k = it.index() as int;
            assert(fv.take(k + 1).drop_last() =~= fv.take(k));
            assert(fv.take(k + 1).last() == f@);
            let mut more = f.clauses;
            let ghost mv = more@;
            clauses.append(&mut more);
            assert(clauses@.map_values(|c: Clause| c@) =~= before + mv.map_values(|c: Clause| c@));
        }
        assert(fv.take(fv.len() as int) =~= fv);
        Filter { clauses }
    }
}

} // verus!
