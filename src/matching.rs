//! Evaluating filters on stored groups, as the database evaluates them on rows.
//!
//! A group shows a query the columns `id`, `parent_id`, `name`, `revision`, and
//! `labels` (JSON, one text per key). A missing value is SQL NULL: only `IS NULL`
//! holds of it. LIKE patterns match case-insensitively, with `%` for any text, `_`
//! for any character and a backslash making the next character literal.
use vstd::prelude::*;
use crate::filter::{Clause, ClauseView, ColumnType, ColumnTypeView, ColumnView, Columns, Filter, Predicate, PredicateView, Target, TargetView, Test, TestView, Value, ValueView};
use crate::group::{labels_view, GroupView, Label, SbomGroup};
use crate::query::Operator;
use crate::text::{chars_of, lex_less, lex_lt, lower_of, lowercase, same_chars};

verus! {

/// Whether the LIKE pattern `p` matches the whole text `t`.
pub open spec fn like_match(p: Seq<char>, t: Seq<char>) -> bool
    decreases p.len() + t.len(),
{
    if p.len() == 0 {
        t.len() == 0
    } else if p[0] == '%' {
        like_match(p.drop_first(), t) || (t.len() > 0 && like_match(p, t.drop_first()))
    } else if p[0] == '_' {
        t.len() > 0 && like_match(p.drop_first(), t.drop_first())
    } else if p[0] == '\\' && p.len() > 1 {
        t.len() > 0 && t[0] == p[1] && like_match(p.skip(2), t.drop_first())
    } else {
        t.len() > 0 && t[0] == p[0] && like_match(p.drop_first(), t.drop_first())
    }
}

/// Whether the pattern from `i` on matches the text from `j` on.
fn like_from(p: &Vec<char>, t: &Vec<char>, i: usize, j: usize) -> (r: bool)
    requires
        i <= p.len(),
        j <= t.len(),
    ensures
        r == like_match(p@.skip(i as int), t@.skip(j as int)),
    decreases (p.len() - i) + (t.len() - j),
{
    let ghost ps = p@.skip(i as int);
    let ghost ts = t@.skip(j as int);
    if i == p.len() {
        return j == t.len();
    }
    assert(ps[0] == p@[i as int]);
    assert(ps.drop_first() =~= p@.skip(i + 1));
    if j < t.len() {
        assert(ts[0] == t@[j as int]);
        assert(ts.drop_first() =~= t@.skip(j + 1));
    }
    let c = p[i];
    if c == '%' {
        if like_from(p, t, i + 1, j) {
            return true;
        }
        j < t.len() && like_from(p, t, i, j + 1)
    } else if c == '_' {
        j < t.len() && like_from(p, t, i + 1, j + 1)
    } else if c == '\\' && i + 1 < p.len() {
        assert(ps[1] == p@[i + 1]);
        assert(ps.skip(2) =~= p@.skip(i + 2));
        j < t.len() && t[j] == p[i + 1] && like_from(p, t, i + 2, j + 1)
    } else {
        j < t.len() && t[j] == c && like_from(p, t, i + 1, j + 1)
    }
}

/// Whether the LIKE pattern `p` matches the whole text `t`.
pub fn like_matches(p: &Vec<char>, t: &Vec<char>) -> (r: bool)
    ensures
        r == like_match(p@, t@),
{
    assert(p@.skip(0) =~= p@ && t@.skip(0) =~= t@);
    like_from(p, t, 0, 0)
}

pub open spec fn column_id() -> Seq<char> {
    seq!['i', 'd']
}

pub open spec fn column_parent_id() -> Seq<char> {
    seq!['p', 'a', 'r', 'e', 'n', 't', '_', 'i', 'd']
}

pub open spec fn column_name() -> Seq<char> {
    seq!['n', 'a', 'm', 'e']
}

pub open spec fn column_revision() -> Seq<char> {
    seq!['r', 'e', 'v', 'i', 's', 'i', 'o', 'n']
}

pub open spec fn column_labels() -> Seq<char> {
    seq!['l', 'a', 'b', 'e', 'l', 's']
}

/// The columns that queries on groups may name, in declaration order.
pub open spec fn group_columns_spec() -> Seq<ColumnView> {
    seq![
        ColumnView { name: column_id(), kind: ColumnTypeView::Uuid },
        ColumnView { name: column_parent_id(), kind: ColumnTypeView::Uuid },
        ColumnView { name: column_name(), kind: ColumnTypeView::Text },
        ColumnView { name: column_revision(), kind: ColumnTypeView::Integer },
        ColumnView { name: column_labels(), kind: ColumnTypeView::Json },
    ]
}

/// The columns that queries on groups may name.
pub fn group_columns() -> (r: Columns)
    ensures
        r@ == group_columns_spec(),
{
    let r = Columns::new()
        .add("id", ColumnType::Uuid)
        .add("parent_id", ColumnType::Uuid)
        .add("name", ColumnType::Text)
        .add("revision", ColumnType::Integer)
        .add("labels", ColumnType::Json);
    proof {
        reveal_strlit("id");
        reveal_strlit("parent_id");
        reveal_strlit("name");
        reveal_strlit("revision");
        reveal_strlit("labels");
        assert("id"@ =~= column_id());
        assert("parent_id"@ =~= column_parent_id());
        assert("name"@ =~= column_name());
        assert("revision"@ =~= column_revision());
        assert("labels"@ =~= column_labels());
    }
    assert(r@ =~= group_columns_spec());
    r
}

/// A value of a group as a query sees it; `Null` where it has none.
pub enum CellView {
    Null,
    Text(Seq<char>),
    Integer(int),
    Uuid(u128),
}

/// The value of the first label with key `k`, from position `i` on.
pub open spec fn label_value(labels: Seq<(Seq<char>, Seq<char>)>, k: Seq<char>, i: int) -> Option<Seq<char>>
    decreases labels.len() - i,
{
    if i < 0 || i >= labels.len() {
        None
    } else if labels[i].0 == k {
        Some(labels[i].1)
    } else {
        label_value(labels, k, i + 1)
    }
}

/// What a target of a predicate reads of a group.
pub open spec fn group_cell(g: GroupView, t: TargetView) -> CellView {
    match t {
        TargetView::Column(c) => if c == column_id() {
            CellView::Uuid(g.id)
        } else if c == column_parent_id() {
            match g.parent {
                Some(p) => CellView::Uuid(p),
                None => CellView::Null,
            }
        } else if c == column_name() {
            CellView::Text(g.name)
        } else if c == column_revision() {
            CellView::Integer(g.revision as int)
        } else {
            CellView::Null
        },
        TargetView::JsonField(c, k) => if c == column_labels() {
            match label_value(g.labels, k, 0) {
                Some(v) => CellView::Text(v),
                None => CellView::Null,
            }
        } else {
            CellView::Null
        },
        TargetView::JoinedArray(_) => CellView::Null,
    }
}

/// Whether a comparison holds, given how the two sides are ordered.
pub open spec fn ordering_holds(op: Operator, lt: bool, eq: bool, gt: bool) -> bool {
    match op {
        Operator::Equal => eq,
        Operator::NotEqual => !eq,
        Operator::GreaterThan => gt,
        Operator::GreaterThanOrEqual => gt || eq,
        Operator::LessThan => lt,
        Operator::LessThanOrEqual => lt || eq,
        _ => false,
    }
}

/// Whether `cell op v` holds; a missing value or one of another type compares false.
pub open spec fn compare_holds(op: Operator, cell: CellView, v: ValueView) -> bool {
    match (cell, v) {
        (CellView::Text(a), ValueView::Text(b)) => ordering_holds(op, lex_lt(a, b), a == b, lex_lt(b, a)),
        (CellView::Integer(a), ValueView::Integer(b)) => ordering_holds(op, a < b, a == b, a > b),
        (CellView::Uuid(a), ValueView::Uuid(b)) => ordering_holds(op, a < b, a == b, a > b),
        _ => false,
    }
}

/// Whether a predicate holds of a group.
pub open spec fn predicate_holds(g: GroupView, p: PredicateView) -> bool {
    let cell = group_cell(g, p.target);
    match p.test {
        TestView::IsNull => cell is Null,
        TestView::IsNotNull => !(cell is Null),
        TestView::Compare(op, v) => compare_holds(op, cell, v),
        TestView::Like(pat) => cell matches CellView::Text(t) && like_match(lower_of(pat), lower_of(t)),
        TestView::NotLike(pat) => cell matches CellView::Text(t) && !like_match(lower_of(pat), lower_of(t)),
        _ => false,
    }
}

/// Whether a clause holds of a group.
pub open spec fn clause_holds(g: GroupView, c: ClauseView) -> bool {
    if c.all {
        forall|i: int| 0 <= i < c.predicates.len() ==> predicate_holds(g, #[trigger] c.predicates[i])
    } else {
        exists|i: int| 0 <= i < c.predicates.len() && predicate_holds(g, #[trigger] c.predicates[i])
    }
}

/// Whether every clause of a filter holds of a group.
pub open spec fn filter_holds(g: GroupView, f: Seq<ClauseView>) -> bool {
    forall|i: int| 0 <= i < f.len() ==> clause_holds(g, #[trigger] f[i])
}

/// A value of a group as a query sees it.
pub enum Cell {
    Null,
    Text(String),
    Integer(i64),
    Uuid(u128),
}

impl View for Cell {
    type V = CellView;

    open spec fn view(&self) -> CellView {
        match self {
            Cell::Null => CellView::Null,
            Cell::Text(s) => CellView::Text(s@),
            Cell::Integer(n) => CellView::Integer(*n as int),
            Cell::Uuid(u) => CellView::Uuid(*u),
        }
    }
}

fn label_value_exec(labels: &Vec<Label>, k: &String) -> (r: Option<String>)
    ensures
        match r {
            Some(v) => label_value(labels_view(labels@), k@, 0) == Some(v@),
            None => label_value(labels_view(labels@), k@, 0) is None,
        },
{
    let ghost lv = labels_view(labels@);
    let mut i: usize = 0;
    while i < labels.len()
        invariant
            i <= labels.len(),
            lv == labels_view(labels@),
            label_value(lv, k@, 0) == label_value(lv, k@, i as int),
        decreases labels.len() - i,
    {
        assert(lv[i as int] == (labels@[i as int].0@, labels@[i as int].1@));
        if labels[i].0 == *k {
            return Some(labels[i].1.clone());
        }
        i += 1;
    }
    None
}

/// What a target of a predicate reads of a group.
pub fn group_cell_exec(g: &SbomGroup, t: &Target) -> (r: Cell)
    ensures
        r@ == group_cell(g@, t@),
{
    match t {
        Target::Column(c) => {
            let cc = chars_of(c.as_str());
            let id = vec!['i', 'd'];
            let parent_id = vec!['p', 'a', 'r', 'e', 'n', 't', '_', 'i', 'd'];
            let name = vec!['n', 'a', 'm', 'e'];
            let revision = vec!['r', 'e', 'v', 'i', 's', 'i', 'o', 'n'];
            assert(id@ =~= column_id());
            assert(parent_id@ =~= column_parent_id());
            assert(name@ =~= column_name());
            assert(revision@ =~= column_revision());
            if same_chars(&cc, &id) {
                Cell::Uuid(g.id)
            } else if same_chars(&cc, &parent_id) {
                match g.parent {
                    Some(p) => Cell::Uuid(p),
                    None => Cell::Null,
                }
            } else if same_chars(&cc, &name) {
                Cell::Text(g.name.clone())
            } else if same_chars(&cc, &revision) {
                Cell::Integer(g.revision as i64)
            } else {
                Cell::Null
            }
        },
        Target::JsonField(c, k) => {
            let cc = chars_of(c.as_str());
            let labels = vec!['l', 'a', 'b', 'e', 'l', 's'];
            assert(labels@ =~= column_labels());
            if same_chars(&cc, &labels) {
                match label_value_exec(&g.labels, k) {
                    Some(v) => Cell::Text(v),
                    None => Cell::Null,
                }
            } else {
                Cell::Null
            }
        },
        Target::JoinedArray(_) => Cell::Null,
    }
}

fn ordering_exec(op: Operator, lt: bool, eq: bool, gt: bool) -> (r: bool)
    ensures
        r == ordering_holds(op, lt, eq, gt),
{
    match op {
        Operator::Equal => eq,
        Operator::NotEqual => !eq,
        Operator::GreaterThan => gt,
        Operator::GreaterThanOrEqual => gt || eq,
        Operator::LessThan => lt,
        Operator::LessThanOrEqual => lt || eq,
        _ => false,
    }
}

fn compare_exec(op: Operator, cell: &Cell, v: &Value) -> (r: bool)
    ensures
        r == compare_holds(op, cell@, v@),
{
    match (cell, v) {
        (Cell::Text(a), Value::Text(b)) => {
            let ac = chars_of(a.as_str());
            let bc = chars_of(b.as_str());
            ordering_exec(op, lex_less(&ac, &bc), same_chars(&ac, &bc), lex_less(&bc, &ac))
        },
        (Cell::Integer(a), Value::Integer(b)) => ordering_exec(op, *a < *b, *a == *b, *a > *b),
        (Cell::Uuid(a), Value::Uuid(b)) => ordering_exec(op, *a < *b, *a == *b, *a > *b),
        _ => false,
    }
}

fn like_exec(pattern: &String, text: &String) -> (r: bool)
    ensures
        r == like_match(lower_of(pattern@), lower_of(text@)),
{
    let p = chars_of(lowercase(pattern.as_str()).as_str());
    let t = chars_of(lowercase(text.as_str()).as_str());
    like_matches(&p, &t)
}

/// Whether a predicate holds of a group.
pub fn predicate_holds_exec(g: &SbomGroup, p: &Predicate) -> (r: bool)
    ensures
        r == predicate_holds(g@, p@),
{
    let cell = group_cell_exec(g, &p.target);
    match &p.test {
        Test::IsNull => matches!(cell, Cell::Null),
        Test::IsNotNull => !matches!(cell, Cell::Null),
        Test::Compare(op, v) => compare_exec(*op, &cell, v),
        Test::Like(pat) => match &cell {
            Cell::Text(t) => like_exec(pat, t),
            _ => false,
        },
        Test::NotLike(pat) => match &cell {
            Cell::Text(t) => !like_exec(pat, t),
            _ => false,
        },
        _ => false,
    }
}

/// Whether a clause holds of a group.
pub fn clause_holds_exec(g: &SbomGroup, c: &Clause) -> (r: bool)
    ensures
        r == clause_holds(g@, c@),
{
    let ghost ps = c@.predicates;
    let mut i: usize = 0;
    while i < c.predicates.len()
        invariant
            i <= c.predicates.len(),
            ps == c@.predicates,
            c.all ==> forall|j: int| 0 <= j < i ==> predicate_holds(g@, #[trigger] ps[j]),
            !c.all ==> forall|j: int| 0 <= j < i ==> !predicate_holds(g@, #[trigger] ps[j]),
        decreases c.predicates.len() - i,
    {
        assert(ps[i as int] == c.predicates@[i as int]@);
        let h = predicate_holds_exec(g, &c.predicates[i]);
        if c.all && !h {
            return false;
        }
        if !c.all && h {
            return true;
        }
        i += 1;
    }
    c.all
}

/// Whether every clause of a filter holds of a group.
pub fn filter_holds_exec(g: &SbomGroup, f: &Filter) -> (r: bool)
    ensures
        r == filter_holds(g@, f@),
{
    let ghost fv = f@;
    let mut i: usize = 0;
    while i < f.clauses.len()
        invariant
            i <= f.clauses.len(),
            fv == f@,
            forall|j: int| 0 <= j < i ==> clause_holds(g@, #[trigger] fv[j]),
        decreases f.clauses.len() - i,
    {
        assert(fv[i as int] == f.clauses@[i as int]@);
        if !clause_holds_exec(g, &f.clauses[i]) {
            return false;
        }
        i += 1;
    }
    true
}

} // verus!
