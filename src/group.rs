//! The SBOM group store: a forest of named groups with revisions, and the
//! assignments of SBOMs to groups.
//!
//! The store keeps these invariants ([`SbomGroupService::wf`]): ids are unique,
//! every parent exists, following parents always ends at a root (no group is its
//! own ancestor), no two groups share a parent and a name, revisions are positive,
//! and every assignment names an existing group, once.
use vstd::prelude::*;
use crate::error::Error;
use crate::etag::{if_match_revision, required_revision, revision_from_if_match};
use crate::name::{name_problem, validate_name};
use crate::path::{parse_path, parsed_path, strings_view};
use crate::filter::{build_filter, failure_of, filter_meaning, ClauseView, Filter};
use crate::matching::{filter_holds, filter_holds_exec, group_columns, group_columns_spec};
use crate::value::{valid_timestamp, Timestamp};
use crate::text::{chars_of, lemma_lex_total, lemma_lex_transitive, lex_less, lex_lt};

verus! {

/// The largest number of parent links followed when checking a parent change.
pub const MAX_HIERARCHY_DEPTH: usize = 100;

/// A key and a value that label a group.
pub type Label = (String, String);

/// The views of some labels.
pub open spec fn labels_view(l: Seq<Label>) -> Seq<(Seq<char>, Seq<char>)> {
    l.map_values(|p: Label| (p.0@, p.1@))
}

/// A stored group.
#[derive(Debug, Clone, PartialEq, Eq)]
pub struct SbomGroup {
    pub id: u128,
    pub parent: Option<u128>,
    pub name: String,
    pub labels: Vec<Label>,
    pub revision: i32,
}

/// The mathematical value of a [`SbomGroup`].
pub struct GroupView {
    pub id: u128,
    pub parent: Option<u128>,
    pub name: Seq<char>,
    pub labels: Seq<(Seq<char>, Seq<char>)>,
    pub revision: i32,
}

impl View for SbomGroup {
    type V = GroupView;

    open spec fn view(&self) -> GroupView {
        GroupView {
            id: self.id,
            parent: self.parent,
            name: self.name@,
            labels: labels_view(self.labels@),
            revision: self.revision,
        }
    }
}

/// What a caller asks a group to be.
#[derive(Debug, Clone, PartialEq, Eq)]
pub struct SbomGroupRequest {
    pub parent: Option<u128>,
    pub name: String,
    pub labels: Vec<Label>,
}

/// The views of some groups.
pub open spec fn groups_view(v: Seq<SbomGroup>) -> Seq<GroupView> {
    v.map_values(|g: SbomGroup| g@)
}

/// The first position, from `i` on, of the group with id `id`.
pub open spec fn find_group(g: Seq<GroupView>, id: u128, i: int) -> Option<int>
    decreases g.len() - i,
{
    if i < 0 || i >= g.len() {
        None
    } else if g[i].id == id {
        Some(i)
    } else {
        find_group(g, id, i + 1)
    }
}

pub open spec fn has_group(g: Seq<GroupView>, id: u128) -> bool {
    find_group(g, id, 0) is Some
}

/// The parent of group `x`, `None` for a root or an absent group.
pub open spec fn parent_of(g: Seq<GroupView>, x: u128) -> Option<u128> {
    match find_group(g, x, 0) {
        Some(i) => g[i].parent,
        None => None,
    }
}

/// Following parents from `x` reaches a root in fewer than `n` links.
pub open spec fn reaches_root(g: Seq<GroupView>, x: u128, n: nat) -> bool
    decreases n,
{
    n > 0 && match parent_of(g, x) {
        None => true,
        Some(p) => reaches_root(g, p, (n - 1) as nat),
    }
}

/// `a` is a proper ancestor of `x`, within `n` links.
pub open spec fn ancestor_within(g: Seq<GroupView>, a: u128, x: u128, n: nat) -> bool
    decreases n,
{
    n > 0 && match parent_of(g, x) {
        None => false,
        Some(p) => p == a || ancestor_within(g, a, p, (n - 1) as nat),
    }
}

pub open spec fn unique_ids(g: Seq<GroupView>) -> bool {
    forall|i: int, j: int| 0 <= i < g.len() && 0 <= j < g.len() && i != j ==> #[trigger] g[i].id != #[trigger] g[j].id
}

pub open spec fn parents_exist(g: Seq<GroupView>) -> bool {
    forall|i: int| 0 <= i < g.len() ==> (#[trigger] g[i].parent matches Some(p) ==> has_group(g, p))
}

/// Following parents from `x` ends at a root.
pub open spec fn finite_chain(g: Seq<GroupView>, x: u128) -> bool {
    exists|n: nat| #[trigger] reaches_root(g, x, n)
}

pub open spec fn rooted(g: Seq<GroupView>) -> bool {
    forall|x: u128| #[trigger] finite_chain(g, x)
}

pub open spec fn unique_names(g: Seq<GroupView>) -> bool {
    forall|i: int, j: int|
        0 <= i < g.len() && 0 <= j < g.len() && i != j && #[trigger] g[i].parent == #[trigger] g[j].parent
            ==> g[i].name != g[j].name
}

pub open spec fn positive_revisions(g: Seq<GroupView>) -> bool {
    forall|i: int| 0 <= i < g.len() ==> #[trigger] g[i].revision >= 1
}

pub open spec fn names_valid(g: Seq<GroupView>) -> bool {
    forall|i: int| 0 <= i < g.len() ==> name_problem(#[trigger] g[i].name) is None
}

/// The invariant of the groups.
pub open spec fn groups_wf(g: Seq<GroupView>) -> bool {
    unique_ids(g) && parents_exist(g) && rooted(g) && unique_names(g) && positive_revisions(g)
        && names_valid(g)
}

/// The mathematical value of a [`SbomGroupRequest`].
pub struct RequestView {
    pub parent: Option<u128>,
    pub name: Seq<char>,
    pub labels: Seq<(Seq<char>, Seq<char>)>,
}

impl View for SbomGroupRequest {
    type V = RequestView;

    open spec fn view(&self) -> RequestView {
        RequestView { parent: self.parent, name: self.name@, labels: labels_view(self.labels@) }
    }
}

/// Some group other than `except` has this parent and name.
pub open spec fn name_taken(g: Seq<GroupView>, parent: Option<u128>, name: Seq<char>, except: Option<u128>) -> bool {
    exists|i: int| 0 <= i < g.len() && #[trigger] g[i].parent == parent && g[i].name == name && Some(g[i].id) != except
}

/// Why a group cannot be created from `req`, the id aside, checked in order: name,
/// parent, uniqueness of parent and name.
pub open spec fn create_problem(g: Seq<GroupView>, req: RequestView) -> Option<Error> {
    if name_problem(req.name) is Some {
        name_problem(req.name)
    } else if req.parent matches Some(p) && !has_group(g, p) {
        Some(Error::ParentNotFound(req.parent->Some_0))
    } else if name_taken(g, req.parent, req.name, None) {
        Some(Error::NameTaken)
    } else {
        None
    }
}

/// The groups after creating one with id `id` from `req`, or why that fails.
pub open spec fn create_result(g: Seq<GroupView>, id: u128, req: RequestView) -> Result<Seq<GroupView>, Error> {
    match create_problem(g, req) {
        Some(e) => Err(e),
        None => if has_group(g, id) {
            Err(Error::Internal)
        } else {
            Ok(g.push(GroupView { id, parent: req.parent, name: req.name, labels: req.labels, revision: 1 }))
        },
    }
}

/// How a bounded walk up the parents ends.
#[derive(Debug, Clone, Copy, PartialEq, Eq)]
pub enum WalkEnd {
    /// It met the group looked for.
    Found,
    /// It reached a root without meeting it.
    Root,
    /// It stopped at the bound.
    Exhausted,
}

/// Walks up from `y`, visiting at most `k` groups, looking for `id`.
pub open spec fn walk_up(g: Seq<GroupView>, y: u128, id: u128, k: nat) -> WalkEnd
    decreases k,
{
    if y == id {
        WalkEnd::Found
    } else {
        match parent_of(g, y) {
            None => WalkEnd::Root,
            Some(p) => if k <= 1 {
                WalkEnd::Exhausted
            } else {
                walk_up(g, p, id, (k - 1) as nat)
            },
        }
    }
}

/// Why group `id` cannot become `req` at revision `rev`, checked in order.
pub open spec fn update_problem(g: Seq<GroupView>, id: u128, rev: i32, req: RequestView) -> Option<Error> {
    match find_group(g, id, 0) {
        None => Some(Error::GroupNotFound(id)),
        Some(i) => if g[i].revision != rev {
            Some(Error::RevisionMismatch { stored: g[i].revision, expected: rev })
        } else if name_problem(req.name) is Some {
            name_problem(req.name)
        } else if req.parent == Some(id) {
            Some(Error::OwnParent)
        } else if req.parent matches Some(p) && !has_group(g, p) {
            Some(Error::ParentNotFound(req.parent->Some_0))
        } else if req.parent matches Some(p) && walk_up(g, p, id, MAX_HIERARCHY_DEPTH as nat) == WalkEnd::Found {
            Some(Error::Cycle)
        } else if req.parent matches Some(p) && walk_up(g, p, id, MAX_HIERARCHY_DEPTH as nat) == WalkEnd::Exhausted {
            Some(Error::HierarchyTooDeep)
        } else if name_taken(g, req.parent, req.name, Some(id)) {
            Some(Error::NameTaken)
        } else if rev == i32::MAX {
            Some(Error::Internal)
        } else {
            None
        },
    }
}

/// The groups after updating group `id` at revision `rev` to `req`, or why that fails.
pub open spec fn update_result(g: Seq<GroupView>, id: u128, rev: i32, req: RequestView) -> Result<Seq<GroupView>, Error> {
    match update_problem(g, id, rev, req) {
        Some(e) => Err(e),
        None => {
            let i = find_group(g, id, 0)->Some_0;
            Ok(g.update(i, GroupView { id, parent: req.parent, name: req.name, labels: req.labels, revision: (rev + 1) as i32 }))
        },
    }
}

/// Some group has `id` as its parent.
pub open spec fn has_children(g: Seq<GroupView>, id: u128) -> bool {
    exists|i: int| 0 <= i < g.len() && #[trigger] g[i].parent == Some(id)
}

/// Why group `id` cannot be deleted at revision `rev`, checked in order.
pub open spec fn delete_problem(g: Seq<GroupView>, id: u128, rev: i32) -> Option<Error> {
    match find_group(g, id, 0) {
        None => Some(Error::GroupNotFound(id)),
        Some(i) => if g[i].revision != rev {
            Some(Error::RevisionMismatch { stored: g[i].revision, expected: rev })
        } else if has_children(g, id) {
            Some(Error::HasChildren)
        } else {
            None
        },
    }
}

proof fn lemma_find_at(g: Seq<GroupView>, id: u128, k: int, i: int)
    requires
        unique_ids(g),
        0 <= i <= k < g.len(),
        g[k].id == id,
    ensures
        find_group(g, id, i) == Some(k),
    decreases k - i,
{
    if i < k {
        assert(g[i].id != g[k].id);
        lemma_find_at(g, id, k, i + 1);
    }
}

proof fn lemma_find_none(g: Seq<GroupView>, id: u128, i: int)
    requires
        0 <= i,
        forall|j: int| i <= j < g.len() ==> #[trigger] g[j].id != id,
    ensures
        find_group(g, id, i) is None,
    decreases g.len() - i,
{
    if i < g.len() {
        lemma_find_none(g, id, i + 1);
    }
}

proof fn lemma_find_found(g: Seq<GroupView>, id: u128, i: int)
    requires
        0 <= i,
    ensures
        find_group(g, id, i) matches Some(k) ==> i <= k < g.len() && g[k].id == id,
        find_group(g, id, i) is None ==> forall|j: int| i <= j < g.len() ==> #[trigger] g[j].id != id,
    decreases g.len() - i,
{
    if i < g.len() {
        lemma_find_found(g, id, i + 1);
    }
}

proof fn lemma_parent_at(g: Seq<GroupView>, x: u128, k: int)
    requires
        unique_ids(g),
        0 <= k < g.len(),
        g[k].id == x,
    ensures
        parent_of(g, x) == g[k].parent,
        has_group(g, x),
{
    lemma_find_at(g, x, k, 0);
}

proof fn lemma_parent_absent(g: Seq<GroupView>, x: u128)
    requires
        forall|j: int| 0 <= j < g.len() ==> #[trigger] g[j].id != x,
    ensures
        parent_of(g, x) is None,
        !has_group(g, x),
{
    lemma_find_none(g, x, 0);
}

proof fn lemma_has_group(g: Seq<GroupView>, x: u128)
    ensures
        has_group(g, x) <==> exists|k: int| 0 <= k < g.len() && #[trigger] g[k].id == x,
{
    lemma_find_found(g, x, 0);
    if exists|k: int| 0 <= k < g.len() && #[trigger] g[k].id == x {
        let k = choose|k: int| 0 <= k < g.len() && #[trigger] g[k].id == x;
        if !has_group(g, x) {
            assert(g[k].id != x);
        }
    }
}

proof fn lemma_reaches_mono(g: Seq<GroupView>, x: u128, n: nat, m: nat)
    requires
        reaches_root(g, x, n),
        n <= m,
    ensures
        reaches_root(g, x, m),
    decreases n,
{
    if let Some(p) = parent_of(g, x) {
        lemma_reaches_mono(g, p, (n - 1) as nat, (m - 1) as nat);
    }
}

/// In a store whose chains all end at a root, `a` being an ancestor of `y` bounds the
/// chain of `a` below that of `y`.
proof fn lemma_ancestor_shorter(g: Seq<GroupView>, a: u128, y: u128, m: nat, n: nat) -> (k: nat)
    requires
        ancestor_within(g, a, y, m),
        reaches_root(g, y, n),
    ensures
        k < n,
        reaches_root(g, a, k),
    decreases m,
{
    let p = parent_of(g, y)->Some_0;
    if p == a {
        (n - 1) as nat
    } else {
        lemma_ancestor_shorter(g, a, p, (m - 1) as nat, (n - 1) as nat)
    }
}

proof fn lemma_not_own_ancestor_within(g: Seq<GroupView>, x: u128, m: nat, n: nat)
    requires
        reaches_root(g, x, n),
    ensures
        !ancestor_within(g, x, x, m),
    decreases n,
{
    if ancestor_within(g, x, x, m) {
        let k = lemma_ancestor_shorter(g, x, x, m, n);
        lemma_not_own_ancestor_within(g, x, m, k);
    }
}

/// No group is its own ancestor.
pub proof fn lemma_no_group_is_own_ancestor(g: Seq<GroupView>, x: u128, m: nat)
    requires
        groups_wf(g),
    ensures
        !ancestor_within(g, x, x, m),
{
    assert(finite_chain(g, x));
    let n = choose|n: nat| #[trigger] reaches_root(g, x, n);
    lemma_not_own_ancestor_within(g, x, m, n);
}

// ---- creation

proof fn lemma_push_parent(g: Seq<GroupView>, r: GroupView, x: u128)
    requires
        unique_ids(g),
        !has_group(g, r.id),
    ensures
        unique_ids(g.push(r)),
        parent_of(g.push(r), x) == if x == r.id {
            r.parent
        } else {
            parent_of(g, x)
        },
        has_group(g.push(r), x) == (x == r.id || has_group(g, x)),
{
    let g2 = g.push(r);
    lemma_has_group(g, r.id);
    lemma_has_group(g, x);
    lemma_has_group(g2, x);
    assert(unique_ids(g2)) by {
        assert forall|i: int, j: int| 0 <= i < g2.len() && 0 <= j < g2.len() && i != j implies #[trigger] g2[i].id != #[trigger] g2[j].id by {
            if i < g.len() && j < g.len() {
                assert(g2[i] == g[i] && g2[j] == g[j]);
            } else if i < g.len() {
                assert(g2[i] == g[i]);
            } else if j < g.len() {
                assert(g2[j] == g[j]);
            }
        }
    }
    if x == r.id {
        lemma_parent_at(g2, x, g.len() as int);
    } else if has_group(g, x) {
        let k = choose|k: int| 0 <= k < g.len() && #[trigger] g[k].id == x;
        assert(g2[k] == g[k]);
        lemma_parent_at(g, x, k);
        lemma_parent_at(g2, x, k);
    } else {
        assert forall|j: int| 0 <= j < g2.len() implies #[trigger] g2[j].id != x by {
            if j < g.len() {
                assert(g2[j] == g[j]);
            }
        }
        lemma_parent_absent(g, x);
        lemma_parent_absent(g2, x);
    }
}

proof fn lemma_push_reaches(g: Seq<GroupView>, r: GroupView, x: u128, n: nat)
    requires
        unique_ids(g),
        parents_exist(g),
        !has_group(g, r.id),
        x != r.id,
        reaches_root(g, x, n),
    ensures
        reaches_root(g.push(r), x, n),
    decreases n,
{
    lemma_push_parent(g, r, x);
    if let Some(q) = parent_of(g, x) {
        lemma_find_found(g, x, 0);
        let k = find_group(g, x, 0)->Some_0;
        assert(g[k].parent == Some(q));
        assert(has_group(g, q));
        lemma_push_reaches(g, r, q, (n - 1) as nat);
    }
}

proof fn lemma_create_wf(g: Seq<GroupView>, id: u128, req: RequestView)
    requires
        groups_wf(g),
        create_result(g, id, req) is Ok,
    ensures
        groups_wf(create_result(g, id, req)->Ok_0),
{
    let r = GroupView { id, parent: req.parent, name: req.name, labels: req.labels, revision: 1 };
    let g2 = g.push(r);
    lemma_push_parent(g, r, id);
    assert(parents_exist(g2)) by {
        assert forall|i: int| 0 <= i < g2.len() implies (#[trigger] g2[i].parent matches Some(p) ==> has_group(g2, p)) by {
            if let Some(p) = g2[i].parent {
                lemma_push_parent(g, r, p);
                if i < g.len() {
                    assert(g2[i] == g[i]);
                }
            }
        }
    }
    assert(rooted(g2)) by {
        assert forall|x: u128| #[trigger] finite_chain(g2, x) by {
            if x != id {
                assert(finite_chain(g, x));
                let n = choose|n: nat| #[trigger] reaches_root(g, x, n);
                lemma_push_reaches(g, r, x, n);
            } else {
                match req.parent {
                    None => {
                        assert(reaches_root(g2, x, 1));
                    },
                    Some(p) => {
                        assert(finite_chain(g, p));
                        let n = choose|n: nat| #[trigger] reaches_root(g, p, n);
                        lemma_has_group(g, p);
                        assert(p != id);
                        lemma_push_reaches(g, r, p, n);
                        assert(reaches_root(g2, x, n + 1));
                    },
                }
            }
        }
    }
    assert(unique_names(g2)) by {
        assert forall|i: int, j: int|
            0 <= i < g2.len() && 0 <= j < g2.len() && i != j && #[trigger] g2[i].parent == #[trigger] g2[j].parent
            implies g2[i].name != g2[j].name by {
            if i < g.len() && j < g.len() {
                assert(g2[i] == g[i] && g2[j] == g[j]);
            } else if i < g.len() {
                assert(g2[i] == g[i]);
                assert(!name_taken(g, req.parent, req.name, None));
            } else if j < g.len() {
                assert(g2[j] == g[j]);
                assert(!name_taken(g, req.parent, req.name, None));
            }
        }
    }
    assert(positive_revisions(g2)) by {
        assert forall|i: int| 0 <= i < g2.len() implies #[trigger] g2[i].revision >= 1 by {
            if i < g.len() {
                assert(g2[i] == g[i]);
            }
        }
    }
    assert(names_valid(g2)) by {
        assert forall|i: int| 0 <= i < g2.len() implies name_problem(#[trigger] g2[i].name) is None by {
            if i < g.len() {
                assert(g2[i] == g[i]);
            }
        }
    }
}

// ---- update

proof fn lemma_update_parent(g: Seq<GroupView>, i: int, r: GroupView, x: u128)
    requires
        unique_ids(g),
        0 <= i < g.len(),
        r.id == g[i].id,
    ensures
        unique_ids(g.update(i, r)),
        parent_of(g.update(i, r), x) == if x == r.id {
            r.parent
        } else {
            parent_of(g, x)
        },
        has_group(g.update(i, r), x) == has_group(g, x),
{
    let g2 = g.update(i, r);
    assert(unique_ids(g2)) by {
        assert forall|a: int, b: int| 0 <= a < g2.len() && 0 <= b < g2.len() && a != b implies #[trigger] g2[a].id != #[trigger] g2[b].id by {
            assert(g2[a].id == g[a].id && g2[b].id == g[b].id);
        }
    }
    lemma_has_group(g, x);
    lemma_has_group(g2, x);
    if has_group(g, x) {
        let k = choose|k: int| 0 <= k < g.len() && #[trigger] g[k].id == x;
        assert(g2[k].id == x);
        lemma_parent_at(g, x, k);
        lemma_parent_at(g2, x, k);
    } else {
        assert forall|j: int| 0 <= j < g2.len() implies #[trigger] g2[j].id != x by {
            assert(g2[j].id == g[j].id);
        }
        lemma_parent_absent(g, x);
        lemma_parent_absent(g2, x);
    }
}

proof fn lemma_walk_root(g: Seq<GroupView>, i: int, r: GroupView, y: u128, k: nat)
    requires
        unique_ids(g),
        0 <= i < g.len(),
        r.id == g[i].id,
        walk_up(g, y, r.id, k) == WalkEnd::Root,
    ensures
        reaches_root(g.update(i, r), y, k + 1),
    decreases k,
{
    lemma_update_parent(g, i, r, y);
    if let Some(q) = parent_of(g, y) {
        lemma_walk_root(g, i, r, q, (k - 1) as nat);
    }
}

proof fn lemma_update_reaches(g: Seq<GroupView>, i: int, r: GroupView, x: u128, n: nat, m: nat)
    requires
        unique_ids(g),
        0 <= i < g.len(),
        r.id == g[i].id,
        reaches_root(g, x, n),
        reaches_root(g.update(i, r), r.id, m),
    ensures
        reaches_root(g.update(i, r), x, n + m),
    decreases n,
{
    lemma_update_parent(g, i, r, x);
    if x == r.id {
        lemma_reaches_mono(g.update(i, r), x, m, n + m);
    } else if let Some(q) = parent_of(g, x) {
        lemma_update_reaches(g, i, r, q, (n - 1) as nat, m);
    }
}

proof fn lemma_update_wf(g: Seq<GroupView>, id: u128, rev: i32, req: RequestView)
    requires
        groups_wf(g),
        update_result(g, id, rev, req) is Ok,
    ensures
        groups_wf(update_result(g, id, rev, req)->Ok_0),
{
    let i = find_group(g, id, 0)->Some_0;
    lemma_find_found(g, id, 0);
    let r = GroupView { id, parent: req.parent, name: req.name, labels: req.labels, revision: (rev + 1) as i32 };
    let g2 = g.update(i, r);
    lemma_update_parent(g, i, r, id);
    assert(parents_exist(g2)) by {
        assert forall|j: int| 0 <= j < g2.len() implies (#[trigger] g2[j].parent matches Some(p) ==> has_group(g2, p)) by {
            if let Some(p) = g2[j].parent {
                lemma_update_parent(g, i, r, p);
            }
        }
    }
    let m: nat = match req.parent {
        None => 1,
        Some(p) => {
            lemma_walk_root(g, i, r, p, MAX_HIERARCHY_DEPTH as nat);
            (MAX_HIERARCHY_DEPTH + 2) as nat
        },
    };
    assert(reaches_root(g2, id, m));
    assert(rooted(g2)) by {
        assert forall|x: u128| #[trigger] finite_chain(g2, x) by {
            assert(finite_chain(g, x));
            let n = choose|n: nat| #[trigger] reaches_root(g, x, n);
            lemma_update_reaches(g, i, r, x, n, m);
        }
    }
    assert(unique_names(g2)) by {
        assert forall|a: int, b: int|
            0 <= a < g2.len() && 0 <= b < g2.len() && a != b && #[trigger] g2[a].parent == #[trigger] g2[b].parent
            implies g2[a].name != g2[b].name by {
            if a != i && b != i {
                assert(g2[a] == g[a] && g2[b] == g[b]);
            } else if a == i {
                assert(g2[b] == g[b]);
                assert(g[b].id != id);
                assert(!name_taken(g, req.parent, req.name, Some(id)));
            } else {
                assert(g2[a] == g[a]);
                assert(g[a].id != id);
                assert(!name_taken(g, req.parent, req.name, Some(id)));
            }
        }
    }
    assert(positive_revisions(g2)) by {
        assert forall|j: int| 0 <= j < g2.len() implies #[trigger] g2[j].revision >= 1 by {
            if j != i {
                assert(g2[j] == g[j]);
            }
        }
    }
    assert(names_valid(g2)) by {
        assert forall|j: int| 0 <= j < g2.len() implies name_problem(#[trigger] g2[j].name) is None by {
            if j != i {
                assert(g2[j] == g[j]);
            }
        }
    }
}

// ---- deletion

proof fn lemma_remove_parent(g: Seq<GroupView>, i: int, x: u128)
    requires
        unique_ids(g),
        0 <= i < g.len(),
    ensures
        unique_ids(g.remove(i)),
        parent_of(g.remove(i), x) == if x == g[i].id {
            None
        } else {
            parent_of(g, x)
        },
        has_group(g.remove(i), x) == (x != g[i].id && has_group(g, x)),
{
    let g2 = g.remove(i);
    assert forall|j: int| 0 <= j < g2.len() implies #[trigger] g2[j] == if j < i { g[j] } else { g[j + 1] } by {}
    assert(unique_ids(g2)) by {
        assert forall|a: int, b: int| 0 <= a < g2.len() && 0 <= b < g2.len() && a != b implies #[trigger] g2[a].id != #[trigger] g2[b].id by {
            let a1 = if a < i { a } else { a + 1 };
            let b1 = if b < i { b } else { b + 1 };
            assert(g2[a] == g[a1] && g2[b] == g[b1]);
        }
    }
    lemma_has_group(g, x);
    lemma_has_group(g2, x);
    if has_group(g, x) && x != g[i].id {
        let k = choose|k: int| 0 <= k < g.len() && #[trigger] g[k].id == x;
        let k2 = if k < i { k } else { k - 1 };
        assert(k != i);
        assert(g2[k2] == g[k]);
        lemma_parent_at(g, x, k);
        lemma_parent_at(g2, x, k2);
    } else {
        assert forall|j: int| 0 <= j < g2.len() implies #[trigger] g2[j].id != x by {
            let j1 = if j < i { j } else { j + 1 };
            assert(g2[j] == g[j1]);
            if x == g[i].id {
                assert(j1 != i);
            }
        }
        lemma_parent_absent(g2, x);
        if !has_group(g, x) {
            lemma_parent_absent(g, x);
        }
    }
}

proof fn lemma_remove_reaches(g: Seq<GroupView>, i: int, x: u128, n: nat)
    requires
        unique_ids(g),
        0 <= i < g.len(),
        !has_children(g, g[i].id),
        reaches_root(g, x, n),
    ensures
        reaches_root(g.remove(i), x, n),
    decreases n,
{
    lemma_remove_parent(g, i, x);
    if x != g[i].id {
        if let Some(q) = parent_of(g, x) {
            lemma_find_found(g, x, 0);
            let k = find_group(g, x, 0)->Some_0;
            assert(g[k].parent == Some(q));
            assert(q != g[i].id);
            lemma_remove_reaches(g, i, q, (n - 1) as nat);
        }
    }
}

proof fn lemma_delete_wf(g: Seq<GroupView>, id: u128, rev: i32)
    requires
        groups_wf(g),
        delete_problem(g, id, rev) is None,
    ensures
        groups_wf(g.remove(find_group(g, id, 0)->Some_0)),
{
    let i = find_group(g, id, 0)->Some_0;
    lemma_find_found(g, id, 0);
    let g2 = g.remove(i);
    lemma_remove_parent(g, i, id);
    assert forall|j: int| 0 <= j < g2.len() implies #[trigger] g2[j] == if j < i { g[j] } else { g[j + 1] } by {}
    assert(parents_exist(g2)) by {
        assert forall|j: int| 0 <= j < g2.len() implies (#[trigger] g2[j].parent matches Some(p) ==> has_group(g2, p)) by {
            let j1 = if j < i { j } else { j + 1 };
            assert(g2[j] == g[j1]);
            if let Some(p) = g2[j].parent {
                lemma_remove_parent(g, i, p);
                assert(g[j1].parent == Some(p));
                if p == id {
                    assert(has_children(g, id));
                }
            }
        }
    }
    assert(rooted(g2)) by {
        assert forall|x: u128| #[trigger] finite_chain(g2, x) by {
            assert(finite_chain(g, x));
            let n = choose|n: nat| #[trigger] reaches_root(g, x, n);
            lemma_remove_reaches(g, i, x, n);
        }
    }
    assert(unique_names(g2)) by {
        assert forall|a: int, b: int|
            0 <= a < g2.len() && 0 <= b < g2.len() && a != b && #[trigger] g2[a].parent == #[trigger] g2[b].parent
            implies g2[a].name != g2[b].name by {
            let a1 = if a < i { a } else { a + 1 };
            let b1 = if b < i { b } else { b + 1 };
            assert(g2[a] == g[a1] && g2[b] == g[b1]);
        }
    }
    assert(positive_revisions(g2)) by {
        assert forall|j: int| 0 <= j < g2.len() implies #[trigger] g2[j].revision >= 1 by {
            let j1 = if j < i { j } else { j + 1 };
            assert(g2[j] == g[j1]);
        }
    }
    assert(names_valid(g2)) by {
        assert forall|j: int| 0 <= j < g2.len() implies name_problem(#[trigger] g2[j].name) is None by {
            let j1 = if j < i { j } else { j + 1 };
            assert(g2[j] == g[j1]);
        }
    }
}

proof fn lemma_find_update(g: Seq<GroupView>, i: int, r: GroupView, x: u128, j: int)
    requires
        0 <= i < g.len(),
        r.id == g[i].id,
        0 <= j,
    ensures
        find_group(g.update(i, r), x, j) == find_group(g, x, j),
    decreases g.len() - j,
{
    if j < g.len() {
        lemma_find_update(g, i, r, x, j + 1);
    }
}

/// Of two updates of one group made against the same revision, once the first has
/// been applied the second fails with a revision mismatch, and changes nothing.
pub proof fn lemma_concurrent_updates(g: Seq<GroupView>, id: u128, rev: i32, first: RequestView, second: RequestView)
    requires
        update_result(g, id, rev, first) is Ok,
    ensures
        update_result(update_result(g, id, rev, first)->Ok_0, id, rev, second) == Err::<Seq<GroupView>, Error>(
            Error::RevisionMismatch { stored: (rev + 1) as i32, expected: rev },
        ),
{
    let i = find_group(g, id, 0)->Some_0;
    lemma_find_found(g, id, 0);
    let r = GroupView { id, parent: first.parent, name: first.name, labels: first.labels, revision: (rev + 1) as i32 };
    lemma_find_update(g, i, r, id, 0);
}

/// Once a group is deleted, a group with the same parent and name can be created
/// again (with any id the store does not hold).
pub proof fn lemma_delete_then_recreate(g: Seq<GroupView>, id: u128, rev: i32, new_id: u128, labels: Seq<(Seq<char>, Seq<char>)>)
    requires
        groups_wf(g),
        delete_problem(g, id, rev) is None,
        !has_group(g.remove(find_group(g, id, 0)->Some_0), new_id),
    ensures
        ({
            let i = find_group(g, id, 0)->Some_0;
            create_result(
                g.remove(i),
                new_id,
                RequestView { parent: g[i].parent, name: g[i].name, labels },
            ) is Ok
        }),
{
    let i = find_group(g, id, 0)->Some_0;
    lemma_find_found(g, id, 0);
    let g2 = g.remove(i);
    let req = RequestView { parent: g[i].parent, name: g[i].name, labels };
    assert(name_problem(g[i].name) is None);
    if let Some(p) = g[i].parent {
        assert(has_group(g, p));
        lemma_remove_parent(g, i, p);
        if p == id {
            assert(has_children(g, id));
        }
    }
    if name_taken(g2, req.parent, req.name, None) {
        let k = choose|k: int| 0 <= k < g2.len() && #[trigger] g2[k].parent == req.parent && g2[k].name == req.name && Some(g2[k].id) != None::<u128>;
        let k1 = if k < i { k } else { k + 1 };
        assert(g2[k] == g[k1]);
        assert(g[k1].parent == g[i].parent);
    }
}

/// The assignments that do not name group `id`.
pub open spec fn without_group(a: Seq<(u128, u128)>, id: u128) -> Seq<(u128, u128)>
    decreases a.len(),
{
    if a.len() == 0 {
        Seq::empty()
    } else if a.last().1 == id {
        without_group(a.drop_last(), id)
    } else {
        without_group(a.drop_last(), id).push(a.last())
    }
}

proof fn lemma_without_group(a: Seq<(u128, u128)>, id: u128)
    requires
        a.no_duplicates(),
    ensures
        without_group(a, id).no_duplicates(),
        forall|x: (u128, u128)| without_group(a, id).contains(x) <==> (a.contains(x) && x.1 != id),
    decreases a.len(),
{
    if a.len() > 0 {
        let p = a.drop_last();
        assert(p.no_duplicates());
        lemma_without_group(p, id);
        assert forall|x: (u128, u128)| a.contains(x) <==> (p.contains(x) || x == a.last()) by {
            if a.contains(x) && x != a.last() {
                let k = choose|k: int| 0 <= k < a.len() && a[k] == x;
                assert(p[k] == x);
            }
            if p.contains(x) {
                let k = choose|k: int| 0 <= k < p.len() && p[k] == x;
                assert(a[k] == x);
            }
            if x == a.last() {
                assert(a[a.len() - 1] == x);
            }
        }
        if a.last().1 != id {
            let w = without_group(p, id);
            assert(!p.contains(a.last())) by {
                if p.contains(a.last()) {
                    let k = choose|k: int| 0 <= k < p.len() && p[k] == a.last();
                    assert(a[k] == a[a.len() - 1]);
                }
            }
            assert forall|x: (u128, u128)| w.push(a.last()).contains(x) <==> (w.contains(x) || x == a.last()) by {
                if w.push(a.last()).contains(x) && x != a.last() {
                    let k = choose|k: int| 0 <= k < w.len() + 1 && w.push(a.last())[k] == x;
                    assert(w[k] == x);
                }
                if w.contains(x) {
                    let k = choose|k: int| 0 <= k < w.len() && w[k] == x;
                    assert(w.push(a.last())[k] == x);
                }
                if x == a.last() {
                    assert(w.push(a.last())[w.len() as int] == x);
                }
            }
            assert(w.push(a.last()).no_duplicates()) by {
                assert forall|i: int, j: int| 0 <= i < w.len() + 1 && 0 <= j < w.len() + 1 && i != j implies w.push(a.last())[i] != w.push(a.last())[j] by {
                    if i < w.len() && j < w.len() {
                    } else if i < w.len() {
                        assert(w.contains(w[i]));
                    } else {
                        assert(w.contains(w[j]));
                    }
                }
            }
        }
    }
}

proof fn lemma_contains_push<A>(s: Seq<A>, x: A, y: A)
    ensures
        s.push(x).contains(y) <==> (s.contains(y) || y == x),
{
    if s.push(x).contains(y) && y != x {
        let k = choose|k: int| 0 <= k < s.len() + 1 && s.push(x)[k] == y;
        assert(s[k] == y);
    }
    if s.contains(y) {
        let k = choose|k: int| 0 <= k < s.len() && s[k] == y;
        assert(s.push(x)[k] == y);
    }
    if y == x {
        assert(s.push(x)[s.len() as int] == y);
    }
}

proof fn lemma_no_dup_push<A>(s: Seq<A>, x: A)
    requires
        s.no_duplicates(),
        !s.contains(x),
    ensures
        s.push(x).no_duplicates(),
{
    assert forall|i: int, j: int| 0 <= i < s.len() + 1 && 0 <= j < s.len() + 1 && i != j implies s.push(x)[i] != s.push(x)[j] by {
        if i < s.len() && j < s.len() {
        } else if i < s.len() {
            assert(s.contains(s[i]));
        } else {
            assert(s.contains(s[j]));
        }
    }
}

proof fn lemma_split_last<A>(a: Seq<A>)
    requires
        a.len() > 0,
    ensures
        a == a.drop_last().push(a.last()),
{
    assert(a =~= a.drop_last().push(a.last()));
}

/// `ids` with later repeats left out.
pub open spec fn dedup(ids: Seq<u128>) -> Seq<u128>
    decreases ids.len(),
{
    if ids.len() == 0 {
        Seq::empty()
    } else {
        let d = dedup(ids.drop_last());
        if d.contains(ids.last()) {
            d
        } else {
            d.push(ids.last())
        }
    }
}

/// Removing repeats keeps every id once.
pub proof fn lemma_dedup(ids: Seq<u128>)
    ensures
        dedup(ids).no_duplicates(),
        forall|x: u128| dedup(ids).contains(x) <==> ids.contains(x),
        dedup(ids).to_set() == ids.to_set(),
    decreases ids.len(),
{
    if ids.len() > 0 {
        let p = ids.drop_last();
        lemma_dedup(p);
        lemma_split_last(ids);
        let d = dedup(p);
        assert forall|x: u128| ids.contains(x) <==> (p.contains(x) || x == ids.last()) by {
            lemma_contains_push(p, ids.last(), x);
        }
        if !d.contains(ids.last()) {
            lemma_no_dup_push(d, ids.last());
            assert forall|x: u128| d.push(ids.last()).contains(x) <==> (d.contains(x) || x == ids.last()) by {
                lemma_contains_push(d, ids.last(), x);
            }
        }
    }
    assert(dedup(ids).to_set() =~= ids.to_set());
}

/// The ids of `ids` that name no group.
pub open spec fn missing_groups(g: Seq<GroupView>, ids: Seq<u128>) -> Seq<u128>
    decreases ids.len(),
{
    if ids.len() == 0 {
        Seq::empty()
    } else if has_group(g, ids.last()) {
        missing_groups(g, ids.drop_last())
    } else {
        missing_groups(g, ids.drop_last()).push(ids.last())
    }
}

proof fn lemma_none_missing(g: Seq<GroupView>, ids: Seq<u128>)
    requires
        missing_groups(g, ids).len() == 0,
    ensures
        forall|k: int| 0 <= k < ids.len() ==> has_group(g, #[trigger] ids[k]),
    decreases ids.len(),
{
    if ids.len() > 0 {
        lemma_none_missing(g, ids.drop_last());
        assert forall|k: int| 0 <= k < ids.len() implies has_group(g, #[trigger] ids[k]) by {
            if k < ids.len() - 1 {
                assert(ids.drop_last()[k] == ids[k]);
            }
        }
    }
}

/// The assignments of SBOMs other than `sbom`.
pub open spec fn without_sbom(a: Seq<(u128, u128)>, sbom: u128) -> Seq<(u128, u128)>
    decreases a.len(),
{
    if a.len() == 0 {
        Seq::empty()
    } else if a.last().0 == sbom {
        without_sbom(a.drop_last(), sbom)
    } else {
        without_sbom(a.drop_last(), sbom).push(a.last())
    }
}

/// The groups of `sbom`, in assignment order.
pub open spec fn assigned_groups(a: Seq<(u128, u128)>, sbom: u128) -> Seq<u128>
    decreases a.len(),
{
    if a.len() == 0 {
        Seq::empty()
    } else if a.last().0 == sbom {
        assigned_groups(a.drop_last(), sbom).push(a.last().1)
    } else {
        assigned_groups(a.drop_last(), sbom)
    }
}

/// One assignment of `sbom` to each group of `ids`.
pub open spec fn pairs_for(sbom: u128, ids: Seq<u128>) -> Seq<(u128, u128)> {
    ids.map_values(|x: u128| (sbom, x))
}

/// The assignments once those of `sbom` are replaced by `ids`, or the ids that name no group.
pub open spec fn set_result(g: Seq<GroupView>, a: Seq<(u128, u128)>, sbom: u128, ids: Seq<u128>) -> Result<Seq<(u128, u128)>, Seq<u128>> {
    let d = dedup(ids);
    if missing_groups(g, d).len() > 0 {
        Err(missing_groups(g, d))
    } else {
        Ok(without_sbom(a, sbom) + pairs_for(sbom, d))
    }
}

/// The groups of `ids` that `sbom` is not yet assigned to.
pub open spec fn unassigned(a: Seq<(u128, u128)>, sbom: u128, ids: Seq<u128>) -> Seq<u128>
    decreases ids.len(),
{
    if ids.len() == 0 {
        Seq::empty()
    } else if a.contains((sbom, ids.last())) {
        unassigned(a, sbom, ids.drop_last())
    } else {
        unassigned(a, sbom, ids.drop_last()).push(ids.last())
    }
}

/// The assignments once `sbom` is also assigned to `ids`, or the ids that name no group.
pub open spec fn add_result(g: Seq<GroupView>, a: Seq<(u128, u128)>, sbom: u128, ids: Seq<u128>) -> Result<Seq<(u128, u128)>, Seq<u128>> {
    let d = dedup(ids);
    if missing_groups(g, d).len() > 0 {
        Err(missing_groups(g, d))
    } else {
        Ok(a + pairs_for(sbom, unassigned(a, sbom, d)))
    }
}

proof fn lemma_without_sbom(a: Seq<(u128, u128)>, sbom: u128)
    ensures
        forall|x: (u128, u128)| #[trigger] without_sbom(a, sbom).contains(x) <==> (a.contains(x) && x.0 != sbom),
        a.no_duplicates() ==> without_sbom(a, sbom).no_duplicates(),
        without_sbom(without_sbom(a, sbom), sbom) == without_sbom(a, sbom),
        assigned_groups(without_sbom(a, sbom), sbom) == Seq::<u128>::empty(),
    decreases a.len(),
{
    if a.len() == 0 {
        assert forall|x: (u128, u128)| !a.contains(x) by {}
    } else {
        let p = a.drop_last();
        lemma_without_sbom(p, sbom);
        lemma_split_last(a);
        let w = without_sbom(p, sbom);
        assert forall|x: (u128, u128)| #[trigger] without_sbom(a, sbom).contains(x) <==> (a.contains(x) && x.0 != sbom) by {
            lemma_contains_push(p, a.last(), x);
            lemma_contains_push(w, a.last(), x);
            assert(w.contains(x) <==> (p.contains(x) && x.0 != sbom));
            if a.last().0 == sbom {
                assert(without_sbom(a, sbom) == w);
            } else {
                assert(without_sbom(a, sbom) == w.push(a.last()));
            }
        }
        assert forall|x: (u128, u128)| a.contains(x) <==> (p.contains(x) || x == a.last()) by {
            lemma_contains_push(p, a.last(), x);
        }
        if a.last().0 != sbom {
            assert forall|x: (u128, u128)| w.push(a.last()).contains(x) <==> (w.contains(x) || x == a.last()) by {
                lemma_contains_push(w, a.last(), x);
            }
            if a.no_duplicates() {
                assert(!p.contains(a.last())) by {
                    if p.contains(a.last()) {
                        let k = choose|k: int| 0 <= k < p.len() && p[k] == a.last();
                        assert(a[k] == a[a.len() - 1]);
                    }
                }
                assert(p.no_duplicates()) by {
                    assert forall|i: int, j: int| 0 <= i < p.len() && 0 <= j < p.len() && i != j implies p[i] != p[j] by {
                        assert(a[i] == p[i] && a[j] == p[j]);
                    }
                }
                lemma_no_dup_push(w, a.last());
            }
            assert(w.push(a.last()).drop_last() =~= w);
        }
        if a.no_duplicates() && a.last().0 == sbom {
            assert(p.no_duplicates()) by {
                assert forall|i: int, j: int| 0 <= i < p.len() && 0 <= j < p.len() && i != j implies p[i] != p[j] by {
                    assert(a[i] == p[i] && a[j] == p[j]);
                }
            }
        }
    }
}

proof fn lemma_without_sbom_append(a: Seq<(u128, u128)>, b: Seq<(u128, u128)>, sbom: u128)
    ensures
        without_sbom(a + b, sbom) == without_sbom(a, sbom) + without_sbom(b, sbom),
        assigned_groups(a + b, sbom) == assigned_groups(a, sbom) + assigned_groups(b, sbom),
    decreases b.len(),
{
    if b.len() == 0 {
        assert(a + b =~= a);
        assert(without_sbom(a, sbom) + without_sbom(b, sbom) =~= without_sbom(a, sbom));
        assert(assigned_groups(a, sbom) + assigned_groups(b, sbom) =~= assigned_groups(a, sbom));
    } else {
        lemma_without_sbom_append(a, b.drop_last(), sbom);
        assert((a + b).drop_last() =~= a + b.drop_last());
        assert((a + b).last() == b.last());
        assert(without_sbom(a, sbom) + without_sbom(b.drop_last(), sbom).push(b.last()) =~= (
        without_sbom(a, sbom) + without_sbom(b.drop_last(), sbom)).push(b.last()));
        assert(assigned_groups(a, sbom) + assigned_groups(b.drop_last(), sbom).push(b.last().1) =~= (
        assigned_groups(a, sbom) + assigned_groups(b.drop_last(), sbom)).push(b.last().1));
    }
}

proof fn lemma_pairs_for(sbom: u128, d: Seq<u128>)
    ensures
        without_sbom(pairs_for(sbom, d), sbom) == Seq::<(u128, u128)>::empty(),
        assigned_groups(pairs_for(sbom, d), sbom) == d,
        forall|x: (u128, u128)| pairs_for(sbom, d).contains(x) <==> (x.0 == sbom && d.contains(x.1)),
        d.no_duplicates() ==> pairs_for(sbom, d).no_duplicates(),
    decreases d.len(),
{
    let ps = pairs_for(sbom, d);
    if d.len() > 0 {
        lemma_pairs_for(sbom, d.drop_last());
        assert(ps.drop_last() =~= pairs_for(sbom, d.drop_last()));
        assert(ps.last() == (sbom, d.last()));
        lemma_split_last(d);
        assert(assigned_groups(ps, sbom) =~= d);
    }
    assert forall|x: (u128, u128)| ps.contains(x) <==> (x.0 == sbom && d.contains(x.1)) by {
        if ps.contains(x) {
            let k = choose|k: int| 0 <= k < ps.len() && ps[k] == x;
            assert(d[k] == x.1);
        }
        if x.0 == sbom && d.contains(x.1) {
            let k = choose|k: int| 0 <= k < d.len() && d[k] == x.1;
            assert(ps[k] == x);
        }
    }
}

proof fn lemma_no_dup_append<A>(a: Seq<A>, b: Seq<A>)
    requires
        a.no_duplicates(),
        b.no_duplicates(),
        forall|x: A| a.contains(x) ==> !b.contains(x),
    ensures
        (a + b).no_duplicates(),
        forall|x: A| (a + b).contains(x) <==> (a.contains(x) || b.contains(x)),
{
    let c = a + b;
    assert forall|i: int, j: int| 0 <= i < c.len() && 0 <= j < c.len() && i != j implies c[i] != c[j] by {
        if i < a.len() && j >= a.len() {
            assert(a.contains(c[i]));
            assert(b[j - a.len()] == c[j]);
            assert(b.contains(c[j]));
        } else if j < a.len() && i >= a.len() {
            assert(a.contains(c[j]));
            assert(b[i - a.len()] == c[i]);
            assert(b.contains(c[i]));
        } else if i >= a.len() && j >= a.len() {
            assert(b[i - a.len()] == c[i] && b[j - a.len()] == c[j]);
        }
    }
    assert forall|x: A| c.contains(x) <==> (a.contains(x) || b.contains(x)) by {
        if c.contains(x) {
            let k = choose|k: int| 0 <= k < c.len() && c[k] == x;
            if k < a.len() {
                assert(a[k] == x);
            } else {
                assert(b[k - a.len()] == x);
            }
        }
        if a.contains(x) {
            let k = choose|k: int| 0 <= k < a.len() && a[k] == x;
            assert(c[k] == x);
        }
        if b.contains(x) {
            let k = choose|k: int| 0 <= k < b.len() && b[k] == x;
            assert(c[k + a.len()] == x);
        }
    }
}

/// Setting the same groups twice leaves the assignments as setting them once.
pub proof fn lemma_set_idempotent(g: Seq<GroupView>, a: Seq<(u128, u128)>, sbom: u128, ids: Seq<u128>)
    requires
        set_result(g, a, sbom, ids) is Ok,
    ensures
        set_result(g, set_result(g, a, sbom, ids)->Ok_0, sbom, ids) == set_result(g, a, sbom, ids),
{
    let d = dedup(ids);
    lemma_without_sbom_append(without_sbom(a, sbom), pairs_for(sbom, d), sbom);
    lemma_without_sbom(a, sbom);
    lemma_pairs_for(sbom, d);
    assert(without_sbom(a, sbom) + Seq::<(u128, u128)>::empty() =~= without_sbom(a, sbom));
}

/// After setting the groups of an SBOM, its groups are those asked for, each once,
/// in the order first asked.
pub proof fn lemma_set_then_get(g: Seq<GroupView>, a: Seq<(u128, u128)>, sbom: u128, ids: Seq<u128>)
    requires
        set_result(g, a, sbom, ids) is Ok,
    ensures
        assigned_groups(set_result(g, a, sbom, ids)->Ok_0, sbom) == dedup(ids),
        dedup(ids).no_duplicates(),
        dedup(ids).to_set() == ids.to_set(),
{
    let d = dedup(ids);
    lemma_without_sbom_append(without_sbom(a, sbom), pairs_for(sbom, d), sbom);
    lemma_without_sbom(a, sbom);
    lemma_pairs_for(sbom, d);
    lemma_dedup(ids);
    assert(Seq::<u128>::empty() + d =~= d);
}

/// The ids of the children of group `id`, in store order.
pub open spec fn children_of(g: Seq<GroupView>, id: u128) -> Seq<u128>
    decreases g.len(),
{
    if g.len() == 0 {
        Seq::empty()
    } else if g.last().parent == Some(id) {
        children_of(g.drop_last(), id).push(g.last().id)
    } else {
        children_of(g.drop_last(), id)
    }
}

/// The number of SBOMs assigned to group `id`.
pub open spec fn count_assigned(a: Seq<(u128, u128)>, id: u128) -> nat
    decreases a.len(),
{
    if a.len() == 0 {
        0
    } else if a.last().1 == id {
        count_assigned(a.drop_last(), id) + 1
    } else {
        count_assigned(a.drop_last(), id)
    }
}

/// The ancestors of `x`, root first, within `n` links.
pub open spec fn path_to(g: Seq<GroupView>, x: u128, n: nat) -> Seq<u128>
    decreases n,
{
    if n == 0 {
        Seq::empty()
    } else {
        match parent_of(g, x) {
            None => Seq::empty(),
            Some(p) => path_to(g, p, (n - 1) as nat).push(p),
        }
    }
}

/// A number of links within which the chain of `x` reaches a root.
pub open spec fn chain_bound(g: Seq<GroupView>, x: u128) -> nat {
    choose|n: nat| reaches_root(g, x, n)
}

/// The ancestors of `x` from the root down to its parent; empty for a root.
pub open spec fn parent_path(g: Seq<GroupView>, x: u128) -> Seq<u128> {
    path_to(g, x, chain_bound(g, x))
}

/// The first position, from `i` on, of a group with this parent and name.
pub open spec fn find_child(g: Seq<GroupView>, parent: Option<u128>, name: Seq<char>, i: int) -> Option<int>
    decreases g.len() - i,
{
    if i < 0 || i >= g.len() {
        None
    } else if g[i].parent == parent && g[i].name == name {
        Some(i)
    } else {
        find_child(g, parent, name, i + 1)
    }
}

/// The position of the group that the names denote, walking down from the roots.
pub open spec fn resolve_path(g: Seq<GroupView>, names: Seq<Seq<char>>) -> Option<int>
    decreases names.len(),
{
    if names.len() == 0 {
        None
    } else if names.len() == 1 {
        find_child(g, None, names[0], 0)
    } else {
        match resolve_path(g, names.drop_last()) {
            None => None,
            Some(i) => find_child(g, Some(g[i].id), names.last(), 0),
        }
    }
}

/// Where a page of `total` items starts and ends; a `limit` of zero means no limit.
pub open spec fn page_range(total: nat, offset: nat, limit: nat) -> (nat, nat) {
    let start = if offset < total { offset } else { total };
    let end = if limit == 0 || start + limit > total { total } else { start + limit };
    (start, end)
}

/// Where a page of `total` items starts and ends, skipping `offset` items and keeping
/// at most `limit` (all when `limit` is zero).
pub fn page_bounds(total: usize, offset: u64, limit: u64) -> (r: (usize, usize))
    ensures
        r.0 as nat == page_range(total as nat, offset as nat, limit as nat).0,
        r.1 as nat == page_range(total as nat, offset as nat, limit as nat).1,
{
    let start: usize = if (offset as u128) < (total as u128) { offset as usize } else { total };
    let end: usize = if limit == 0 || (start as u128) + (limit as u128) > (total as u128) {
        total
    } else {
        start + limit as usize
    };
    (start, end)
}

/// Group `a` comes before group `b` in a listing: by name, then by position.
pub open spec fn listed_before(g: Seq<GroupView>, a: int, b: int) -> bool {
    lex_lt(g[a].name, g[b].name) || (g[a].name == g[b].name && a < b)
}

/// `order` lists the positions `0..n` of the groups, ordered by name.
pub open spec fn name_order(g: Seq<GroupView>, order: Seq<usize>, n: int) -> bool {
    &&& order.len() == n
    &&& forall|j: int| 0 <= j < order.len() ==> #[trigger] order[j] < n
    &&& forall|p: int, q: int| 0 <= p < q < order.len() ==> listed_before(g, #[trigger] order[p] as int, #[trigger] order[q] as int)
}

/// The positions of `order` whose groups the filter holds of, in order.
pub open spec fn matching_positions(g: Seq<GroupView>, order: Seq<usize>, f: Seq<ClauseView>) -> Seq<usize>
    decreases order.len(),
{
    if order.len() == 0 {
        Seq::empty()
    } else {
        let m = matching_positions(g, order.drop_last(), f);
        if filter_holds(g[order.last() as int], f) {
            m.push(order.last())
        } else {
            m
        }
    }
}

/// `r` is the page `offset`/`limit` of the groups that `f` holds of, ordered by name,
/// with their number over all pages.
pub open spec fn listing_of(
    r: PaginatedResults,
    g: Seq<GroupView>,
    a: Seq<(u128, u128)>,
    f: Seq<ClauseView>,
    offset: u64,
    limit: u64,
    totals: bool,
    parents: bool,
) -> bool {
    exists|order: Seq<usize>| #[trigger] name_order(g, order, g.len() as int) && ({
        let m = matching_positions(g, order, f);
        let (start, end) = page_range(m.len(), offset as nat, limit as nat);
        &&& r.total as nat == m.len()
        &&& r.items@.len() == end - start
        &&& forall|j: int| 0 <= j < r.items@.len() ==> details_of(#[trigger] r.items@[j], g, a, m[start + j] as int, false, totals, parents)
    })
}

/// A group with what was asked of its surroundings.
#[derive(Debug, Clone, PartialEq, Eq)]
pub struct SbomGroupDetails {
    pub group: SbomGroup,
    /// The ids of its direct children.
    pub children: Option<Vec<u128>>,
    /// The number of SBOMs assigned to it.
    pub sbom_count: Option<u64>,
    /// Its ancestors from the root down to its parent.
    pub parent_path: Option<Vec<u128>>,
}

/// One page of a listing, with the number of items over all pages.
#[derive(Debug, Clone, PartialEq, Eq)]
pub struct PaginatedResults {
    pub total: u64,
    pub items: Vec<SbomGroupDetails>,
}

/// `d` describes group `g[i]` with the parts asked for.
pub open spec fn details_of(
    d: SbomGroupDetails,
    g: Seq<GroupView>,
    a: Seq<(u128, u128)>,
    i: int,
    children: bool,
    totals: bool,
    parents: bool,
) -> bool {
    let id = g[i].id;
    &&& d.group@ == g[i]
    &&& if children {
        d.children matches Some(c) && c@ == children_of(g, id)
    } else {
        d.children is None
    }
    &&& if totals {
        d.sbom_count matches Some(n) && n as nat == count_assigned(a, id)
    } else {
        d.sbom_count is None
    }
    &&& if parents {
        d.parent_path matches Some(p) && p@ == parent_path(g, id)
    } else {
        d.parent_path is None
    }
}

/// How a deletion of group `id` at revision `rev` leaves the store, given its result.
pub open spec fn deletion(
    g: Seq<GroupView>,
    a: Seq<(u128, u128)>,
    g2: Seq<GroupView>,
    a2: Seq<(u128, u128)>,
    id: u128,
    rev: i32,
    r: Result<(), Error>,
) -> bool {
    match delete_problem(g, id, rev) {
        None => r is Ok && g2 == g.remove(find_group(g, id, 0)->Some_0) && a2 == without_group(a, id),
        Some(e) => r == Err::<(), Error>(e) && g2 == g && a2 == a,
    }
}

/// The groups and the assignments of SBOMs to them.
pub struct SbomGroupService {
    /// The groups, in the order they were created.
    pub groups: Vec<SbomGroup>,
    /// Pairs of an SBOM id and a group id.
    pub assignments: Vec<(u128, u128)>,
}

/// Relies on `uuid::Uuid::new_v4`: a random version-4 UUID; nothing is promised of its value.
#[verifier::external_body]
fn new_group_id() -> (r: u128) {
    uuid::Uuid::new_v4().as_u128()
}

fn opt_eq(a: Option<u128>, b: Option<u128>) -> (r: bool)
    ensures
        r == (a == b),
{
    match (a, b) {
        (Some(x), Some(y)) => x == y,
        (None, None) => true,
        _ => false,
    }
}

fn clone_labels(l: &Vec<Label>) -> (r: Vec<Label>)
    ensures
        labels_view(r@) == labels_view(l@),
{
    let mut r: Vec<Label> = Vec::new();
    let mut i: usize = 0;
    while i < l.len()
        invariant
            i <= l.len(),
            labels_view(r@) == labels_view(l@).take(i as int),
        decreases l.len() - i,
    {
        let p = (l[i].0.clone(), l[i].1.clone());
        let ghost before = labels_view(r@);
        r.push(p);
        assert(labels_view(r@) =~= before.push((l@[i as int].0@, l@[i as int].1@)));
        assert(labels_view(l@).take(i + 1) =~= labels_view(l@).take(i as int).push((l@[i as int].0@, l@[i as int].1@)));
        i += 1;
    }
    assert(labels_view(l@).take(l.len() as int) =~= labels_view(l@));
    r
}

impl SbomGroup {
    /// A copy of this group.
    pub fn copy(&self) -> (r: SbomGroup)
        ensures
            r@ == self@,
    {
        SbomGroup {
            id: self.id,
            parent: self.parent,
            name: self.name.clone(),
            labels: clone_labels(&self.labels),
            revision: self.revision,
        }
    }
}

impl SbomGroupService {
    /// The groups as values.
    pub open spec fn groups_spec(&self) -> Seq<GroupView> {
        groups_view(self.groups@)
    }

    /// The invariant of the store.
    pub open spec fn wf(&self) -> bool {
        groups_wf(self.groups_spec()) && self.assignments@.no_duplicates() && forall|k: int|
            0 <= k < self.assignments@.len() ==> has_group(self.groups_spec(), #[trigger] self.assignments@[k].1)
    }

    /// An empty store.
    pub fn new() -> (r: Self)
        ensures
            r.wf(),
            r.groups_spec() == Seq::<GroupView>::empty(),
            r.assignments@ == Seq::<(u128, u128)>::empty(),
    {
        let r = SbomGroupService { groups: Vec::new(), assignments: Vec::new() };
        assert(r.groups_spec() =~= Seq::<GroupView>::empty());
        assert forall|x: u128| #[trigger] finite_chain(r.groups_spec(), x) by {
            assert(reaches_root(r.groups_spec(), x, 1));
        }
        r
    }

    /// The position of group `id`.
    fn index_of(&self, id: u128) -> (r: Option<usize>)
        ensures
            match r {
                Some(i) => find_group(self.groups_spec(), id, 0) == Some(i as int) && i < self.groups.len(),
                None => find_group(self.groups_spec(), id, 0) is None,
            },
    {
        let mut i: usize = 0;
        while i < self.groups.len()
            invariant
                i <= self.groups.len(),
                find_group(self.groups_spec(), id, 0) == find_group(self.groups_spec(), id, i as int),
            decreases self.groups.len() - i,
        {
            if self.groups[i].id == id {
                return Some(i);
            }
            i += 1;
        }
        None
    }

    /// Whether some group other than `except` has this parent and name.
    fn name_in_use(&self, parent: Option<u128>, name: &String, except: Option<u128>) -> (r: bool)
        ensures
            r == name_taken(self.groups_spec(), parent, name@, except),
    {
        let mut i: usize = 0;
        while i < self.groups.len()
            invariant
                i <= self.groups.len(),
                forall|j: int| 0 <= j < i ==> !(#[trigger] self.groups_spec()[j].parent == parent && self.groups_spec()[j].name == name@
                    && Some(self.groups_spec()[j].id) != except),
            decreases self.groups.len() - i,
        {
            let g = &self.groups[i];
            if opt_eq(g.parent, parent) && g.name == *name && !opt_eq(Some(g.id), except) {
                assert(self.groups_spec()[i as int] == g@);
                assert(self.groups_spec()[i as int].parent == parent);
                return true;
            }
            i += 1;
        }
        false
    }

    /// Whether making `new_parent` the parent of `group_id` closes a cycle: the walk up
    /// from `new_parent`, over at most [`MAX_HIERARCHY_DEPTH`] groups, meets `group_id`.
    fn would_create_cycle(&self, group_id: u128, new_parent: u128) -> (r: bool)
        requires
            groups_wf(self.groups_spec()),
        ensures
            r == (walk_up(self.groups_spec(), new_parent, group_id, MAX_HIERARCHY_DEPTH as nat) == WalkEnd::Found),
    {
        match self.walk_up_exec(new_parent, group_id) {
            WalkEnd::Found => true,
            _ => false,
        }
    }

    /// Whether the walk up from `new_parent` stops at the bound of
    /// [`MAX_HIERARCHY_DEPTH`] groups without meeting `group_id` or a root.
    fn exceeds_depth(&self, group_id: u128, new_parent: u128) -> (r: bool)
        requires
            groups_wf(self.groups_spec()),
        ensures
            r == (walk_up(self.groups_spec(), new_parent, group_id, MAX_HIERARCHY_DEPTH as nat) == WalkEnd::Exhausted),
    {
        match self.walk_up_exec(new_parent, group_id) {
            WalkEnd::Exhausted => true,
            _ => false,
        }
    }

    /// Walks up from `start`, visiting at most [`MAX_HIERARCHY_DEPTH`] groups, looking for `id`.
    fn walk_up_exec(&self, start: u128, id: u128) -> (r: WalkEnd)
        requires
            groups_wf(self.groups_spec()),
        ensures
            r == walk_up(self.groups_spec(), start, id, MAX_HIERARCHY_DEPTH as nat),
    {
        let ghost g = self.groups_spec();
        let mut cur = start;
        let mut k: usize = MAX_HIERARCHY_DEPTH;
        loop
            invariant
                g == self.groups_spec(),
                0 < k <= MAX_HIERARCHY_DEPTH,
                walk_up(g, cur, id, k as nat) == walk_up(g, start, id, MAX_HIERARCHY_DEPTH as nat),
            decreases k,
        {
            if cur == id {
                return WalkEnd::Found;
            }
            let parent = match self.index_of(cur) {
                Some(i) => {
                    assert(g[i as int] == self.groups@[i as int]@);
                    self.groups[i].parent
                },
                None => None,
            };
            match parent {
                None => {
                    return WalkEnd::Root;
                },
                Some(p) => {
                    if k <= 1 {
                        return WalkEnd::Exhausted;
                    }
                    cur = p;
                    k -= 1;
                },
            }
        }
    }

    /// Creates a group with the id `id` from `request`.
    pub fn create_group_with_id(&mut self, id: u128, request: SbomGroupRequest) -> (r: Result<SbomGroup, Error>)
        requires
            old(self).wf(),
        ensures
            final(self).wf(),
            final(self).assignments@ == old(self).assignments@,
            match create_result(old(self).groups_spec(), id, request@) {
                Ok(g) => r matches Ok(group) && final(self).groups_spec() == g && group@ == g.last(),
                Err(e) => r == Err::<SbomGroup, Error>(e) && final(self).groups_spec() == old(self).groups_spec(),
            },
    {
        let ghost g0 = self.groups_spec();
        if let Err(e) = validate_name(request.name.as_str()) {
            return Err(e);
        }
        if let Some(p) = request.parent {
            if self.index_of(p).is_none() {
                return Err(Error::ParentNotFound(p));
            }
        }
        if self.name_in_use(request.parent, &request.name, None) {
            return Err(Error::NameTaken);
        }
        if self.index_of(id).is_some() {
            return Err(Error::Internal);
        }
        let group = SbomGroup { id, parent: request.parent, name: request.name, labels: request.labels, revision: 1 };
        let out = group.copy();
        self.groups.push(group);
        proof {
            assert(self.groups_spec() =~= g0.push(out@));
            lemma_create_wf(g0, id, request@);
            assert forall|k: int| 0 <= k < self.assignments@.len() implies has_group(self.groups_spec(), #[trigger] self.assignments@[k].1) by {
                lemma_push_parent(g0, out@, self.assignments@[k].1);
            }
        }
        Ok(out)
    }

    /// Creates a group from `request`, with a freshly drawn random id.
    pub fn create_group(&mut self, request: SbomGroupRequest) -> (r: Result<SbomGroup, Error>)
        requires
            old(self).wf(),
        ensures
            final(self).wf(),
            final(self).assignments@ == old(self).assignments@,
            match r {
                Ok(group) => create_result(old(self).groups_spec(), group.id, request@)
                    == Ok::<Seq<GroupView>, Error>(final(self).groups_spec()) && group@ == final(self).groups_spec().last(),
                Err(e) => final(self).groups_spec() == old(self).groups_spec() && (e == Error::Internal
                    || create_problem(old(self).groups_spec(), request@) == Some(e)),
            },
            create_problem(old(self).groups_spec(), request@) matches Some(e) ==> r == Err::<SbomGroup, Error>(e),
            r == Err::<SbomGroup, Error>(Error::Internal) ==> create_problem(old(self).groups_spec(), request@) is None,
    {
        let id = new_group_id();
        self.create_group_with_id(id, request)
    }

    /// Updates group `id`, expected at revision `revision`, to `request`; the revision
    /// goes up by one.
    pub fn update_group(&mut self, id: u128, revision: i32, request: SbomGroupRequest) -> (r: Result<SbomGroup, Error>)
        requires
            old(self).wf(),
        ensures
            final(self).wf(),
            final(self).assignments@ == old(self).assignments@,
            match update_result(old(self).groups_spec(), id, revision, request@) {
                Ok(g) => r matches Ok(group) && final(self).groups_spec() == g && group@ == g[find_group(
                    g,
                    id,
                    0,
                )->Some_0],
                Err(e) => r == Err::<SbomGroup, Error>(e) && final(self).groups_spec() == old(self).groups_spec(),
            },
    {
        let ghost g0 = self.groups_spec();
        let i = match self.index_of(id) {
            Some(i) => i,
            None => return Err(Error::GroupNotFound(id)),
        };
        assert(g0[i as int] == self.groups@[i as int]@);
        let stored = self.groups[i].revision;
        if stored != revision {
            return Err(Error::RevisionMismatch { stored, expected: revision });
        }
        if let Err(e) = validate_name(request.name.as_str()) {
            return Err(e);
        }
        if let Some(p) = request.parent {
            if p == id {
                return Err(Error::OwnParent);
            }
            if self.index_of(p).is_none() {
                return Err(Error::ParentNotFound(p));
            }
            if self.would_create_cycle(id, p) {
                return Err(Error::Cycle);
            }
            if self.exceeds_depth(id, p) {
                return Err(Error::HierarchyTooDeep);
            }
        }
        if self.name_in_use(request.parent, &request.name, Some(id)) {
            return Err(Error::NameTaken);
        }
        if revision == i32::MAX {
            return Err(Error::Internal);
        }
        let group = SbomGroup {
            id,
            parent: request.parent,
            name: request.name,
            labels: request.labels,
            revision: revision + 1,
        };
        let out = group.copy();
        self.groups.set(i, group);
        proof {
            lemma_find_found(g0, id, 0);
            assert(self.groups_spec() =~= g0.update(i as int, out@));
            lemma_update_wf(g0, id, revision, request@);
            lemma_find_update(g0, i as int, out@, id, 0);
            assert forall|k: int| 0 <= k < self.assignments@.len() implies has_group(self.groups_spec(), #[trigger] self.assignments@[k].1) by {
                lemma_update_parent(g0, i as int, out@, self.assignments@[k].1);
            }
        }
        Ok(out)
    }

    /// Whether some group has `id` as its parent.
    fn has_children_exec(&self, id: u128) -> (r: bool)
        ensures
            r == has_children(self.groups_spec(), id),
    {
        let mut i: usize = 0;
        while i < self.groups.len()
            invariant
                i <= self.groups.len(),
                forall|j: int| 0 <= j < i ==> #[trigger] self.groups_spec()[j].parent != Some(id),
            decreases self.groups.len() - i,
        {
            assert(self.groups_spec()[i as int] == self.groups@[i as int]@);
            if opt_eq(self.groups[i].parent, Some(id)) {
                assert(self.groups_spec()[i as int].parent == Some(id));
                return true;
            }
            i += 1;
        }
        false
    }

    /// Deletes group `id`, expected at revision `revision`, with its assignments.
    pub fn delete_group(&mut self, id: u128, revision: i32) -> (r: Result<(), Error>)
        requires
            old(self).wf(),
        ensures
            final(self).wf(),
            match delete_problem(old(self).groups_spec(), id, revision) {
                None => r is Ok && final(self).groups_spec() == old(self).groups_spec().remove(
                    find_group(old(self).groups_spec(), id, 0)->Some_0,
                ) && final(self).assignments@ == without_group(old(self).assignments@, id),
                Some(e) => r == Err::<(), Error>(e) && final(self).groups_spec() == old(self).groups_spec()
                    && final(self).assignments@ == old(self).assignments@,
            },
    {
        let ghost g0 = self.groups_spec();
        let i = match self.index_of(id) {
            Some(i) => i,
            None => return Err(Error::GroupNotFound(id)),
        };
        assert(g0[i as int] == self.groups@[i as int]@);
        let stored = self.groups[i].revision;
        if stored != revision {
            return Err(Error::RevisionMismatch { stored, expected: revision });
        }
        if self.has_children_exec(id) {
            return Err(Error::HasChildren);
        }
        self.groups.remove(i);
        let mut kept: Vec<(u128, u128)> = Vec::new();
        let mut k: usize = 0;
        let ghost a0 = self.assignments@;
        while k < self.assignments.len()
            invariant
                k <= self.assignments.len(),
                a0 == self.assignments@,
                kept@ == without_group(a0.take(k as int), id),
            decreases self.assignments.len() - k,
        {
            assert(a0.take(k + 1).drop_last() =~= a0.take(k as int));
            let pair = self.assignments[k];
            if pair.1 != id {
                kept.push(pair);
            }
            k += 1;
        }
        assert(a0.take(a0.len() as int) =~= a0);
        self.assignments = kept;
        proof {
            lemma_find_found(g0, id, 0);
            assert(self.groups_spec() =~= g0.remove(i as int));
            lemma_delete_wf(g0, id, revision);
            lemma_without_group(a0, id);
            assert forall|k: int| 0 <= k < self.assignments@.len() implies has_group(self.groups_spec(), #[trigger] self.assignments@[k].1) by {
                let x = self.assignments@[k];
                assert(self.assignments@.contains(x));
                assert(a0.contains(x));
                let j = choose|j: int| 0 <= j < a0.len() && a0[j] == x;
                assert(has_group(g0, a0[j].1));
                lemma_remove_parent(g0, i as int, x.1);
            }
        }
        Ok(())
    }

    /// Deduplicates `group_ids`, keeping first occurrences, and checks that each names a group.
    pub fn validate_and_deduplicate_groups(&self, group_ids: &Vec<u128>) -> (r: Result<Vec<u128>, Error>)
        ensures
            match r {
                Ok(d) => d@ == dedup(group_ids@) && missing_groups(self.groups_spec(), d@).len() == 0,
                Err(e) => e matches Error::GroupsNotFound(m) && m@ == missing_groups(self.groups_spec(), dedup(group_ids@))
                    && m@.len() > 0,
            },
    {
        let mut d: Vec<u128> = Vec::new();
        let mut i: usize = 0;
        while i < group_ids.len()
            invariant
                i <= group_ids.len(),
                d@ == dedup(group_ids@.take(i as int)),
            decreases group_ids.len() - i,
        {
            assert(group_ids@.take(i + 1).drop_last() =~= group_ids@.take(i as int));
            let x = group_ids[i];
            if !contains_u128(&d, x) {
                d.push(x);
            }
            i += 1;
        }
        assert(group_ids@.take(group_ids.len() as int) =~= group_ids@);
        let mut missing: Vec<u128> = Vec::new();
        let mut k: usize = 0;
        while k < d.len()
            invariant
                k <= d.len(),
                missing@ == missing_groups(self.groups_spec(), d@.take(k as int)),
            decreases d.len() - k,
        {
            assert(d@.take(k + 1).drop_last() =~= d@.take(k as int));
            if self.index_of(d[k]).is_none() {
                missing.push(d[k]);
            }
            k += 1;
        }
        assert(d@.take(d.len() as int) =~= d@);
        if missing.len() > 0 {
            Err(Error::GroupsNotFound(missing))
        } else {
            Ok(d)
        }
    }

    /// The groups that `sbom` is assigned to, in assignment order.
    pub fn get_sbom_assignments(&self, sbom_id: u128) -> (r: Vec<u128>)
        ensures
            r@ == assigned_groups(self.assignments@, sbom_id),
    {
        let mut r: Vec<u128> = Vec::new();
        let mut k: usize = 0;
        while k < self.assignments.len()
            invariant
                k <= self.assignments.len(),
                r@ == assigned_groups(self.assignments@.take(k as int), sbom_id),
            decreases self.assignments.len() - k,
        {
            assert(self.assignments@.take(k + 1).drop_last() =~= self.assignments@.take(k as int));
            let pair = self.assignments[k];
            if pair.0 == sbom_id {
                r.push(pair.1);
            }
            k += 1;
        }
        assert(self.assignments@.take(self.assignments.len() as int) =~= self.assignments@);
        r
    }

    /// Replaces the groups of `sbom` by `group_ids`, without repeats; fails, changing
    /// nothing, when some of them name no group.
    pub fn set_sbom_assignments(&mut self, sbom_id: u128, group_ids: Vec<u128>) -> (r: Result<(), Error>)
        requires
            old(self).wf(),
        ensures
            final(self).wf(),
            final(self).groups_spec() == old(self).groups_spec(),
            match set_result(old(self).groups_spec(), old(self).assignments@, sbom_id, group_ids@) {
                Ok(a) => r is Ok && final(self).assignments@ == a,
                Err(m) => r matches Err(Error::GroupsNotFound(v)) && v@ == m && final(self).assignments@ == old(self).assignments@,
            },
    {
        let d = match self.validate_and_deduplicate_groups(&group_ids) {
            Ok(d) => d,
            Err(e) => return Err(e),
        };
        let ghost a0 = self.assignments@;
        let ghost g0 = self.groups_spec();
        let mut kept: Vec<(u128, u128)> = Vec::new();
        let mut k: usize = 0;
        while k < self.assignments.len()
            invariant
                k <= self.assignments.len(),
                a0 == self.assignments@,
                kept@ == without_sbom(a0.take(k as int), sbom_id),
            decreases self.assignments.len() - k,
        {
            assert(a0.take(k + 1).drop_last() =~= a0.take(k as int));
            let pair = self.assignments[k];
            if pair.0 != sbom_id {
                kept.push(pair);
            }
            k += 1;
        }
        assert(a0.take(a0.len() as int) =~= a0);
        let ghost w = kept@;
        let mut j: usize = 0;
        while j < d.len()
            invariant
                j <= d.len(),
                kept@ == w + pairs_for(sbom_id, d@.take(j as int)),
            decreases d.len() - j,
        {
            let ghost before = kept@;
            kept.push((sbom_id, d[j]));
            j += 1;
            assert(pairs_for(sbom_id, d@.take(j as int)) =~= pairs_for(sbom_id, d@.take(j - 1)).push((sbom_id, d@[j - 1])));
            assert(kept@ =~= w + pairs_for(sbom_id, d@.take(j as int)));
        }
        assert(d@.take(d.len() as int) =~= d@);
        self.assignments = kept;
        proof {
            lemma_without_sbom(a0, sbom_id);
            lemma_dedup(group_ids@);
            lemma_pairs_for(sbom_id, d@);
            lemma_none_missing(g0, d@);
            assert(w == without_sbom(a0, sbom_id));
            assert forall|x: (u128, u128)| w.contains(x) implies !pairs_for(sbom_id, d@).contains(x) by {
                assert(without_sbom(a0, sbom_id).contains(x));
                assert(x.0 != sbom_id);
            }
            lemma_no_dup_append(w, pairs_for(sbom_id, d@));
            assert(self.groups_spec() == g0);
            assert forall|k: int| 0 <= k < self.assignments@.len() implies has_group(self.groups_spec(), #[trigger] self.assignments@[k].1) by {
                let x = self.assignments@[k];
                assert(self.assignments@.contains(x));
                if w.contains(x) {
                    assert(a0.contains(x));
                    let j = choose|j: int| 0 <= j < a0.len() && a0[j] == x;
                    assert(has_group(g0, a0[j].1));
                } else {
                    assert(pairs_for(sbom_id, d@).contains(x));
                    assert(d@.contains(x.1));
                    let j = choose|j: int| 0 <= j < d@.len() && d@[j] == x.1;
                    assert(has_group(g0, d@[j]));
                }
            }
        }
        Ok(())
    }

    /// Assigns `sbom` also to `group_ids`, keeping its other groups; fails, changing
    /// nothing, when some of them name no group.
    pub fn add_sbom_assignments(&mut self, sbom_id: u128, group_ids: Vec<u128>) -> (r: Result<(), Error>)
        requires
            old(self).wf(),
        ensures
            final(self).wf(),
            final(self).groups_spec() == old(self).groups_spec(),
            match add_result(old(self).groups_spec(), old(self).assignments@, sbom_id, group_ids@) {
                Ok(a) => r is Ok && final(self).assignments@ == a,
                Err(m) => r matches Err(Error::GroupsNotFound(v)) && v@ == m && final(self).assignments@ == old(self).assignments@,
            },
    {
        let d = match self.validate_and_deduplicate_groups(&group_ids) {
            Ok(d) => d,
            Err(e) => return Err(e),
        };
        let ghost a0 = self.assignments@;
        let ghost g0 = self.groups_spec();
        let mut fresh: Vec<u128> = Vec::new();
        let mut j: usize = 0;
        while j < d.len()
            invariant
                j <= d.len(),
                a0 == self.assignments@,
                fresh@ == unassigned(a0, sbom_id, d@.take(j as int)),
            decreases d.len() - j,
        {
            assert(d@.take(j + 1).drop_last() =~= d@.take(j as int));
            if !self.is_assigned(sbom_id, d[j]) {
                fresh.push(d[j]);
            }
            j += 1;
        }
        assert(d@.take(d.len() as int) =~= d@);
        let mut i: usize = 0;
        while i < fresh.len()
            invariant
                i <= fresh.len(),
                self.groups_spec() == g0,
                self.assignments@ == a0 + pairs_for(sbom_id, fresh@.take(i as int)),
            decreases fresh.len() - i,
        {
            self.assignments.push((sbom_id, fresh[i]));
            i += 1;
            assert(pairs_for(sbom_id, fresh@.take(i as int)) =~= pairs_for(sbom_id, fresh@.take(i - 1)).push((sbom_id, fresh@[i - 1])));
            assert(self.assignments@ =~= a0 + pairs_for(sbom_id, fresh@.take(i as int)));
        }
        assert(fresh@.take(fresh.len() as int) =~= fresh@);
        proof {
            lemma_dedup(group_ids@);
            lemma_unassigned(a0, sbom_id, d@);
            lemma_pairs_for(sbom_id, fresh@);
            lemma_none_missing(g0, d@);
            assert forall|x: (u128, u128)| a0.contains(x) implies !pairs_for(sbom_id, fresh@).contains(x) by {
                if pairs_for(sbom_id, fresh@).contains(x) {
                    assert(fresh@.contains(x.1));
                    assert(fresh@ == unassigned(a0, sbom_id, d@));
                    assert(unassigned(a0, sbom_id, d@).contains(x.1));
                    assert(x == (sbom_id, x.1));
                    assert(!a0.contains((sbom_id, x.1)));
                }
            }
            lemma_no_dup_append(a0, pairs_for(sbom_id, fresh@));
            assert forall|k: int| 0 <= k < self.assignments@.len() implies has_group(self.groups_spec(), #[trigger] self.assignments@[k].1) by {
                let x = self.assignments@[k];
                assert(self.assignments@.contains(x));
                if a0.contains(x) {
                    let j = choose|j: int| 0 <= j < a0.len() && a0[j] == x;
                    assert(has_group(g0, a0[j].1));
                } else {
                    assert(pairs_for(sbom_id, fresh@).contains(x));
                    assert(fresh@.contains(x.1));
                    assert(d@.contains(x.1));
                    let j2 = choose|j2: int| 0 <= j2 < d@.len() && d@[j2] == x.1;
                    assert(has_group(g0, d@[j2]));
                }
            }
        }
        Ok(())
    }

    /// Whether `sbom` is assigned to `group`.
    fn is_assigned(&self, sbom_id: u128, group: u128) -> (r: bool)
        ensures
            r == self.assignments@.contains((sbom_id, group)),
    {
        let mut k: usize = 0;
        while k < self.assignments.len()
            invariant
                k <= self.assignments.len(),
                forall|j: int| 0 <= j < k ==> self.assignments@[j] != (sbom_id, group),
            decreases self.assignments.len() - k,
        {
            let pair = self.assignments[k];
            if pair.0 == sbom_id && pair.1 == group {
                assert(self.assignments@[k as int] == (sbom_id, group));
                return true;
            }
            k += 1;
        }
        false
    }
}

/// Whether `v` holds `x`.
fn contains_u128(v: &Vec<u128>, x: u128) -> (r: bool)
    ensures
        r == v@.contains(x),
{
    let mut k: usize = 0;
    while k < v.len()
        invariant
            k <= v.len(),
            forall|j: int| 0 <= j < k ==> v@[j] != x,
        decreases v.len() - k,
    {
        if v[k] == x {
            assert(v@[k as int] == x);
            return true;
        }
        k += 1;
    }
    false
}

proof fn lemma_unassigned(a: Seq<(u128, u128)>, sbom: u128, d: Seq<u128>)
    requires
        d.no_duplicates(),
    ensures
        unassigned(a, sbom, d).no_duplicates(),
        forall|x: u128| #[trigger] unassigned(a, sbom, d).contains(x) <==> (d.contains(x) && !a.contains((sbom, x))),
    decreases d.len(),
{
    if d.len() == 0 {
        assert forall|x: u128| !d.contains(x) by {}
    } else {
        let p = d.drop_last();
        assert(p.no_duplicates()) by {
            assert forall|i: int, j: int| 0 <= i < p.len() && 0 <= j < p.len() && i != j implies p[i] != p[j] by {
                assert(d[i] == p[i] && d[j] == p[j]);
            }
        }
        lemma_unassigned(a, sbom, p);
        lemma_split_last(d);
        let u = unassigned(a, sbom, p);
        assert forall|x: u128| d.contains(x) <==> (p.contains(x) || x == d.last()) by {
            lemma_contains_push(p, d.last(), x);
        }
        if !a.contains((sbom, d.last())) {
            assert(!p.contains(d.last())) by {
                if p.contains(d.last()) {
                    let k = choose|k: int| 0 <= k < p.len() && p[k] == d.last();
                    assert(d[k] == d[d.len() - 1]);
                }
            }
            lemma_no_dup_push(u, d.last());
            assert forall|x: u128| u.push(d.last()).contains(x) <==> (u.contains(x) || x == d.last()) by {
                lemma_contains_push(u, d.last(), x);
            }
        }
        assert forall|x: u128| unassigned(a, sbom, d).contains(x) <==> (d.contains(x) && !a.contains((sbom, x))) by {
            lemma_contains_push(u, d.last(), x);
            lemma_contains_push(p, d.last(), x);
            if a.contains((sbom, d.last())) {
                assert(unassigned(a, sbom, d) == u);
            } else {
                assert(unassigned(a, sbom, d) == u.push(d.last()));
            }
        }
    }
}

impl SbomGroupService {
    /// The ids of the children of group `id`.
    fn get_children(&self, id: u128) -> (r: Vec<u128>)
        ensures
            r@ == children_of(self.groups_spec(), id),
    {
        let ghost g = self.groups_spec();
        let mut r: Vec<u128> = Vec::new();
        let mut i: usize = 0;
        while i < self.groups.len()
            invariant
                i <= self.groups.len(),
                g == self.groups_spec(),
                r@ == children_of(g.take(i as int), id),
            decreases self.groups.len() - i,
        {
            assert(g.take(i + 1).drop_last() =~= g.take(i as int));
            assert(g.take(i + 1).last() == self.groups@[i as int]@);
            if opt_eq(self.groups[i].parent, Some(id)) {
                r.push(self.groups[i].id);
            }
            i += 1;
        }
        assert(g.take(g.len() as int) =~= g);
        r
    }

    /// The number of SBOMs assigned to group `id`.
    fn count_sboms(&self, id: u128) -> (r: u64)
        ensures
            r as nat == count_assigned(self.assignments@, id),
    {
        let ghost a = self.assignments@;
        let mut n: u64 = 0;
        let mut k: usize = 0;
        while k < self.assignments.len()
            invariant
                k <= self.assignments.len(),
                a == self.assignments@,
                n as nat == count_assigned(a.take(k as int), id),
                n <= k,
            decreases self.assignments.len() - k,
        {
            assert(a.take(k + 1).drop_last() =~= a.take(k as int));
            if self.assignments[k].1 == id {
                n += 1;
            }
            k += 1;
        }
        assert(a.take(a.len() as int) =~= a);
        n
    }

    /// The ancestors of group `id` from the root down to its parent.
    fn parent_path_of(&self, id: u128) -> (r: Vec<u128>)
        requires
            self.wf(),
        ensures
            r@ == parent_path(self.groups_spec(), id),
    {
        let ghost g = self.groups_spec();
        let ghost n = chain_bound(g, id);
        proof {
            assert(finite_chain(g, id));
        }
        let mut acc: Vec<u128> = Vec::new();
        let mut cur = id;
        let ghost mut f: nat = n;
        assert(path_to(g, id, n) =~= path_to(g, cur, f) + acc@);
        loop
            invariant
                g == self.groups_spec(),
                reaches_root(g, cur, f),
                path_to(g, id, n) == path_to(g, cur, f) + acc@,
                n == chain_bound(g, id),
            decreases f,
        {
            let parent = match self.index_of(cur) {
                Some(i) => {
                    assert(g[i as int] == self.groups@[i as int]@);
                    self.groups[i].parent
                },
                None => None,
            };
            match parent {
                None => {
                    assert(path_to(g, cur, f) =~= Seq::<u128>::empty());
                    assert(acc@ =~= Seq::<u128>::empty() + acc@);
                    return acc;
                },
                Some(p) => {
                    let ghost before = acc@;
                    acc.insert(0, p);
                    proof {
                        assert(acc@ =~= seq![p] + before);
                        assert(path_to(g, cur, f) == path_to(g, p, (f - 1) as nat).push(p));
                        assert(path_to(g, p, (f - 1) as nat).push(p) + before =~= path_to(g, p, (f - 1) as nat) + acc@);
                        f = (f - 1) as nat;
                    }
                    cur = p;
                },
            }
        }
    }

    /// The ancestors of group `id` from the root down to its parent; an absent group
    /// is not found.
    pub fn get_parent_path(&self, id: u128) -> (r: Result<Vec<u128>, Error>)
        requires
            self.wf(),
        ensures
            match r {
                Ok(p) => has_group(self.groups_spec(), id) && p@ == parent_path(self.groups_spec(), id),
                Err(e) => !has_group(self.groups_spec(), id) && e == Error::GroupNotFound(id),
            },
    {
        match self.index_of(id) {
            None => Err(Error::GroupNotFound(id)),
            Some(_) => Ok(self.parent_path_of(id)),
        }
    }

    /// The details of the group at position `i`.
    fn details_at(&self, i: usize, children: bool, totals: bool, parents: bool) -> (r: SbomGroupDetails)
        requires
            self.wf(),
            i < self.groups.len(),
        ensures
            details_of(r, self.groups_spec(), self.assignments@, i as int, children, totals, parents),
    {
        let group = self.groups[i].copy();
        let id = group.id;
        assert(self.groups_spec()[i as int] == self.groups@[i as int]@);
        let children = if children { Some(self.get_children(id)) } else { None };
        let sbom_count = if totals { Some(self.count_sboms(id)) } else { None };
        let parent_path = if parents { Some(self.parent_path_of(id)) } else { None };
        SbomGroupDetails { group, children, sbom_count, parent_path }
    }

    /// Group `id` with the parts asked for, or `None` when there is no such group.
    pub fn get_group(&self, id: u128, include_children: bool, include_totals: bool, include_parents: bool) -> (r: Option<SbomGroupDetails>)
        requires
            self.wf(),
        ensures
            match find_group(self.groups_spec(), id, 0) {
                None => r is None,
                Some(i) => r matches Some(d) && details_of(d, self.groups_spec(), self.assignments@, i, include_children, include_totals, include_parents),
            },
    {
        match self.index_of(id) {
            None => None,
            Some(i) => Some(self.details_at(i, include_children, include_totals, include_parents)),
        }
    }

    /// The position of the first group with this parent and name.
    fn find_child_exec(&self, parent: Option<u128>, name: &String) -> (r: Option<usize>)
        ensures
            match r {
                Some(i) => find_child(self.groups_spec(), parent, name@, 0) == Some(i as int) && i < self.groups.len(),
                None => find_child(self.groups_spec(), parent, name@, 0) is None,
            },
    {
        let mut i: usize = 0;
        while i < self.groups.len()
            invariant
                i <= self.groups.len(),
                find_child(self.groups_spec(), parent, name@, 0) == find_child(self.groups_spec(), parent, name@, i as int),
            decreases self.groups.len() - i,
        {
            assert(self.groups_spec()[i as int] == self.groups@[i as int]@);
            if opt_eq(self.groups[i].parent, parent) && self.groups[i].name == *name {
                return Some(i);
            }
            i += 1;
        }
        None
    }

    /// The position of the group that `names` denote, walking down from the roots.
    pub fn find_by_path(&self, names: &Vec<String>) -> (r: Option<usize>)
        ensures
            match r {
                Some(i) => resolve_path(self.groups_spec(), strings_view(names@)) == Some(i as int) && i < self.groups.len(),
                None => resolve_path(self.groups_spec(), strings_view(names@)) is None,
            },
    {
        let ghost g = self.groups_spec();
        let ghost nv = strings_view(names@);
        if names.len() == 0 {
            return None;
        }
        let mut cur = match self.find_child_exec(None, &names[0]) {
            Some(i) => i,
            None => {
                assert(nv.take(1) =~= seq![nv[0]]);
                proof { lemma_resolve_none_stays(g, nv, 1); }
                return None;
            },
        };
        let mut k: usize = 1;
        assert(nv.take(1).len() == 1 && nv.take(1)[0] == nv[0]);
        while k < names.len()
            invariant
                1 <= k <= names.len(),
                g == self.groups_spec(),
                nv == strings_view(names@),
                cur < self.groups.len(),
                resolve_path(g, nv.take(k as int)) == Some(cur as int),
            decreases names.len() - k,
        {
            assert(nv.take(k + 1).drop_last() =~= nv.take(k as int));
            assert(nv.take(k + 1).last() == names@[k as int]@);
            assert(g[cur as int] == self.groups@[cur as int]@);
            let parent = self.groups[cur].id;
            match self.find_child_exec(Some(parent), &names[k]) {
                Some(i) => {
                    cur = i;
                },
                None => {
                    proof { lemma_resolve_none_stays(g, nv, k + 1); }
                    return None;
                },
            }
            k += 1;
        }
        assert(nv.take(names.len() as int) =~= nv);
        Some(cur)
    }

    /// The group that the percent-encoded path `path` denotes, with the parts asked
    /// for; `None` when no group has that path. A malformed path fails before any lookup.
    pub fn get_group_by_path(&self, path: &str, include_children: bool, include_totals: bool, include_parents: bool) -> (r: Result<Option<SbomGroupDetails>, Error>)
        requires
            self.wf(),
        ensures
            match parsed_path(path@) {
                Err(e) => r == Err::<Option<SbomGroupDetails>, Error>(e),
                Ok(names) => match resolve_path(self.groups_spec(), names) {
                    None => r matches Ok(None),
                    Some(i) => r matches Ok(Some(d)) && details_of(d, self.groups_spec(), self.assignments@, i, include_children, include_totals, include_parents),
                },
            },
    {
        let names = match parse_path(path) {
            Ok(n) => n,
            Err(e) => return Err(e),
        };
        match self.find_by_path(&names) {
            None => Ok(None),
            Some(i) => Ok(Some(self.details_at(i, include_children, include_totals, include_parents))),
        }
    }

    /// The positions of the groups, ordered by name.
    fn order_by_name(&self) -> (r: Vec<usize>)
        ensures
            name_order(self.groups_spec(), r@, self.groups@.len() as int),
    {
        let ghost g = self.groups_spec();
        let mut order: Vec<usize> = Vec::new();
        let mut i: usize = 0;
        while i < self.groups.len()
            invariant
                i <= self.groups.len(),
                g == self.groups_spec(),
                name_order(g, order@, i as int),
            decreases self.groups.len() - i,
        {
            let name = chars_of(self.groups[i].name.as_str());
            assert(g[i as int] == self.groups@[i as int]@);
            let mut k: usize = 0;
            while k < order.len() && !lex_less(&name, &chars_of(self.groups[order[k]].name.as_str()))
                invariant
                    k <= order.len(),
                    i < self.groups.len(),
                    g.len() == self.groups.len(),
                    name@ == g[i as int].name,
                    g == self.groups_spec(),
                    name_order(g, order@, i as int),
                    forall|m: int| 0 <= m < k ==> !lex_lt(g[i as int].name, #[trigger] g[order@[m] as int].name),
                decreases order.len() - k,
            {
                assert(g[order@[k as int] as int] == self.groups@[order@[k as int] as int]@);
                k += 1;
            }
            if k < order.len() {
                assert(g[order@[k as int] as int] == self.groups@[order@[k as int] as int]@);
            }
            let ghost old_order = order@;
            order.insert(k, i);
            proof {
                let o2 = order@;
                assert(o2 =~= old_order.insert(k as int, i));
                assert forall|j: int| 0 <= j < o2.len() implies #[trigger] o2[j] < i + 1 by {
                    if j < k {
                        assert(o2[j] == old_order[j]);
                    } else if j > k {
                        assert(o2[j] == old_order[j - 1]);
                    }
                }
                assert forall|p: int, q: int| 0 <= p < q < o2.len() implies listed_before(g, #[trigger] o2[p] as int, #[trigger] o2[q] as int) by {
                    if q < k {
                        assert(o2[p] == old_order[p] && o2[q] == old_order[q]);
                    } else if q == k {
                        assert(o2[p] == old_order[p]);
                        let a = old_order[p] as int;
                        if g[a].name != g[i as int].name {
                            lemma_lex_total(g[a].name, g[i as int].name);
                        }
                    } else if p > k {
                        assert(o2[p] == old_order[p - 1] && o2[q] == old_order[q - 1]);
                    } else if p == k {
                        assert(o2[q] == old_order[q - 1]);
                        let b = old_order[q - 1] as int;
                        let c = old_order[k as int] as int;
                        if q - 1 > k {
                            assert(listed_before(g, c, b));
                            if lex_lt(g[c].name, g[b].name) {
                                lemma_lex_transitive(g[i as int].name, g[c].name, g[b].name);
                            }
                        }
                    } else {
                        assert(o2[p] == old_order[p] && o2[q] == old_order[q - 1]);
                    }
                }
            }
            i += 1;
        }
        order
    }

    /// A page of the groups that `filter` holds of, ordered by name (then by
    /// creation), with their number over all pages.
    pub fn list_groups(&self, filter: &Filter, offset: u64, limit: u64, include_totals: bool, include_parents: bool) -> (r: PaginatedResults)
        requires
            self.wf(),
        ensures
            listing_of(r, self.groups_spec(), self.assignments@, filter@, offset, limit, include_totals, include_parents),
    {
        let ghost g = self.groups_spec();
        let order = self.order_by_name();
        let mut matched: Vec<usize> = Vec::new();
        let mut k: usize = 0;
        assert(order@.take(0) =~= Seq::<usize>::empty());
        while k < order.len()
            invariant
                k <= order.len(),
                g == self.groups_spec(),
                name_order(g, order@, g.len() as int),
                matched@ == matching_positions(g, order@.take(k as int), filter@),
                forall|j: int| 0 <= j < matched@.len() ==> #[trigger] matched@[j] < g.len(),
            decreases order.len() - k,
        {
            assert(order@.take(k + 1).drop_last() =~= order@.take(k as int));
            assert(order@.take(k + 1).last() == order@[k as int]);
            let x = order[k];
            assert(g[x as int] == self.groups@[x as int]@);
            if filter_holds_exec(&self.groups[x], filter) {
                matched.push(x);
            }
            k += 1;
        }
        assert(order@.take(order.len() as int) =~= order@);
        let (start, end) = page_bounds(matched.len(), offset, limit);
        let mut items: Vec<SbomGroupDetails> = Vec::new();
        let mut i: usize = start;
        while i < end
            invariant
                start <= i <= end <= matched.len(),
                self.wf(),
                g == self.groups_spec(),
                forall|j: int| 0 <= j < matched@.len() ==> #[trigger] matched@[j] < g.len(),
                items@.len() == i - start,
                forall|j: int| 0 <= j < items@.len() ==> details_of(#[trigger] items@[j], g, self.assignments@, matched@[start + j] as int, false, include_totals, include_parents),
            decreases end - i,
        {
            let d = self.details_at(matched[i], false, include_totals, include_parents);
            items.push(d);
            i += 1;
        }
        let r = PaginatedResults { total: matched.len() as u64, items };
        assert(name_order(g, order@, g.len() as int));
        r
    }

    /// A page of the groups that the query text `q` selects, ordered by name; relative
    /// time is resolved against `now`. A query that does not build fails, listing nothing.
    pub fn list_groups_query(&self, q: &str, now: Timestamp, offset: u64, limit: u64, include_totals: bool, include_parents: bool) -> (r: Result<PaginatedResults, Error>)
        requires
            self.wf(),
            valid_timestamp(now),
        ensures
            match filter_meaning(q@, group_columns_spec(), now) {
                Err(f) => r matches Err(e) && failure_of(e) == f,
                Ok(fv) => r matches Ok(page) && listing_of(page, self.groups_spec(), self.assignments@, fv, offset, limit, include_totals, include_parents),
            },
    {
        let columns = group_columns();
        match build_filter(q, &columns, now) {
            Err(e) => Err(e),
            Ok(filter) => Ok(self.list_groups(&filter, offset, limit, include_totals, include_parents)),
        }
    }

    /// Updates group `id` under the precondition of an `If-Match` header, which is required.
    pub fn update_group_if_match(&mut self, id: u128, if_match: Option<&str>, request: SbomGroupRequest) -> (r: Result<SbomGroup, Error>)
        requires
            old(self).wf(),
        ensures
            final(self).wf(),
            final(self).assignments@ == old(self).assignments@,
            match required_revision_spec(if_match) {
                Err(e) => r == Err::<SbomGroup, Error>(e) && final(self).groups_spec() == old(self).groups_spec(),
                Ok(rev) => match update_result(old(self).groups_spec(), id, rev, request@) {
                    Ok(g) => r is Ok && final(self).groups_spec() == g,
                    Err(e) => r == Err::<SbomGroup, Error>(e) && final(self).groups_spec() == old(self).groups_spec(),
                },
            },
    {
        let rev = match required_revision(if_match) {
            Ok(rev) => rev,
            Err(e) => return Err(e),
        };
        self.update_group(id, rev, request)
    }

    /// Deletes group `id`; an `If-Match` header, when given, names the expected revision,
    /// else the stored one is taken.
    pub fn delete_group_if_match(&mut self, id: u128, if_match: Option<&str>) -> (r: Result<(), Error>)
        requires
            old(self).wf(),
        ensures
            final(self).wf(),
            match if_match {
                Some(v) => match if_match_revision(v@) {
                    Err(e) => r == Err::<(), Error>(e) && final(self).groups_spec() == old(self).groups_spec()
                        && final(self).assignments@ == old(self).assignments@,
                    Ok(rev) => deletion(old(self).groups_spec(), old(self).assignments@, final(self).groups_spec(), final(self).assignments@, id, rev, r),
                },
                None => match find_group(old(self).groups_spec(), id, 0) {
                    None => r == Err::<(), Error>(Error::GroupNotFound(id)) && final(self).groups_spec() == old(self).groups_spec()
                        && final(self).assignments@ == old(self).assignments@,
                    Some(i) => deletion(old(self).groups_spec(), old(self).assignments@, final(self).groups_spec(), final(self).assignments@, id, old(self).groups_spec()[i].revision, r),
                },
            },
    {
        let rev = match if_match {
            Some(v) => match revision_from_if_match(v) {
                Ok(rev) => rev,
                Err(e) => return Err(e),
            },
            None => match self.index_of(id) {
                Some(i) => {
                    assert(self.groups_spec()[i as int] == self.groups@[i as int]@);
                    self.groups[i].revision
                },
                None => return Err(Error::GroupNotFound(id)),
            },
        };
        self.delete_group(id, rev)
    }
}

/// The revision that a required `If-Match` header names.
pub open spec fn required_revision_spec(header: Option<&str>) -> Result<i32, Error> {
    match header {
        None => Err(Error::MissingIfMatch),
        Some(v) => if_match_revision(v@),
    }
}

proof fn lemma_resolve_none_stays(g: Seq<GroupView>, names: Seq<Seq<char>>, k: int)
    requires
        1 <= k <= names.len(),
        resolve_path(g, names.take(k)) is None,
    ensures
        resolve_path(g, names) is None,
    decreases names.len() - k,
{
    if k < names.len() {
        assert(names.take(k + 1).drop_last() =~= names.take(k));
        lemma_resolve_none_stays(g, names, k + 1);
    } else {
        assert(names.take(k) =~= names);
    }
}

} // verus!
