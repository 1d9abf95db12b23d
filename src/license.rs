//! The effective licenses of an SBOM: distinct up to case, in ascending order.
use vstd::prelude::*;
use crate::sbom::LicenseRefMapping;
use crate::path::strings_view;
use crate::text::{chars_of, lower_of, lowercase, lemma_lex_asymmetric, lemma_lex_irreflexive, lemma_lex_total, lemma_lex_transitive, lex_less, lex_lt};

verus! {

/// The licenses service.
pub struct LicenseService {}

impl LicenseService {
    pub fn new() -> (r: Self) {
        LicenseService {}
    }
}

/// The text of a license.
#[derive(Debug, Clone, PartialEq, Eq)]
pub struct LicenseText {
    pub license: String,
}

/// Each name comes before the next.
pub open spec fn sorted_names(ns: Seq<Seq<char>>) -> bool {
    forall|i: int, j: int| 0 <= i < j < ns.len() ==> lex_lt(#[trigger] ns[i], #[trigger] ns[j])
}

/// `ls` holds the lower case of each name of `ns`.
pub open spec fn lowers_of(ns: Seq<Seq<char>>, ls: Seq<Seq<char>>) -> bool {
    ls.len() == ns.len() && forall|j: int| 0 <= j < ns.len() ==> #[trigger] ls[j] == lower_of(ns[j])
}

/// `y` is the least of the names in `rs` that have its lower case.
pub open spec fn represents(y: Seq<char>, rs: Seq<Seq<char>>, k: int) -> bool {
    lower_of(y) == lower_of(rs[k]) && !lex_lt(rs[k], y)
}

/// `ns` lists the licenses of the rows `rs`: in ascending order, one per lower case,
/// each one of the rows, and each the least of the rows with its lower case.
pub open spec fn license_listing(ns: Seq<Seq<char>>, rs: Seq<Seq<char>>) -> bool {
    &&& sorted_names(ns)
    &&& forall|i: int, j: int| 0 <= i < ns.len() && 0 <= j < ns.len() && i != j ==> lower_of(#[trigger] ns[i]) != lower_of(#[trigger] ns[j])
    &&& forall|i: int| 0 <= i < ns.len() ==> rs.contains(#[trigger] ns[i])
    &&& forall|k: int| 0 <= k < rs.len() ==> #[trigger] has_representative(ns, rs, k)
}

/// Some name of `ns` represents row `k` of `rs`.
pub open spec fn has_representative(ns: Seq<Seq<char>>, rs: Seq<Seq<char>>, k: int) -> bool {
    exists|y: Seq<char>| #[trigger] ns.contains(y) && represents(y, rs, k)
}

/// Inserts `x` into the sorted names, keeping them sorted.
fn insert_sorted(out: &mut Vec<String>, low: &mut Vec<String>, x: String, lx: String)
    requires
        sorted_names(strings_view(old(out)@)),
        lowers_of(strings_view(old(out)@), strings_view(old(low)@)),
        lx@ == lower_of(x@),
        !strings_view(old(low)@).contains(lx@),
    ensures
        sorted_names(strings_view(final(out)@)),
        lowers_of(strings_view(final(out)@), strings_view(final(low)@)),
        forall|y: Seq<char>| strings_view(final(out)@).contains(y) <==> (strings_view(old(out)@).contains(y) || y == x@),
        forall|y: Seq<char>| strings_view(final(low)@).contains(y) <==> (strings_view(old(low)@).contains(y) || y == lx@),
        strings_view(old(low)@).no_duplicates() ==> strings_view(final(low)@).no_duplicates(),
{
    let ghost ns = strings_view(out@);
    let ghost ls = strings_view(low@);
    let xc = chars_of(x.as_str());
    let mut k: usize = 0;
    while k < out.len() && !lex_less(&xc, &chars_of(out[k].as_str()))
        invariant
            k <= out.len(),
            ns == strings_view(out@),
            xc@ == x@,
            forall|m: int| 0 <= m < k ==> !lex_lt(x@, #[trigger] ns[m]),
        decreases out.len() - k,
    {
        k += 1;
    }
    proof {
        assert forall|m: int| 0 <= m < k implies lex_lt(#[trigger] ns[m], x@) by {
            if ns[m] == x@ {
                assert(ls[m] == lx@);
                assert(ls.contains(lx@));
            }
            lemma_lex_total(ns[m], x@);
        }
    }
    out.insert(k, x);
    low.insert(k, lx);
    proof {
        let ns2 = strings_view(out@);
        let ls2 = strings_view(low@);
        assert(ns2 =~= ns.insert(k as int, x@));
        assert(ls2 =~= ls.insert(k as int, lx@));
        assert forall|i: int, j: int| 0 <= i < j < ns2.len() implies lex_lt(#[trigger] ns2[i], #[trigger] ns2[j]) by {
            if j < k {
                assert(ns2[i] == ns[i] && ns2[j] == ns[j]);
            } else if j == k {
                assert(ns2[i] == ns[i]);
            } else if i > k {
                assert(ns2[i] == ns[i - 1] && ns2[j] == ns[j - 1]);
            } else if i == k {
                assert(ns2[j] == ns[j - 1]);
                if j - 1 > k {
                    lemma_lex_transitive(x@, ns[k as int], ns[j - 1]);
                }
            } else {
                assert(ns2[i] == ns[i] && ns2[j] == ns[j - 1]);
            }
        }
        assert forall|j: int| 0 <= j < ns2.len() implies #[trigger] ls2[j] == lower_of(ns2[j]) by {
            if j < k {
                assert(ls2[j] == ls[j] && ns2[j] == ns[j]);
            } else if j > k {
                assert(ls2[j] == ls[j - 1] && ns2[j] == ns[j - 1]);
            }
        }
        assert forall|y: Seq<char>| ns2.contains(y) <==> (ns.contains(y) || y == x@) by {
            if ns2.contains(y) {
                let j = choose|j: int| 0 <= j < ns2.len() && ns2[j] == y;
                if j < k {
                    assert(ns[j] == y);
                } else if j > k {
                    assert(ns[j - 1] == y);
                }
            }
            if ns.contains(y) {
                let j = choose|j: int| 0 <= j < ns.len() && ns[j] == y;
                if j < k {
                    assert(ns2[j] == y);
                } else {
                    assert(ns2[j + 1] == y);
                }
            }
            if y == x@ {
                assert(ns2[k as int] == y);
            }
        }
        assert forall|y: Seq<char>| ls2.contains(y) <==> (ls.contains(y) || y == lx@) by {
            if ls2.contains(y) {
                let j = choose|j: int| 0 <= j < ls2.len() && ls2[j] == y;
                if j < k {
                    assert(ls[j] == y);
                } else if j > k {
                    assert(ls[j - 1] == y);
                }
            }
            if ls.contains(y) {
                let j = choose|j: int| 0 <= j < ls.len() && ls[j] == y;
                if j < k {
                    assert(ls2[j] == y);
                } else {
                    assert(ls2[j + 1] == y);
                }
            }
            if y == lx@ {
                assert(ls2[k as int] == y);
            }
        }
        if ls.no_duplicates() {
            assert forall|a: int, b: int| 0 <= a < ls2.len() && 0 <= b < ls2.len() && a != b implies ls2[a] != ls2[b] by {
                let a1 = if a < k { a } else { a - 1 };
                let b1 = if b < k { b } else { b - 1 };
                if a == k {
                    assert(ls2[b] == ls[b1]);
                    assert(ls.contains(ls[b1]));
                } else if b == k {
                    assert(ls2[a] == ls[a1]);
                    assert(ls.contains(ls[a1]));
                } else {
                    assert(ls2[a] == ls[a1] && ls2[b] == ls[b1]);
                }
            }
        }
    }
}

/// Removes the name at `j` and its lower case.
fn remove_at(out: &mut Vec<String>, low: &mut Vec<String>, j: usize)
    requires
        j < old(out).len(),
        sorted_names(strings_view(old(out)@)),
        lowers_of(strings_view(old(out)@), strings_view(old(low)@)),
        strings_view(old(low)@).no_duplicates(),
    ensures
        sorted_names(strings_view(final(out)@)),
        lowers_of(strings_view(final(out)@), strings_view(final(low)@)),
        strings_view(final(low)@).no_duplicates(),
        forall|y: Seq<char>| strings_view(final(out)@).contains(y) <==> (strings_view(old(out)@).contains(y) && y != strings_view(old(out)@)[j as int]),
        forall|y: Seq<char>| strings_view(final(low)@).contains(y) <==> (strings_view(old(low)@).contains(y) && y != strings_view(old(low)@)[j as int]),
{
    let ghost ns = strings_view(out@);
    let ghost ls = strings_view(low@);
    out.remove(j);
    low.remove(j);
    proof {
        let ns2 = strings_view(out@);
        let ls2 = strings_view(low@);
        assert(ns2 =~= ns.remove(j as int));
        assert(ls2 =~= ls.remove(j as int));
        assert forall|i: int, k: int| 0 <= i < k < ns2.len() implies lex_lt(#[trigger] ns2[i], #[trigger] ns2[k]) by {
            let i1 = if i < j { i } else { i + 1 };
            let k1 = if k < j { k } else { k + 1 };
            assert(ns2[i] == ns[i1] && ns2[k] == ns[k1]);
        }
        assert forall|i: int| 0 <= i < ns2.len() implies #[trigger] ls2[i] == lower_of(ns2[i]) by {
            let i1 = if i < j { i } else { i + 1 };
            assert(ns2[i] == ns[i1] && ls2[i] == ls[i1]);
        }
        assert forall|a: int, b: int| 0 <= a < ls2.len() && 0 <= b < ls2.len() && a != b implies ls2[a] != ls2[b] by {
            let a1 = if a < j { a } else { a + 1 };
            let b1 = if b < j { b } else { b + 1 };
            assert(ls2[a] == ls[a1] && ls2[b] == ls[b1]);
        }
        assert forall|y: Seq<char>| ns2.contains(y) <==> (ns.contains(y) && y != ns[j as int]) by {
            if ns2.contains(y) {
                let i = choose|i: int| 0 <= i < ns2.len() && ns2[i] == y;
                let i1 = if i < j { i } else { i + 1 };
                assert(ns[i1] == y);
                if i1 < j {
                    assert(lex_lt(ns[i1], ns[j as int]));
                    lemma_lex_irreflexive(y);
                } else {
                    assert(lex_lt(ns[j as int], ns[i1]));
                    lemma_lex_irreflexive(y);
                }
            }
            if ns.contains(y) && y != ns[j as int] {
                let i = choose|i: int| 0 <= i < ns.len() && ns[i] == y;
                if i < j {
                    assert(ns2[i] == y);
                } else {
                    assert(ns2[i - 1] == y);
                }
            }
        }
        assert forall|y: Seq<char>| ls2.contains(y) <==> (ls.contains(y) && y != ls[j as int]) by {
            if ls2.contains(y) {
                let i = choose|i: int| 0 <= i < ls2.len() && ls2[i] == y;
                let i1 = if i < j { i } else { i + 1 };
                assert(ls[i1] == y);
            }
            if ls.contains(y) && y != ls[j as int] {
                let i = choose|i: int| 0 <= i < ls.len() && ls[i] == y;
                if i < j {
                    assert(ls2[i] == y);
                } else {
                    assert(ls2[i - 1] == y);
                }
            }
        }
    }
}

/// The names of the license mappings.
pub open spec fn mapping_names(v: Seq<LicenseRefMapping>) -> Seq<Seq<char>> {
    v.map_values(|m: LicenseRefMapping| m.license_name@)
}

/// The licenses that the expanded license texts `rows` expose: one per lower case,
/// the least of its rows, in ascending order; id and name are both that text.
pub fn expand_licenses(rows: &Vec<String>) -> (r: Vec<LicenseRefMapping>)
    ensures
        license_listing(mapping_names(r@), strings_view(rows@)),
        forall|i: int| 0 <= i < r@.len() ==> #[trigger] r@[i].license_id@ == r@[i].license_name@,
{
    let ghost rs = strings_view(rows@);
    let mut out: Vec<String> = Vec::new();
    let mut low: Vec<String> = Vec::new();
    let mut i: usize = 0;
    proof {
        assert(strings_view(out@) =~= Seq::<Seq<char>>::empty());
        assert(strings_view(low@) =~= Seq::<Seq<char>>::empty());
    }
    while i < rows.len()
        invariant
            i <= rows.len(),
            rs == strings_view(rows@),
            sorted_names(strings_view(out@)),
            lowers_of(strings_view(out@), strings_view(low@)),
            strings_view(low@).no_duplicates(),
            license_listing(strings_view(out@), rs.take(i as int)),
        decreases rows.len() - i,
    {
        let ghost ns = strings_view(out@);
        let ghost ls = strings_view(low@);
        let ghost prev = rs.take(i as int);
        let ghost cur = rs.take(i + 1);
        let x = rows[i].clone();
        let lx = lowercase(x.as_str());
        assert(x@ == rs[i as int]);
        let mut j: usize = 0;
        while j < low.len() && !(low[j] == lx)
            invariant
                j <= low.len(),
                ls == strings_view(low@),
                forall|m: int| 0 <= m < j ==> #[trigger] ls[m] != lx@,
            decreases low.len() - j,
        {
            j += 1;
        }
        let found = j < low.len();
        let mut replaced = false;
        let ghost mut smaller = false;
        if found {
            let xc = chars_of(x.as_str());
            let oc = chars_of(out[j].as_str());
            if lex_less(&xc, &oc) {
                proof {
                    assert(lex_lt(rs[i as int], ns[j as int]));
                }
                remove_at(&mut out, &mut low, j);
                proof {
                    assert forall|y: Seq<char>| !(#[trigger] strings_view(low@).contains(y) && y == lx@) by {}
                }
                insert_sorted(&mut out, &mut low, x, lx);
                replaced = true;
                proof {
                    smaller = lex_lt(rs[i as int], ns[j as int]);
                }
            }
        } else {
            proof {
                assert(!ls.contains(lx@)) by {
                    if ls.contains(lx@) {
                        let m = choose|m: int| 0 <= m < ls.len() && ls[m] == lx@;
                        assert(ls[m] != lx@);
                    }
                }
            }
            insert_sorted(&mut out, &mut low, x, lx);
        }
        proof {
            let ns2 = strings_view(out@);
            let ls2 = strings_view(low@);
            let xv = rs[i as int];
            assert forall|k: int| 0 <= k < i implies #[trigger] cur[k] == prev[k] by {}
            assert(cur[i as int] == xv);
            assert forall|a: int, b: int| 0 <= a < ns2.len() && 0 <= b < ns2.len() && a != b implies lower_of(#[trigger] ns2[a]) != lower_of(#[trigger] ns2[b]) by {
                assert(ls2[a] == lower_of(ns2[a]) && ls2[b] == lower_of(ns2[b]));
            }
            assert forall|a: int| 0 <= a < ns2.len() implies cur.contains(#[trigger] ns2[a]) by {
                assert(ns2.contains(ns2[a]));
                if ns.contains(ns2[a]) {
                    let m = choose|m: int| 0 <= m < ns.len() && ns[m] == ns2[a];
                    assert(prev.contains(ns[m]));
                    let q = choose|q: int| 0 <= q < prev.len() && prev[q] == ns[m];
                    assert(cur[q] == ns2[a]);
                } else {
                    assert(cur[i as int] == ns2[a]);
                }
            }
            assert forall|k: int| 0 <= k < cur.len() implies #[trigger] has_representative(ns2, cur, k) by {
                if k < i {
                    assert(has_representative(ns, prev, k));
                    let y = choose|y: Seq<char>| #[trigger] ns.contains(y) && represents(y, prev, k);
                    if ns2.contains(y) {
                        assert(represents(y, cur, k));
                    } else {
                        assert(found && replaced);
                        assert(y == ns[j as int]);
                        assert(smaller);
                        assert(lex_lt(xv, y));
                        assert(ls[j as int] == lower_of(ns[j as int]));
                        assert(ns2.contains(xv));
                        if lex_lt(cur[k], xv) {
                            lemma_lex_transitive(cur[k], xv, y);
                        }
                        assert(represents(xv, cur, k));
                    }
                } else {
                    if found && !replaced {
                        let y = ns[j as int];
                        assert(ns.contains(y));
                        assert(ls[j as int] == lx@);
                        if xv == y {
                            lemma_lex_irreflexive(y);
                        } else {
                            lemma_lex_total(xv, y);
                            if lex_lt(y, xv) {
                                lemma_lex_asymmetric(y, xv);
                            }
                        }
                        assert(represents(y, cur, k));
                    } else {
                        assert(ns2.contains(xv));
                        lemma_lex_irreflexive(xv);
                        assert(represents(xv, cur, k));
                    }
                }
            }
        }
        i += 1;
    }
    assert(rs.take(rows.len() as int) =~= rs);
    let mut r: Vec<LicenseRefMapping> = Vec::new();
    let mut k: usize = 0;
    while k < out.len()
        invariant
            k <= out.len(),
            mapping_names(r@) == strings_view(out@).take(k as int),
            forall|m: int| 0 <= m < r@.len() ==> #[trigger] r@[m].license_id@ == r@[m].license_name@,
        decreases out.len() - k,
    {
        let m = LicenseRefMapping { license_id: out[k].clone(), license_name: out[k].clone() };
        let ghost before = mapping_names(r@);
        r.push(m);
        k += 1;
        assert(mapping_names(r@) =~= before.push(out@[k - 1]@));
        assert(mapping_names(r@) =~= strings_view(out@).take(k as int));
    }
    assert(strings_view(out@).take(out.len() as int) =~= strings_view(out@));
    r
}

} // verus!
