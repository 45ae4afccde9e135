use vstd::prelude::*;

use crate::text::{path_less, path_lt, views};
use crate::text::{
    lemma_path_lt_asymmetric, lemma_path_lt_irreflexive, lemma_path_lt_total,
    lemma_path_lt_transitive,
};

verus! {

/// Each path of `v`, as its segments.
pub open spec fn path_views(v: Seq<Vec<String>>) -> Seq<Seq<Seq<char>>> {
    v.map_values(|x: Vec<String>| views(x@))
}

/// Strictly ascending in `path_lt`: sorted, and no path twice.
pub open spec fn strictly_sorted(ps: Seq<Seq<Seq<char>>>) -> bool {
    forall|i: int, j: int| 0 <= i < j < ps.len() ==> path_lt(#[trigger] ps[i], #[trigger] ps[j])
}

/// The paths of `s` in ascending order, each once.
pub open spec fn canonical(s: Set<Seq<Seq<char>>>) -> Seq<Seq<Seq<char>>> {
    choose|c: Seq<Seq<Seq<char>>>| strictly_sorted(c) && c.to_set() == s
}

/// Two strictly sorted sequences with the same elements are the same.
pub proof fn lemma_sorted_unique(a: Seq<Seq<Seq<char>>>, b: Seq<Seq<Seq<char>>>)
    requires
        strictly_sorted(a),
        strictly_sorted(b),
        a.to_set() == b.to_set(),
    ensures
        a == b,
    decreases a.len(),
{
    if a.len() == 0 {
        if b.len() > 0 {
            assert(b.to_set().contains(b[0]));
        }
        assert(a =~= b);
    } else {
        assert(a.to_set().contains(a[0]));
        assert(b.contains(a[0]));
        let k = choose|k: int| 0 <= k < b.len() && b[k] == a[0];
        assert(b.to_set().contains(b[0]));
        assert(a.contains(b[0]));
        let m = choose|m: int| 0 <= m < a.len() && a[m] == b[0];
        if k > 0 && m > 0 {
            assert(path_lt(b[0], b[k]));
            assert(path_lt(a[0], a[m]));
            lemma_path_lt_asymmetric(a[0], b[0]);
        } else if k > 0 {
            lemma_path_lt_irreflexive(a[0]);
            assert(path_lt(b[0], b[k]));
        }
        let a1 = a.drop_first();
        let b1 = b.drop_first();
        assert forall|x: Seq<Seq<char>>| a1.to_set().contains(x) == b1.to_set().contains(x) by {
            if a1.contains(x) {
                let i = choose|i: int| 0 <= i < a1.len() && a1[i] == x;
                assert(a.to_set().contains(a[i + 1]));
                assert(b.contains(x));
                let q = choose|q: int| 0 <= q < b.len() && b[q] == x;
                assert(path_lt(a[0], a[i + 1]));
                if q == 0 {
                    lemma_path_lt_irreflexive(a[0]);
                }
                assert(b1[q - 1] == x);
            }
            if b1.contains(x) {
                let i = choose|i: int| 0 <= i < b1.len() && b1[i] == x;
                assert(b.to_set().contains(b[i + 1]));
                assert(a.contains(x));
                let q = choose|q: int| 0 <= q < a.len() && a[q] == x;
                assert(path_lt(b[0], b[i + 1]));
                if q == 0 {
                    lemma_path_lt_irreflexive(b[0]);
                }
                assert(a1[q - 1] == x);
            }
        }
        assert(a1.to_set() =~= b1.to_set());
        lemma_sorted_unique(a1, b1);
        assert(a =~= seq![a[0]] + a1);
        assert(b =~= seq![b[0]] + b1);
    }
}

/// `canonical(s)` is the one strictly sorted sequence of the elements of `s`.
pub proof fn lemma_canonical(c: Seq<Seq<Seq<char>>>)
    requires
        strictly_sorted(c),
    ensures
        canonical(c.to_set()) == c,
{
    let d = canonical(c.to_set());
    assert(strictly_sorted(d) && d.to_set() == c.to_set());
    lemma_sorted_unique(d, c);
}

/// Adds `p` to the strictly sorted `sorted`, unless it is there already.
pub fn sorted_insert(sorted: &mut Vec<Vec<String>>, p: Vec<String>)
    requires
        strictly_sorted(path_views(old(sorted)@)),
    ensures
        strictly_sorted(path_views(final(sorted)@)),
        path_views(final(sorted)@).to_set() == path_views(old(sorted)@).to_set().insert(
            views(p@),
        ),
{
    let ghost s = path_views(sorted@);
    let ghost x = views(p@);
    let mut lo: usize = 0;
    let mut hi: usize = sorted.len();
    while lo < hi
        invariant
            s == path_views(sorted@),
            x == views(p@),
            strictly_sorted(s),
            lo <= hi <= sorted@.len(),
            forall|k: int| 0 <= k < lo ==> path_lt(#[trigger] s[k], x),
            forall|k: int| hi <= k < s.len() ==> !path_lt(#[trigger] s[k], x),
        decreases hi - lo,
    {
        let mid = lo + (hi - lo) / 2;
        if path_less(&sorted[mid], &p) {
            proof {
                assert forall|k: int| 0 <= k < mid + 1 implies path_lt(#[trigger] s[k], x) by {
                    if k < mid {
                        lemma_path_lt_transitive(s[k], s[mid as int], x);
                    }
                }
            }
            lo = mid + 1;
        } else {
            proof {
                assert forall|k: int| mid <= k < s.len() implies !path_lt(#[trigger] s[k], x) by {
                    if k > mid && path_lt(s[k], x) {
                        lemma_path_lt_transitive(s[mid as int], s[k], x);
                    }
                }
            }
            hi = mid;
        }
    }
    if lo < sorted.len() && !path_less(&p, &sorted[lo]) {
        proof {
            lemma_path_lt_total(s[lo as int], x);
            assert(s[lo as int] == x);
            assert(s.to_set().insert(x) =~= s.to_set());
        }
        return;
    }
    sorted.insert(lo, p);
    proof {
        let s2 = path_views(sorted@);
        assert(s2 =~= s.insert(lo as int, x));
        assert forall|i: int, j: int| 0 <= i < j < s2.len() implies path_lt(
            #[trigger] s2[i],
            #[trigger] s2[j],
        ) by {
            if j < lo {
            } else if j == lo {
            } else if i < lo {
                assert(s2[j] == s[j - 1]);
                if j - 1 > lo {
                    lemma_path_lt_transitive(x, s[lo as int], s[j - 1]);
                }
                lemma_path_lt_transitive(s[i], x, s[j - 1]);
            } else if i == lo {
                assert(s2[j] == s[j - 1]);
                if j - 1 > lo {
                    lemma_path_lt_transitive(x, s[lo as int], s[j - 1]);
                }
            } else {
                assert(s2[i] == s[i - 1] && s2[j] == s[j - 1]);
            }
        }
        assert forall|y: Seq<Seq<char>>| s2.to_set().contains(y) == s.to_set().insert(x).contains(
            y,
        ) by {
            if s.contains(y) {
                let i = choose|i: int| 0 <= i < s.len() && s[i] == y;
                if i < lo {
                    assert(s2[i] == y);
                } else {
                    assert(s2[i + 1] == y);
                }
            }
            if s2.contains(y) {
                let i = choose|i: int| 0 <= i < s2.len() && s2[i] == y;
                if i < lo {
                    assert(s[i] == y);
                } else if i > lo {
                    assert(s[i - 1] == y);
                }
            }
            assert(s2[lo as int] == x);
        }
        assert(s2.to_set() =~= s.to_set().insert(x));
    }
}

/// The segments of `file` below `root`, if `root`'s segments begin it.
pub open spec fn relative(root: Seq<Seq<char>>, file: Seq<Seq<char>>) -> Option<
    Seq<Seq<char>>,
> {
    if root.len() <= file.len() && file.subrange(0, root.len() as int) == root {
        Some(file.skip(root.len() as int))
    } else {
        None
    }
}

/// The segments of `file` below `root`, or `None` when `file` is not under `root`.
pub fn relative_components(root: &Vec<String>, file: &Vec<String>) -> (r: Option<Vec<String>>)
    ensures
        match r {
            Some(v) => relative(views(root@), views(file@)) == Some(views(v@)),
            None => relative(views(root@), views(file@)) is None,
        },
{
    let ghost rv = views(root@);
    let ghost fv = views(file@);
    if root.len() > file.len() {
        return None;
    }
    let mut i: usize = 0;
    while i < root.len()
        invariant
            rv == views(root@),
            fv == views(file@),
            root@.len() <= file@.len(),
            i <= root@.len(),
            forall|k: int| 0 <= k < i ==> rv[k] == fv[k],
        decreases root@.len() - i,
    {
        if root[i] != file[i] {
            proof {
                assert(fv.subrange(0, rv.len() as int)[i as int] != rv[i as int]);
            }
            return None;
        }
        i = i + 1;
    }
    assert(fv.subrange(0, rv.len() as int) =~= rv);
    let mut rest: Vec<String> = Vec::new();
    let mut j: usize = root.len();
    while j < file.len()
        invariant
            fv == views(file@),
            root@.len() <= j <= file@.len(),
            views(rest@) =~= fv.subrange(root@.len() as int, j as int),
        decreases file@.len() - j,
    {
        let ghost before = views(rest@);
        rest.push(file[j].clone());
        assert(views(rest@) =~= before.push(fv[j as int]));
        j = j + 1;
    }
    assert(views(rest@) =~= fv.skip(rv.len() as int));
    Some(rest)
}

/// The first position at or after `j` whose path does not sort before `x`.
pub open spec fn path_scan(c: Seq<Seq<Seq<char>>>, x: Seq<Seq<char>>, j: int) -> int
    decreases c.len() - j,
{
    if j < 0 || j >= c.len() || !path_lt(c[j], x) {
        j
    } else {
        path_scan(c, x, j + 1)
    }
}

proof fn lemma_path_scan(c: Seq<Seq<Seq<char>>>, x: Seq<Seq<char>>, j: int)
    requires
        0 <= j <= c.len(),
    ensures
        j <= path_scan(c, x, j) <= c.len(),
        forall|k: int| j <= k < path_scan(c, x, j) ==> path_lt(#[trigger] c[k], x),
        path_scan(c, x, j) < c.len() ==> !path_lt(c[path_scan(c, x, j)], x),
    decreases c.len() - j,
{
    if j < c.len() && path_lt(c[j], x) {
        lemma_path_scan(c, x, j + 1);
    }
}

/// A strictly sorted sequence with one more path added exists.
pub proof fn lemma_sorted_insert_exists(c: Seq<Seq<Seq<char>>>, x: Seq<Seq<char>>)
    requires
        strictly_sorted(c),
    ensures
        exists|d: Seq<Seq<Seq<char>>>| strictly_sorted(d) && d.to_set() == c.to_set().insert(x),
{
    lemma_path_scan(c, x, 0);
    let pos = path_scan(c, x, 0);
    if pos < c.len() && c[pos] == x {
        assert(c.to_set().insert(x) =~= c.to_set());
    } else {
        let d = c.insert(pos, x);
        if pos < c.len() {
            lemma_path_lt_total(c[pos], x);
        }
        assert forall|i: int, j: int| 0 <= i < j < d.len() implies path_lt(
            #[trigger] d[i],
            #[trigger] d[j],
        ) by {
            if j < pos {
            } else if j == pos {
            } else if i < pos {
                assert(d[j] == c[j - 1]);
                if j - 1 > pos {
                    lemma_path_lt_transitive(x, c[pos], c[j - 1]);
                }
                lemma_path_lt_transitive(c[i], x, c[j - 1]);
            } else if i == pos {
                assert(d[j] == c[j - 1]);
                if j - 1 > pos {
                    lemma_path_lt_transitive(x, c[pos], c[j - 1]);
                }
            } else {
                assert(d[i] == c[i - 1] && d[j] == c[j - 1]);
            }
        }
        assert forall|y: Seq<Seq<char>>| d.to_set().contains(y) == c.to_set().insert(x).contains(
            y,
        ) by {
            if c.contains(y) {
                let i = choose|i: int| 0 <= i < c.len() && c[i] == y;
                if i < pos {
                    assert(d[i] == y);
                } else {
                    assert(d[i + 1] == y);
                }
            }
            if d.contains(y) {
                let i = choose|i: int| 0 <= i < d.len() && d[i] == y;
                if i < pos {
                    assert(c[i] == y);
                } else if i > pos {
                    assert(c[i - 1] == y);
                }
            }
            assert(d[pos] == x);
        }
        assert(d.to_set() =~= c.to_set().insert(x));
    }
}

} // verus!
