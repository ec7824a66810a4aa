use vstd::prelude::*;

use crate::itertools_specs::column_pairs;
use crate::vecops::contains_pair;

verus! {

/// The columns, in ascending order, among the first `n` where `x` and `y`
/// differ.
pub open spec fn diffs(x: Seq<u8>, y: Seq<u8>, n: int) -> Seq<usize>
    decreases n,
{
    if n <= 0 {
        Seq::empty()
    } else {
        diffs(x, y, n - 1) + (if x[n - 1] != y[n - 1] {
            seq![(n - 1) as usize]
        } else {
            Seq::empty()
        })
    }
}

/// `x` and `y` agree everywhere except at the two columns `i < j`.
pub open spec fn differs_exactly_at(x: Seq<u8>, y: Seq<u8>, i: int, j: int) -> bool {
    &&& x.len() == y.len()
    &&& 0 <= i < j < x.len()
    &&& x[i] != y[i]
    &&& x[j] != y[j]
    &&& forall|t: int| 0 <= t < x.len() && t != i && t != j ==> x[t] == y[t]
}

pub proof fn lemma_diffs_props(x: Seq<u8>, y: Seq<u8>, n: int)
    requires
        0 <= n <= x.len(),
        n <= y.len(),
        x.len() <= usize::MAX,
    ensures
        forall|t: int|
            0 <= t < diffs(x, y, n).len() ==> (#[trigger] diffs(x, y, n)[t]) < n && x[diffs(
                x,
                y,
                n,
            )[t] as int] != y[diffs(x, y, n)[t] as int],
        forall|t1: int, t2: int|
            0 <= t1 < t2 < diffs(x, y, n).len() ==> diffs(x, y, n)[t1] < diffs(x, y, n)[t2],
        forall|c: int|
            0 <= c < n && x[c] != y[c] ==> diffs(x, y, n).contains(c as usize),
    decreases n,
{
    if n > 0 {
        lemma_diffs_props(x, y, n - 1);
        let prev = diffs(x, y, n - 1);
        let cur = diffs(x, y, n);
        if x[n - 1] != y[n - 1] {
            assert(cur == prev + seq![(n - 1) as usize]);
            assert(forall|t: int| 0 <= t < prev.len() ==> cur[t] == prev[t]);
            assert(cur[cur.len() - 1] == (n - 1) as usize);
            assert forall|t1: int, t2: int| 0 <= t1 < t2 < cur.len() implies cur[t1] < cur[t2] by {
                if t2 == cur.len() - 1 {
                    assert(cur[t1] == prev[t1]);
                    assert((prev[t1] as int) < n - 1);
                }
            }
            assert forall|c: int| 0 <= c < n && x[c] != y[c] implies cur.contains(c as usize) by {
                if c < n - 1 {
                    assert(prev.contains(c as usize));
                    let t = choose|t: int| 0 <= t < prev.len() && prev[t] == c as usize;
                    assert(cur[t] == c as usize);
                } else {
                    assert(cur[cur.len() - 1] == c as usize);
                }
            }
        } else {
            assert(cur =~= prev);
            assert forall|c: int| 0 <= c < n && x[c] != y[c] implies cur.contains(c as usize) by {
                assert(prev.contains(c as usize));
            }
        }
    }
}

/// A prefix of the columns scanned gives a prefix of the differing columns.
pub proof fn lemma_diffs_prefix(x: Seq<u8>, y: Seq<u8>, n: int, m: int)
    requires
        0 <= n <= m,
    ensures
        diffs(x, y, n).len() <= diffs(x, y, m).len(),
        diffs(x, y, n) == diffs(x, y, m).take(diffs(x, y, n).len() as int),
    decreases m - n,
{
    if n < m {
        lemma_diffs_prefix(x, y, n, m - 1);
        let d1 = diffs(x, y, m - 1);
        let d2 = diffs(x, y, m);
        if x[m - 1] != y[m - 1] {
            assert(d2 == d1 + seq![(m - 1) as usize]);
            assert(d2.take(d1.len() as int) =~= d1);
        } else {
            assert(d2 =~= d1);
        }
        assert(diffs(x, y, n) == d2.take(diffs(x, y, n).len() as int)) by {
            assert(diffs(x, y, n) == d1.take(diffs(x, y, n).len() as int));
            assert(d1.take(diffs(x, y, n).len() as int) =~= d2.take(diffs(x, y, n).len() as int));
        }
    } else {
        assert(diffs(x, y, n).take(diffs(x, y, n).len() as int) =~= diffs(x, y, n));
    }
}

/// When exactly two columns differ, the full difference list is that pair.
pub proof fn lemma_diffs_pair(x: Seq<u8>, y: Seq<u8>, i: int, j: int)
    requires
        x.len() == y.len(),
        x.len() <= usize::MAX,
        differs_exactly_at(x, y, i, j),
    ensures
        diffs(x, y, x.len() as int) == seq![i as usize, j as usize],
{
    let n = x.len() as int;
    let d = diffs(x, y, n);
    lemma_diffs_props(x, y, n);
    assert(d.contains(i as usize));
    assert(d.contains(j as usize));
    let ti = choose|t: int| 0 <= t < d.len() && d[t] == i as usize;
    let tj = choose|t: int| 0 <= t < d.len() && d[t] == j as usize;
    assert(forall|t: int| 0 <= t < d.len() ==> d[t] == i as usize || d[t] == j as usize);
    assert(d.len() <= 2) by {
        if d.len() > 2 {
            assert(d[0] < d[1] && d[1] < d[2]);
        }
    }
    assert(d.len() == 2) by {
        assert(ti != tj);
    }
    assert(d[0] == i as usize && d[1] == j as usize) by {
        assert(d[0] < d[1]);
    }
    assert(d =~= seq![i as usize, j as usize]);
}

/// The columns where `x` and `y` differ, in ascending order; the scan stops
/// once more than `break_above` differing columns have been found, so at most
/// `break_above + 1` columns are ever reported.
pub fn differing_indices(x: &Vec<u8>, y: &Vec<u8>, break_above: Option<usize>) -> (r: Vec<usize>)
    requires
        x@.len() == y@.len(),
        x@.len() < usize::MAX,
    ensures
        ({
            let d = diffs(x@, y@, x@.len() as int);
            let b = match break_above {
                Some(k) => k as int,
                None => x@.len() as int + 1,
            };
            r@ == if d.len() <= b + 1 {
                d
            } else {
                d.take(b + 1)
            }
        }),
{
    let ghost full = diffs(x@, y@, x@.len() as int);
    let break_at: usize = match break_above {
        Some(k) => k,
        None => x.len() + 1,
    };
    let mut diff: Vec<usize> = Vec::new();
    let mut i: usize = 0;
    while i < x.len()
        invariant_except_break
            i <= x@.len(),
            x@.len() == y@.len(),
            diff@ == diffs(x@, y@, i as int),
            diff@.len() <= break_at,
            full == diffs(x@, y@, x@.len() as int),
        ensures
            ({
                let b = break_at as int;
                diff@ == if full.len() <= b + 1 {
                    full
                } else {
                    full.take(b + 1)
                }
            }),
        decreases x@.len() - i,
    {
        if x[i] != y[i] {
            diff.push(i);
            proof {
                assert(diffs(x@, y@, i + 1) == diffs(x@, y@, i as int) + seq![i as usize]);
                assert(diff@ =~= diffs(x@, y@, i + 1));
            }
            if diff.len() > break_at {
                proof {
                    lemma_diffs_prefix(x@, y@, i + 1, x@.len() as int);
                    assert(diff@ == full.take(break_at + 1));
                    assert(full.len() > break_at + 1 || full.len() == break_at + 1);
                    if full.len() == break_at + 1 {
                        assert(full.take(break_at + 1) =~= full);
                    }
                }
                break;
            }
        } else {
            proof {
                assert(diffs(x@, y@, i + 1) =~= diffs(x@, y@, i as int));
            }
        }
        i += 1;
    }
    proof {
        if i == x@.len() && diff@.len() <= break_at {
            assert(diff@ == full);
            lemma_diffs_prefix(x@, y@, x@.len() as int, x@.len() as int);
        }
    }
    diff
}

/// The columns, in ascending order, where not every row of the collection
/// holds the same symbol as the first row.
pub fn nontrivial_columns(one_symbol_schemata: &Vec<Vec<u8>>) -> (r: Vec<usize>)
    requires
        one_symbol_schemata@.len() > 0,
        forall|k: int|
            0 <= k < one_symbol_schemata@.len() ==> (#[trigger] one_symbol_schemata@[k]@).len()
                == one_symbol_schemata@[0]@.len(),
    ensures
        forall|t1: int, t2: int| 0 <= t1 < t2 < r@.len() ==> r@[t1] < r@[t2],
        forall|t: int| 0 <= t < r@.len() ==> (#[trigger] r@[t]) < one_symbol_schemata@[0]@.len(),
        forall|c: usize|
            #[trigger] r@.contains(c) <==> c < one_symbol_schemata@[0]@.len() && exists|k: int|
                0 <= k < one_symbol_schemata@.len() && #[trigger] one_symbol_schemata@[k]@[c as int]
                != one_symbol_schemata@[0]@[c as int],
{
    let n_cols = one_symbol_schemata[0].len();
    let mut r: Vec<usize> = Vec::new();
    let mut c: usize = 0;
    while c < n_cols
        invariant
            c <= n_cols,
            n_cols == one_symbol_schemata@[0]@.len(),
            one_symbol_schemata@.len() > 0,
            forall|k: int|
                0 <= k < one_symbol_schemata@.len() ==> (#[trigger] one_symbol_schemata@[k]@).len()
                    == n_cols,
            forall|t1: int, t2: int| 0 <= t1 < t2 < r@.len() ==> r@[t1] < r@[t2],
            forall|t: int| 0 <= t < r@.len() ==> (#[trigger] r@[t]) < c,
            forall|cc: usize|
                #[trigger] r@.contains(cc) <==> cc < c && exists|k: int|
                    0 <= k < one_symbol_schemata@.len()
                        && #[trigger] one_symbol_schemata@[k]@[cc as int]
                        != one_symbol_schemata@[0]@[cc as int],
        decreases n_cols - c,
    {
        let first_val = one_symbol_schemata[0][c];
        let mut found = false;
        let mut k: usize = 0;
        while k < one_symbol_schemata.len()
            invariant
                k <= one_symbol_schemata@.len(),
                c < n_cols,
                n_cols == one_symbol_schemata@[0]@.len(),
                one_symbol_schemata@.len() > 0,
                first_val == one_symbol_schemata@[0]@[c as int],
                forall|t: int|
                    0 <= t < one_symbol_schemata@.len() ==> (#[trigger] one_symbol_schemata@[t]@).len()
                        == n_cols,
                found <==> exists|t: int|
                    0 <= t < k && #[trigger] one_symbol_schemata@[t]@[c as int] != first_val,
            decreases one_symbol_schemata@.len() - k,
        {
            if one_symbol_schemata[k][c] != first_val {
                found = true;
            }
            k += 1;
        }
        let ghost old_r = r@;
        if found {
            r.push(c);
            proof {
                assert forall|cc: usize| #[trigger] r@.contains(cc) implies cc < c + 1 && exists|k: int|
                    0 <= k < one_symbol_schemata@.len()
                        && #[trigger] one_symbol_schemata@[k]@[cc as int]
                        != one_symbol_schemata@[0]@[cc as int] by {
                    let t = choose|t: int| 0 <= t < r@.len() && r@[t] == cc;
                    if t < old_r.len() {
                        assert(old_r.contains(cc));
                    }
                }
                assert forall|cc: usize|
                    cc < c + 1 && (exists|k: int|
                        0 <= k < one_symbol_schemata@.len()
                            && #[trigger] one_symbol_schemata@[k]@[cc as int]
                            != one_symbol_schemata@[0]@[cc as int]) implies #[trigger] r@.contains(
                    cc,
                ) by {
                    if cc < c {
                        assert(old_r.contains(cc));
                        let t = choose|t: int| 0 <= t < old_r.len() && old_r[t] == cc;
                        assert(r@[t] == cc);
                    } else {
                        assert(r@[r@.len() - 1] == cc);
                    }
                }
            }
        } else {
            proof {
                assert forall|cc: usize|
                    cc < c + 1 && (exists|k: int|
                        0 <= k < one_symbol_schemata@.len()
                            && #[trigger] one_symbol_schemata@[k]@[cc as int]
                            != one_symbol_schemata@[0]@[cc as int]) implies #[trigger] r@.contains(
                    cc,
                ) by {
                    assert(cc != c);
                }
            }
        }
        c += 1;
    }
    r
}

/// The candidate column swaps for the root row: every pair of columns at
/// which some row of the collection differs from the root exactly, and every
/// pair of nontrivial columns holding the same symbol in the root.
pub fn swap_candidates(
    root: &Vec<u8>,
    one_symbol_schemata: &Vec<Vec<u8>>,
    nontrivial_cols: &Vec<usize>,
) -> (r: Vec<(usize, usize)>)
    requires
        root@.len() < usize::MAX,
        forall|k: int|
            0 <= k < one_symbol_schemata@.len() ==> (#[trigger] one_symbol_schemata@[k]@).len()
                == root@.len(),
        forall|t1: int, t2: int|
            0 <= t1 < t2 < nontrivial_cols@.len() ==> nontrivial_cols@[t1] < nontrivial_cols@[t2],
        forall|t: int| 0 <= t < nontrivial_cols@.len() ==> (#[trigger] nontrivial_cols@[t]) < root@.len(),
    ensures
        r@.no_duplicates(),
        forall|t: int| 0 <= t < r@.len() ==> (#[trigger] r@[t]).0 < r@[t].1 < root@.len(),
        forall|i: usize, j: usize|
            #![trigger r@.contains((i, j))]
            r@.contains((i, j)) <==> ((exists|k: int|
                0 <= k < one_symbol_schemata@.len() && differs_exactly_at(
                    root@,
                    #[trigger] one_symbol_schemata@[k]@,
                    i as int,
                    j as int,
                )) || (i < j && j < root@.len() && root@[i as int] == root@[j as int]
                && nontrivial_cols@.contains(i) && nontrivial_cols@.contains(j))),
{
    let mut cands: Vec<(usize, usize)> = Vec::new();
    let mut k: usize = 0;
    while k < one_symbol_schemata.len()
        invariant
            k <= one_symbol_schemata@.len(),
            root@.len() < usize::MAX,
            forall|t: int|
                0 <= t < one_symbol_schemata@.len() ==> (#[trigger] one_symbol_schemata@[t]@).len()
                    == root@.len(),
            cands@.no_duplicates(),
            forall|t: int| 0 <= t < cands@.len() ==> (#[trigger] cands@[t]).0 < cands@[t].1
                < root@.len(),
            forall|i: usize, j: usize|
                #![trigger cands@.contains((i, j))]
                cands@.contains((i, j)) <==> exists|t: int|
                    0 <= t < k && differs_exactly_at(
                        root@,
                        #[trigger] one_symbol_schemata@[t]@,
                        i as int,
                        j as int,
                    ),
        decreases one_symbol_schemata@.len() - k,
    {
        let ghost old_cands = cands@;
        let d = differing_indices(root, &one_symbol_schemata[k], Some(2));
        proof {
            lemma_diffs_props(root@, one_symbol_schemata@[k as int]@, root@.len() as int);
        }
        if d.len() == 2 {
            let ghost full = diffs(root@, one_symbol_schemata@[k as int]@, root@.len() as int);
            proof {
                assert(full.len() == 2);
                assert(d@ == full);
                assert(differs_exactly_at(
                    root@,
                    one_symbol_schemata@[k as int]@,
                    d@[0] as int,
                    d@[1] as int,
                )) by {
                    assert(d@[0] < d@[1]);
                    assert forall|t: int|
                        0 <= t < root@.len() && t != d@[0] as int && t != d@[1] as int implies
                        root@[t] == one_symbol_schemata@[k as int]@[t] by {
                        if root@[t] != one_symbol_schemata@[k as int]@[t] {
                            assert(full.contains(t as usize));
                            let w = choose|w: int| 0 <= w < full.len() && full[w] == t as usize;
                        }
                    }
                }
            }
            let p = (d[0], d[1]);
            if !contains_pair(&cands, p) {
                cands.push(p);
                proof {
                    assert forall|i: usize, j: usize|
                        #![trigger cands@.contains((i, j))]
                        cands@.contains((i, j)) implies (exists|t: int|
                        0 <= t < k + 1 && differs_exactly_at(
                            root@,
                            #[trigger] one_symbol_schemata@[t]@,
                            i as int,
                            j as int,
                        )) by {
                        let w = choose|w: int| 0 <= w < cands@.len() && cands@[w] == (i, j);
                        if w < old_cands.len() {
                            assert(old_cands.contains((i, j)));
                        } else {
                            assert((i, j) == p);
                            assert(differs_exactly_at(
                                root@,
                                one_symbol_schemata@[k as int]@,
                                i as int,
                                j as int,
                            ));
                        }
                    }
                    assert forall|i: usize, j: usize|
                        (exists|t: int|
                            0 <= t < k + 1 && differs_exactly_at(
                                root@,
                                #[trigger] one_symbol_schemata@[t]@,
                                i as int,
                                j as int,
                            )) implies #[trigger] cands@.contains((i, j)) by {
                        let t = choose|t: int|
                            0 <= t < k + 1 && differs_exactly_at(
                                root@,
                                one_symbol_schemata@[t]@,
                                i as int,
                                j as int,
                            );
                        if t < k {
                            assert(old_cands.contains((i, j)));
                            let w = choose|w: int|
                                0 <= w < old_cands.len() && old_cands[w] == (i, j);
                            assert(cands@[w] == (i, j));
                        } else {
                            lemma_diffs_pair(
                                root@,
                                one_symbol_schemata@[k as int]@,
                                i as int,
                                j as int,
                            );
                            assert((i, j) == p);
                            assert(cands@[cands@.len() - 1] == p);
                        }
                    }
                }
            } else {
                proof {
                    assert forall|i: usize, j: usize|
                        (exists|t: int|
                            0 <= t < k + 1 && differs_exactly_at(
                                root@,
                                #[trigger] one_symbol_schemata@[t]@,
                                i as int,
                                j as int,
                            )) implies #[trigger] cands@.contains((i, j)) by {
                        let t = choose|t: int|
                            0 <= t < k + 1 && differs_exactly_at(
                                root@,
                                one_symbol_schemata@[t]@,
                                i as int,
                                j as int,
                            );
                        if t == k {
                            lemma_diffs_pair(
                                root@,
                                one_symbol_schemata@[k as int]@,
                                i as int,
                                j as int,
                            );
                            assert((i, j) == p);
                        }
                    }
                }
            }
        } else {
            proof {
                let ghost full = diffs(root@, one_symbol_schemata@[k as int]@, root@.len() as int);
                assert forall|i: usize, j: usize|
                    (exists|t: int|
                        0 <= t < k + 1 && differs_exactly_at(
                            root@,
                            #[trigger] one_symbol_schemata@[t]@,
                            i as int,
                            j as int,
                        )) implies #[trigger] cands@.contains((i, j)) by {
                    let t = choose|t: int|
                        0 <= t < k + 1 && differs_exactly_at(
                            root@,
                            one_symbol_schemata@[t]@,
                            i as int,
                            j as int,
                        );
                    if t == k {
                        lemma_diffs_pair(
                            root@,
                            one_symbol_schemata@[k as int]@,
                            i as int,
                            j as int,
                        );
                        assert(full.len() == 2);
                        assert(d@.len() == 2);
                    }
                }
            }
        }
        k += 1;
    }
    let ghost rule1 = cands@;
    let pairs = column_pairs(nontrivial_cols);
    let mut t: usize = 0;
    while t < pairs.len()
        invariant
            t <= pairs@.len(),
            root@.len() < usize::MAX,
            cands@.no_duplicates(),
            forall|w: int| 0 <= w < pairs@.len() ==> (#[trigger] pairs@[w]).0 < pairs@[w].1,
            forall|w: int|
                0 <= w < pairs@.len() ==> nontrivial_cols@.contains((#[trigger] pairs@[w]).0)
                    && nontrivial_cols@.contains(pairs@[w].1),
            forall|t1: int, t2: int|
                0 <= t1 < t2 < nontrivial_cols@.len() ==> nontrivial_cols@[t1]
                    < nontrivial_cols@[t2],
            forall|w: int| 0 <= w < nontrivial_cols@.len() ==> (#[trigger] nontrivial_cols@[w])
                < root@.len(),
            forall|w: int| 0 <= w < cands@.len() ==> (#[trigger] cands@[w]).0 < cands@[w].1
                < root@.len(),
            forall|i: usize, j: usize|
                #![trigger cands@.contains((i, j))]
                cands@.contains((i, j)) <==> (rule1.contains((i, j)) || (exists|w: int|
                    0 <= w < t && #[trigger] pairs@[w] == (i, j) && root@[i as int] == root@[j as int])),
        decreases pairs@.len() - t,
    {
        let ghost old_cands = cands@;
        let p = pairs[t];
        let i = p.0;
        let j = p.1;
        proof {
            assert((pairs@[t as int]).0 < pairs@[t as int].1);
            assert(nontrivial_cols@.contains(j));
            let b = choose|b: int| 0 <= b < nontrivial_cols@.len() && nontrivial_cols@[b] == j;
            assert(i < j < root@.len());
        }
        if root[i] == root[j] && !contains_pair(&cands, p) {
            cands.push(p);
            proof {
                assert forall|ii: usize, jj: usize|
                    #![trigger cands@.contains((ii, jj))]
                    cands@.contains((ii, jj)) implies (rule1.contains((ii, jj)) || (exists|w: int|
                    0 <= w < t + 1 && #[trigger] pairs@[w] == (ii, jj) && root@[ii as int]
                        == root@[jj as int])) by {
                    let w = choose|w: int| 0 <= w < cands@.len() && cands@[w] == (ii, jj);
                    if w < old_cands.len() {
                        assert(old_cands.contains((ii, jj)));
                    } else {
                        assert((ii, jj) == p);
                        assert(pairs@[t as int] == (ii, jj));
                    }
                }
                assert forall|ii: usize, jj: usize|
                    (rule1.contains((ii, jj)) || (exists|w: int|
                        0 <= w < t + 1 && #[trigger] pairs@[w] == (ii, jj) && root@[ii as int]
                            == root@[jj as int])) implies #[trigger] cands@.contains((ii, jj)) by {
                    if old_cands.contains((ii, jj)) {
                        let w = choose|w: int|
                            0 <= w < old_cands.len() && old_cands[w] == (ii, jj);
                        assert(cands@[w] == (ii, jj));
                    } else {
                        assert(cands@[cands@.len() - 1] == p);
                        if rule1.contains((ii, jj)) {
                            assert(old_cands.contains((ii, jj)));
                        } else {
                            let w = choose|w: int|
                                0 <= w < t + 1 && pairs@[w] == (ii, jj) && root@[ii as int]
                                    == root@[jj as int];
                            if w < t {
                                assert(old_cands.contains((ii, jj)));
                            } else {
                                assert((ii, jj) == p);
                            }
                        }
                    }
                }
            }
        } else {
            proof {
                assert forall|ii: usize, jj: usize|
                    (rule1.contains((ii, jj)) || (exists|w: int|
                        0 <= w < t + 1 && #[trigger] pairs@[w] == (ii, jj) && root@[ii as int]
                            == root@[jj as int])) implies #[trigger] cands@.contains((ii, jj)) by {
                    if !old_cands.contains((ii, jj)) && !rule1.contains((ii, jj)) {
                        let w = choose|w: int|
                            0 <= w < t + 1 && pairs@[w] == (ii, jj) && root@[ii as int] == root@[jj as int];
                        assert(w == t);
                        assert((ii, jj) == p);
                        assert(cands@.contains(p));
                    }
                }
            }
        }
        t += 1;
    }
    proof {
        assert forall|i: usize, j: usize|
            #![trigger cands@.contains((i, j))]
            cands@.contains((i, j)) implies ((exists|k: int|
            0 <= k < one_symbol_schemata@.len() && differs_exactly_at(
                root@,
                #[trigger] one_symbol_schemata@[k]@,
                i as int,
                j as int,
            )) || (i < j && j < root@.len() && root@[i as int] == root@[j as int]
            && nontrivial_cols@.contains(i) && nontrivial_cols@.contains(j))) by {
            if !rule1.contains((i, j)) {
                let w = choose|w: int|
                    0 <= w < pairs@.len() && pairs@[w] == (i, j) && root@[i as int] == root@[j as int];
                assert((pairs@[w]).0 < pairs@[w].1);
                assert(nontrivial_cols@.contains(i));
                assert(nontrivial_cols@.contains(j));
                let b = choose|b: int|
                    0 <= b < nontrivial_cols@.len() && nontrivial_cols@[b] == j;
                assert(j < root@.len());
            }
        }
        assert forall|i: usize, j: usize|
            ((exists|k: int|
                0 <= k < one_symbol_schemata@.len() && differs_exactly_at(
                    root@,
                    #[trigger] one_symbol_schemata@[k]@,
                    i as int,
                    j as int,
                )) || (i < j && j < root@.len() && root@[i as int] == root@[j as int]
                && nontrivial_cols@.contains(i) && nontrivial_cols@.contains(
                j,
            ))) implies #[trigger] cands@.contains((i, j)) by {
            if rule1.contains((i, j))
            {
                assert(cands@.contains((i, j)));
            } else if exists|k: int|
                0 <= k < one_symbol_schemata@.len() && differs_exactly_at(
                    root@,
                    #[trigger] one_symbol_schemata@[k]@,
                    i as int,
                    j as int,
                ) {
                assert(rule1.contains((i, j)));
            } else {
                let a = choose|a: int|
                    0 <= a < nontrivial_cols@.len() && nontrivial_cols@[a] == i;
                let b = choose|b: int|
                    0 <= b < nontrivial_cols@.len() && nontrivial_cols@[b] == j;
                assert(a < b) by {
                    if a > b {
                        assert(nontrivial_cols@[b] < nontrivial_cols@[a]);
                    }
                    if a == b {
                        assert(nontrivial_cols@[a] == i && nontrivial_cols@[a] == j);
                    }
                }
                assert(pairs@.contains((nontrivial_cols@[a], nontrivial_cols@[b])));
                let w = choose|w: int|
                    0 <= w < pairs@.len() && pairs@[w] == (nontrivial_cols@[a], nontrivial_cols@[b]);
                assert(pairs@[w] == (i, j));
                assert(cands@.contains((i, j)));
            }
        }
    }
    cands
}

} // verus!
