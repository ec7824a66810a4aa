use vstd::prelude::*;

use crate::sorting::{sort_indices, sorted_indices};
use crate::swaps::{lemma_swap_comm, lemma_swap_self, lemma_three_swaps, swap_schema, swap_seq};
use crate::vecops::{contains_index, contains_schema, copy_group, copy_schema, views_of};

verus! {

/// A row that a longer list holds at the same place is still held after the
/// list grew at its end.
pub proof fn lemma_contains_after_grow(prev: Seq<Seq<u8>>, cur: Seq<Seq<u8>>, x: Seq<u8>)
    requires
        cur.len() >= prev.len(),
        forall|w: int| 0 <= w < prev.len() ==> cur[w] == prev[w],
        prev.contains(x),
    ensures
        cur.contains(x),
{
    let idx = choose|idx: int| 0 <= idx < prev.len() && prev[idx] == x;
    assert(cur[idx] == x);
}

/// A duplicate-free list whose entries all occur in another list is no
/// longer than that list.
pub proof fn lemma_distinct_subset_len<A>(sub: Seq<A>, sup: Seq<A>)
    requires
        sub.no_duplicates(),
        forall|u: int| 0 <= u < sub.len() ==> sup.contains(#[trigger] sub[u]),
    ensures
        sub.len() <= sup.len(),
{
    broadcast use vstd::seq_lib::seq_to_set_is_finite;
    broadcast use vstd::set::group_set_axioms;

    sub.unique_seq_to_set();
    sup.lemma_cardinality_of_set();
    assert forall|x: A| sub.to_set().contains(x) implies sup.to_set().contains(x) by {
        assert(sub.contains(x));
        assert(sup.contains(x));
    }
    assert(sub.to_set().subset_of(sup.to_set()));
    vstd::set_lib::lemma_len_subset(sub.to_set(), sup.to_set());
}

/// A duplicate-free list of column indices below `n` has at most `n` entries.
pub proof fn lemma_distinct_bounded(s: Seq<usize>, n: usize)
    requires
        s.no_duplicates(),
        forall|w: int| 0 <= w < s.len() ==> (#[trigger] s[w]) < n,
    ensures
        s.len() <= n,
{
    let sup = Seq::new(n as nat, |t: int| t as usize);
    assert forall|u: int| 0 <= u < s.len() implies sup.contains(#[trigger] s[u]) by {
        assert(sup[s[u] as int] == s[u]);
    }
    lemma_distinct_subset_len(s, sup);
}

/// The two columns of some swap of the set, named in either order.
pub open spec fn adjacent(swaps: Seq<(usize, usize)>, a: usize, b: usize) -> bool {
    swaps.contains((a, b)) || swaps.contains((b, a))
}

/// Consecutive entries of the walk are joined by swaps of the set.
pub open spec fn is_swap_path(swaps: Seq<(usize, usize)>, p: Seq<usize>) -> bool {
    forall|t: int| 0 <= t < p.len() - 1 ==> adjacent(swaps, #[trigger] p[t], p[t + 1])
}

/// A chain of swaps of the set joins the two columns: the equivalence
/// relation that the accepted swap pairs generate on the columns.
pub closed spec fn connected(swaps: Seq<(usize, usize)>, a: usize, b: usize) -> bool {
    exists|p: Seq<usize>|
        #![trigger is_swap_path(swaps, p)]
        p.len() >= 1 && p.first() == a && p.last() == b && is_swap_path(swaps, p)
}

pub proof fn lemma_connected_refl(swaps: Seq<(usize, usize)>, a: usize)
    ensures
        connected(swaps, a, a),
{
    let p = seq![a];
    assert(is_swap_path(swaps, p));
    assert(p.len() >= 1 && p.first() == a && p.last() == a);
}

pub proof fn lemma_connected_step(swaps: Seq<(usize, usize)>, a: usize, b: usize, c: usize)
    requires
        connected(swaps, a, b),
        adjacent(swaps, b, c),
    ensures
        connected(swaps, a, c),
{
    let p = choose|p: Seq<usize>|
        #![trigger is_swap_path(swaps, p)]
        p.len() >= 1 && p.first() == a && p.last() == b && is_swap_path(swaps, p);
    let q = p.push(c);
    assert(q.first() == a);
    assert(q.last() == c);
    assert forall|t: int| 0 <= t < q.len() - 1 implies adjacent(
        swaps,
        #[trigger] q[t],
        q[t + 1],
    ) by {
        if t < p.len() - 1 {
            assert(q[t] == p[t] && q[t + 1] == p[t + 1]);
        } else {
            assert(q[t] == p.last() && q[t + 1] == c);
        }
    }
    assert(is_swap_path(swaps, q));
}

pub proof fn lemma_connected_sym(swaps: Seq<(usize, usize)>, a: usize, b: usize)
    requires
        connected(swaps, a, b),
    ensures
        connected(swaps, b, a),
{
    let p = choose|p: Seq<usize>|
        #![trigger is_swap_path(swaps, p)]
        p.len() >= 1 && p.first() == a && p.last() == b && is_swap_path(swaps, p);
    let q = p.reverse();
    assert(q.len() == p.len());
    assert(q.first() == p.last());
    assert(q.last() == p.first());
    assert forall|t: int| 0 <= t < q.len() - 1 implies adjacent(
        swaps,
        #[trigger] q[t],
        q[t + 1],
    ) by {
        assert(q[t] == p[p.len() - 1 - t]);
        assert(q[t + 1] == p[p.len() - 2 - t]);
        assert(adjacent(swaps, p[p.len() - 2 - t], p[p.len() - 1 - t]));
    }
    assert(is_swap_path(swaps, q));
}

pub proof fn lemma_connected_trans(swaps: Seq<(usize, usize)>, a: usize, b: usize, c: usize)
    requires
        connected(swaps, a, b),
        connected(swaps, b, c),
    ensures
        connected(swaps, a, c),
{
    let p = choose|p: Seq<usize>|
        #![trigger is_swap_path(swaps, p)]
        p.len() >= 1 && p.first() == a && p.last() == b && is_swap_path(swaps, p);
    let q = choose|q: Seq<usize>|
        #![trigger is_swap_path(swaps, q)]
        q.len() >= 1 && q.first() == b && q.last() == c && is_swap_path(swaps, q);
    if q.len() == 1 {
        assert(b == c);
    } else {
        let r = p + q.drop_first();
        assert(r.len() == p.len() + q.len() - 1);
        assert(r.first() == p.first());
        assert(r.last() == q.last()) by {
            assert(r[r.len() - 1] == q.drop_first()[q.len() - 2]);
            assert(q.drop_first()[q.len() - 2] == q[q.len() - 1]);
        }
        assert forall|t: int| 0 <= t < r.len() - 1 implies adjacent(
            swaps,
            #[trigger] r[t],
            r[t + 1],
        ) by {
            if t + 1 < p.len() {
                assert(r[t] == p[t]);
                assert(r[t + 1] == p[t + 1]);
            } else if t + 1 == p.len() {
                assert(r[t] == p[t]);
                assert(p[t] == p.last());
                assert(r[t + 1] == q.drop_first()[0]);
                assert(q.drop_first()[0] == q[1]);
                assert(adjacent(swaps, q[0], q[1]));
            } else {
                assert(r[t] == q.drop_first()[t - p.len()]);
                assert(q.drop_first()[t - p.len()] == q[t - p.len() + 1]);
                assert(r[t + 1] == q.drop_first()[t + 1 - p.len()]);
                assert(q.drop_first()[t + 1 - p.len()] == q[t - p.len() + 2]);
                assert(adjacent(swaps, q[t - p.len() + 1], q[t - p.len() + 2]));
            }
        }
        assert(is_swap_path(swaps, r));
    }
}

/// Every column a chain reaches from inside a set that is closed under the
/// swaps' endpoints lies in the set.
pub proof fn lemma_path_stays_in_closed(swaps: Seq<(usize, usize)>, s: Seq<usize>, p: Seq<usize>)
    requires
        p.len() >= 1,
        is_swap_path(swaps, p),
        s.contains(p.first()),
        forall|t: int|
            0 <= t < swaps.len() ==> (s.contains((#[trigger] swaps[t]).0) <==> s.contains(
                swaps[t].1,
            )),
    ensures
        s.contains(p.last()),
    decreases p.len(),
{
    if p.len() > 1 {
        let q = p.drop_last();
        assert(is_swap_path(swaps, q)) by {
            assert(forall|t: int|
                0 <= t < q.len() - 1 ==> (#[trigger] q[t]) == p[t] && q[t + 1] == p[t + 1]);
        }
        assert(q.first() == p.first());
        lemma_path_stays_in_closed(swaps, s, q);
        let x = p[p.len() - 2];
        let y = p[p.len() - 1];
        assert(q.last() == x);
        assert(s.contains(x));
        assert(adjacent(swaps, x, y));
        if swaps.contains((x, y)) {
            let t = choose|t: int| 0 <= t < swaps.len() && swaps[t] == (x, y);
            assert(s.contains(swaps[t].0) <==> s.contains(swaps[t].1));
        } else {
            let t = choose|t: int| 0 <= t < swaps.len() && swaps[t] == (y, x);
            assert(s.contains(swaps[t].0) <==> s.contains(swaps[t].1));
        }
    }
}

/// The row after applying the listed swaps, first to last.
pub open spec fn swap_word_apply(m: Seq<u8>, word: Seq<(usize, usize)>) -> Seq<u8>
    decreases word.len(),
{
    if word.len() == 0 {
        m
    } else {
        swap_word_apply(
            swap_seq(m, word.first().0 as int, word.first().1 as int),
            word.drop_first(),
        )
    }
}

/// The row arises from the root by some chain of swaps of the set.
pub closed spec fn orbit_reachable(root: Seq<u8>, swaps: Seq<(usize, usize)>, m: Seq<u8>) -> bool {
    exists|word: Seq<(usize, usize)>|
        #![trigger swap_word_apply(root, word)]
        (forall|t: int| 0 <= t < word.len() ==> swaps.contains(#[trigger] word[t])) && m
            == swap_word_apply(root, word)
}

pub proof fn lemma_word_push(m: Seq<u8>, word: Seq<(usize, usize)>, s: (usize, usize))
    ensures
        swap_word_apply(m, word.push(s)) == swap_seq(
            swap_word_apply(m, word),
            s.0 as int,
            s.1 as int,
        ),
    decreases word.len(),
{
    if word.len() == 0 {
        assert(word.push(s).drop_first() =~= Seq::<(usize, usize)>::empty());
        assert(word.push(s).first() == s);
        assert(swap_word_apply(m, word) == m);
        let x = swap_seq(m, s.0 as int, s.1 as int);
        assert(swap_word_apply(m, word.push(s)) == swap_word_apply(
            x,
            word.push(s).drop_first(),
        ));
        assert(swap_word_apply(x, Seq::<(usize, usize)>::empty()) == x);
    } else {
        assert(word.push(s).first() == word.first());
        assert(word.push(s).drop_first() =~= word.drop_first().push(s));
        let x = swap_seq(m, word.first().0 as int, word.first().1 as int);
        lemma_word_push(x, word.drop_first(), s);
        assert(swap_word_apply(m, word.push(s)) == swap_word_apply(
            x,
            word.push(s).drop_first(),
        ));
        assert(swap_word_apply(m, word) == swap_word_apply(x, word.drop_first()));
    }
}

pub proof fn lemma_reachable_refl(root: Seq<u8>, swaps: Seq<(usize, usize)>)
    ensures
        orbit_reachable(root, swaps, root),
{
    let word = Seq::<(usize, usize)>::empty();
    assert(swap_word_apply(root, word) == root);
    assert(forall|t: int| 0 <= t < word.len() ==> swaps.contains(#[trigger] word[t]));
}

pub proof fn lemma_reachable_step(root: Seq<u8>, swaps: Seq<(usize, usize)>, m: Seq<u8>, t: int)
    requires
        orbit_reachable(root, swaps, m),
        0 <= t < swaps.len(),
    ensures
        orbit_reachable(root, swaps, swap_seq(m, swaps[t].0 as int, swaps[t].1 as int)),
{
    let word = choose|word: Seq<(usize, usize)>|
        #![trigger swap_word_apply(root, word)]
        (forall|tt: int| 0 <= tt < word.len() ==> swaps.contains(#[trigger] word[tt])) && m
            == swap_word_apply(root, word);
    let word2 = word.push(swaps[t]);
    lemma_word_push(root, word, swaps[t]);
    assert(swap_word_apply(root, word2) == swap_seq(m, swaps[t].0 as int, swaps[t].1 as int));
    assert forall|tt: int| 0 <= tt < word2.len() implies swaps.contains(#[trigger] word2[tt]) by {
        if tt < word.len() {
            assert(word2[tt] == word[tt]);
        } else {
            assert(word2[tt] == swaps[t]);
            assert(swaps.contains(swaps[t]));
        }
    }
}

/// The member set is closed under every swap of the set.
#[verifier::opaque]
pub open spec fn closed_under_swaps(members: Seq<Seq<u8>>, swaps: Seq<(usize, usize)>) -> bool {
    forall|t: int, m: Seq<u8>|
        #![trigger swaps[t], members.contains(m)]
        0 <= t < swaps.len() && members.contains(m) ==> members.contains(
            swap_seq(m, swaps[t].0 as int, swaps[t].1 as int),
        )
}

/// Closure under the swaps carries over to any list holding the same rows.
pub proof fn lemma_closed_under_swaps_equiv(
    a: Seq<Seq<u8>>,
    b: Seq<Seq<u8>>,
    swaps: Seq<(usize, usize)>,
)
    requires
        closed_under_swaps(b, swaps),
        forall|x: Seq<u8>| a.contains(x) <==> b.contains(x),
    ensures
        closed_under_swaps(a, swaps),
{
    reveal(closed_under_swaps);
    assert forall|t: int, m: Seq<u8>|
        #![trigger swaps[t], a.contains(m)]
        0 <= t < swaps.len() && a.contains(m) implies a.contains(
        swap_seq(m, swaps[t].0 as int, swaps[t].1 as int),
    ) by {
        assert(b.contains(m));
        assert(b.contains(swap_seq(m, swaps[t].0 as int, swaps[t].1 as int)));
    }
}

/// A member set closed under the swaps of a set is closed under the swap of
/// any two chain-connected columns.
pub proof fn lemma_connected_swap(
    members: Seq<Seq<u8>>,
    swaps: Seq<(usize, usize)>,
    j: usize,
    k: usize,
    l: int,
    m: Seq<u8>,
)
    requires
        forall|mm: Seq<u8>| #[trigger] members.contains(mm) ==> mm.len() == l,
        closed_under_swaps(members, swaps),
        forall|t: int| 0 <= t < swaps.len() ==> (#[trigger] swaps[t]).0 < swaps[t].1 < l,
        connected(swaps, j, k),
        j < l,
        k < l,
        members.contains(m),
    ensures
        members.contains(swap_seq(m, j as int, k as int)),
{
    let p = choose|p: Seq<usize>|
        #![trigger is_swap_path(swaps, p)]
        p.len() >= 1 && p.first() == j && p.last() == k && is_swap_path(swaps, p);
    lemma_path_swap(members, swaps, p, l);
}

/// Walking a swap chain conjugates the end-to-end transposition out of the
/// single swaps, so a member set closed under the swaps is closed under the
/// transposition of a chain's two ends.
#[verifier::spinoff_prover]
#[verifier::rlimit(30)]
pub proof fn lemma_path_swap(members: Seq<Seq<u8>>, swaps: Seq<(usize, usize)>, p: Seq<usize>, l: int)
    requires
        forall|mm: Seq<u8>| #[trigger] members.contains(mm) ==> mm.len() == l,
        closed_under_swaps(members, swaps),
        forall|t: int| 0 <= t < swaps.len() ==> (#[trigger] swaps[t]).0 < swaps[t].1 < l,
        is_swap_path(swaps, p),
        p.len() >= 1,
        p.first() < l,
        p.last() < l,
    ensures
        forall|mm: Seq<u8>|
            #[trigger] members.contains(mm) ==> members.contains(
                swap_seq(mm, p.first() as int, p.last() as int),
            ),
    decreases p.len(),
{
    let j = p.first();
    let y = p.last();
    if p.len() == 1 {
        assert forall|mm: Seq<u8>| #[trigger] members.contains(mm) implies members.contains(
            swap_seq(mm, p.first() as int, p.last() as int),
        ) by {
            lemma_swap_self(mm, j as int);
        }
    } else {
        let q = p.drop_last();
        let x = p[p.len() - 2];
        assert(adjacent(swaps, x, y)) by {
            assert(0 <= p.len() - 2 < p.len() - 1);
        }
        assert(x < l) by {
            if swaps.contains((x, y)) {
                let t = choose|t: int| 0 <= t < swaps.len() && swaps[t] == (x, y);
            } else {
                let t = choose|t: int| 0 <= t < swaps.len() && swaps[t] == (y, x);
            }
        }
        assert(is_swap_path(swaps, q)) by {
            assert(forall|t: int|
                0 <= t < q.len() - 1 ==> (#[trigger] q[t]) == p[t] && q[t + 1] == p[t + 1]);
        }
        assert(q.first() == j);
        assert(q.last() == x);
        lemma_path_swap(members, swaps, q, l);
        assert forall|mm: Seq<u8>| #[trigger] members.contains(mm) implies members.contains(
            swap_seq(mm, p.first() as int, p.last() as int),
        ) by {
            if j == y {
                lemma_swap_self(mm, j as int);
            } else if j == x {
                lemma_pair_swap(members, swaps, x, y, mm, l);
            } else if x == y {
                assert(members.contains(swap_seq(mm, j as int, x as int)));
            } else {
                assert(members.contains(swap_seq(mm, j as int, x as int)));
                lemma_swap_comm(mm, j as int, x as int);
                let m1 = swap_seq(mm, x as int, j as int);
                assert(members.contains(m1));
                lemma_pair_swap(members, swaps, x, y, m1, l);
                let m2 = swap_seq(m1, x as int, y as int);
                assert(members.contains(m2));
                assert(members.contains(swap_seq(m2, j as int, x as int)));
                lemma_swap_comm(m2, j as int, x as int);
                let m3 = swap_seq(m2, x as int, j as int);
                assert(members.contains(m3));
                lemma_three_swaps(mm, x as int, j as int, y as int);
                assert(m3 == swap_seq(mm, j as int, y as int));
            }
        }
    }
}

/// A member set closed under the swaps of a set is closed under the swap of
/// any two columns that the set joins, named in either order.
pub proof fn lemma_pair_swap(
    members: Seq<Seq<u8>>,
    swaps: Seq<(usize, usize)>,
    x: usize,
    y: usize,
    m: Seq<u8>,
    l: int,
)
    requires
        forall|mm: Seq<u8>| #[trigger] members.contains(mm) ==> mm.len() == l,
        closed_under_swaps(members, swaps),
        x < l,
        y < l,
        swaps.contains((x, y)) || swaps.contains((y, x)),
        members.contains(m),
    ensures
        members.contains(swap_seq(m, x as int, y as int)),
{
    reveal(closed_under_swaps);
    if swaps.contains((x, y)) {
        let t = choose|t: int| 0 <= t < swaps.len() && swaps[t] == (x, y);
        assert(members.contains(swap_seq(m, swaps[t].0 as int, swaps[t].1 as int)));
        assert(swaps[t].0 == x && swaps[t].1 == y);
    } else {
        let t = choose|t: int| 0 <= t < swaps.len() && swaps[t] == (y, x);
        assert(members.contains(swap_seq(m, swaps[t].0 as int, swaps[t].1 as int)));
        assert(swaps[t].0 == y && swaps[t].1 == x);
        lemma_swap_comm(m, y as int, x as int);
    }
}

/// Entry `i` holds exactly the columns that a chain of swaps of the set
/// joins to `i`: the equivalence class of `i` under the merge relation that
/// the swaps generate.
pub fn merged_column_sets(n_cols: usize, swaps: &Vec<(usize, usize)>) -> (r: Vec<Vec<usize>>)
    requires
        forall|t: int| 0 <= t < swaps@.len() ==> (#[trigger] swaps@[t]).0 < swaps@[t].1 < n_cols,
    ensures
        r@.len() == n_cols,
        forall|i: int| 0 <= i < n_cols ==> (#[trigger] r@[i]@).no_duplicates(),
        forall|i: int, w: int|
            0 <= i < n_cols && 0 <= w < r@[i]@.len() ==> (#[trigger] r@[i]@[w]) < n_cols,
        forall|i: usize, j: usize|
            #![trigger r@[i as int]@.contains(j)]
            i < n_cols ==> (r@[i as int]@.contains(j) <==> connected(swaps@, i, j)),
        forall|i: int| 0 <= i < n_cols ==> (#[trigger] r@[i]@).contains(i as usize),
        forall|i1: int, i2: int, c: usize|
            #![trigger r@[i1]@.contains(c), r@[i2]@.contains(c)]
            0 <= i1 < n_cols && 0 <= i2 < n_cols && r@[i1]@.contains(c) && r@[i2]@.contains(c)
                ==> r@[i1]@.to_set() == r@[i2]@.to_set(),
{
    let ghost sw = swaps@;
    let mut r: Vec<Vec<usize>> = Vec::new();
    let mut i: usize = 0;
    while i < n_cols
        invariant
            i <= n_cols,
            r@.len() == i,
            sw == swaps@,
            forall|t: int| 0 <= t < sw.len() ==> (#[trigger] sw[t]).0 < sw[t].1 < n_cols,
            forall|ii: int| 0 <= ii < i ==> (#[trigger] r@[ii]@).no_duplicates(),
            forall|ii: int, w: int|
                0 <= ii < i && 0 <= w < r@[ii]@.len() ==> (#[trigger] r@[ii]@[w]) < n_cols,
            forall|ii: usize, j: usize|
                #![trigger r@[ii as int]@.contains(j)]
                ii < i ==> (r@[ii as int]@.contains(j) <==> connected(sw, ii, j)),
        decreases n_cols - i,
    {
        let mut row: Vec<usize> = Vec::new();
        row.push(i);
        proof {
            assert(row@ =~= seq![i]);
            assert(row@[0] == i);
            assert(row@.contains(i));
            lemma_connected_refl(sw, i);
            assert forall|j: usize| #[trigger] row@.contains(j) implies connected(sw, i, j) by {
                let wi = choose|wi: int| 0 <= wi < row@.len() && row@[wi] == j;
                assert(j == i);
            }
        }
        let mut changed = true;
        while changed
            invariant
                i < n_cols,
                sw == swaps@,
                forall|t: int| 0 <= t < sw.len() ==> (#[trigger] sw[t]).0 < sw[t].1 < n_cols,
                row@.no_duplicates(),
                forall|w: int| 0 <= w < row@.len() ==> (#[trigger] row@[w]) < n_cols,
                row@.contains(i),
                forall|j: usize| #[trigger] row@.contains(j) ==> connected(sw, i, j),
                row@.len() <= n_cols,
                !changed ==> forall|t: int|
                    0 <= t < sw.len() ==> (row@.contains((#[trigger] sw[t]).0) <==> row@.contains(
                        sw[t].1,
                    )),
            decreases n_cols - row@.len() + (if changed {
                1int
            } else {
                0int
            }),
        {
            changed = false;
            let ghost pass_start = row@.len();
            let mut t: usize = 0;
            while t < swaps.len()
                invariant
                    t <= sw.len(),
                    i < n_cols,
                    sw == swaps@,
                    forall|w: int| 0 <= w < sw.len() ==> (#[trigger] sw[w]).0 < sw[w].1 < n_cols,
                    row@.no_duplicates(),
                    forall|w: int| 0 <= w < row@.len() ==> (#[trigger] row@[w]) < n_cols,
                    row@.contains(i),
                    forall|j: usize| #[trigger] row@.contains(j) ==> connected(sw, i, j),
                    row@.len() <= n_cols,
                    row@.len() >= pass_start,
                    changed ==> row@.len() > pass_start,
                    !changed ==> forall|tt: int|
                        0 <= tt < t ==> (row@.contains((#[trigger] sw[tt]).0) <==> row@.contains(
                            sw[tt].1,
                        )),
                decreases sw.len() - t,
            {
                let ghost old_row = row@;
                let pair = swaps[t];
                let a = pair.0;
                let b = pair.1;
                let ina = contains_index(&row, a);
                let inb = contains_index(&row, b);
                if ina && !inb {
                    row.push(b);
                    changed = true;
                    proof {
                        assert(row@[row@.len() - 1] == b);
                        assert(row@.no_duplicates()) by {
                            assert(forall|w: int| 0 <= w < old_row.len() ==> row@[w] == old_row[w]);
                            assert(forall|w: int| 0 <= w < old_row.len() ==> old_row[w] != b);
                        }
                        assert(row@.contains(i)) by {
                            lemma_contains_after_grow_idx(old_row, row@, i);
                        }
                        assert forall|j: usize| #[trigger] row@.contains(j) implies connected(
                            sw,
                            i,
                            j,
                        ) by {
                            let wi = choose|wi: int| 0 <= wi < row@.len() && row@[wi] == j;
                            if wi < old_row.len() {
                                assert(old_row.contains(j));
                            } else {
                                assert(j == b);
                                assert(connected(sw, i, a));
                                assert(sw[t as int] == (a, b));
                                assert(sw.contains((a, b)));
                                assert(adjacent(sw, a, b));
                                lemma_connected_step(sw, i, a, b);
                            }
                        }
                        lemma_distinct_bounded(row@, n_cols);
                    }
                } else if inb && !ina {
                    row.push(a);
                    changed = true;
                    proof {
                        assert(row@[row@.len() - 1] == a);
                        assert(row@.no_duplicates()) by {
                            assert(forall|w: int| 0 <= w < old_row.len() ==> row@[w] == old_row[w]);
                            assert(forall|w: int| 0 <= w < old_row.len() ==> old_row[w] != a);
                        }
                        assert(row@.contains(i)) by {
                            lemma_contains_after_grow_idx(old_row, row@, i);
                        }
                        assert forall|j: usize| #[trigger] row@.contains(j) implies connected(
                            sw,
                            i,
                            j,
                        ) by {
                            let wi = choose|wi: int| 0 <= wi < row@.len() && row@[wi] == j;
                            if wi < old_row.len() {
                                assert(old_row.contains(j));
                            } else {
                                assert(j == a);
                                assert(connected(sw, i, b));
                                assert(sw[t as int] == (a, b));
                                assert(sw.contains((a, b)));
                                assert(adjacent(sw, b, a));
                                lemma_connected_step(sw, i, b, a);
                            }
                        }
                        lemma_distinct_bounded(row@, n_cols);
                    }
                } else {
                    proof {
                        if !changed {
                            assert forall|tt: int| 0 <= tt < t + 1 implies (row@.contains(
                                (#[trigger] sw[tt]).0,
                            ) <==> row@.contains(sw[tt].1)) by {
                                if tt == t {
                                    assert(sw[tt] == (a, b));
                                }
                            }
                        }
                    }
                }
                t += 1;
            }
        }
        proof {
            assert forall|j: usize| connected(sw, i, j) implies row@.contains(j) by {
                let p = choose|p: Seq<usize>|
                    #![trigger is_swap_path(sw, p)]
                    p.len() >= 1 && p.first() == i && p.last() == j && is_swap_path(sw, p);
                lemma_path_stays_in_closed(sw, row@, p);
            }
        }
        r.push(row);
        i += 1;
    }
    proof {
        assert forall|i1: int, i2: int, c: usize|
            0 <= i1 < n_cols && 0 <= i2 < n_cols && #[trigger] r@[i1]@.contains(c)
                && #[trigger] r@[i2]@.contains(c) implies r@[i1]@.to_set()
            == r@[i2]@.to_set() by {
            let u1 = i1 as usize;
            let u2 = i2 as usize;
            assert(connected(sw, u1, c));
            assert(connected(sw, u2, c));
            lemma_connected_sym(sw, u1, c);
            lemma_connected_sym(sw, u2, c);
            assert forall|j: usize| r@[i1]@.contains(j) <==> r@[i2]@.contains(j) by {
                if r@[i1]@.contains(j) {
                    assert(connected(sw, u1, j));
                    lemma_connected_trans(sw, u2, c, u1);
                    lemma_connected_trans(sw, u2, u1, j);
                }
                if r@[i2]@.contains(j) {
                    assert(connected(sw, u2, j));
                    lemma_connected_trans(sw, u1, c, u2);
                    lemma_connected_trans(sw, u1, u2, j);
                }
            }
            assert(r@[i1]@.to_set() =~= r@[i2]@.to_set());
        }
        assert forall|i0: int| 0 <= i0 < n_cols implies (#[trigger] r@[i0]@).contains(
            i0 as usize,
        ) by {
            lemma_connected_refl(sw, i0 as usize);
        }
    }
    r
}

/// An index a longer list holds at the same place is still held after the
/// list grew at its end.
proof fn lemma_contains_after_grow_idx(prev: Seq<usize>, cur: Seq<usize>, x: usize)
    requires
        cur.len() >= prev.len(),
        forall|w: int| 0 <= w < prev.len() ==> cur[w] == prev[w],
        prev.contains(x),
    ensures
        cur.contains(x),
{
    let idx = choose|idx: int| 0 <= idx < prev.len() && prev[idx] == x;
    assert(cur[idx] == x);
}

/// One full pass of the closure search: applies every swap of the set to
/// every row the orbit held when the pass began, adding the rows so reached.
fn closure_pass(orbit: Vec<Vec<u8>>, swaps: &Vec<(usize, usize)>, l: usize, root: Ghost<
    Seq<u8>,
>) -> (r: Vec<Vec<u8>>)
    requires
        forall|t: int| 0 <= t < swaps@.len() ==> (#[trigger] swaps@[t]).0 < swaps@[t].1 < l,
        views_of(orbit@).no_duplicates(),
        forall|u: int| 0 <= u < orbit@.len() ==> (#[trigger] views_of(orbit@)[u]).len() == l,
        forall|m: Seq<u8>|
            #[trigger] views_of(orbit@).contains(m) ==> orbit_reachable(root@, swaps@, m),
    ensures
        forall|m: Seq<u8>|
            #[trigger] views_of(r@).contains(m) ==> orbit_reachable(root@, swaps@, m),
        r@.len() >= orbit@.len(),
        forall|u: int| 0 <= u < orbit@.len() ==> views_of(r@)[u] == views_of(orbit@)[u],
        views_of(r@).no_duplicates(),
        forall|u: int| 0 <= u < r@.len() ==> (#[trigger] views_of(r@)[u]).len() == l,
        forall|t: int, u: int|
            #![trigger swaps@[t], views_of(orbit@)[u]]
            0 <= t < swaps@.len() && 0 <= u < orbit@.len() ==> views_of(r@).contains(
                swap_seq(views_of(orbit@)[u], swaps@[t].0 as int, swaps@[t].1 as int),
            ),
        swaps@.len() == 0 ==> views_of(r@) == views_of(orbit@),
{
    let ghost base = views_of(orbit@);
    let mut orb = orbit;
    let mut t: usize = 0;
    while t < swaps.len()
        invariant
            t <= swaps@.len(),
            forall|w: int| 0 <= w < swaps@.len() ==> (#[trigger] swaps@[w]).0 < swaps@[w].1 < l,
            views_of(orb@).len() >= base.len(),
            forall|u: int| 0 <= u < base.len() ==> views_of(orb@)[u] == base[u],
            views_of(orb@).no_duplicates(),
            forall|u: int| 0 <= u < orb@.len() ==> (#[trigger] views_of(orb@)[u]).len() == l,
            forall|tt: int, u: int|
                #![trigger swaps@[tt], base[u]]
                0 <= tt < t && 0 <= u < base.len() ==> views_of(orb@).contains(
                    swap_seq(base[u], swaps@[tt].0 as int, swaps@[tt].1 as int),
                ),
            swaps@.len() == 0 ==> views_of(orb@) == base,
            forall|m: Seq<u8>|
                #[trigger] views_of(orb@).contains(m) ==> orbit_reachable(root@, swaps@, m),
        decreases swaps@.len() - t,
    {
        let p = swaps[t];
        let a = p.0;
        let b = p.1;
        let n_now = orb.len();
        let ghost mid = views_of(orb@);
        let mut u: usize = 0;
        while u < n_now
            invariant
                u <= n_now,
                n_now == mid.len(),
                t < swaps@.len(),
                a == swaps@[t as int].0,
                b == swaps@[t as int].1,
                a < b < l,
                forall|w: int| 0 <= w < swaps@.len() ==> (#[trigger] swaps@[w]).0 < swaps@[w].1
                    < l,
                views_of(orb@).len() >= mid.len(),
                forall|w: int| 0 <= w < mid.len() ==> views_of(orb@)[w] == mid[w],
                mid.len() >= base.len(),
                forall|w: int| 0 <= w < base.len() ==> mid[w] == base[w],
                views_of(orb@).no_duplicates(),
                forall|w: int| 0 <= w < orb@.len() ==> (#[trigger] views_of(orb@)[w]).len() == l,
                forall|tt: int, w: int|
                    #![trigger swaps@[tt], base[w]]
                    0 <= tt < t && 0 <= w < base.len() ==> views_of(orb@).contains(
                        swap_seq(base[w], swaps@[tt].0 as int, swaps@[tt].1 as int),
                    ),
                forall|w: int|
                    0 <= w < u ==> views_of(orb@).contains(
                        swap_seq(#[trigger] mid[w], a as int, b as int),
                    ),
                forall|m: Seq<u8>|
                    #[trigger] views_of(orb@).contains(m) ==> orbit_reachable(root@, swaps@, m),
            decreases n_now - u,
        {
            proof {
                assert(views_of(orb@)[u as int] == orb@[u as int]@);
                assert(views_of(orb@)[u as int] == mid[u as int]);
            }
            let g = swap_schema(&orb[u], a, b);
            proof {
                assert(g@ == swap_seq(mid[u as int], a as int, b as int));
            }
            if !contains_schema(&orb, &g) {
                let ghost prev = views_of(orb@);
                orb.push(g);
                proof {
                    assert(views_of(orb@) =~= prev.push(g@));
                    assert(views_of(orb@).no_duplicates()) by {
                        assert(forall|w: int| 0 <= w < prev.len() ==> prev[w] != g@);
                        assert(forall|w: int|
                            0 <= w < prev.len() ==> views_of(orb@)[w] == prev[w]);
                        assert(views_of(orb@)[prev.len() as int] == g@);
                    }
                    assert forall|tt: int, w: int|
                        #![trigger swaps@[tt], base[w]]
                        0 <= tt < t && 0 <= w < base.len() implies views_of(orb@).contains(
                        swap_seq(base[w], swaps@[tt].0 as int, swaps@[tt].1 as int),
                    ) by {
                        lemma_contains_after_grow(
                            prev,
                            views_of(orb@),
                            swap_seq(base[w], swaps@[tt].0 as int, swaps@[tt].1 as int),
                        );
                    }
                    assert forall|w: int|
                        0 <= w < u + 1 implies views_of(orb@).contains(
                        swap_seq(#[trigger] mid[w], a as int, b as int),
                    ) by {
                        if w < u {
                            lemma_contains_after_grow(
                                prev,
                                views_of(orb@),
                                swap_seq(mid[w], a as int, b as int),
                            );
                        } else {
                            assert(views_of(orb@)[prev.len() as int] == g@);
                        }
                    }
                    assert forall|m: Seq<u8>| #[trigger]
                        views_of(orb@).contains(m) implies orbit_reachable(
                        root@,
                        swaps@,
                        m,
                    ) by {
                        let wi = choose|wi: int|
                            0 <= wi < views_of(orb@).len() && views_of(orb@)[wi] == m;
                        if wi < prev.len() {
                            assert(prev.contains(m));
                        } else {
                            assert(m == g@);
                            assert(prev[u as int] == mid[u as int]);
                            assert(prev.contains(mid[u as int]));
                            assert(orbit_reachable(root@, swaps@, mid[u as int]));
                            lemma_reachable_step(root@, swaps@, mid[u as int], t as int);
                        }
                    }
                }
            } else {
                proof {
                    assert(views_of(orb@).contains(swap_seq(mid[u as int], a as int, b as int)));
                }
            }
            u += 1;
        }
        proof {
            assert forall|w: int|
                0 <= w < base.len() implies views_of(orb@).contains(
                swap_seq(base[w], a as int, b as int),
            ) by {
                assert(mid[w] == base[w]);
            }
        }
        t += 1;
    }
    orb
}

/// True iff every row of the orbit occurs in the collection.
fn all_in_collection(orbit: &Vec<Vec<u8>>, one_symbol_schemata: &Vec<Vec<u8>>) -> (r: bool)
    ensures
        r <==> (forall|m: Seq<u8>|
            #[trigger] views_of(orbit@).contains(m) ==> views_of(one_symbol_schemata@).contains(
                m,
            )),
{
    let mut u: usize = 0;
    while u < orbit.len()
        invariant
            u <= orbit@.len(),
            forall|w: int|
                0 <= w < u ==> views_of(one_symbol_schemata@).contains(
                    #[trigger] views_of(orbit@)[w],
                ),
        decreases orbit@.len() - u,
    {
        if !contains_schema(one_symbol_schemata, &orbit[u]) {
            proof {
                assert(views_of(orbit@).contains(views_of(orbit@)[u as int]));
            }
            return false;
        }
        u += 1;
    }
    proof {
        assert forall|m: Seq<u8>| #[trigger]
            views_of(orbit@).contains(m) implies views_of(one_symbol_schemata@).contains(m) by {
            let w = choose|w: int| 0 <= w < views_of(orbit@).len() && views_of(orbit@)[w] == m;
        }
    }
    true
}

/// Apply the group action that the swap set describes to the root: grow the
/// orbit to its fixed point, checking after every pass that it stays inside
/// the collection. Returns whether the action is closed, the orbit reached,
/// and the merged column neighbourhoods of the swap set.
pub fn apply_action(
    root: &Vec<u8>,
    swaps: &Vec<(usize, usize)>,
    one_symbol_schemata: &Vec<Vec<u8>>,
) -> (res: (bool, Vec<Vec<u8>>, Vec<Vec<usize>>))
    requires
        forall|t: int| 0 <= t < swaps@.len() ==> (#[trigger] swaps@[t]).0 < swaps@[t].1
            < root@.len(),
    ensures
        views_of(res.1@).no_duplicates(),
        views_of(res.1@).contains(root@),
        forall|u: int| 0 <= u < res.1@.len() ==> (#[trigger] views_of(res.1@)[u]).len()
            == root@.len(),
        res.0 <==> (forall|m: Seq<u8>|
            #[trigger] views_of(res.1@).contains(m) ==> views_of(one_symbol_schemata@).contains(
                m,
            )),
        res.0 ==> closed_under_swaps(views_of(res.1@), swaps@),
        swaps@.len() == 0 ==> views_of(res.1@) == seq![root@],
        forall|m: Seq<u8>|
            #[trigger] views_of(res.1@).contains(m) ==> orbit_reachable(root@, swaps@, m),
        res.2@.len() == root@.len(),
        forall|i: int| 0 <= i < res.2@.len() ==> (#[trigger] res.2@[i]@).no_duplicates(),
        forall|i: int, w: int|
            0 <= i < res.2@.len() && 0 <= w < res.2@[i]@.len() ==> (#[trigger] res.2@[i]@[w])
                < root@.len(),
        forall|i: usize, j: usize|
            #![trigger res.2@[i as int]@.contains(j)]
            i < root@.len() ==> (res.2@[i as int]@.contains(j) <==> connected(swaps@, i, j)),
        forall|i: int| 0 <= i < res.2@.len() ==> (#[trigger] res.2@[i]@).contains(i as usize),
        forall|i1: int, i2: int, c: usize|
            #![trigger res.2@[i1]@.contains(c), res.2@[i2]@.contains(c)]
            0 <= i1 < res.2@.len() && 0 <= i2 < res.2@.len() && res.2@[i1]@.contains(c)
                && res.2@[i2]@.contains(c) ==> res.2@[i1]@.to_set() == res.2@[i2]@.to_set(),
{
    let l = root.len();
    let merged = merged_column_sets(l, swaps);
    let mut orbit: Vec<Vec<u8>> = Vec::new();
    orbit.push(copy_schema(root));
    proof {
        assert(views_of(orbit@) =~= seq![root@]);
        assert(views_of(orbit@)[0] == root@);
        assert(views_of(orbit@).contains(root@));
        lemma_reachable_refl(root@, swaps@);
        assert forall|m: Seq<u8>| #[trigger]
            views_of(orbit@).contains(m) implies orbit_reachable(root@, swaps@, m) by {
            let wi = choose|wi: int|
                0 <= wi < views_of(orbit@).len() && views_of(orbit@)[wi] == m;
            assert(m == root@);
        }
    }
    let mut closed = true;
    loop
        invariant_except_break
            closed,
            l == root@.len(),
            forall|t: int| 0 <= t < swaps@.len() ==> (#[trigger] swaps@[t]).0 < swaps@[t].1 < l,
            views_of(orbit@).no_duplicates(),
            views_of(orbit@).contains(root@),
            forall|u: int| 0 <= u < orbit@.len() ==> (#[trigger] views_of(orbit@)[u]).len() == l,
            swaps@.len() == 0 ==> views_of(orbit@) == seq![root@],
            orbit@.len() >= 1,
            orbit@.len() == 1 || (forall|m: Seq<u8>|
                #[trigger] views_of(orbit@).contains(m) ==> views_of(
                    one_symbol_schemata@,
                ).contains(m)),
            orbit@.len() <= one_symbol_schemata@.len() + 1,
            forall|m: Seq<u8>|
                #[trigger] views_of(orbit@).contains(m) ==> orbit_reachable(root@, swaps@, m),
        ensures
            views_of(orbit@).no_duplicates(),
            views_of(orbit@).contains(root@),
            forall|u: int| 0 <= u < orbit@.len() ==> (#[trigger] views_of(orbit@)[u]).len() == l,
            swaps@.len() == 0 ==> views_of(orbit@) == seq![root@],
            forall|m: Seq<u8>|
                #[trigger] views_of(orbit@).contains(m) ==> orbit_reachable(root@, swaps@, m),
            closed <==> (forall|m: Seq<u8>|
                #[trigger] views_of(orbit@).contains(m) ==> views_of(
                    one_symbol_schemata@,
                ).contains(m)),
            closed ==> forall|t: int, u: int|
                #![trigger swaps@[t], views_of(orbit@)[u]]
                0 <= t < swaps@.len() && 0 <= u < orbit@.len() ==> views_of(orbit@).contains(
                    swap_seq(views_of(orbit@)[u], swaps@[t].0 as int, swaps@[t].1 as int),
                ),
        decreases one_symbol_schemata@.len() + 2 - orbit@.len(),
    {
        let old_size = orbit.len();
        let ghost pre = views_of(orbit@);
        orbit = closure_pass(orbit, swaps, l, Ghost(root@));
        if !all_in_collection(&orbit, one_symbol_schemata) {
            closed = false;
            proof {
                assert(!(forall|m: Seq<u8>|
                    #[trigger] views_of(orbit@).contains(m) ==> views_of(
                        one_symbol_schemata@,
                    ).contains(m)));
            }
            break;
        }
        if orbit.len() == old_size {
            proof {
                assert(views_of(orbit@) =~= pre);
                assert forall|t: int, u: int|
                    #![trigger swaps@[t], views_of(orbit@)[u]]
                    0 <= t < swaps@.len() && 0 <= u < orbit@.len() implies views_of(
                    orbit@,
                ).contains(
                    swap_seq(views_of(orbit@)[u], swaps@[t].0 as int, swaps@[t].1 as int),
                ) by {
                    assert(views_of(orbit@)[u] == pre[u]);
                }
            }
            break;
        }
        proof {
            assert forall|u: int|
                0 <= u < views_of(orbit@).len() implies views_of(one_symbol_schemata@).contains(
                #[trigger] views_of(orbit@)[u],
            ) by {
                assert(views_of(orbit@).contains(views_of(orbit@)[u]));
            }
            lemma_distinct_subset_len(views_of(orbit@), views_of(one_symbol_schemata@));
            assert(views_of(orbit@).len() == orbit@.len());
            assert(views_of(one_symbol_schemata@).len() == one_symbol_schemata@.len());
        }
    }
    proof {
        if closed {
            reveal(closed_under_swaps);
            assert forall|t: int, m: Seq<u8>|
                #![trigger swaps@[t], views_of(orbit@).contains(m)]
                0 <= t < swaps@.len() && views_of(orbit@).contains(m) implies views_of(
                orbit@,
            ).contains(swap_seq(m, swaps@[t].0 as int, swaps@[t].1 as int)) by {
                let u = choose|u: int|
                    0 <= u < views_of(orbit@).len() && views_of(orbit@)[u] == m;
            }
            assert(closed_under_swaps(views_of(orbit@), swaps@));
        }
    }
    (closed, orbit, merged)
}

/// The columns, in ascending order, where every row of the orbit still holds
/// the root's symbol.
pub fn trivial_columns(root: &Vec<u8>, orbit: &Vec<Vec<u8>>) -> (r: Vec<usize>)
    requires
        forall|k: int| 0 <= k < orbit@.len() ==> (#[trigger] orbit@[k]@).len() == root@.len(),
    ensures
        forall|t1: int, t2: int| 0 <= t1 < t2 < r@.len() ==> r@[t1] < r@[t2],
        forall|t: int| 0 <= t < r@.len() ==> (#[trigger] r@[t]) < root@.len(),
        forall|c: usize|
            #[trigger] r@.contains(c) <==> c < root@.len() && (forall|k: int|
                0 <= k < orbit@.len() ==> (#[trigger] orbit@[k]@)[c as int] == root@[c as int]),
{
    let l = root.len();
    let mut r: Vec<usize> = Vec::new();
    let mut c: usize = 0;
    while c < l
        invariant
            c <= l,
            l == root@.len(),
            forall|k: int| 0 <= k < orbit@.len() ==> (#[trigger] orbit@[k]@).len() == l,
            forall|t1: int, t2: int| 0 <= t1 < t2 < r@.len() ==> r@[t1] < r@[t2],
            forall|t: int| 0 <= t < r@.len() ==> (#[trigger] r@[t]) < c,
            forall|cc: usize|
                #[trigger] r@.contains(cc) <==> cc < c && (forall|k: int|
                    0 <= k < orbit@.len() ==> (#[trigger] orbit@[k]@)[cc as int] == root@[cc as int]),
        decreases l - c,
    {
        let root_val = root[c];
        let mut all_same = true;
        let mut k: usize = 0;
        while k < orbit.len()
            invariant
                k <= orbit@.len(),
                c < l,
                l == root@.len(),
                root_val == root@[c as int],
                forall|w: int| 0 <= w < orbit@.len() ==> (#[trigger] orbit@[w]@).len() == l,
                all_same <==> (forall|w: int|
                    0 <= w < k ==> (#[trigger] orbit@[w]@)[c as int] == root@[c as int]),
            decreases orbit@.len() - k,
        {
            if orbit[k][c] != root_val {
                all_same = false;
            }
            k += 1;
        }
        let ghost old_r = r@;
        if all_same {
            r.push(c);
            proof {
                assert forall|cc: usize| #[trigger]
                    r@.contains(cc) implies cc < c + 1 && (forall|w: int|
                    0 <= w < orbit@.len() ==> (#[trigger] orbit@[w]@)[cc as int] == root@[cc as int]) by {
                    let t = choose|t: int| 0 <= t < r@.len() && r@[t] == cc;
                    if t < old_r.len() {
                        assert(old_r.contains(cc));
                    }
                }
                assert forall|cc: usize|
                    cc < c + 1 && (forall|w: int|
                        0 <= w < orbit@.len() ==> (#[trigger] orbit@[w]@)[cc as int] == root@[cc as int]) implies #[trigger] r@.contains(cc) by {
                    if cc < c {
                        assert(old_r.contains(cc));
                        let t = choose|t: int| 0 <= t < old_r.len() && old_r[t] == cc;
                        assert(r@[t] == cc);
                    } else {
                        assert(r@[r@.len() - 1] == cc);
                    }
                }
            }
        } else {
            proof {
                assert forall|cc: usize|
                    cc < c + 1 && (forall|w: int|
                        0 <= w < orbit@.len() ==> (#[trigger] orbit@[w]@)[cc as int] == root@[cc as int]) implies #[trigger] r@.contains(cc) by {
                    assert(cc != c);
                }
            }
        }
        c += 1;
    }
    r
}

/// True iff some swap of the set touches one of the listed columns.
pub fn swaps_touch_columns(swaps: &Vec<(usize, usize)>, columns: &Vec<usize>) -> (r: bool)
    ensures
        r <==> exists|t: int|
            0 <= t < swaps@.len() && (columns@.contains((#[trigger] swaps@[t]).0)
                || columns@.contains(swaps@[t].1)),
{
    let mut t: usize = 0;
    while t < swaps.len()
        invariant
            t <= swaps@.len(),
            forall|w: int|
                0 <= w < t ==> !(columns@.contains((#[trigger] swaps@[w]).0) || columns@.contains(
                    swaps@[w].1,
                )),
        decreases swaps@.len() - t,
    {
        let p = swaps[t];
        if contains_index(columns, p.0) || contains_index(columns, p.1) {
            return true;
        }
        t += 1;
    }
    false
}

/// The group's columns are exactly those of one of the merged
/// neighbourhoods.
pub open spec fn matches_some_group(b: Seq<usize>, groups: Seq<Vec<usize>>) -> bool {
    exists|i: int| 0 <= i < groups.len() && b.to_set() == (#[trigger] groups[i])@.to_set()
}

/// Some column of the group lies outside the trivial columns.
pub open spec fn group_nontrivial(b: Seq<usize>, trivial: Seq<usize>) -> bool {
    exists|w: int| 0 <= w < b.len() && !trivial.contains(#[trigger] b[w])
}

/// Some reported group holds exactly the columns of the class.
pub open spec fn group_represented(groups: Seq<Vec<usize>>, class: Seq<usize>) -> bool {
    exists|bi: int| 0 <= bi < groups.len() && (#[trigger] groups[bi])@.to_set() == class.to_set()
}

/// Convert the merged column classes into bubble groups: every class of at
/// least two columns that is not made of trivial columns only is reported
/// exactly once, sorted; distinct reported groups share no column.
pub fn merged_swaps_to_bubbles(
    merged_swaps: &Vec<Vec<usize>>,
    trivial_redescription_columns: &Vec<usize>,
) -> (r: Vec<Vec<usize>>)
    requires
        forall|i: int|
            0 <= i < merged_swaps@.len() ==> (#[trigger] merged_swaps@[i]@).no_duplicates(),
        forall|i: int, w: int|
            0 <= i < merged_swaps@.len() && 0 <= w < merged_swaps@[i]@.len() ==> (
            #[trigger] merged_swaps@[i]@[w]) < merged_swaps@.len(),
        forall|i: int|
            0 <= i < merged_swaps@.len() ==> (#[trigger] merged_swaps@[i]@).contains(i as usize),
        forall|i1: int, i2: int, c: usize|
            #![trigger merged_swaps@[i1]@.contains(c), merged_swaps@[i2]@.contains(c)]
            0 <= i1 < merged_swaps@.len() && 0 <= i2 < merged_swaps@.len()
                && merged_swaps@[i1]@.contains(c) && merged_swaps@[i2]@.contains(c)
                ==> merged_swaps@[i1]@.to_set() == merged_swaps@[i2]@.to_set(),
    ensures
        forall|bi: int| 0 <= bi < r@.len() ==> (#[trigger] r@[bi]@).len() >= 2,
        forall|bi: int| 0 <= bi < r@.len() ==> sorted_indices(#[trigger] r@[bi]@),
        forall|bi: int| 0 <= bi < r@.len() ==> (#[trigger] r@[bi]@).no_duplicates(),
        forall|bi: int, w: int|
            0 <= bi < r@.len() && 0 <= w < r@[bi]@.len() ==> (#[trigger] r@[bi]@[w])
                < merged_swaps@.len(),
        forall|bi: int|
            0 <= bi < r@.len() ==> matches_some_group(#[trigger] r@[bi]@, merged_swaps@),
        forall|bi: int|
            0 <= bi < r@.len() ==> group_nontrivial(
                #[trigger] r@[bi]@,
                trivial_redescription_columns@,
            ),
        forall|b1: int, b2: int, c: usize|
            #![trigger r@[b1]@.contains(c), r@[b2]@.contains(c)]
            0 <= b1 < r@.len() && 0 <= b2 < r@.len() && b1 != b2 ==> !(r@[b1]@.contains(c)
                && r@[b2]@.contains(c)),
        forall|i: int|
            0 <= i < merged_swaps@.len() && (#[trigger] merged_swaps@[i]@).len() >= 2
                && group_nontrivial(merged_swaps@[i]@, trivial_redescription_columns@)
                ==> group_represented(r@, merged_swaps@[i]@),
{
    let n = merged_swaps.len();
    let mut seen: Vec<bool> = Vec::new();
    let mut w: usize = 0;
    while w < n
        invariant
            w <= n,
            seen@.len() == w,
            forall|c: int| 0 <= c < w ==> !(#[trigger] seen@[c]),
        decreases n - w,
    {
        seen.push(false);
        w += 1;
    }
    let mut bubble_indices: Vec<Vec<usize>> = Vec::new();
    let ghost mut owners: Seq<int> = Seq::empty();
    let ghost mut nc_witness: Seq<int> = Seq::empty();
    let mut i: usize = 0;
    while i < n
        invariant
            i <= n,
            n == merged_swaps@.len(),
            seen@.len() == n,
            forall|ii: int|
                0 <= ii < merged_swaps@.len() ==> (#[trigger] merged_swaps@[ii]@).no_duplicates(),
            forall|ii: int, ww: int|
                0 <= ii < merged_swaps@.len() && 0 <= ww < merged_swaps@[ii]@.len() ==> (
                #[trigger] merged_swaps@[ii]@[ww]) < merged_swaps@.len(),
            forall|ii: int|
                0 <= ii < merged_swaps@.len() ==> (#[trigger] merged_swaps@[ii]@).contains(
                    ii as usize,
                ),
            forall|i1: int, i2: int, c: usize|
                #![trigger merged_swaps@[i1]@.contains(c), merged_swaps@[i2]@.contains(c)]
                0 <= i1 < merged_swaps@.len() && 0 <= i2 < merged_swaps@.len()
                    && merged_swaps@[i1]@.contains(c) && merged_swaps@[i2]@.contains(c)
                    ==> merged_swaps@[i1]@.to_set() == merged_swaps@[i2]@.to_set(),
            forall|bi: int|
                0 <= bi < bubble_indices@.len() ==> (#[trigger] bubble_indices@[bi]@).len() >= 2,
            forall|bi: int|
                0 <= bi < bubble_indices@.len() ==> sorted_indices(
                    #[trigger] bubble_indices@[bi]@,
                ),
            forall|bi: int|
                0 <= bi < bubble_indices@.len() ==> (
                #[trigger] bubble_indices@[bi]@).no_duplicates(),
            forall|bi: int, ww: int|
                0 <= bi < bubble_indices@.len() && 0 <= ww < bubble_indices@[bi]@.len() ==> (
                #[trigger] bubble_indices@[bi]@[ww]) < merged_swaps@.len(),
            owners.len() == bubble_indices@.len(),
            nc_witness.len() == bubble_indices@.len(),
            forall|bi: int|
                0 <= bi < bubble_indices@.len() ==> 0 <= #[trigger] owners[bi]
                    < merged_swaps@.len() && (bubble_indices@[bi]@).to_set()
                    == merged_swaps@[owners[bi]]@.to_set(),
            forall|bi: int|
                0 <= bi < bubble_indices@.len() ==> 0 <= #[trigger] nc_witness[bi]
                    < bubble_indices@[bi]@.len() && !trivial_redescription_columns@.contains(
                    bubble_indices@[bi]@[nc_witness[bi]],
                ),
            forall|c: usize|
                c < n && #[trigger] seen@[c as int] ==> (group_represented(
                    bubble_indices@,
                    merged_swaps@[c as int]@,
                ) || merged_swaps@[c as int]@.len() == 1),
            forall|bi: int, c: usize|
                0 <= bi < bubble_indices@.len() && #[trigger] bubble_indices@[bi]@.contains(c)
                    ==> c < n && seen@[c as int],
            forall|b1: int, b2: int, c: usize|
                #![trigger bubble_indices@[b1]@.contains(c), bubble_indices@[b2]@.contains(c)]
                0 <= b1 < bubble_indices@.len() && 0 <= b2 < bubble_indices@.len() && b1 != b2
                    ==> !(bubble_indices@[b1]@.contains(c) && bubble_indices@[b2]@.contains(c)),
            forall|ii: int|
                0 <= ii < i && (#[trigger] merged_swaps@[ii]@).len() >= 2 && group_nontrivial(
                    merged_swaps@[ii]@,
                    trivial_redescription_columns@,
                ) ==> group_represented(bubble_indices@, merged_swaps@[ii]@),
        decreases n - i,
    {
        if !seen[i] {
            let ghost seen_at_entry = seen@;
            let x = &merged_swaps[i];
            let mut all_trivial = true;
            let ghost mut witness: int = 0;
            let mut w2: usize = 0;
            while w2 < x.len()
                invariant
                    w2 <= x@.len(),
                    x@ == merged_swaps@[i as int]@,
                    i < n,
                    n == merged_swaps@.len(),
                    all_trivial <==> (forall|ww: int|
                        0 <= ww < w2 ==> trivial_redescription_columns@.contains(
                            #[trigger] x@[ww],
                        )),
                    !all_trivial ==> 0 <= witness < w2
                        && !trivial_redescription_columns@.contains(x@[witness]),
                decreases x@.len() - w2,
            {
                if !contains_index(trivial_redescription_columns, x[w2]) {
                    if all_trivial {
                        proof {
                            witness = w2 as int;
                        }
                    }
                    all_trivial = false;
                }
                w2 += 1;
            }
            if !all_trivial {
                let ghost old_seen = seen@;
                let mut w3: usize = 0;
                while w3 < x.len()
                    invariant
                        w3 <= x@.len(),
                        x@ == merged_swaps@[i as int]@,
                        i < n,
                        n == merged_swaps@.len(),
                        seen@.len() == n,
                        forall|ii: int, ww: int|
                            0 <= ii < merged_swaps@.len() && 0 <= ww < merged_swaps@[ii]@.len()
                                ==> (#[trigger] merged_swaps@[ii]@[ww]) < merged_swaps@.len(),
                        forall|c: int|
                            0 <= c < n ==> ((#[trigger] seen@[c]) <==> (old_seen[c]
                                || x@.take(w3 as int).contains(c as usize))),
                    decreases x@.len() - w3,
                {
                    let col = x[w3];
                    let ghost pre_seen = seen@;
                    seen.set(col, true);
                    proof {
                        assert(x@.take(w3 + 1) =~= x@.take(w3 as int).push(x@[w3 as int]));
                        assert forall|c: int|
                            0 <= c < n implies ((#[trigger] seen@[c]) <==> (old_seen[c]
                                || x@.take(w3 + 1).contains(c as usize))) by {
                            if seen@[c] {
                                if c != col {
                                    assert(pre_seen[c]);
                                    if !old_seen[c] {
                                        let q = choose|q: int|
                                            0 <= q < w3 && (#[trigger] x@.take(w3 as int)[q])
                                                == c as usize;
                                        assert(x@.take(w3 + 1)[q] == c as usize);
                                    }
                                } else {
                                    assert(x@.take(w3 + 1)[w3 as int] == c as usize);
                                }
                            } else {
                                assert(c != col);
                                assert(!pre_seen[c]);
                                if x@.take(w3 + 1).contains(c as usize) {
                                    let q = choose|q: int|
                                        0 <= q < w3 + 1 && (#[trigger] x@.take(w3 + 1)[q])
                                            == c as usize;
                                    assert(q < w3);
                                    assert(x@.take(w3 as int)[q] == c as usize);
                                }
                            }
                        }
                    }
                    w3 += 1;
                }
                proof {
                    assert(x@.take(x@.len() as int) =~= x@);
                }
                let x_again = &merged_swaps[i];
                if x_again.len() > 1 {
                    let xv = sort_indices(copy_group(x_again));
                    let ghost xs = merged_swaps@[i as int]@;
                    let ghost q: int;
                    proof {
                        assert(xv@.to_multiset() == xs.to_multiset());
                        assert(xv@.len() == xs.len());
                        xs.lemma_multiset_has_no_duplicates();
                        xv@.lemma_multiset_has_no_duplicates_conv();
                        assert(xv@.no_duplicates());
                        xs.to_multiset_ensures();
                        xv@.to_multiset_ensures();
                        assert forall|e: usize| xv@.contains(e) <==> xs.contains(e) by {
                            assert(xv@.contains(e) <==> xv@.to_multiset().count(e) > 0);
                            assert(xs.contains(e) <==> xs.to_multiset().count(e) > 0);
                        }
                        assert(xv@.to_set() =~= xs.to_set());
                        assert(!trivial_redescription_columns@.contains(xs[witness]));
                        assert(xs.contains(xs[witness]));
                        assert(xv@.contains(xs[witness]));
                        q = choose|q: int| 0 <= q < xv@.len() && xv@[q] == xs[witness];
                        assert forall|ww: int|
                            0 <= ww < xv@.len() implies (#[trigger] xv@[ww])
                            < merged_swaps@.len() by {
                            assert(xv@.contains(xv@[ww]));
                            assert(xs.contains(xv@[ww]));
                            let u = choose|u: int| 0 <= u < xs.len() && xs[u] == xv@[ww];
                        }
                    }
                    let ghost old_bubbles = bubble_indices@;
                    bubble_indices.push(xv);
                    proof {
                        owners = owners.push(i as int);
                        nc_witness = nc_witness.push(q);
                        let xs = merged_swaps@[i as int]@;
                        let last = old_bubbles.len() as int;
                        assert(bubble_indices@[last] == xv);
                        assert(forall|bi: int|
                            0 <= bi < old_bubbles.len() ==> bubble_indices@[bi]
                                == old_bubbles[bi]);
                        assert(forall|bi: int|
                            0 <= bi < old_bubbles.len() ==> owners[bi] == owners.drop_last()[bi]
                                && nc_witness[bi] == nc_witness.drop_last()[bi]);
                        assert(owners[last] == i as int);
                        assert(nc_witness[last] == q);
                        assert((bubble_indices@[last]@).to_set()
                            == merged_swaps@[owners[last]]@.to_set());
                        assert(!trivial_redescription_columns@.contains(
                            bubble_indices@[last]@[nc_witness[last]],
                        ));
                        // marked columns now stand for a reported class
                        assert forall|c: usize|
                            c < n && #[trigger] seen@[c as int] implies (group_represented(
                            bubble_indices@,
                            merged_swaps@[c as int]@,
                        ) || merged_swaps@[c as int]@.len() == 1) by {
                            if old_seen[c as int] {
                                if !(merged_swaps@[c as int]@.len() == 1) {
                                    let bi = choose|bi: int|
                                        0 <= bi < old_bubbles.len() && (#[trigger] old_bubbles[bi])@.to_set()
                                            == merged_swaps@[c as int]@.to_set();
                                    assert(bubble_indices@[bi] == old_bubbles[bi]);
                                    assert((bubble_indices@[bi])@.to_set()
                                        == merged_swaps@[c as int]@.to_set());
                                }
                            } else {
                                assert(xs.contains(c));
                                assert(merged_swaps@[i as int]@.contains(c));
                                assert(merged_swaps@[c as int]@.contains(c));
                                assert(merged_swaps@[i as int]@.to_set()
                                    == merged_swaps@[c as int]@.to_set());
                                assert((bubble_indices@[last])@.to_set()
                                    == merged_swaps@[c as int]@.to_set());
                            }
                        }
                        // every reported column is marked
                        assert forall|bi: int, c: usize|
                            0 <= bi < bubble_indices@.len()
                                && #[trigger] bubble_indices@[bi]@.contains(c) implies c < n
                            && seen@[c as int] by {
                            if bi < last {
                                assert(old_bubbles[bi]@.contains(c));
                                assert(old_seen[c as int]);
                            } else {
                                assert(xv@.contains(c));
                                assert(xs.contains(c));
                            }
                        }
                        // distinct reported groups stay disjoint
                        assert forall|b1: int, b2: int, c: usize|
                            0 <= b1 < bubble_indices@.len() && 0 <= b2 < bubble_indices@.len()
                                && b1 != b2 implies !((#[trigger] bubble_indices@[b1]@.contains(
                            c,
                        )) && (#[trigger] bubble_indices@[b2]@.contains(c))) by {
                            if bubble_indices@[b1]@.contains(c) && bubble_indices@[b2]@.contains(
                                c,
                            ) {
                                if b1 < last && b2 < last {
                                    assert(old_bubbles[b1]@.contains(c));
                                    assert(old_bubbles[b2]@.contains(c));
                                } else {
                                    let bo = if b1 < last {
                                        b1
                                    } else {
                                        b2
                                    };
                                    assert(bo < last);
                                    assert(old_bubbles[bo]@.contains(c));
                                    assert(xv@.contains(c));
                                    assert(xs.contains(c));
                                    let own = owners[bo];
                                    assert(old_bubbles[bo]@.to_set()
                                        == merged_swaps@[own]@.to_set());
                                    assert(old_bubbles[bo]@.to_set().contains(c));
                                    assert(merged_swaps@[own]@.to_set().contains(c));
                                    assert(merged_swaps@[own]@.contains(c));
                                    assert(merged_swaps@[i as int]@.contains(c));
                                    assert(merged_swaps@[own]@.to_set()
                                        == merged_swaps@[i as int]@.to_set());
                                    assert(merged_swaps@[i as int]@.contains(i));
                                    assert(merged_swaps@[i as int]@.to_set().contains(i));
                                    assert(merged_swaps@[own]@.to_set().contains(i));
                                    assert(merged_swaps@[own]@.contains(i));
                                    assert(old_bubbles[bo]@.to_set().contains(i));
                                    assert(old_bubbles[bo]@.contains(i));
                                    assert(seen_at_entry[i as int]);
                                }
                            }
                        }
                        // classes handled so far are all reported
                        assert forall|ii: int|
                            0 <= ii < i + 1 && (#[trigger] merged_swaps@[ii]@).len() >= 2
                                && group_nontrivial(
                                merged_swaps@[ii]@,
                                trivial_redescription_columns@,
                            ) implies group_represented(
                            bubble_indices@,
                            merged_swaps@[ii]@,
                        ) by {
                            if ii < i {
                                let bi = choose|bi: int|
                                    0 <= bi < old_bubbles.len() && (#[trigger] old_bubbles[bi])@.to_set()
                                        == merged_swaps@[ii]@.to_set();
                                assert(bubble_indices@[bi] == old_bubbles[bi]);
                            } else {
                                assert((bubble_indices@[last])@.to_set()
                                    == merged_swaps@[ii]@.to_set());
                            }
                        }
                    }
                } else {
                    proof {
                        let xs = merged_swaps@[i as int]@;
                        assert(xs.len() == 1);
                        assert forall|c: usize|
                            c < n && #[trigger] seen@[c as int] implies (group_represented(
                            bubble_indices@,
                            merged_swaps@[c as int]@,
                        ) || merged_swaps@[c as int]@.len() == 1) by {
                            if !old_seen[c as int] {
                                assert(xs.contains(c));
                                assert(merged_swaps@[c as int]@.contains(c));
                                assert(merged_swaps@[i as int]@.to_set()
                                    == merged_swaps@[c as int]@.to_set());
                                merged_swaps@[i as int]@.unique_seq_to_set();
                                merged_swaps@[c as int]@.unique_seq_to_set();
                                assert(merged_swaps@[c as int]@.len() == 1);
                            }
                        }
                        assert forall|bi: int, c: usize|
                            0 <= bi < bubble_indices@.len()
                                && #[trigger] bubble_indices@[bi]@.contains(c) implies c < n
                            && seen@[c as int] by {
                            assert(old_seen[c as int]);
                        }
                        assert forall|ii: int|
                            0 <= ii < i + 1 && (#[trigger] merged_swaps@[ii]@).len() >= 2
                                && group_nontrivial(
                                merged_swaps@[ii]@,
                                trivial_redescription_columns@,
                            ) implies group_represented(
                            bubble_indices@,
                            merged_swaps@[ii]@,
                        ) by {
                            if ii == i {
                                assert(merged_swaps@[i as int]@.len() == 1);
                            }
                        }
                    }
                }
            } else {
                proof {
                    assert forall|ii: int|
                        0 <= ii < i + 1 && (#[trigger] merged_swaps@[ii]@).len() >= 2
                            && group_nontrivial(
                            merged_swaps@[ii]@,
                            trivial_redescription_columns@,
                        ) implies group_represented(bubble_indices@, merged_swaps@[ii]@) by {
                        if ii == i {
                            let ww = choose|ww: int|
                                0 <= ww < merged_swaps@[ii]@.len()
                                    && !trivial_redescription_columns@.contains(
                                    #[trigger] merged_swaps@[ii]@[ww],
                                );
                            assert(x@[ww] == merged_swaps@[ii]@[ww]);
                            assert(trivial_redescription_columns@.contains(x@[ww]));
                        }
                    }
                }
            }
        } else {
            proof {
                assert forall|ii: int|
                    0 <= ii < i + 1 && (#[trigger] merged_swaps@[ii]@).len() >= 2
                        && group_nontrivial(
                        merged_swaps@[ii]@,
                        trivial_redescription_columns@,
                    ) implies group_represented(bubble_indices@, merged_swaps@[ii]@) by {
                    if ii == i {
                        assert(seen@[i as int]);
                        assert(group_represented(bubble_indices@, merged_swaps@[i as int]@)
                            || merged_swaps@[i as int]@.len() == 1);
                    }
                }
            }
        }
        i += 1;
    }
    proof {
        assert forall|bi: int|
            0 <= bi < bubble_indices@.len() implies matches_some_group(
            #[trigger] bubble_indices@[bi]@,
            merged_swaps@,
        ) by {
            let ii = owners[bi];
            assert(0 <= ii < merged_swaps@.len());
            assert((bubble_indices@[bi]@).to_set() == (merged_swaps@[ii])@.to_set());
        }
        assert forall|bi: int|
            0 <= bi < bubble_indices@.len() implies group_nontrivial(
            #[trigger] bubble_indices@[bi]@,
            trivial_redescription_columns@,
        ) by {
            let ww = nc_witness[bi];
            assert(0 <= ww < bubble_indices@[bi]@.len());
            assert(!trivial_redescription_columns@.contains(bubble_indices@[bi]@[ww]));
        }
    }
    bubble_indices
}

} // verus!
