use vstd::prelude::*;

use crate::vecops::group_views;

verus! {

/// Lexicographic order on index groups, as std orders `Vec<usize>`: the first
/// differing entry decides, and a prefix comes before every extension.
pub open spec fn lex_le_idx(a: Seq<usize>, b: Seq<usize>) -> bool
    decreases a.len(),
{
    if a.len() == 0 {
        true
    } else if b.len() == 0 {
        false
    } else if a.first() < b.first() {
        true
    } else if a.first() > b.first() {
        false
    } else {
        lex_le_idx(a.drop_first(), b.drop_first())
    }
}

/// Lexicographic order on symbol rows, as std orders `Vec<u8>`.
pub open spec fn lex_le_row(a: Seq<u8>, b: Seq<u8>) -> bool
    decreases a.len(),
{
    if a.len() == 0 {
        true
    } else if b.len() == 0 {
        false
    } else if a.first() < b.first() {
        true
    } else if a.first() > b.first() {
        false
    } else {
        lex_le_row(a.drop_first(), b.drop_first())
    }
}

pub proof fn lemma_lex_le_idx_refl(a: Seq<usize>)
    ensures
        lex_le_idx(a, a),
    decreases a.len(),
{
    if a.len() > 0 {
        lemma_lex_le_idx_refl(a.drop_first());
    }
}

pub proof fn lemma_lex_le_idx_total(a: Seq<usize>, b: Seq<usize>)
    ensures
        lex_le_idx(a, b) || lex_le_idx(b, a),
    decreases a.len(),
{
    if a.len() > 0 && b.len() > 0 && a.first() == b.first() {
        lemma_lex_le_idx_total(a.drop_first(), b.drop_first());
    }
}

pub proof fn lemma_lex_le_idx_trans(a: Seq<usize>, b: Seq<usize>, c: Seq<usize>)
    requires
        lex_le_idx(a, b),
        lex_le_idx(b, c),
    ensures
        lex_le_idx(a, c),
    decreases a.len(),
{
    if a.len() > 0 && b.len() > 0 && c.len() > 0 && a.first() == b.first() && b.first()
        == c.first() {
        lemma_lex_le_idx_trans(a.drop_first(), b.drop_first(), c.drop_first());
    }
}

/// True iff neighbouring entries of `s` are in ascending order.
pub open spec fn sorted_indices(s: Seq<usize>) -> bool {
    forall|a: int, b: int| 0 <= a < b < s.len() ==> s[a] <= s[b]
}

/// True iff neighbouring groups of `s` are in lexicographic order.
pub open spec fn sorted_groups(s: Seq<Seq<usize>>) -> bool {
    forall|a: int, b: int| 0 <= a < b < s.len() ==> lex_le_idx(s[a], s[b])
}

/// True iff neighbouring rows of `s` are in lexicographic order.
pub open spec fn sorted_rows(s: Seq<Seq<u8>>) -> bool {
    forall|a: int, b: int| 0 <= a < b < s.len() ==> lex_le_row(s[a], s[b])
}

/// Selection sort of column indices, ascending.
pub fn sort_indices(v: Vec<usize>) -> (r: Vec<usize>)
    ensures
        r@.to_multiset() == v@.to_multiset(),
        sorted_indices(r@),
        r@.len() == v@.len(),
{
    broadcast use vstd::seq_lib::group_to_multiset_ensures;

    let mut rest = v;
    let mut out: Vec<usize> = Vec::new();
    proof {
        assert(out@.to_multiset().add(rest@.to_multiset()) =~= v@.to_multiset());
    }
    while rest.len() > 0
        invariant
            out@.to_multiset().add(rest@.to_multiset()) == v@.to_multiset(),
            out@.len() + rest@.len() == v@.len(),
            sorted_indices(out@),
            forall|a: int, b: int|
                0 <= a < out@.len() && 0 <= b < rest@.len() ==> out@[a] <= rest@[b],
        decreases rest@.len(),
    {
        let mut mi: usize = 0;
        let mut t: usize = 1;
        while t < rest.len()
            invariant
                0 < rest@.len(),
                mi < t,
                t <= rest@.len(),
                forall|b: int| 0 <= b < t ==> rest@[mi as int] <= rest@[b],
            decreases rest@.len() - t,
        {
            if rest[t] < rest[mi] {
                mi = t;
            }
            t += 1;
        }
        let ghost old_rest = rest@;
        let ghost old_out = out@;
        let m = rest.remove(mi);
        out.push(m);
        proof {
            broadcast use vstd::multiset::group_multiset_axioms;
            broadcast use vstd::seq_lib::group_to_multiset_ensures;

            assert(rest@ == old_rest.remove(mi as int));
            vstd::seq_lib::to_multiset_remove(old_rest, mi as int);
            assert(out@ == old_out.push(m));
            vstd::seq_lib::to_multiset_build(old_out, m);
            assert(old_rest.contains(m));
            assert(old_rest.to_multiset().count(m) > 0);
            assert(out@.to_multiset().add(rest@.to_multiset()) =~= v@.to_multiset());
            assert(forall|b: int|
                0 <= b < rest@.len() ==> old_rest.contains(#[trigger] rest@[b]));
        }
    }
    out
}

/// Selection sort of index groups, lexicographic.
pub fn sort_groups(v: Vec<Vec<usize>>) -> (r: Vec<Vec<usize>>)
    ensures
        group_views(r@).to_multiset() == group_views(v@).to_multiset(),
        sorted_groups(group_views(r@)),
        r@.len() == v@.len(),
{
    broadcast use vstd::seq_lib::group_to_multiset_ensures;

    let mut rest = v;
    let mut out: Vec<Vec<usize>> = Vec::new();
    proof {
        assert(group_views(out@).to_multiset().add(group_views(rest@).to_multiset())
            =~= group_views(v@).to_multiset());
    }
    while rest.len() > 0
        invariant
            group_views(out@).to_multiset().add(group_views(rest@).to_multiset())
                == group_views(v@).to_multiset(),
            out@.len() + rest@.len() == v@.len(),
            sorted_groups(group_views(out@)),
            forall|a: int, b: int|
                0 <= a < out@.len() && 0 <= b < rest@.len()
                    ==> lex_le_idx(group_views(out@)[a], group_views(rest@)[b]),
        decreases rest@.len(),
    {
        let mut mi: usize = 0;
        let mut t: usize = 1;
        proof {
            lemma_lex_le_idx_refl(rest@[0]@);
            assert(group_views(rest@)[0] == rest@[0]@);
        }
        while t < rest.len()
            invariant
                0 < rest@.len(),
                mi < t,
                t <= rest@.len(),
                forall|b: int|
                    0 <= b < t ==> lex_le_idx(group_views(rest@)[mi as int], group_views(rest@)[b]),
            decreases rest@.len() - t,
        {
            if !group_le(&rest[mi], &rest[t]) {
                proof {
                    lemma_lex_le_idx_total(rest@[mi as int]@, rest@[t as int]@);
                    assert(!lex_le_idx(rest@[mi as int]@, rest@[t as int]@));
                    assert(lex_le_idx(rest@[t as int]@, rest@[mi as int]@));
                    assert forall|b: int| 0 <= b < t + 1 implies lex_le_idx(
                        group_views(rest@)[t as int],
                        group_views(rest@)[b],
                    ) by {
                        assert(group_views(rest@)[b] == rest@[b]@);
                        assert(group_views(rest@)[t as int] == rest@[t as int]@);
                        if b < t {
                            assert(lex_le_idx(rest@[mi as int]@, rest@[b]@));
                            lemma_lex_le_idx_trans(
                                rest@[t as int]@,
                                rest@[mi as int]@,
                                rest@[b]@,
                            );
                        } else {
                            lemma_lex_le_idx_refl(rest@[t as int]@);
                        }
                    }
                }
                mi = t;
            }
            t += 1;
        }
        let ghost old_rest = rest@;
        let ghost old_out = out@;
        let m = rest.remove(mi);
        out.push(m);
        proof {
            broadcast use vstd::multiset::group_multiset_axioms;
            broadcast use vstd::seq_lib::group_to_multiset_ensures;

            assert(group_views(old_rest)[mi as int] == m@);
            assert(group_views(rest@) =~= group_views(old_rest).remove(mi as int));
            assert(group_views(out@) =~= group_views(old_out).push(m@));
            vstd::seq_lib::to_multiset_remove(group_views(old_rest), mi as int);
            vstd::seq_lib::to_multiset_build(group_views(old_out), m@);
            assert(group_views(old_rest).to_multiset().count(m@) > 0);
            assert(group_views(out@).to_multiset().add(group_views(rest@).to_multiset())
                =~= group_views(v@).to_multiset());
            assert forall|a: int, b: int|
                0 <= a < out@.len() && 0 <= b < rest@.len() implies lex_le_idx(
                group_views(out@)[a],
                group_views(rest@)[b],
            ) by {
                let ob = if b < mi {
                    b
                } else {
                    b + 1
                };
                assert(group_views(rest@)[b] == group_views(old_rest)[ob]);
                if a < old_out.len() {
                    assert(lex_le_idx(group_views(out@)[a], group_views(old_rest)[ob]));
                } else {
                    assert(group_views(out@)[a] == m@);
                    assert(lex_le_idx(m@, group_views(old_rest)[ob]));
                }
            }
            assert forall|a: int, b: int|
                0 <= a < b < out@.len() implies lex_le_idx(
                group_views(out@)[a],
                group_views(out@)[b],
            ) by {
                if b < old_out.len() {
                    assert(lex_le_idx(group_views(old_out)[a], group_views(old_out)[b]));
                } else {
                    assert(group_views(out@)[b] == m@);
                    assert(lex_le_idx(group_views(old_out)[a], group_views(old_rest)[mi as int]));
                }
            }
        }
    }
    out
}

/// True iff `a` comes no later than `b` in lexicographic order.
pub fn group_le(a: &Vec<usize>, b: &Vec<usize>) -> (r: bool)
    ensures
        r == lex_le_idx(a@, b@),
{
    let mut j: usize = 0;
    proof {
        assert(a@.skip(0) =~= a@);
        assert(b@.skip(0) =~= b@);
    }
    loop
        invariant
            j <= a@.len(),
            j <= b@.len(),
            lex_le_idx(a@, b@) == lex_le_idx(a@.skip(j as int), b@.skip(j as int)),
        decreases a@.len() - j,
    {
        if j >= a.len() {
            proof {
                assert(a@.skip(j as int).len() == 0);
            }
            return true;
        }
        if j >= b.len() {
            proof {
                assert(b@.skip(j as int).len() == 0);
                assert(a@.skip(j as int).len() > 0);
            }
            return false;
        }
        proof {
            assert(a@.skip(j as int).first() == a@[j as int]);
            assert(b@.skip(j as int).first() == b@[j as int]);
        }
        if a[j] < b[j] {
            return true;
        }
        if a[j] > b[j] {
            return false;
        }
        proof {
            assert(a@.skip(j as int).drop_first() =~= a@.skip(j + 1));
            assert(b@.skip(j as int).drop_first() =~= b@.skip(j + 1));
        }
        j += 1;
    }
}

} // verus!
