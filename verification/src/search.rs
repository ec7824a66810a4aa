use vstd::prelude::*;

use crate::closure::{
    apply_action, closed_under_swaps, connected, group_nontrivial, lemma_connected_swap,
    lemma_connected_sym, lemma_connected_trans, matches_some_group, merged_swaps_to_bubbles,
    swaps_touch_columns, trivial_columns,
};
use crate::itertools_specs::powerset_contents;
use crate::schema::{sig_matches, TwoSymbolSchema};
use crate::sorting::{sorted_groups, sorted_indices, sorted_rows};
use crate::swaps::{lemma_swap_self, swap_seq};
use crate::vecops::{contains_pair, group_eq, group_views, schema_eq, views_of};

verus! {

/// The views of a schema's member rows.
pub open spec fn member_views(rec: TwoSymbolSchema) -> Seq<Seq<u8>> {
    views_of(rec.redescribed_schemata@)
}

/// The views of a schema's bubble groups.
pub open spec fn bubble_views(rec: TwoSymbolSchema) -> Seq<Seq<usize>> {
    group_views(rec.bubble_indices@)
}

/// Two schemata that hold the same rows, the same bubbles and the same
/// signature.
pub open spec fn record_views_eq(a: TwoSymbolSchema, b: TwoSymbolSchema) -> bool {
    &&& member_views(a) == member_views(b)
    &&& bubble_views(a) == bubble_views(b)
    &&& a.signature@ == b.signature@
}

/// Some schema of the list holds the row among its members.
pub open spec fn some_record_covers(records: Seq<TwoSymbolSchema>, row: Seq<u8>) -> bool {
    exists|ri: int| 0 <= ri < records.len() && member_views(#[trigger] records[ri]).contains(row)
}

/// Every column of the group lies below `l`.
pub open spec fn group_below(g: Seq<usize>, l: int) -> bool {
    forall|w: int| 0 <= w < g.len() ==> (#[trigger] g[w]) < l
}

/// Swapping any two columns of a bubble maps every member row to a member
/// row.
#[verifier::opaque]
pub open spec fn closed_under_bubble(members: Seq<Seq<u8>>, bubble: Seq<usize>) -> bool {
    forall|a: int, b: int, m: Seq<u8>|
        #![trigger bubble[a], bubble[b], members.contains(m)]
        0 <= a < bubble.len() && 0 <= b < bubble.len() && members.contains(m)
            ==> members.contains(swap_seq(m, bubble[a] as int, bubble[b] as int))
}

/// Some column of the bubble takes two different symbols across the member
/// rows.
#[verifier::opaque]
pub open spec fn bubble_nonconstant(members: Seq<Seq<u8>>, bubble: Seq<usize>) -> bool {
    exists|w: int, m1: Seq<u8>, m2: Seq<u8>|
        #![trigger bubble[w], members.contains(m1), members.contains(m2)]
        0 <= w < bubble.len() && members.contains(m1) && members.contains(m2)
            && m1[bubble[w] as int] != m2[bubble[w] as int]
}

/// What the search promises of every schema it reports for a bucket: the
/// members are bucket rows carrying the recorded signature, sorted and
/// duplicate-free; the bubbles are sorted, pairwise disjoint groups of at
/// least two in-range columns, each closed over the members and constant in
/// none of them.
#[verifier::opaque]
pub open spec fn record_valid_for(
    rec: TwoSymbolSchema,
    bucket_views: Seq<Seq<u8>>,
    sigv: Seq<usize>,
) -> bool {
    &&& rec.signature@ == sigv
    &&& member_views(rec).len() >= 1
    &&& forall|u: int|
        0 <= u < member_views(rec).len() ==> bucket_views.contains(#[trigger] member_views(rec)[u])
    &&& forall|u: int|
        0 <= u < member_views(rec).len() ==> sig_matches(sigv, #[trigger] member_views(rec)[u])
    &&& sorted_rows(member_views(rec))
    &&& member_views(rec).no_duplicates()
    &&& sorted_groups(bubble_views(rec))
    &&& forall|bi: int|
        0 <= bi < bubble_views(rec).len() ==> group_below(
            #[trigger] bubble_views(rec)[bi],
            member_views(rec)[0].len() as int,
        )
    &&& forall|b1: int, b2: int, c: usize|
        #![trigger bubble_views(rec)[b1].contains(c), bubble_views(rec)[b2].contains(c)]
        0 <= b1 < bubble_views(rec).len() && 0 <= b2 < bubble_views(rec).len() && b1 != b2 ==> !(
        bubble_views(rec)[b1].contains(c) && bubble_views(rec)[b2].contains(c))
    &&& forall|bi: int|
        0 <= bi < bubble_views(rec).len() ==> (#[trigger] bubble_views(rec)[bi]).len() >= 2
    &&& forall|bi: int|
        0 <= bi < bubble_views(rec).len() ==> sorted_indices(#[trigger] bubble_views(rec)[bi])
    &&& forall|bi: int|
        0 <= bi < bubble_views(rec).len() ==> (#[trigger] bubble_views(rec)[bi]).no_duplicates()
    &&& forall|bi: int|
        0 <= bi < bubble_views(rec).len() ==> closed_under_bubble(
            member_views(rec),
            #[trigger] bubble_views(rec)[bi],
        )
    &&& forall|bi: int|
        0 <= bi < bubble_views(rec).len() ==> bubble_nonconstant(
            member_views(rec),
            #[trigger] bubble_views(rec)[bi],
        )
}

/// A member set closed under the swaps of a set is closed under every
/// transposition of a group whose columns are all chain-connected to one
/// shared column `i`: transpositions conjugate along the chains.
pub proof fn lemma_bubble_closed(
    members: Seq<Seq<u8>>,
    swaps: Seq<(usize, usize)>,
    bubble: Seq<usize>,
    i: usize,
    l: int,
)
    requires
        forall|m: Seq<u8>| #[trigger] members.contains(m) ==> m.len() == l,
        closed_under_swaps(members, swaps),
        forall|t: int| 0 <= t < swaps.len() ==> (#[trigger] swaps[t]).0 < swaps[t].1 < l,
        i < l,
        forall|w: int| 0 <= w < bubble.len() ==> connected(swaps, i, #[trigger] bubble[w]),
        forall|w: int| 0 <= w < bubble.len() ==> (#[trigger] bubble[w]) < l,
    ensures
        closed_under_bubble(members, bubble),
{
    reveal(closed_under_bubble);
    assert forall|a: int, b: int, m: Seq<u8>|
        #![trigger bubble[a], bubble[b], members.contains(m)]
        0 <= a < bubble.len() && 0 <= b < bubble.len() && members.contains(m) implies
        members.contains(swap_seq(m, bubble[a] as int, bubble[b] as int)) by {
        let j = bubble[a];
        let k = bubble[b];
        if j == k {
            lemma_swap_self(m, j as int);
            assert(swap_seq(m, j as int, k as int) == m);
        } else {
            lemma_connected_sym(swaps, i, j);
            lemma_connected_trans(swaps, j, i, k);
            lemma_connected_swap(members, swaps, j, k, l, m);
        }
    }
}

/// Validity is a property of a schema's views alone, so it carries over to
/// any schema with the same views.
pub proof fn lemma_record_valid_views_eq(
    a: TwoSymbolSchema,
    b: TwoSymbolSchema,
    bucket_views: Seq<Seq<u8>>,
    sigv: Seq<usize>,
)
    requires
        record_valid_for(a, bucket_views, sigv),
        record_views_eq(a, b),
    ensures
        record_valid_for(b, bucket_views, sigv),
{
    reveal(record_valid_for);
    assert(member_views(b) == member_views(a));
    assert(bubble_views(b) == bubble_views(a));
}

/// The candidates that were not skipped, in candidate order.
pub fn retain_swaps(
    candidates: &Vec<(usize, usize)>,
    skipped: &Vec<(usize, usize)>,
) -> (r: Vec<(usize, usize)>)
    requires
        candidates@.no_duplicates(),
    ensures
        forall|p: (usize, usize)|
            #[trigger] r@.contains(p) <==> (candidates@.contains(p) && !skipped@.contains(p)),
        forall|w: int| 0 <= w < r@.len() ==> candidates@.contains(#[trigger] r@[w]),
        r@.no_duplicates(),
{
    let mut r: Vec<(usize, usize)> = Vec::new();
    let mut k: usize = 0;
    while k < candidates.len()
        invariant
            k <= candidates@.len(),
            candidates@.no_duplicates(),
            forall|p: (usize, usize)|
                #[trigger] r@.contains(p) <==> (exists|w: int|
                    0 <= w < k && #[trigger] candidates@[w] == p) && !skipped@.contains(p),
            forall|w: int| 0 <= w < r@.len() ==> candidates@.contains(#[trigger] r@[w]),
            r@.no_duplicates(),
        decreases candidates@.len() - k,
    {
        let ghost old_r = r@;
        let c = candidates[k];
        if !contains_pair(skipped, c) {
            r.push(c);
            proof {
                assert(r@[r@.len() - 1] == c);
                assert(candidates@[k as int] == c);
                assert(!old_r.contains(c)) by {
                    if old_r.contains(c) {
                        let w = choose|w: int| 0 <= w < k && candidates@[w] == c;
                    }
                }
                assert(r@.no_duplicates()) by {
                    assert(forall|w: int| 0 <= w < old_r.len() ==> r@[w] == old_r[w]);
                }
                assert forall|p: (usize, usize)| #[trigger]
                    r@.contains(p) implies (exists|w: int|
                    0 <= w < k + 1 && #[trigger] candidates@[w] == p) && !skipped@.contains(p) by {
                    let wi = choose|wi: int| 0 <= wi < r@.len() && r@[wi] == p;
                    if wi < old_r.len() {
                        assert(old_r.contains(p));
                    } else {
                        assert(p == c);
                        assert(candidates@[k as int] == p);
                    }
                }
                assert forall|p: (usize, usize)|
                    (exists|w: int| 0 <= w < k + 1 && #[trigger] candidates@[w] == p)
                        && !skipped@.contains(p) implies #[trigger] r@.contains(p) by {
                    let w = choose|w: int| 0 <= w < k + 1 && candidates@[w] == p;
                    if w < k {
                        assert(old_r.contains(p));
                        let wi = choose|wi: int| 0 <= wi < old_r.len() && old_r[wi] == p;
                        assert(r@[wi] == p);
                    } else {
                        assert(p == c);
                    }
                }
            }
        } else {
            proof {
                assert forall|p: (usize, usize)|
                    (exists|w: int| 0 <= w < k + 1 && #[trigger] candidates@[w] == p)
                        && !skipped@.contains(p) implies #[trigger] r@.contains(p) by {
                    let w = choose|w: int| 0 <= w < k + 1 && candidates@[w] == p;
                    if w == k {
                        assert(p == c);
                        assert(false);
                    }
                }
            }
        }
        k += 1;
    }
    proof {
        assert forall|p: (usize, usize)| #[trigger]
            candidates@.contains(p) && !skipped@.contains(p) implies r@.contains(p) by {
            let w = choose|w: int| 0 <= w < candidates@.len() && candidates@[w] == p;
        }
    }
    r
}

/// True iff every swap of `a` also stands in `b`.
pub fn swaps_is_subset(a: &Vec<(usize, usize)>, b: &Vec<(usize, usize)>) -> (r: bool)
    ensures
        r <==> (forall|w: int| 0 <= w < a@.len() ==> b@.contains(#[trigger] a@[w])),
{
    let mut w: usize = 0;
    while w < a.len()
        invariant
            w <= a@.len(),
            forall|t: int| 0 <= t < w ==> b@.contains(#[trigger] a@[t]),
        decreases a@.len() - w,
    {
        if !contains_pair(b, a[w]) {
            return false;
        }
        w += 1;
    }
    true
}

/// True iff the two schemata hold the same rows, bubbles and signature.
pub fn record_eq(a: &TwoSymbolSchema, b: &TwoSymbolSchema) -> (r: bool)
    ensures
        r <==> record_views_eq(*a, *b),
{
    if a.redescribed_schemata.len() != b.redescribed_schemata.len() {
        proof {
            assert(member_views(*a).len() != member_views(*b).len());
        }
        return false;
    }
    let mut u: usize = 0;
    while u < a.redescribed_schemata.len()
        invariant
            u <= a.redescribed_schemata@.len(),
            a.redescribed_schemata@.len() == b.redescribed_schemata@.len(),
            forall|w: int| 0 <= w < u ==> member_views(*a)[w] == member_views(*b)[w],
        decreases a.redescribed_schemata@.len() - u,
    {
        if !schema_eq(&a.redescribed_schemata[u], &b.redescribed_schemata[u]) {
            proof {
                assert(member_views(*a)[u as int] != member_views(*b)[u as int]);
            }
            return false;
        }
        u += 1;
    }
    proof {
        assert(member_views(*a) =~= member_views(*b));
    }
    if a.bubble_indices.len() != b.bubble_indices.len() {
        proof {
            assert(bubble_views(*a).len() != bubble_views(*b).len());
        }
        return false;
    }
    let mut v: usize = 0;
    while v < a.bubble_indices.len()
        invariant
            v <= a.bubble_indices@.len(),
            a.bubble_indices@.len() == b.bubble_indices@.len(),
            member_views(*a) == member_views(*b),
            forall|w: int| 0 <= w < v ==> bubble_views(*a)[w] == bubble_views(*b)[w],
        decreases a.bubble_indices@.len() - v,
    {
        if !group_eq(&a.bubble_indices[v], &b.bubble_indices[v]) {
            proof {
                assert(bubble_views(*a)[v as int] != bubble_views(*b)[v as int]);
            }
            return false;
        }
        v += 1;
    }
    proof {
        assert(bubble_views(*a) =~= bubble_views(*b));
    }
    group_eq(&a.signature, &b.signature)
}

/// Add the schema to the list unless an equal one already stands there.
pub fn insert_record(records: Vec<TwoSymbolSchema>, rec: TwoSymbolSchema) -> (r: Vec<
    TwoSymbolSchema,
>)
    requires
        forall|r1: int, r2: int|
            0 <= r1 < r2 < records@.len() ==> !record_views_eq(
                #[trigger] records@[r1],
                #[trigger] records@[r2],
            ),
    ensures
        forall|r1: int, r2: int|
            0 <= r1 < r2 < r@.len() ==> !record_views_eq(#[trigger] r@[r1], #[trigger] r@[r2]),
        r@.len() >= records@.len(),
        forall|ri: int| 0 <= ri < records@.len() ==> r@[ri] == records@[ri],
        forall|ri: int|
            0 <= ri < r@.len() ==> (records@.contains(#[trigger] r@[ri]) || record_views_eq(
                r@[ri],
                rec,
            )),
        exists|ri: int| 0 <= ri < r@.len() && record_views_eq(#[trigger] r@[ri], rec),
{
    let mut found = false;
    let mut ri: usize = 0;
    while ri < records.len()
        invariant
            ri <= records@.len(),
            found ==> exists|w: int|
                0 <= w < records@.len() && record_views_eq(#[trigger] records@[w], rec),
            !found ==> forall|w: int|
                0 <= w < ri ==> !record_views_eq(#[trigger] records@[w], rec),
        decreases records@.len() - ri,
    {
        if record_eq(&records[ri], &rec) {
            proof {
                assert(record_views_eq(records@[ri as int], rec));
            }
            found = true;
        }
        ri += 1;
    }
    if found {
        proof {
            let w = choose|w: int|
                0 <= w < records@.len() && record_views_eq(#[trigger] records@[w], rec);
            assert(records@.contains(records@[w]));
        }
        records
    } else {
        let ghost old_records = records@;
        let mut out = records;
        out.push(rec);
        proof {
            assert(out@[out@.len() - 1] == rec);
            assert(record_views_eq(rec, rec));
            assert forall|r1: int, r2: int|
                0 <= r1 < r2 < out@.len() implies !record_views_eq(
                #[trigger] out@[r1],
                #[trigger] out@[r2],
            ) by {
                if r2 == out@.len() - 1 {
                    assert(out@[r1] == old_records[r1]);
                    assert(!record_views_eq(old_records[r1], rec));
                } else {
                    assert(out@[r1] == old_records[r1]);
                    assert(out@[r2] == old_records[r2]);
                }
            }
            assert forall|w: int|
                0 <= w < out@.len() implies (old_records.contains(#[trigger] out@[w])
                || record_views_eq(out@[w], rec)) by {
                if w < old_records.len() {
                    assert(out@[w] == old_records[w]);
                    assert(old_records.contains(old_records[w]));
                }
            }
        }
        out
    }
}

/// Compress one bucket of rows that share a signature: for every root row,
/// search the subsets of its candidate swaps, largest first, for closed and
/// faithful group actions, and record each accepted orbit with its bubbles,
/// collapsing equal findings.
///
/// The subset enumeration is exponential in the number of candidate swaps of
/// a root, which is bounded by the rows' local column differences and the
/// column count; callers with wide, highly symmetric buckets should bound
/// that count themselves.
#[verifier::loop_isolation(false)]
#[verifier::rlimit(60)]
pub fn tss_for_one_symbol_schemata_with_signature(
    one_symbol_schemata: &Vec<Vec<u8>>,
    signature: Vec<usize>,
) -> (out: Vec<TwoSymbolSchema>)
    requires
        one_symbol_schemata@.len() >= 1,
        one_symbol_schemata@[0]@.len() < usize::MAX,
        forall|k: int|
            0 <= k < one_symbol_schemata@.len() ==> (#[trigger] one_symbol_schemata@[k]@).len()
                == one_symbol_schemata@[0]@.len(),
        forall|k: int|
            0 <= k < one_symbol_schemata@.len() ==> sig_matches(
                signature@,
                #[trigger] one_symbol_schemata@[k]@,
            ),
    ensures
        forall|ri: int|
            0 <= ri < out@.len() ==> record_valid_for(
                #[trigger] out@[ri],
                views_of(one_symbol_schemata@),
                signature@,
            ),
        forall|k: int|
            0 <= k < one_symbol_schemata@.len() ==> some_record_covers(
                out@,
                #[trigger] views_of(one_symbol_schemata@)[k],
            ),
        forall|r1: int, r2: int|
            0 <= r1 < r2 < out@.len() ==> !record_views_eq(
                #[trigger] out@[r1],
                #[trigger] out@[r2],
            ),
        forall|ri: int| 0 <= ri < out@.len() ==> (#[trigger] out@[ri]).signature@ == signature@,
        one_symbol_schemata@.len() == 1 ==> (out@.len() == 1 && member_views(out@[0])
            == views_of(one_symbol_schemata@) && bubble_views(out@[0]).len() == 0),
{
    let ghost bucket_views = views_of(one_symbol_schemata@);
    if one_symbol_schemata.len() <= 1 {
        let rec = TwoSymbolSchema::trivial(
            crate::vecops::copy_schemata(one_symbol_schemata),
            Some(signature),
            None,
        );
        proof {
            assert(member_views(rec) == bucket_views);
            assert(bubble_views(rec).len() == 0);
            assert(member_views(rec).contains(bucket_views[0])) by {
                assert(member_views(rec)[0] == bucket_views[0]);
            }
            assert forall|u: int|
                0 <= u < member_views(rec).len() implies bucket_views.contains(
                #[trigger] member_views(rec)[u],
            ) by {
                assert(bucket_views[u] == member_views(rec)[u]);
            }
        }
        let mut out: Vec<TwoSymbolSchema> = Vec::new();
        out.push(rec);
        proof {
            assert(out@[0] == rec);
            reveal(record_valid_for);
            assert(record_valid_for(rec, bucket_views, signature@));
            assert forall|k: int|
                0 <= k < one_symbol_schemata@.len() implies some_record_covers(
                out@,
                #[trigger] bucket_views[k],
            ) by {
                assert(k == 0);
                assert(member_views(out@[0]).contains(bucket_views[0]));
            }
        }
        return out;
    }
    let ghost l = one_symbol_schemata@[0]@.len() as int;
    proof {
        assert forall|k: int|
            0 <= k < bucket_views.len() implies sig_matches(
            signature@,
            #[trigger] bucket_views[k],
        ) by {
            assert(bucket_views[k] == one_symbol_schemata@[k]@);
        }
    }
    let nontrivial = crate::candidates::nontrivial_columns(one_symbol_schemata);
    let mut sym: Vec<TwoSymbolSchema> = Vec::new();
    let mut r_idx: usize = 0;
    while r_idx < one_symbol_schemata.len()
        invariant
            r_idx <= one_symbol_schemata@.len(),
            forall|ri: int|
                0 <= ri < sym@.len() ==> record_valid_for(
                    #[trigger] sym@[ri],
                    bucket_views,
                    signature@,
                ),
            forall|k: int|
                0 <= k < r_idx ==> some_record_covers(sym@, #[trigger] bucket_views[k]),
            forall|r1: int, r2: int|
                0 <= r1 < r2 < sym@.len() ==> !record_views_eq(
                    #[trigger] sym@[r1],
                    #[trigger] sym@[r2],
                ),
            forall|ri: int|
                0 <= ri < sym@.len() ==> (#[trigger] sym@[ri]).signature@ == signature@,
        decreases one_symbol_schemata@.len() - r_idx,
    {
        let root = &one_symbol_schemata[r_idx];
        proof {
            assert(root@ == bucket_views[r_idx as int]);
        }
        let cands = crate::candidates::swap_candidates(root, one_symbol_schemata, &nontrivial);
        let mut it = crate::itertools_specs::powerset_iter(&cands);
        let mut good_swaps: Vec<Vec<(usize, usize)>> = Vec::new();
        proof {
            assert(root@.len() == l);
        }
        let mut done = false;
        while !done
            invariant
                done ==> powerset_contents(it).len() == 0,
                some_record_covers(sym@, root@) || (good_swaps@.len() == 0 && exists|kk: int|
                    0 <= kk < powerset_contents(it).len() && #[trigger] powerset_contents(
                        it,
                    )[kk] == cands@),
                forall|ri: int|
                    0 <= ri < sym@.len() ==> record_valid_for(
                        #[trigger] sym@[ri],
                        bucket_views,
                        signature@,
                    ),
                forall|k: int|
                    0 <= k < r_idx ==> some_record_covers(sym@, #[trigger] bucket_views[k]),
                forall|r1: int, r2: int|
                    0 <= r1 < r2 < sym@.len() ==> !record_views_eq(
                        #[trigger] sym@[r1],
                        #[trigger] sym@[r2],
                    ),
                forall|ri: int|
                    0 <= ri < sym@.len() ==> (#[trigger] sym@[ri]).signature@ == signature@,
            decreases powerset_contents(it).len() + (if done {
                0int
            } else {
                1int
            }),
        {
            let ghost pre_contents = powerset_contents(it);
            let nxt = crate::itertools_specs::powerset_next(&mut it);
            match nxt {
                None => {
                    proof {
                        assert(pre_contents.len() == 0);
                        assert(some_record_covers(sym@, root@));
                    }
                    done = true;
                },
                Some(skipped) => {
                    proof {
                        assert(skipped@ == pre_contents[0]);
                        assert(powerset_contents(it) == pre_contents.drop_first());
                    }
                    let swaps = retain_swaps(&cands, &skipped);
                    let ghost gswaps = swaps@;
                    let mut prune = false;
                    let mut gi: usize = 0;
                    while gi < good_swaps.len()
                        invariant
                            gi <= good_swaps@.len(),
                            prune ==> good_swaps@.len() > 0,
                        decreases good_swaps@.len() - gi,
                    {
                        if swaps_is_subset(&swaps, &good_swaps[gi]) {
                            prune = true;
                        }
                        gi += 1;
                    }
                    proof {
                        // when the full candidate list is the one skipped, the
                        // surviving swap set is empty
                        if skipped@ == cands@ {
                            assert(gswaps.len() == 0) by {
                                if gswaps.len() > 0 {
                                    assert(gswaps.contains(gswaps[0]));
                                    assert(cands@.contains(gswaps[0]) && !skipped@.contains(
                                        gswaps[0],
                                    ));
                                }
                            }
                        }
                    }
                    if !prune {
                        let res = apply_action(root, &swaps, one_symbol_schemata);
                        let closed = res.0;
                        let orbit = res.1;
                        let merged = res.2;
                        let ghost ov = views_of(orbit@);
                        proof {
                            if gswaps.len() == 0 {
                                assert(ov == seq![root@]);
                                assert forall|m: Seq<u8>| #[trigger]
                                    ov.contains(m) implies bucket_views.contains(m) by {
                                    let w = choose|w: int| 0 <= w < ov.len() && ov[w] == m;
                                    assert(m == root@);
                                    assert(bucket_views[r_idx as int] == root@);
                                }
                                assert(closed);
                            }
                        }
                        if closed {
                            proof {
                                assert forall|k: int|
                                    0 <= k < orbit@.len() implies (#[trigger] orbit@[k]@).len()
                                    == root@.len() by {
                                    assert(ov[k] == orbit@[k]@);
                                }
                            }
                            let trivial = trivial_columns(root, &orbit);
                            if !swaps_touch_columns(&swaps, &trivial) {
                                let bubbles = merged_swaps_to_bubbles(&merged, &trivial);
                                let ghost gbubbles = bubbles@;
                                let bubbles_sorted = crate::sorting::sort_groups(bubbles);
                                let members = crate::itertools_specs::sorted_schemata(&orbit);
                                let ghost mv = views_of(members@);
                                let ghost obv = group_views(gbubbles);
                                let ghost bv = group_views(bubbles_sorted@);
                                proof {
                                    mv.to_multiset_ensures();
                                    ov.to_multiset_ensures();
                                    assert forall|x: Seq<u8>| mv.contains(x) <==> ov.contains(
                                        x,
                                    ) by {
                                        assert(mv.contains(x) <==> mv.to_multiset().count(x) > 0);
                                        assert(ov.contains(x) <==> ov.to_multiset().count(x) > 0);
                                    }
                                    assert(mv.len() == ov.len());
                                    assert(ov.contains(root@));
                                    assert(mv.len() >= 1) by {
                                        let w = choose|w: int| 0 <= w < ov.len() && ov[w]
                                            == root@;
                                    }
                                    bv.to_multiset_ensures();
                                    obv.to_multiset_ensures();
                                    assert forall|g: Seq<usize>| bv.contains(g) <==> obv.contains(
                                        g,
                                    ) by {
                                        assert(bv.contains(g) <==> bv.to_multiset().count(g) > 0);
                                        assert(obv.contains(g) <==> obv.to_multiset().count(g)
                                            > 0);
                                    }
                                }
                                let rec = TwoSymbolSchema::new(
                                    members,
                                    bubbles_sorted,
                                    crate::vecops::copy_group(&signature),
                                );
                                proof {
                                    assert(member_views(rec) == mv);
                                    assert(bubble_views(rec) == bv);
                                    assert(rec.signature@ == signature@);
                                    lemma_record_parts_valid(
                                        rec,
                                        bucket_views,
                                        signature@,
                                        orbit@,
                                        gbubbles,
                                        gswaps,
                                        merged@,
                                        trivial@,
                                        root@,
                                        l,
                                    );
                                    assert(record_valid_for(rec, bucket_views, signature@));
                                }
                                let ghost old_sym = sym@;
                                let ghost grec = rec;
                                sym = insert_record(sym, rec);
                                proof {
                                    assert forall|ri: int|
                                        0 <= ri < sym@.len() implies record_valid_for(
                                        #[trigger] sym@[ri],
                                        bucket_views,
                                        signature@,
                                    ) by {
                                        if old_sym.contains(sym@[ri]) {
                                            let w = choose|w: int|
                                                0 <= w < old_sym.len() && old_sym[w] == sym@[ri];
                                        } else {
                                            assert(record_views_eq(sym@[ri], grec));
                                            lemma_record_valid_views_eq(
                                                grec,
                                                sym@[ri],
                                                bucket_views,
                                                signature@,
                                            );
                                        }
                                    }
                                    assert(some_record_covers(sym@, root@)) by {
                                        let ri = choose|ri: int|
                                            0 <= ri < sym@.len() && record_views_eq(
                                                #[trigger] sym@[ri],
                                                grec,
                                            );
                                        assert(member_views(grec).contains(root@)) by {
                                            assert(ov.contains(root@));
                                        }
                                        assert(member_views(sym@[ri]).contains(root@));
                                    }
                                    assert forall|k: int|
                                        0 <= k < r_idx implies some_record_covers(
                                        sym@,
                                        #[trigger] bucket_views[k],
                                    ) by {
                                        let ri = choose|ri: int|
                                            0 <= ri < old_sym.len() && member_views(
                                                #[trigger] old_sym[ri],
                                            ).contains(bucket_views[k]);
                                        assert(sym@[ri] == old_sym[ri]);
                                        assert(member_views(sym@[ri]).contains(bucket_views[k]));
                                    }
                                }
                                good_swaps.push(swaps);
                            } else {
                                proof {
                                    lemma_keep_searching(
                                        sym@,
                                        root@,
                                        good_swaps@.len() as int,
                                        pre_contents,
                                        powerset_contents(it),
                                        cands@,
                                        skipped@,
                                        gswaps.len() != 0,
                                    );
                                }
                            }
                        } else {
                            proof {
                                lemma_keep_searching(
                                    sym@,
                                    root@,
                                    good_swaps@.len() as int,
                                    pre_contents,
                                    powerset_contents(it),
                                    cands@,
                                    skipped@,
                                    gswaps.len() != 0,
                                );
                            }
                        }
                    } else {
                        proof {
                            assert(good_swaps@.len() > 0);
                            assert(some_record_covers(sym@, root@));
                        }
                    }
                },
            }
        }
        proof {
            assert(some_record_covers(sym@, root@));
        }
        r_idx += 1;
        proof {
            assert forall|k: int|
                0 <= k < r_idx implies some_record_covers(sym@, #[trigger] bucket_views[k]) by {
                if k == r_idx - 1 {
                    assert(some_record_covers(sym@, bucket_views[r_idx - 1]));
                }
            }
        }
    }
    proof {
        assert forall|k: int|
            0 <= k < one_symbol_schemata@.len() implies some_record_covers(
            sym@,
            #[trigger] views_of(one_symbol_schemata@)[k],
        ) by {
            assert(some_record_covers(sym@, bucket_views[k]));
        }
    }
    sym
}

/// A multiset-equal pair of row lists holds the same rows.
proof fn lemma_rows_contains_equiv(a: Seq<Seq<u8>>, b: Seq<Seq<u8>>)
    requires
        a.to_multiset() == b.to_multiset(),
    ensures
        forall|x: Seq<u8>| a.contains(x) <==> b.contains(x),
{
    a.to_multiset_ensures();
    b.to_multiset_ensures();
    assert forall|x: Seq<u8>| a.contains(x) <==> b.contains(x) by {
        assert(a.contains(x) <==> a.to_multiset().count(x) > 0);
        assert(b.contains(x) <==> b.to_multiset().count(x) > 0);
    }
}

/// A multiset-equal pair of group lists holds the same groups.
proof fn lemma_groups_contains_equiv(a: Seq<Seq<usize>>, b: Seq<Seq<usize>>)
    requires
        a.to_multiset() == b.to_multiset(),
    ensures
        forall|g: Seq<usize>| a.contains(g) <==> b.contains(g),
{
    a.to_multiset_ensures();
    b.to_multiset_ensures();
    assert forall|g: Seq<usize>| a.contains(g) <==> b.contains(g) by {
        assert(a.contains(g) <==> a.to_multiset().count(g) > 0);
        assert(b.contains(g) <==> b.to_multiset().count(g) > 0);
    }
}

/// One bubble group cut from the merged classes of an accepted swap set is
/// closed over the members: its columns are all chain-connected to the class
/// owner.
#[verifier::spinoff_prover]
proof fn lemma_one_bubble_closed(
    mv: Seq<Seq<u8>>,
    swaps: Seq<(usize, usize)>,
    merged_s: Seq<Vec<usize>>,
    l: int,
    g: Seq<usize>,
)
    requires
        forall|m: Seq<u8>| #[trigger] mv.contains(m) ==> m.len() == l,
        closed_under_swaps(mv, swaps),
        forall|t: int| 0 <= t < swaps.len() ==> (#[trigger] swaps[t]).0 < swaps[t].1 < l,
        l < usize::MAX,
        merged_s.len() == l,
        forall|i: usize, j: usize|
            #![trigger merged_s[i as int]@.contains(j)]
            i < l ==> (merged_s[i as int]@.contains(j) <==> connected(swaps, i, j)),
        forall|w: int| 0 <= w < g.len() ==> (#[trigger] g[w]) < merged_s.len(),
        matches_some_group(g, merged_s),
    ensures
        closed_under_bubble(mv, g),
{
    let gi = choose|gi: int|
        0 <= gi < merged_s.len() && g.to_set() == (#[trigger] merged_s[gi])@.to_set();
    let iu = gi as usize;
    assert(iu as int == gi);
    assert forall|w: int| 0 <= w < g.len() implies connected(swaps, iu, #[trigger] g[w]) by {
        assert(g.contains(g[w]));
        assert(g.to_set().contains(g[w]));
        assert(merged_s[gi]@.to_set().contains(g[w]));
        assert(merged_s[iu as int]@.contains(g[w]));
    }
    lemma_bubble_closed(mv, swaps, g, iu, l);
}

/// A bubble group holding a column that is not trivial over the orbit is not
/// constant over the members.
#[verifier::spinoff_prover]
proof fn lemma_one_bubble_nonconstant(
    mv: Seq<Seq<u8>>,
    orbit_s: Seq<Vec<u8>>,
    trivial: Seq<usize>,
    root: Seq<u8>,
    l: int,
    g: Seq<usize>,
)
    requires
        forall|k: int| 0 <= k < orbit_s.len() ==> mv.contains(#[trigger] orbit_s[k]@),
        mv.contains(root),
        l == root.len(),
        forall|c: usize|
            #[trigger] trivial.contains(c) <==> c < root.len() && (forall|k: int|
                0 <= k < orbit_s.len() ==> (#[trigger] orbit_s[k]@)[c as int] == root[c as int]),
        forall|w: int| 0 <= w < g.len() ==> (#[trigger] g[w]) < l,
        group_nontrivial(g, trivial),
    ensures
        bubble_nonconstant(mv, g),
{
    let w = choose|w: int| 0 <= w < g.len() && !trivial.contains(#[trigger] g[w]);
    let c = g[w];
    assert(c < l);
    assert(!(forall|k: int|
        0 <= k < orbit_s.len() ==> (#[trigger] orbit_s[k]@)[c as int] == root[c as int])) by {
        if forall|k: int|
            0 <= k < orbit_s.len() ==> (#[trigger] orbit_s[k]@)[c as int] == root[c as int] {
            assert(trivial.contains(c));
        }
    }
    let k = choose|k: int|
        0 <= k < orbit_s.len() && (#[trigger] orbit_s[k]@)[c as int] != root[c as int];
    let m1 = orbit_s[k]@;
    assert(mv.contains(m1));
    assert(m1[g[w] as int] != root[g[w] as int]);
    reveal(bubble_nonconstant);
    assert(bubble_nonconstant(mv, g));
}

/// A multiset-equal copy of a duplicate-free row list is duplicate-free.
proof fn lemma_rows_nodup_transfer(a: Seq<Seq<u8>>, b: Seq<Seq<u8>>)
    requires
        a.to_multiset() == b.to_multiset(),
        b.no_duplicates(),
    ensures
        a.no_duplicates(),
{
    b.lemma_multiset_has_no_duplicates();
    a.lemma_multiset_has_no_duplicates_conv();
}

/// A permutation of a pairwise disjoint list of nonempty groups is itself
/// pairwise disjoint.
#[verifier::spinoff_prover]
proof fn lemma_bubbles_disjoint_transfer(bv: Seq<Seq<usize>>, bubbles_s: Seq<Vec<usize>>)
    requires
        bv.to_multiset() == group_views(bubbles_s).to_multiset(),
        forall|bi: int| 0 <= bi < bubbles_s.len() ==> (#[trigger] bubbles_s[bi]@).len() >= 2,
        forall|b1: int, b2: int, c: usize|
            #![trigger bubbles_s[b1]@.contains(c), bubbles_s[b2]@.contains(c)]
            0 <= b1 < bubbles_s.len() && 0 <= b2 < bubbles_s.len() && b1 != b2 ==> !(
            bubbles_s[b1]@.contains(c) && bubbles_s[b2]@.contains(c)),
    ensures
        forall|b1: int, b2: int, c: usize|
            #![trigger bv[b1].contains(c), bv[b2].contains(c)]
            0 <= b1 < bv.len() && 0 <= b2 < bv.len() && b1 != b2 ==> !(bv[b1].contains(c)
                && bv[b2].contains(c)),
{
    let obv = group_views(bubbles_s);
    lemma_groups_contains_equiv(bv, obv);
    assert(obv.no_duplicates()) by {
        assert forall|b1: int, b2: int|
            0 <= b1 < obv.len() && 0 <= b2 < obv.len() && b1 != b2 implies obv[b1]
            != obv[b2] by {
            if obv[b1] == obv[b2] {
                let c = bubbles_s[b1]@[0];
                assert(bubbles_s[b1]@.contains(c));
                assert(bubbles_s[b2]@ == obv[b2]);
                assert(bubbles_s[b2]@.contains(c));
            }
        }
    }
    assert(bv.no_duplicates()) by {
        obv.lemma_multiset_has_no_duplicates();
        bv.lemma_multiset_has_no_duplicates_conv();
    }
    assert forall|b1: int, b2: int, c: usize|
        0 <= b1 < bv.len() && 0 <= b2 < bv.len() && b1 != b2 implies !((#[trigger] bv[b1].contains(
        c,
    )) && (#[trigger] bv[b2].contains(c))) by {
        if bv[b1].contains(c) && bv[b2].contains(c) {
            assert(bv[b1] != bv[b2]);
            assert(obv.contains(bv[b1]));
            assert(obv.contains(bv[b2]));
            let c1 = choose|c1: int| 0 <= c1 < obv.len() && obv[c1] == bv[b1];
            let c2 = choose|c2: int| 0 <= c2 < obv.len() && obv[c2] == bv[b2];
            assert(c1 != c2);
            assert(bubbles_s[c1]@.contains(c));
            assert(bubbles_s[c2]@.contains(c));
        }
    }
}

/// The member half of record validity: a sorted, duplicate-free copy of a
/// closed orbit draws its rows from the bucket, all carrying the bucket's
/// signature.
#[verifier::spinoff_prover]
proof fn lemma_record_member_part(
    rec: TwoSymbolSchema,
    bucket_views: Seq<Seq<u8>>,
    sigv: Seq<usize>,
    orbit_s: Seq<Vec<u8>>,
    swaps: Seq<(usize, usize)>,
    root: Seq<u8>,
    l: int,
)
    requires
        member_views(rec).to_multiset() == views_of(orbit_s).to_multiset(),
        views_of(orbit_s).contains(root),
        views_of(orbit_s).no_duplicates(),
        l == root.len(),
        forall|u: int| 0 <= u < orbit_s.len() ==> (#[trigger] views_of(orbit_s)[u]).len() == l,
        forall|m: Seq<u8>| #[trigger] views_of(orbit_s).contains(m) ==> bucket_views.contains(m),
        closed_under_swaps(views_of(orbit_s), swaps),
        forall|k: int| 0 <= k < bucket_views.len() ==> sig_matches(sigv, #[trigger] bucket_views[k]),
    ensures
        member_views(rec).len() >= 1,
        member_views(rec).contains(root),
        member_views(rec).no_duplicates(),
        member_views(rec)[0].len() == l,
        forall|u: int|
            0 <= u < member_views(rec).len() ==> bucket_views.contains(
                #[trigger] member_views(rec)[u],
            ),
        forall|u: int|
            0 <= u < member_views(rec).len() ==> sig_matches(sigv, #[trigger] member_views(rec)[u]),
        forall|m: Seq<u8>| #[trigger] member_views(rec).contains(m) ==> m.len() == l,
        closed_under_swaps(member_views(rec), swaps),
        forall|k: int| 0 <= k < orbit_s.len() ==> member_views(rec).contains(#[trigger] orbit_s[k]@),
{
    let mv = member_views(rec);
    let ov = views_of(orbit_s);
    lemma_rows_contains_equiv(mv, ov);
    lemma_rows_nodup_transfer(mv, ov);
    assert(mv.contains(root));
    assert(mv.len() >= 1) by {
        let u = choose|u: int| 0 <= u < mv.len() && mv[u] == root;
    }
    assert forall|u: int| 0 <= u < mv.len() implies bucket_views.contains(#[trigger] mv[u]) by {
        assert(mv.contains(mv[u]));
        assert(ov.contains(mv[u]));
    }
    assert forall|u: int| 0 <= u < mv.len() implies sig_matches(sigv, #[trigger] mv[u]) by {
        assert(bucket_views.contains(mv[u]));
        let k = choose|k: int| 0 <= k < bucket_views.len() && bucket_views[k] == mv[u];
        assert(sig_matches(sigv, bucket_views[k]));
    }
    assert forall|m: Seq<u8>| #[trigger] mv.contains(m) implies m.len() == l by {
        assert(ov.contains(m));
        let u = choose|u: int| 0 <= u < ov.len() && ov[u] == m;
    }
    crate::closure::lemma_closed_under_swaps_equiv(mv, ov, swaps);
    assert forall|k: int| 0 <= k < orbit_s.len() implies mv.contains(#[trigger] orbit_s[k]@) by {
        assert(ov[k] == orbit_s[k]@);
        assert(ov.contains(ov[k]));
    }
    assert(mv[0].len() == l) by {
        assert(mv.contains(mv[0]));
    }
}

/// The bubble half of record validity: every sorted bubble group cut from
/// the merged classes is closed over the members and constant in none of
/// them, and its columns lie below the row length.
#[verifier::rlimit(20)]
proof fn lemma_record_bubble_part(
    rec: TwoSymbolSchema,
    orbit_s: Seq<Vec<u8>>,
    bubbles_s: Seq<Vec<usize>>,
    swaps: Seq<(usize, usize)>,
    merged_s: Seq<Vec<usize>>,
    trivial: Seq<usize>,
    root: Seq<u8>,
    l: int,
)
    requires
        bubble_views(rec).to_multiset() == group_views(bubbles_s).to_multiset(),
        l == root.len(),
        l < usize::MAX,
        merged_s.len() == l,
        member_views(rec).contains(root),
        forall|m: Seq<u8>| #[trigger] member_views(rec).contains(m) ==> m.len() == l,
        closed_under_swaps(member_views(rec), swaps),
        forall|k: int| 0 <= k < orbit_s.len() ==> member_views(rec).contains(#[trigger] orbit_s[k]@),
        forall|t: int| 0 <= t < swaps.len() ==> (#[trigger] swaps[t]).0 < swaps[t].1 < l,
        forall|i: usize, j: usize|
            #![trigger merged_s[i as int]@.contains(j)]
            i < l ==> (merged_s[i as int]@.contains(j) <==> connected(swaps, i, j)),
        forall|c: usize|
            #[trigger] trivial.contains(c) <==> c < root.len() && (forall|k: int|
                0 <= k < orbit_s.len() ==> (#[trigger] orbit_s[k]@)[c as int] == root[c as int]),
        forall|bi: int| 0 <= bi < bubbles_s.len() ==> (#[trigger] bubbles_s[bi]@).len() >= 2,
        forall|bi: int| 0 <= bi < bubbles_s.len() ==> sorted_indices(#[trigger] bubbles_s[bi]@),
        forall|bi: int|
            0 <= bi < bubbles_s.len() ==> (#[trigger] bubbles_s[bi]@).no_duplicates(),
        forall|bi: int, w: int|
            0 <= bi < bubbles_s.len() && 0 <= w < bubbles_s[bi]@.len() ==> (
            #[trigger] bubbles_s[bi]@[w]) < merged_s.len(),
        forall|bi: int|
            0 <= bi < bubbles_s.len() ==> matches_some_group(#[trigger] bubbles_s[bi]@, merged_s),
        forall|bi: int|
            0 <= bi < bubbles_s.len() ==> group_nontrivial(#[trigger] bubbles_s[bi]@, trivial),
    ensures
        forall|bi: int| 0 <= bi < bubble_views(rec).len() ==> (#[trigger] bubble_views(rec)[bi]).len()
            >= 2,
        forall|bi: int|
            0 <= bi < bubble_views(rec).len() ==> sorted_indices(#[trigger] bubble_views(rec)[bi]),
        forall|bi: int|
            0 <= bi < bubble_views(rec).len() ==> (#[trigger] bubble_views(rec)[bi]).no_duplicates(),
        forall|bi: int|
            0 <= bi < bubble_views(rec).len() ==> closed_under_bubble(
                member_views(rec),
                #[trigger] bubble_views(rec)[bi],
            ),
        forall|bi: int|
            0 <= bi < bubble_views(rec).len() ==> bubble_nonconstant(
                member_views(rec),
                #[trigger] bubble_views(rec)[bi],
            ),
        forall|bi: int|
            0 <= bi < bubble_views(rec).len() ==> group_below(#[trigger] bubble_views(rec)[bi], l),
{
    let mv = member_views(rec);
    let bv = bubble_views(rec);
    let obv = group_views(bubbles_s);
    lemma_groups_contains_equiv(bv, obv);
    assert forall|bi: int|
        0 <= bi < bv.len() implies (#[trigger] bv[bi]).len() >= 2 && sorted_indices(bv[bi])
        && bv[bi].no_duplicates() && group_below(bv[bi], l) && closed_under_bubble(mv, bv[bi])
        && bubble_nonconstant(mv, bv[bi]) by {
        assert(bv.contains(bv[bi]));
        assert(obv.contains(bv[bi]));
        let bj = choose|bj: int| 0 <= bj < obv.len() && obv[bj] == bv[bi];
        let g = bubbles_s[bj]@;
        assert(g == bv[bi]);
        assert(g.len() >= 2);
        assert(sorted_indices(g));
        assert(g.no_duplicates());
        assert forall|w: int| 0 <= w < g.len() implies (#[trigger] g[w]) < merged_s.len() by {
            assert(bubbles_s[bj]@[w] < merged_s.len());
        }
        lemma_one_bubble_closed(mv, swaps, merged_s, l, g);
        lemma_one_bubble_nonconstant(mv, orbit_s, trivial, root, l, g);
        assert(group_below(g, l));
    }
}

/// An accepted orbit, sorted into member rows, together with its sorted
/// bubbles, forms a valid record for the bucket. The shapes of the
/// hypotheses follow the contracts of the closure search: a closed orbit
/// holding the root, the merged column classes of the accepted swaps, the
/// trivial columns of the orbit, and bubble groups cut from the merged
/// classes.
#[verifier::spinoff_prover]
proof fn lemma_record_parts_valid(
    rec: TwoSymbolSchema,
    bucket_views: Seq<Seq<u8>>,
    sigv: Seq<usize>,
    orbit_s: Seq<Vec<u8>>,
    bubbles_s: Seq<Vec<usize>>,
    swaps: Seq<(usize, usize)>,
    merged_s: Seq<Vec<usize>>,
    trivial: Seq<usize>,
    root: Seq<u8>,
    l: int,
)
    requires
        rec.signature@ == sigv,
        member_views(rec).to_multiset() == views_of(orbit_s).to_multiset(),
        sorted_rows(member_views(rec)),
        bubble_views(rec).to_multiset() == group_views(bubbles_s).to_multiset(),
        sorted_groups(bubble_views(rec)),
        views_of(orbit_s).contains(root),
        views_of(orbit_s).no_duplicates(),
        l == root.len(),
        l < usize::MAX,
        forall|u: int| 0 <= u < orbit_s.len() ==> (#[trigger] views_of(orbit_s)[u]).len() == l,
        forall|m: Seq<u8>| #[trigger] views_of(orbit_s).contains(m) ==> bucket_views.contains(m),
        closed_under_swaps(views_of(orbit_s), swaps),
        forall|t: int| 0 <= t < swaps.len() ==> (#[trigger] swaps[t]).0 < swaps[t].1 < l,
        merged_s.len() == l,
        forall|i: usize, j: usize|
            #![trigger merged_s[i as int]@.contains(j)]
            i < l ==> (merged_s[i as int]@.contains(j) <==> connected(swaps, i, j)),
        forall|c: usize|
            #[trigger] trivial.contains(c) <==> c < root.len() && (forall|k: int|
                0 <= k < orbit_s.len() ==> (#[trigger] orbit_s[k]@)[c as int] == root[c as int]),
        forall|bi: int| 0 <= bi < bubbles_s.len() ==> (#[trigger] bubbles_s[bi]@).len() >= 2,
        forall|bi: int| 0 <= bi < bubbles_s.len() ==> sorted_indices(#[trigger] bubbles_s[bi]@),
        forall|bi: int|
            0 <= bi < bubbles_s.len() ==> (#[trigger] bubbles_s[bi]@).no_duplicates(),
        forall|bi: int, w: int|
            0 <= bi < bubbles_s.len() && 0 <= w < bubbles_s[bi]@.len() ==> (
            #[trigger] bubbles_s[bi]@[w]) < merged_s.len(),
        forall|bi: int|
            0 <= bi < bubbles_s.len() ==> matches_some_group(#[trigger] bubbles_s[bi]@, merged_s),
        forall|bi: int|
            0 <= bi < bubbles_s.len() ==> group_nontrivial(#[trigger] bubbles_s[bi]@, trivial),
        forall|b1: int, b2: int, c: usize|
            #![trigger bubbles_s[b1]@.contains(c), bubbles_s[b2]@.contains(c)]
            0 <= b1 < bubbles_s.len() && 0 <= b2 < bubbles_s.len() && b1 != b2 ==> !(
            bubbles_s[b1]@.contains(c) && bubbles_s[b2]@.contains(c)),
        forall|k: int| 0 <= k < bucket_views.len() ==> sig_matches(sigv, #[trigger] bucket_views[k]),
    ensures
        record_valid_for(rec, bucket_views, sigv),
{
    lemma_record_member_part(rec, bucket_views, sigv, orbit_s, swaps, root, l);
    lemma_record_bubble_part(rec, orbit_s, bubbles_s, swaps, merged_s, trivial, root, l);
    lemma_bubbles_disjoint_transfer(bubble_views(rec), bubbles_s);
    reveal(record_valid_for);
    assert(record_valid_for(rec, bucket_views, sigv));
}

/// The search invariant for a root survives a rejected swap set: either some
/// recorded schema already covers the root, or nothing was recorded yet and
/// the entry that skips every candidate is still ahead in the enumeration.
proof fn lemma_keep_searching(
    sym: Seq<TwoSymbolSchema>,
    root: Seq<u8>,
    goods_len: int,
    pre_contents: Seq<Seq<(usize, usize)>>,
    cur_contents: Seq<Seq<(usize, usize)>>,
    cands: Seq<(usize, usize)>,
    skipped: Seq<(usize, usize)>,
    swaps_nonempty: bool,
)
    requires
        some_record_covers(sym, root) || (goods_len == 0 && exists|kk: int|
            0 <= kk < pre_contents.len() && #[trigger] pre_contents[kk] == cands),
        pre_contents.len() > 0,
        skipped == pre_contents[0],
        cur_contents == pre_contents.drop_first(),
        skipped == cands ==> !swaps_nonempty,
        swaps_nonempty,
    ensures
        some_record_covers(sym, root) || (goods_len == 0 && exists|kk: int|
            0 <= kk < cur_contents.len() && #[trigger] cur_contents[kk] == cands),
{
    if !some_record_covers(sym, root) {
        let kk = choose|kk: int|
            0 <= kk < pre_contents.len() && #[trigger] pre_contents[kk] == cands;
        assert(kk != 0) by {
            if kk == 0 {
                assert(skipped == cands);
            }
        }
        assert(cur_contents[kk - 1] == cands);
    }
}

} // verus!
