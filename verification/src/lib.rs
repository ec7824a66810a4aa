use vstd::prelude::*;

pub mod candidates;
pub mod closure;
pub mod itertools_specs;
pub mod schema;
pub mod search;
pub mod sorting;
pub mod swaps;
pub mod vecops;

use crate::schema::{compute_max_symbol, max_symbol_value, schema_signature, sig_matches};
use crate::search::{
    member_views, record_valid_for, record_views_eq, some_record_covers,
    tss_for_one_symbol_schemata_with_signature,
};
use crate::vecops::{contains_group, copy_group, copy_schema, group_eq, group_views, views_of};

verus! {

pub use crate::schema::TwoSymbolSchema;

/// The error for inputs that the compressor refuses.
#[derive(Clone, Copy, Debug, PartialEq, Eq)]
pub enum SchemaError {
    /// Two input schemata have different lengths.
    UnequalLengths,
    /// A symbol exceeds the given maximum symbol value.
    SymbolOutOfRange,
}

/// All input rows have the length of the first row.
pub open spec fn lengths_equal(pis: Seq<Vec<u8>>) -> bool {
    forall|i: int| 0 <= i < pis.len() ==> (#[trigger] pis[i]@).len() == pis[0]@.len()
}

/// No symbol of any row exceeds `m`.
pub open spec fn symbols_within(pis: Seq<Vec<u8>>, m: int) -> bool {
    forall|i: int, j: int|
        0 <= i < pis.len() && 0 <= j < pis[i]@.len() ==> (#[trigger] pis[i]@[j]) <= m
}

/// Some listed signature is the signature of the row.
pub open spec fn some_sig_matches(sigs: Seq<Vec<usize>>, row: Seq<u8>) -> bool {
    exists|w: int| 0 <= w < sigs.len() && sig_matches((#[trigger] sigs[w])@, row)
}

/// The signature belongs to some input row.
pub open spec fn sig_of_some_row(sigv: Vec<usize>, pis: Seq<Vec<u8>>) -> bool {
    exists|k: int| 0 <= k < pis.len() && sig_matches(sigv@, (#[trigger] pis[k])@)
}

/// Some group of the list holds the row among its members.
pub open spec fn in_some_group(groups: Seq<(Vec<usize>, Vec<Vec<u8>>)>, row: Seq<u8>) -> bool {
    exists|g: int| 0 <= g < groups.len() && views_of((#[trigger] groups[g]).1@).contains(row)
}

/// The signature is that of one of the first `bound` groups.
pub open spec fn sig_from_groups(
    groups: Seq<(Vec<usize>, Vec<Vec<u8>>)>,
    bound: int,
    sigv: Seq<usize>,
) -> bool {
    exists|gg: int| 0 <= gg < bound && (#[trigger] groups[gg]).0@ == sigv
}

/// Gather the input rows into buckets that share a symbol-count signature.
fn group_by_signature(pis: &Vec<Vec<u8>>, max_symbol: usize) -> (groups: Vec<
    (Vec<usize>, Vec<Vec<u8>>),
>)
    requires
        max_symbol < usize::MAX,
        symbols_within(pis@, max_symbol as int),
    ensures
        forall|g: int| 0 <= g < groups@.len() ==> (#[trigger] groups@[g]).1@.len() >= 1,
        forall|g: int| 0 <= g < groups@.len() ==> (#[trigger] groups@[g]).0@.len() == max_symbol
            + 1,
        forall|g: int, u: int|
            0 <= g < groups@.len() && 0 <= u < groups@[g].1@.len() ==> sig_matches(
                groups@[g].0@,
                (#[trigger] groups@[g].1@[u])@,
            ),
        forall|g: int, u: int|
            0 <= g < groups@.len() && 0 <= u < groups@[g].1@.len() ==> views_of(pis@).contains(
                (#[trigger] groups@[g].1@[u])@,
            ),
        forall|i: int| 0 <= i < pis@.len() ==> in_some_group(groups@, (#[trigger] pis@[i])@),
        forall|g1: int, g2: int|
            0 <= g1 < g2 < groups@.len() ==> (#[trigger] groups@[g1]).0@ != (
            #[trigger] groups@[g2]).0@,
{
    let mut sigs: Vec<Vec<usize>> = Vec::new();
    let mut i: usize = 0;
    while i < pis.len()
        invariant
            i <= pis@.len(),
            max_symbol < usize::MAX,
            symbols_within(pis@, max_symbol as int),
            forall|w: int| 0 <= w < sigs@.len() ==> (#[trigger] sigs@[w])@.len() == max_symbol
                + 1,
            forall|w: int| 0 <= w < sigs@.len() ==> sig_of_some_row(#[trigger] sigs@[w], pis@),
            forall|k: int| 0 <= k < i ==> some_sig_matches(sigs@, (#[trigger] pis@[k])@),
            forall|w1: int, w2: int|
                0 <= w1 < w2 < sigs@.len() ==> (#[trigger] sigs@[w1])@ != (#[trigger] sigs@[w2])@,
        decreases pis@.len() - i,
    {
        let sig = schema_signature(&pis[i], max_symbol);
        let ghost old_sigs = sigs@;
        if !contains_group(&sigs, &sig) {
            sigs.push(sig);
            proof {
                assert(sigs@[sigs@.len() - 1]@ == sig@);
                assert(sig_matches(sigs@[sigs@.len() - 1]@, pis@[i as int]@));
                assert forall|w1: int, w2: int|
                    0 <= w1 < w2 < sigs@.len() implies (#[trigger] sigs@[w1])@ != (
                    #[trigger] sigs@[w2])@ by {
                    if w2 == sigs@.len() - 1 {
                        assert(sigs@[w1] == old_sigs[w1]);
                        assert(group_views(old_sigs)[w1] == old_sigs[w1]@);
                        assert(!group_views(old_sigs).contains(sig@));
                    }
                }
                assert forall|w: int|
                    0 <= w < sigs@.len() implies sig_of_some_row(#[trigger] sigs@[w], pis@) by {
                    if w < old_sigs.len() {
                        assert(sigs@[w] == old_sigs[w]);
                        assert(sig_of_some_row(old_sigs[w], pis@));
                    } else {
                        assert(sig_matches(sigs@[w]@, pis@[i as int]@));
                    }
                }
                assert forall|k: int|
                    0 <= k < i + 1 implies some_sig_matches(sigs@, (#[trigger] pis@[k])@) by {
                    if k < i {
                        let w = choose|w: int|
                            0 <= w < old_sigs.len() && sig_matches(
                                (#[trigger] old_sigs[w])@,
                                pis@[k]@,
                            );
                        assert(sigs@[w] == old_sigs[w]);
                        assert(sig_matches(sigs@[w]@, pis@[k]@));
                    } else {
                        assert(sig_matches(sigs@[sigs@.len() - 1]@, pis@[k]@));
                    }
                }
            }
        } else {
            proof {
                assert(group_views(sigs@).contains(sig@));
                let w = choose|w: int|
                    0 <= w < group_views(sigs@).len() && group_views(sigs@)[w] == sig@;
                assert(sigs@[w]@ == sig@);
                assert(sig_matches(sigs@[w]@, pis@[i as int]@));
            }
        }
        i += 1;
    }
    let mut groups: Vec<(Vec<usize>, Vec<Vec<u8>>)> = Vec::new();
    let mut w: usize = 0;
    while w < sigs.len()
        invariant
            w <= sigs@.len(),
            max_symbol < usize::MAX,
            symbols_within(pis@, max_symbol as int),
            forall|ww: int| 0 <= ww < sigs@.len() ==> (#[trigger] sigs@[ww])@.len() == max_symbol
                + 1,
            forall|ww: int| 0 <= ww < sigs@.len() ==> sig_of_some_row(#[trigger] sigs@[ww], pis@),
            forall|w1: int, w2: int|
                0 <= w1 < w2 < sigs@.len() ==> (#[trigger] sigs@[w1])@ != (#[trigger] sigs@[w2])@,
            groups@.len() == w,
            forall|g: int| 0 <= g < groups@.len() ==> (#[trigger] groups@[g]).0@ == sigs@[g]@,
            forall|g: int| 0 <= g < groups@.len() ==> (#[trigger] groups@[g]).1@.len() >= 1,
            forall|g: int| 0 <= g < groups@.len() ==> (#[trigger] groups@[g]).0@.len()
                == max_symbol + 1,
            forall|g: int, u: int|
                0 <= g < groups@.len() && 0 <= u < groups@[g].1@.len() ==> sig_matches(
                    groups@[g].0@,
                    (#[trigger] groups@[g].1@[u])@,
                ),
            forall|g: int, u: int|
                0 <= g < groups@.len() && 0 <= u < groups@[g].1@.len() ==> views_of(
                    pis@,
                ).contains((#[trigger] groups@[g].1@[u])@),
            forall|g: int, k: int|
                0 <= g < groups@.len() && 0 <= k < pis@.len() && sig_matches(
                    (#[trigger] groups@[g]).0@,
                    (#[trigger] pis@[k])@,
                ) ==> views_of(groups@[g].1@).contains(pis@[k]@),
        decreases sigs@.len() - w,
    {
        let mut bucket: Vec<Vec<u8>> = Vec::new();
        let mut i2: usize = 0;
        while i2 < pis.len()
            invariant
                i2 <= pis@.len(),
                w < sigs@.len(),
                max_symbol < usize::MAX,
                symbols_within(pis@, max_symbol as int),
                sigs@[w as int]@.len() == max_symbol + 1,
                forall|u: int|
                    0 <= u < bucket@.len() ==> sig_matches(
                        sigs@[w as int]@,
                        (#[trigger] bucket@[u])@,
                    ),
                forall|u: int|
                    0 <= u < bucket@.len() ==> views_of(pis@).contains((#[trigger] bucket@[u])@),
                forall|k: int|
                    0 <= k < i2 && sig_matches(sigs@[w as int]@, (#[trigger] pis@[k])@)
                        ==> views_of(bucket@).contains(pis@[k]@),
            decreases pis@.len() - i2,
        {
            let sig_i = schema_signature(&pis[i2], max_symbol);
            let ghost old_bucket = bucket@;
            if group_eq(&sig_i, &sigs[w]) {
                bucket.push(copy_schema(&pis[i2]));
                proof {
                    assert(views_of(bucket@)[bucket@.len() - 1] == pis@[i2 as int]@);
                    assert(sig_matches(sigs@[w as int]@, pis@[i2 as int]@));
                    assert(views_of(pis@)[i2 as int] == pis@[i2 as int]@);
                    assert(views_of(pis@).contains(pis@[i2 as int]@));
                    assert forall|k: int|
                        0 <= k < i2 + 1 && sig_matches(
                            sigs@[w as int]@,
                            (#[trigger] pis@[k])@,
                        ) implies views_of(bucket@).contains(pis@[k]@) by {
                        if k < i2 {
                            assert(views_of(old_bucket).contains(pis@[k]@));
                            let u = choose|u: int|
                                0 <= u < views_of(old_bucket).len() && views_of(old_bucket)[u]
                                    == pis@[k]@;
                            assert(views_of(bucket@)[u] == pis@[k]@);
                        } else {
                            assert(views_of(bucket@)[bucket@.len() - 1] == pis@[k]@);
                        }
                    }
                }
            } else {
                proof {
                    assert forall|k: int|
                        0 <= k < i2 + 1 && sig_matches(
                            sigs@[w as int]@,
                            (#[trigger] pis@[k])@,
                        ) implies views_of(bucket@).contains(pis@[k]@) by {
                        if k == i2 {
                            crate::schema::lemma_sig_unique(sigs@[w as int]@, sig_i@, pis@[k]@);
                            assert(sig_i@ == sigs@[w as int]@);
                        }
                    }
                }
            }
            i2 += 1;
        }
        proof {
            assert(sig_of_some_row(sigs@[w as int], pis@));
            let k = choose|k: int|
                0 <= k < pis@.len() && sig_matches((sigs@[w as int])@, pis@[k]@);
            assert(views_of(bucket@).contains(pis@[k]@));
            assert(bucket@.len() >= 1) by {
                let u = choose|u: int|
                    0 <= u < views_of(bucket@).len() && views_of(bucket@)[u] == pis@[k]@;
            }
        }
        let entry = (copy_group(&sigs[w]), bucket);
        let ghost old_groups = groups@;
        groups.push(entry);
        proof {
            assert(groups@[groups@.len() - 1] == entry);
            assert(forall|g: int| 0 <= g < old_groups.len() ==> groups@[g] == old_groups[g]);
        }
        w += 1;
    }
    proof {
        assert forall|g1: int, g2: int|
            0 <= g1 < g2 < groups@.len() implies (#[trigger] groups@[g1]).0@ != (
            #[trigger] groups@[g2]).0@ by {
            assert(groups@[g1].0@ == sigs@[g1]@);
            assert(groups@[g2].0@ == sigs@[g2]@);
        }
        assert forall|i3: int|
            0 <= i3 < pis@.len() implies in_some_group(groups@, (#[trigger] pis@[i3])@) by {
            assert(some_sig_matches(sigs@, pis@[i3]@));
            let ww = choose|ww: int|
                0 <= ww < sigs@.len() && sig_matches((#[trigger] sigs@[ww])@, pis@[i3]@);
            assert(groups@[ww].0@ == sigs@[ww]@);
            assert(sig_matches(groups@[ww].0@, pis@[i3]@));
            assert(views_of(groups@[ww].1@).contains(pis@[i3]@));
        }
    }
    groups
}

/// A record that is valid for a bucket is valid for any collection holding
/// every bucket row.
proof fn lemma_record_widen(
    rec: TwoSymbolSchema,
    bucket_views: Seq<Seq<u8>>,
    all_views: Seq<Seq<u8>>,
    sigv: Seq<usize>,
)
    requires
        record_valid_for(rec, bucket_views, sigv),
        forall|x: Seq<u8>| #[trigger] bucket_views.contains(x) ==> all_views.contains(x),
    ensures
        record_valid_for(rec, all_views, sigv),
{
    reveal(crate::search::record_valid_for);
    assert forall|u: int|
        0 <= u < member_views(rec).len() implies all_views.contains(
        #[trigger] member_views(rec)[u],
    ) by {
        assert(bucket_views.contains(member_views(rec)[u]));
    }
}

/// Redescribe a collection of one-symbol schemata as two-symbol schemata.
///
/// Every reported schema draws its members from the input, records their
/// shared symbol-count signature over the full symbol range, and lists
/// bubble groups that are closed over the members and constant in none of
/// them; together the reported members cover the whole input, and no two
/// reported schemata are equal. Rows of unequal length are refused, as is a
/// symbol above the given maximum.
pub fn schemer(pis: Vec<Vec<u8>>, max_symbol: Option<usize>) -> (r: Result<
    Vec<TwoSymbolSchema>,
    SchemaError,
>)
    requires
        forall|i: int| 0 <= i < pis@.len() ==> (#[trigger] pis@[i])@.len() < usize::MAX,
        max_symbol matches Some(m) ==> m < usize::MAX,
    ensures
        r == Err::<Vec<TwoSymbolSchema>, SchemaError>(SchemaError::UnequalLengths)
            <==> !lengths_equal(pis@),
        r == Err::<Vec<TwoSymbolSchema>, SchemaError>(SchemaError::SymbolOutOfRange) <==> (
        lengths_equal(pis@) && (max_symbol matches Some(m) && !symbols_within(pis@, m as int))),
        r matches Ok(out) ==> {
            &&& forall|ri: int|
                0 <= ri < out@.len() ==> record_valid_for(
                    #[trigger] out@[ri],
                    views_of(pis@),
                    out@[ri].signature@,
                )
            &&& forall|i: int|
                0 <= i < pis@.len() ==> some_record_covers(out@, (#[trigger] pis@[i])@)
            &&& forall|r1: int, r2: int|
                0 <= r1 < r2 < out@.len() ==> !record_views_eq(
                    #[trigger] out@[r1],
                    #[trigger] out@[r2],
                )
            &&& (pis@.len() == 0 ==> out@.len() == 0)
        },
        max_symbol matches Some(m) ==> r matches Ok(out) ==> forall|ri: int|
            0 <= ri < out@.len() ==> (#[trigger] out@[ri]).signature@.len() == m + 1,
        max_symbol is None ==> (r matches Ok(out) ==> forall|ri: int|
            0 <= ri < out@.len() ==> (#[trigger] out@[ri]).signature@.len() == max_symbol_value(
                pis@,
            ) + 1),
{
    let ghost pis_views = views_of(pis@);
    let mut i: usize = 0;
    while i < pis.len()
        invariant
            i <= pis@.len(),
            forall|k: int| 0 <= k < i ==> (#[trigger] pis@[k])@.len() == pis@[0]@.len(),
        decreases pis@.len() - i,
    {
        if pis[i].len() != pis[0].len() {
            return Err(SchemaError::UnequalLengths);
        }
        i += 1;
    }
    proof {
        assert(lengths_equal(pis@));
    }
    let max_val: usize = match max_symbol {
        Some(m) => {
            let mut i2: usize = 0;
            while i2 < pis.len()
                invariant
                    i2 <= pis@.len(),
                    lengths_equal(pis@),
                    max_symbol == Some(m),
                    forall|k: int, j: int|
                        0 <= k < i2 && 0 <= j < pis@[k]@.len() ==> (#[trigger] pis@[k]@[j]) as usize
                            <= m,
                decreases pis@.len() - i2,
            {
                let row = &pis[i2];
                let mut j: usize = 0;
                while j < row.len()
                    invariant
                        j <= row@.len(),
                        row@ == pis@[i2 as int]@,
                        i2 < pis@.len(),
                        lengths_equal(pis@),
                        max_symbol == Some(m),
                        forall|t: int| 0 <= t < j ==> (#[trigger] row@[t]) as usize <= m,
                    decreases row@.len() - j,
                {
                    if row[j] as usize > m {
                        proof {
                            assert(pis@[i2 as int]@[j as int] as usize > m);
                            assert(!symbols_within(pis@, m as int));
                        }
                        return Err(SchemaError::SymbolOutOfRange);
                    }
                    j += 1;
                }
                proof {
                    assert forall|t: int|
                        0 <= t < pis@[i2 as int]@.len() implies (#[trigger] pis@[i2 as int]@[t]) as usize
                        <= m by {
                        assert(row@[t] as usize <= m);
                    }
                }
                i2 += 1;
            }
            proof {
                assert(symbols_within(pis@, m as int));
            }
            m
        },
        None => compute_max_symbol(&pis),
    };
    proof {
        assert(symbols_within(pis@, max_val as int));
        assert(max_symbol is None ==> max_val as int == max_symbol_value(pis@));
        assert(max_symbol matches Some(m) ==> max_val == m);
    }
    let groups = group_by_signature(&pis, max_val);
    let mut tss_vec: Vec<TwoSymbolSchema> = Vec::new();
    let mut g: usize = 0;
    while g < groups.len()
        invariant
            g <= groups@.len(),
            forall|gg: int| 0 <= gg < groups@.len() ==> (#[trigger] groups@[gg]).1@.len() >= 1,
            forall|gg: int, u: int|
                0 <= gg < groups@.len() && 0 <= u < groups@[gg].1@.len() ==> sig_matches(
                    groups@[gg].0@,
                    (#[trigger] groups@[gg].1@[u])@,
                ),
            forall|gg: int, u: int|
                0 <= gg < groups@.len() && 0 <= u < groups@[gg].1@.len() ==> views_of(
                    pis@,
                ).contains((#[trigger] groups@[gg].1@[u])@),
            forall|gg: int| 0 <= gg < groups@.len() ==> (#[trigger] groups@[gg]).0@.len()
                == max_val + 1,
            forall|g1: int, g2: int|
                0 <= g1 < g2 < groups@.len() ==> (#[trigger] groups@[g1]).0@ != (
                #[trigger] groups@[g2]).0@,
            forall|ri: int|
                0 <= ri < tss_vec@.len() ==> sig_from_groups(
                    groups@,
                    g as int,
                    (#[trigger] tss_vec@[ri]).signature@,
                ),
            forall|r1: int, r2: int|
                0 <= r1 < r2 < tss_vec@.len() ==> !record_views_eq(
                    #[trigger] tss_vec@[r1],
                    #[trigger] tss_vec@[r2],
                ),
            forall|ri: int|
                0 <= ri < tss_vec@.len() ==> record_valid_for(
                    #[trigger] tss_vec@[ri],
                    pis_views,
                    tss_vec@[ri].signature@,
                ),
            forall|gg: int, k: int|
                0 <= gg < g && 0 <= k < groups@[gg].1@.len() ==> some_record_covers(
                    tss_vec@,
                    (#[trigger] groups@[gg].1@[k])@,
                ),
            pis_views == views_of(pis@),
            lengths_equal(pis@),
            forall|k: int| 0 <= k < pis@.len() ==> (#[trigger] pis@[k])@.len() < usize::MAX,
        decreases groups@.len() - g,
    {
        let bucket = &groups[g].1;
        proof {
            assert forall|k: int|
                0 <= k < bucket@.len() implies (#[trigger] bucket@[k]@).len()
                == bucket@[0]@.len() by {
                assert(views_of(pis@).contains((bucket@[k])@));
                let a = choose|a: int|
                    0 <= a < views_of(pis@).len() && views_of(pis@)[a] == bucket@[k]@;
                assert(pis@[a]@.len() == pis@[0]@.len());
                assert(views_of(pis@).contains((bucket@[0])@));
                let b = choose|b: int|
                    0 <= b < views_of(pis@).len() && views_of(pis@)[b] == bucket@[0]@;
                assert(pis@[b]@.len() == pis@[0]@.len());
            }
            assert(bucket@[0]@.len() < usize::MAX) by {
                assert(views_of(pis@).contains((bucket@[0])@));
                let b = choose|b: int|
                    0 <= b < views_of(pis@).len() && views_of(pis@)[b] == bucket@[0]@;
            }
        }
        let sig_copy = copy_group(&groups[g].0);
        let tss = tss_for_one_symbol_schemata_with_signature(bucket, sig_copy);
        let ghost old_out = tss_vec@;
        let ghost tss_views = tss@;
        let mut rest = tss;
        proof {
            assert(tss_views.take(0) =~= Seq::<TwoSymbolSchema>::empty());
            assert(tss_vec@ =~= old_out + tss_views.take(0));
            assert(rest@ =~= tss_views.skip(0));
        }
        while rest.len() > 0
            invariant
                old_out.len() <= tss_vec@.len(),
                tss_vec@.len() - old_out.len() <= tss_views.len(),
                tss_vec@ == old_out + tss_views.take(tss_vec@.len() - old_out.len()),
                rest@ == tss_views.skip(tss_vec@.len() - old_out.len()),
            decreases rest@.len(),
        {
            let ghost d = tss_vec@.len() - old_out.len();
            let ghost old_rest = rest@;
            let rec = rest.remove(0);
            tss_vec.push(rec);
            proof {
                assert(old_rest[0] == rec);
                assert(tss_views.skip(d)[0] == tss_views[d]);
                assert(rec == tss_views[d]);
                assert(rest@ =~= tss_views.skip(d + 1)) by {
                    assert(rest@ == old_rest.remove(0));
                }
                assert(tss_vec@ =~= old_out + tss_views.take(d + 1)) by {
                    assert(tss_views.take(d + 1) =~= tss_views.take(d).push(tss_views[d]));
                }
            }
        }
        proof {
            let d = tss_vec@.len() - old_out.len();
            assert(d == tss_views.len()) by {
                assert(tss_views.skip(d).len() == 0);
            }
            assert(tss_views.take(d) =~= tss_views);
            assert(tss_vec@ == old_out + tss_views);
            assert(forall|ri: int|
                old_out.len() <= ri < tss_vec@.len() ==> #[trigger] tss_vec@[ri] == tss_views[
                    ri - old_out.len()
                ]);
            assert(forall|ri: int|
                0 <= ri < old_out.len() ==> #[trigger] tss_vec@[ri] == old_out[ri]);
            // validity over the whole input
            assert forall|x: Seq<u8>| #[trigger]
                views_of(bucket@).contains(x) implies pis_views.contains(x) by {
                let b = choose|b: int|
                    0 <= b < views_of(bucket@).len() && views_of(bucket@)[b] == x;
                assert(views_of(pis@).contains((bucket@[b])@));
            }
            assert forall|ri: int|
                0 <= ri < tss_vec@.len() implies record_valid_for(
                #[trigger] tss_vec@[ri],
                pis_views,
                tss_vec@[ri].signature@,
            ) by {
                if ri >= old_out.len() {
                    let u = ri - old_out.len();
                    assert(tss_vec@[ri] == tss_views[u]);
                    assert(record_valid_for(tss_views[u], views_of(bucket@), groups@[g as int].0@));
                    lemma_record_widen(
                        tss_views[u],
                        views_of(bucket@),
                        pis_views,
                        groups@[g as int].0@,
                    );
                    assert(tss_vec@[ri].signature@ == groups@[g as int].0@);
                }
            }
            // which group each record's signature comes from
            assert forall|ri: int|
                0 <= ri < tss_vec@.len() implies sig_from_groups(
                groups@,
                g + 1,
                (#[trigger] tss_vec@[ri]).signature@,
            ) by {
                if ri < old_out.len() {
                    assert(sig_from_groups(groups@, g as int, old_out[ri].signature@));
                    let gg = choose|gg: int|
                        0 <= gg < g && (#[trigger] groups@[gg]).0@ == old_out[ri].signature@;
                } else {
                    let u = ri - old_out.len();
                    assert(tss_vec@[ri].signature@ == groups@[g as int].0@);
                }
            }
            // no two reported records are equal
            assert forall|r1: int, r2: int|
                0 <= r1 < r2 < tss_vec@.len() implies !record_views_eq(
                #[trigger] tss_vec@[r1],
                #[trigger] tss_vec@[r2],
            ) by {
                if r2 < old_out.len() {
                    assert(!record_views_eq(old_out[r1], old_out[r2]));
                } else if r1 < old_out.len() {
                    if record_views_eq(tss_vec@[r1], tss_vec@[r2]) {
                        assert(tss_vec@[r1].signature@ == tss_vec@[r2].signature@);
                        assert(tss_vec@[r2].signature@ == groups@[g as int].0@);
                        assert(sig_from_groups(groups@, g as int, old_out[r1].signature@));
                        let gg = choose|gg: int|
                            0 <= gg < g && (#[trigger] groups@[gg]).0@ == old_out[r1].signature@;
                        assert(groups@[gg].0@ != groups@[g as int].0@);
                    }
                } else {
                    let u1 = r1 - old_out.len();
                    let u2 = r2 - old_out.len();
                    assert(tss_vec@[r1] == tss_views[u1]);
                    assert(tss_vec@[r2] == tss_views[u2]);
                    assert(!record_views_eq(tss_views[u1], tss_views[u2]));
                }
            }
            // coverage of the groups handled so far
            assert forall|gg: int, k: int|
                0 <= gg < g + 1 && 0 <= k < groups@[gg].1@.len() implies some_record_covers(
                tss_vec@,
                (#[trigger] groups@[gg].1@[k])@,
            ) by {
                if gg < g {
                    let ri = choose|ri: int|
                        0 <= ri < old_out.len() && member_views(#[trigger] old_out[ri]).contains(
                            groups@[gg].1@[k]@,
                        );
                    assert(tss_vec@[ri] == old_out[ri]);
                    assert(member_views(tss_vec@[ri]).contains(groups@[gg].1@[k]@));
                    assert(some_record_covers(tss_vec@, groups@[gg].1@[k]@));
                } else {
                    assert(views_of(bucket@)[k] == groups@[gg].1@[k]@);
                    assert(some_record_covers(tss_views, views_of(bucket@)[k]));
                    let ri = choose|ri: int|
                        0 <= ri < tss_views.len() && member_views(
                            #[trigger] tss_views[ri],
                        ).contains(views_of(bucket@)[k]);
                    assert(tss_vec@[old_out.len() + ri] == tss_views[ri]);
                    assert(member_views(tss_vec@[old_out.len() + ri]).contains(
                        groups@[gg].1@[k]@,
                    ));
                    assert(some_record_covers(tss_vec@, groups@[gg].1@[k]@));
                }
            }
        }
        g += 1;
    }
    proof {
        assert forall|i3: int|
            0 <= i3 < pis@.len() implies some_record_covers(tss_vec@, (#[trigger] pis@[i3])@) by {
            assert(in_some_group(groups@, pis@[i3]@));
            let gg = choose|gg: int|
                0 <= gg < groups@.len() && views_of((#[trigger] groups@[gg]).1@).contains(
                    pis@[i3]@,
                );
            let k = choose|k: int|
                0 <= k < views_of(groups@[gg].1@).len() && views_of(groups@[gg].1@)[k]
                    == pis@[i3]@;
            assert(groups@[gg].1@[k]@ == pis@[i3]@);
            assert(some_record_covers(tss_vec@, groups@[gg].1@[k]@));
        }
        assert forall|ri: int|
            0 <= ri < tss_vec@.len() implies (#[trigger] tss_vec@[ri]).signature@.len() == max_val
            + 1 by {
            assert(sig_from_groups(groups@, groups@.len() as int, tss_vec@[ri].signature@));
            let gg = choose|gg: int|
                0 <= gg < groups@.len() && (#[trigger] groups@[gg]).0@ == tss_vec@[ri].signature@;
        }
        if pis@.len() == 0 {
            assert(tss_vec@.len() == 0) by {
                reveal(crate::search::record_valid_for);
                if tss_vec@.len() > 0 {
                    assert(record_valid_for(tss_vec@[0], pis_views, tss_vec@[0].signature@));
                    assert(pis_views.contains(member_views(tss_vec@[0])[0]));
                    let a = choose|a: int|
                        0 <= a < pis_views.len() && pis_views[a] == member_views(tss_vec@[0])[0];
                }
            }
        }
    }
    Ok(tss_vec)
}

} // verus!
