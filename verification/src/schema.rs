use vstd::prelude::*;

use crate::vecops::{copy_groups, copy_schemata, views_of};

verus! {

/// How many entries of `s` hold the symbol `v`.
pub open spec fn count_sym(s: Seq<u8>, v: int) -> nat
    decreases s.len(),
{
    if s.len() == 0 {
        0
    } else {
        count_sym(s.drop_last(), v) + (if s.last() as int == v {
            1nat
        } else {
            0nat
        })
    }
}

pub proof fn lemma_count_le_len(s: Seq<u8>, v: int)
    ensures
        count_sym(s, v) <= s.len(),
    decreases s.len(),
{
    if s.len() > 0 {
        lemma_count_le_len(s.drop_last(), v);
    }
}

/// `sigv` records, for each symbol value it covers, how often that value
/// occurs in the row `s`.
pub open spec fn sig_matches(sigv: Seq<usize>, s: Seq<u8>) -> bool {
    forall|v: int| 0 <= v < sigv.len() ==> sigv[v] == count_sym(s, v)
}

/// Two rows with the same view have the same signature, entry for entry.
pub proof fn lemma_sig_unique(siga: Seq<usize>, sigb: Seq<usize>, s: Seq<u8>)
    requires
        sig_matches(siga, s),
        sig_matches(sigb, s),
        siga.len() == sigb.len(),
    ensures
        siga == sigb,
{
    assert(siga =~= sigb);
}

/// A compressed description of several one-symbol schemata that are related by
/// a discovered column-permutation symmetry: the member rows, the groups of
/// interchangeable columns ("bubbles"), and the shared symbol-count signature.
#[derive(Clone, Debug, Default, PartialEq, Eq, Hash)]
pub struct TwoSymbolSchema {
    pub redescribed_schemata: Vec<Vec<u8>>,
    pub bubble_indices: Vec<Vec<usize>>,
    pub signature: Vec<usize>,
}

impl TwoSymbolSchema {
    /// Assemble a schema from its three parts.
    pub fn new(
        redescribed_schemata: Vec<Vec<u8>>,
        bubble_indices: Vec<Vec<usize>>,
        signature: Vec<usize>,
    ) -> (r: TwoSymbolSchema)
        ensures
            r.redescribed_schemata == redescribed_schemata,
            r.bubble_indices == bubble_indices,
            r.signature == signature,
    {
        TwoSymbolSchema { redescribed_schemata, bubble_indices, signature }
    }

    /// A fresh copy of the member rows.
    pub fn get_redescribed_schemata(&self) -> (r: Vec<Vec<u8>>)
        ensures
            views_of(r@) == views_of(self.redescribed_schemata@),
    {
        copy_schemata(&self.redescribed_schemata)
    }

    /// A fresh copy of the bubble groups.
    pub fn get_bubble_indices(&self) -> (r: Vec<Vec<usize>>)
        ensures
            crate::vecops::group_views(r@) == crate::vecops::group_views(self.bubble_indices@),
    {
        copy_groups(&self.bubble_indices)
    }

    /// A schema with no bubbles at all. When no signature is given it is
    /// computed from the first row (all rows are assumed to share it), or left
    /// empty when no symbol bound is given either.
    pub fn trivial(
        redescribed_schemata: Vec<Vec<u8>>,
        signature: Option<Vec<usize>>,
        max_symbol: Option<usize>,
    ) -> (r: TwoSymbolSchema)
        requires
            max_symbol matches Some(m) ==> signature is None ==> {
                &&& redescribed_schemata@.len() > 0
                &&& m < usize::MAX
                &&& forall|j: int|
                    0 <= j < redescribed_schemata@[0]@.len()
                        ==> redescribed_schemata@[0]@[j] <= m
            },
        ensures
            r.redescribed_schemata == redescribed_schemata,
            r.bubble_indices@.len() == 0,
            signature matches Some(s) ==> r.signature == s,
            max_symbol matches Some(m) ==> signature is None ==> {
                &&& r.signature@.len() == m + 1
                &&& sig_matches(r.signature@, redescribed_schemata@[0]@)
            },
            signature is None && max_symbol is None ==> r.signature@.len() == 0,
    {
        match signature {
            Some(s) => TwoSymbolSchema {
                redescribed_schemata,
                bubble_indices: Vec::new(),
                signature: s,
            },
            None => {
                let s: Vec<usize> = match max_symbol {
                    Some(m) => schema_signature(&redescribed_schemata[0], m),
                    None => Vec::new(),
                };
                TwoSymbolSchema { redescribed_schemata, bubble_indices: Vec::new(), signature: s }
            },
        }
    }
}

/// The symbol-count signature of one row: entry `v` holds how often the
/// symbol `v` occurs in the row.
pub fn schema_signature(one_symbol_schema: &Vec<u8>, max_symbol: usize) -> (r: Vec<usize>)
    requires
        max_symbol < usize::MAX,
        forall|j: int|
            0 <= j < one_symbol_schema@.len() ==> one_symbol_schema@[j] <= max_symbol,
    ensures
        r@.len() == max_symbol + 1,
        sig_matches(r@, one_symbol_schema@),
{
    let ghost s = one_symbol_schema@;
    let mut signature: Vec<usize> = Vec::new();
    let mut v: usize = 0;
    while v < max_symbol + 1
        invariant
            v <= max_symbol + 1,
            max_symbol < usize::MAX,
            signature@.len() == v,
            forall|t: int| 0 <= t < v ==> signature@[t] == 0,
        decreases max_symbol + 1 - v,
    {
        signature.push(0);
        v += 1;
    }
    let mut j: usize = 0;
    proof {
        assert(s.take(0) =~= Seq::<u8>::empty());
    }
    while j < one_symbol_schema.len()
        invariant
            j <= s.len(),
            s == one_symbol_schema@,
            max_symbol < usize::MAX,
            signature@.len() == max_symbol + 1,
            forall|t: int| 0 <= t < s.len() ==> s[t] <= max_symbol,
            forall|t: int|
                0 <= t < signature@.len() ==> signature@[t] == count_sym(s.take(j as int), t),
        decreases s.len() - j,
    {
        let x = one_symbol_schema[j];
        proof {
            lemma_count_le_len(s.take(j as int), x as int);
        }
        let c = signature[x as usize];
        signature.set(x as usize, c + 1);
        proof {
            assert(s.take(j + 1).drop_last() =~= s.take(j as int));
            assert(s.take(j + 1).last() == s[j as int]);
            assert(forall|t: int|
                0 <= t < signature@.len()
                    ==> count_sym(s.take(j + 1), t) == count_sym(s.take(j as int), t) + (
                if s[j as int] as int == t {
                    1nat
                } else {
                    0nat
                }));
        }
        j += 1;
    }
    proof {
        assert(s.take(s.len() as int) =~= s);
    }
    signature
}

/// The larger of two values.
pub open spec fn imax(a: int, b: int) -> int {
    if a >= b {
        a
    } else {
        b
    }
}

/// The largest symbol among the first `n` entries of the row; 0 when none.
pub open spec fn row_max(s: Seq<u8>, n: int) -> int
    decreases n,
{
    if n <= 0 {
        0
    } else {
        imax(row_max(s, n - 1), s[n - 1] as int)
    }
}

/// The largest symbol in the first `k` rows; 0 when none.
pub open spec fn rows_max(pis: Seq<Vec<u8>>, k: int) -> int
    decreases k,
{
    if k <= 0 {
        0
    } else {
        imax(rows_max(pis, k - 1), row_max(pis[k - 1]@, pis[k - 1]@.len() as int))
    }
}

/// The largest symbol value in the whole input, 0 when it holds none: the
/// maximum assumed when no explicit one is given.
pub open spec fn max_symbol_value(pis: Seq<Vec<u8>>) -> int {
    rows_max(pis, pis.len() as int)
}

/// Largest symbol value occurring anywhere in the input schemata; 0 when the
/// input holds no symbols at all.
pub fn compute_max_symbol(pis: &Vec<Vec<u8>>) -> (r: usize)
    ensures
        r as int == max_symbol_value(pis@),
        r < usize::MAX,
        forall|i: int, j: int|
            0 <= i < pis@.len() && 0 <= j < pis@[i]@.len() ==> pis@[i]@[j] as usize <= r,
        r == 0 || exists|i: int, j: int|
            0 <= i < pis@.len() && 0 <= j < pis@[i]@.len() && pis@[i]@[j] as usize == r,
{
    let mut max_symbol: u8 = 0;
    let mut i: usize = 0;
    while i < pis.len()
        invariant
            i <= pis@.len(),
            max_symbol as int == rows_max(pis@, i as int),
            forall|a: int, b: int|
                0 <= a < i && 0 <= b < pis@[a]@.len() ==> pis@[a]@[b] <= max_symbol,
            max_symbol == 0 || exists|a: int, b: int|
                0 <= a < pis@.len() && 0 <= b < pis@[a]@.len() && pis@[a]@[b] == max_symbol,
        decreases pis@.len() - i,
    {
        let pi = &pis[i];
        let mut j: usize = 0;
        while j < pi.len()
            invariant
                j <= pi@.len(),
                pi@ == pis@[i as int]@,
                i < pis@.len(),
                max_symbol as int == imax(rows_max(pis@, i as int), row_max(pi@, j as int)),
                forall|a: int, b: int|
                    0 <= a < i && 0 <= b < pis@[a]@.len() ==> pis@[a]@[b] <= max_symbol,
                forall|b: int| 0 <= b < j ==> pi@[b] <= max_symbol,
                max_symbol == 0 || exists|a: int, b: int|
                    0 <= a < pis@.len() && 0 <= b < pis@[a]@.len() && pis@[a]@[b] == max_symbol,
            decreases pi@.len() - j,
        {
            if pi[j] > max_symbol {
                max_symbol = pi[j];
            }
            j += 1;
        }
        proof {
            assert(rows_max(pis@, i + 1) == imax(
                rows_max(pis@, i as int),
                row_max(pis@[i as int]@, pis@[i as int]@.len() as int),
            ));
        }
        i += 1;
    }
    max_symbol as usize
}

} // verus!
