use vstd::prelude::*;

verus! {

/// The sequence of views of a list of symbol rows.
pub open spec fn views_of(v: Seq<Vec<u8>>) -> Seq<Seq<u8>> {
    Seq::new(v.len(), |i: int| v[i]@)
}

/// The sequence of views of a list of column-index groups.
pub open spec fn group_views(v: Seq<Vec<usize>>) -> Seq<Seq<usize>> {
    Seq::new(v.len(), |i: int| v[i]@)
}

/// True iff two symbol rows hold the same symbols in the same order.
pub fn schema_eq(a: &Vec<u8>, b: &Vec<u8>) -> (r: bool)
    ensures
        r <==> a@ == b@,
{
    if a.len() != b.len() {
        return false;
    }
    let mut j: usize = 0;
    while j < a.len()
        invariant
            j <= a@.len(),
            a@.len() == b@.len(),
            forall|t: int| 0 <= t < j ==> a@[t] == b@[t],
        decreases a@.len() - j,
    {
        if a[j] != b[j] {
            return false;
        }
        j += 1;
    }
    proof {
        assert(a@ =~= b@);
    }
    true
}

/// True iff two index groups hold the same indices in the same order.
pub fn group_eq(a: &Vec<usize>, b: &Vec<usize>) -> (r: bool)
    ensures
        r <==> a@ == b@,
{
    if a.len() != b.len() {
        return false;
    }
    let mut j: usize = 0;
    while j < a.len()
        invariant
            j <= a@.len(),
            a@.len() == b@.len(),
            forall|t: int| 0 <= t < j ==> a@[t] == b@[t],
        decreases a@.len() - j,
    {
        if a[j] != b[j] {
            return false;
        }
        j += 1;
    }
    proof {
        assert(a@ =~= b@);
    }
    true
}

/// True iff the collection holds a row equal to `x`.
pub fn contains_schema(v: &Vec<Vec<u8>>, x: &Vec<u8>) -> (r: bool)
    ensures
        r <==> views_of(v@).contains(x@),
{
    let mut k: usize = 0;
    while k < v.len()
        invariant
            k <= v@.len(),
            forall|t: int| 0 <= t < k ==> views_of(v@)[t] != x@,
        decreases v@.len() - k,
    {
        if schema_eq(&v[k], x) {
            proof {
                assert(views_of(v@)[k as int] == x@);
            }
            return true;
        }
        k += 1;
    }
    false
}

/// True iff the list of index groups holds a group equal to `x`.
pub fn contains_group(v: &Vec<Vec<usize>>, x: &Vec<usize>) -> (r: bool)
    ensures
        r <==> group_views(v@).contains(x@),
{
    let mut k: usize = 0;
    while k < v.len()
        invariant
            k <= v@.len(),
            forall|t: int| 0 <= t < k ==> group_views(v@)[t] != x@,
        decreases v@.len() - k,
    {
        if group_eq(&v[k], x) {
            proof {
                assert(group_views(v@)[k as int] == x@);
            }
            return true;
        }
        k += 1;
    }
    false
}

/// True iff `v` holds the index `x`.
pub fn contains_index(v: &Vec<usize>, x: usize) -> (r: bool)
    ensures
        r <==> v@.contains(x),
{
    let mut k: usize = 0;
    while k < v.len()
        invariant
            k <= v@.len(),
            forall|t: int| 0 <= t < k ==> v@[t] != x,
        decreases v@.len() - k,
    {
        if v[k] == x {
            return true;
        }
        k += 1;
    }
    false
}

/// True iff `v` holds the column pair `p`.
pub fn contains_pair(v: &Vec<(usize, usize)>, p: (usize, usize)) -> (r: bool)
    ensures
        r <==> v@.contains(p),
{
    let mut k: usize = 0;
    while k < v.len()
        invariant
            k <= v@.len(),
            forall|t: int| 0 <= t < k ==> v@[t] != p,
        decreases v@.len() - k,
    {
        if v[k].0 == p.0 && v[k].1 == p.1 {
            return true;
        }
        k += 1;
    }
    false
}

/// A fresh row with the same symbols as `s`.
pub fn copy_schema(s: &Vec<u8>) -> (r: Vec<u8>)
    ensures
        r@ == s@,
{
    let mut out: Vec<u8> = Vec::new();
    let mut j: usize = 0;
    while j < s.len()
        invariant
            j <= s@.len(),
            out@ == s@.take(j as int),
        decreases s@.len() - j,
    {
        out.push(s[j]);
        proof {
            assert(out@ =~= s@.take(j + 1));
        }
        j += 1;
    }
    proof {
        assert(s@.take(s@.len() as int) =~= s@);
    }
    out
}

/// A fresh index group with the same indices as `s`.
pub fn copy_group(s: &Vec<usize>) -> (r: Vec<usize>)
    ensures
        r@ == s@,
{
    let mut out: Vec<usize> = Vec::new();
    let mut j: usize = 0;
    while j < s.len()
        invariant
            j <= s@.len(),
            out@ == s@.take(j as int),
        decreases s@.len() - j,
    {
        out.push(s[j]);
        proof {
            assert(out@ =~= s@.take(j + 1));
        }
        j += 1;
    }
    proof {
        assert(s@.take(s@.len() as int) =~= s@);
    }
    out
}

/// A fresh collection whose rows have the same views as those of `v`.
pub fn copy_schemata(v: &Vec<Vec<u8>>) -> (r: Vec<Vec<u8>>)
    ensures
        views_of(r@) == views_of(v@),
        r@.len() == v@.len(),
{
    let mut out: Vec<Vec<u8>> = Vec::new();
    let mut k: usize = 0;
    while k < v.len()
        invariant
            k <= v@.len(),
            out@.len() == k,
            forall|t: int| 0 <= t < k ==> views_of(out@)[t] == views_of(v@)[t],
        decreases v@.len() - k,
    {
        out.push(copy_schema(&v[k]));
        k += 1;
    }
    proof {
        assert(views_of(out@) =~= views_of(v@));
    }
    out
}

/// A fresh list whose groups have the same views as those of `v`.
pub fn copy_groups(v: &Vec<Vec<usize>>) -> (r: Vec<Vec<usize>>)
    ensures
        group_views(r@) == group_views(v@),
        r@.len() == v@.len(),
{
    let mut out: Vec<Vec<usize>> = Vec::new();
    let mut k: usize = 0;
    while k < v.len()
        invariant
            k <= v@.len(),
            out@.len() == k,
            forall|t: int| 0 <= t < k ==> group_views(out@)[t] == group_views(v@)[t],
        decreases v@.len() - k,
    {
        out.push(copy_group(&v[k]));
        k += 1;
    }
    proof {
        assert(group_views(out@) =~= group_views(v@));
    }
    out
}

} // verus!
