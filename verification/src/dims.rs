//! Runtime dimension constraints.
//!
//! An axis character may appear in several inputs, or several times in
//! one input; all those positions must bind the same extent.  The host
//! checks this before invoking compiled code, and a violation aborts
//! execution with the offending axis and the two disagreeing sizes.

use vstd::prelude::*;

use crate::graph::tags_view;

verus! {

/// A dimension-constraint violation.
#[derive(Clone, Copy, Debug, PartialEq, Eq, Structural)]
pub enum DimError {
    /// Input `input` was given a number of extents different from the
    /// number of axes of its index string.
    RankMismatch { input: usize },
    /// Axis `axis` is bound to two different extents.
    SizeMismatch { axis: char, left: usize, right: usize },
}

/// Every pair of positions that binds one axis binds one extent.
pub open spec fn dims_consistent(indices: Seq<Seq<char>>, dims: Seq<Seq<usize>>) -> bool {
    forall|i: int, p: int, j: int, q: int|
        0 <= i < indices.len() && 0 <= p < indices[i].len()
        && 0 <= j < indices.len() && 0 <= q < indices[j].len()
        && (#[trigger] indices[i][p]) == (#[trigger] indices[j][q])
        ==> dims[i][p] == dims[j][q]
}

/// Every input has one extent per axis of its index string.
pub open spec fn ranks_match(indices: Seq<Seq<char>>, dims: Seq<Seq<usize>>) -> bool {
    dims.len() == indices.len()
    && forall|i: int| 0 <= i < indices.len()
        ==> (#[trigger] dims[i]).len() == indices[i].len()
}

/// The per-axis extent sequences of the dims arguments.
pub open spec fn dims_view(dims: &Vec<Vec<usize>>) -> Seq<Seq<usize>> {
    Seq::new(dims@.len(), |i: int| dims@[i]@)
}

/// Checks the dimension constraints of a set of inputs: `indices` holds
/// the index string of each input leaf in input order and `dims` the
/// runtime extents supplied for it.  Returns `Ok` exactly when every
/// input has the right rank and every axis binds a single extent;
/// otherwise returns the first violation found.
pub fn check_dim_constraints(indices: &Vec<Vec<char>>, dims: &Vec<Vec<usize>>) -> (r: Result<
    (),
    DimError,
>)
    requires
        dims@.len() == indices@.len(),
    ensures
        match r {
            Ok(()) => ranks_match(tags_view(indices), dims_view(dims))
                && dims_consistent(tags_view(indices), dims_view(dims)),
            Err(DimError::RankMismatch { input }) => (input as int) < indices@.len()
                && dims@[input as int]@.len() != indices@[input as int]@.len(),
            Err(DimError::SizeMismatch { axis, left, right }) => exists|i: int, p: int, j: int, q: int|
                0 <= i < indices@.len() && 0 <= p < indices@[i]@.len()
                && 0 <= j < indices@.len() && 0 <= q < indices@[j]@.len()
                && indices@[i]@[p] == axis && indices@[j]@[q] == axis
                && dims_view(dims)[i][p] == left && dims_view(dims)[j][q] == right
                && left != right,
        },
{
    let ghost iv = tags_view(indices);
    let ghost dv = dims_view(dims);
    let n = indices.len();
    let mut i: usize = 0;
    while i < n
        invariant
            n == indices@.len(),
            dims@.len() == indices@.len(),
            i <= n,
            iv == tags_view(indices),
            dv == dims_view(dims),
            forall|k: int| 0 <= k < i ==> (#[trigger] dv[k]).len() == iv[k].len(),
        decreases n - i,
    {
        if dims[i].len() != indices[i].len() {
            return Err(DimError::RankMismatch { input: i });
        }
        i = i + 1;
    }
    let mut i: usize = 0;
    while i < n
        invariant
            n == indices@.len(),
            dims@.len() == indices@.len(),
            i <= n,
            iv == tags_view(indices),
            dv == dims_view(dims),
            ranks_match(iv, dv),
            forall|i2: int, p2: int, j2: int, q2: int|
                0 <= i2 < i && 0 <= p2 < iv[i2].len()
                && 0 <= j2 < iv.len() && 0 <= q2 < iv[j2].len()
                && (#[trigger] iv[i2][p2]) == (#[trigger] iv[j2][q2])
                ==> dv[i2][p2] == dv[j2][q2],
        decreases n - i,
    {
        let leni = indices[i].len();
        let mut p: usize = 0;
        while p < leni
            invariant
                n == indices@.len(),
                dims@.len() == indices@.len(),
                i < n,
                leni == indices@[i as int]@.len(),
                p <= leni,
                iv == tags_view(indices),
                dv == dims_view(dims),
                ranks_match(iv, dv),
                forall|i2: int, p2: int, j2: int, q2: int|
                    0 <= i2 < i && 0 <= p2 < iv[i2].len()
                    && 0 <= j2 < iv.len() && 0 <= q2 < iv[j2].len()
                    && (#[trigger] iv[i2][p2]) == (#[trigger] iv[j2][q2])
                    ==> dv[i2][p2] == dv[j2][q2],
                forall|p2: int, j2: int, q2: int|
                    0 <= p2 < p
                    && 0 <= j2 < iv.len() && 0 <= q2 < iv[j2].len()
                    && (#[trigger] iv[i as int][p2]) == (#[trigger] iv[j2][q2])
                    ==> dv[i as int][p2] == dv[j2][q2],
            decreases leni - p,
        {
            let c = indices[i][p];
            let mut j: usize = 0;
            while j < n
                invariant
                    n == indices@.len(),
                    dims@.len() == indices@.len(),
                    i < n,
                    p < iv[i as int].len(),
                    c == iv[i as int][p as int],
                    j <= n,
                    iv == tags_view(indices),
                    dv == dims_view(dims),
                    ranks_match(iv, dv),
                    forall|j2: int, q2: int|
                        0 <= j2 < j && 0 <= q2 < iv[j2].len()
                        && (#[trigger] iv[j2][q2]) == c
                        ==> dv[i as int][p as int] == dv[j2][q2],
                decreases n - j,
            {
                let lenj = indices[j].len();
                let mut q: usize = 0;
                while q < lenj
                    invariant
                        n == indices@.len(),
                        dims@.len() == indices@.len(),
                        i < n,
                        j < n,
                        p < iv[i as int].len(),
                        c == iv[i as int][p as int],
                        lenj == indices@[j as int]@.len(),
                        q <= lenj,
                        iv == tags_view(indices),
                        dv == dims_view(dims),
                        ranks_match(iv, dv),
                        forall|q2: int|
                            0 <= q2 < q && (#[trigger] iv[j as int][q2]) == c
                            ==> dv[i as int][p as int] == dv[j as int][q2],
                    decreases lenj - q,
                {
                    if indices[j][q] == c {
                        proof {
                            assert(dv[i as int] == dims@[i as int]@);
                            assert(dv[j as int] == dims@[j as int]@);
                            assert(dv[i as int].len() == iv[i as int].len());
                            assert(dv[j as int].len() == iv[j as int].len());
                        }
                        let left = dims[i][p];
                        let right = dims[j][q];
                        if left != right {
                            return Err(DimError::SizeMismatch { axis: c, left, right });
                        }
                    }
                    q = q + 1;
                }
                j = j + 1;
            }
            p = p + 1;
        }
        i = i + 1;
    }
    Ok(())
}

} // verus!
