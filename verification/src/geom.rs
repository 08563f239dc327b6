//! Shape/stride geometry: the element count of a shape, row- and column-major
//! byte strides, the byte offset a multi-index denotes, and the row-major flat
//! index it corresponds to.

use vstd::prelude::*;
use vstd::arithmetic::mul::lemma_mul_inequality;

verus! {

/// Number of elements of an array of extents `dims`: the product of the
/// extents.  The empty shape (a zero-dimensional, scalar array) has one
/// element.
pub open spec fn prod(dims: Seq<usize>) -> int
    decreases dims.len(),
{
    if dims.len() == 0 {
        1
    } else {
        dims[0] * prod(dims.drop_first())
    }
}

pub proof fn lemma_prod_nonneg(dims: Seq<usize>)
    ensures
        prod(dims) >= 0,
    decreases dims.len(),
{
    if dims.len() > 0 {
        lemma_prod_nonneg(dims.drop_first());
        assert(dims[0] * prod(dims.drop_first()) >= 0) by (nonlinear_arith)
            requires
                dims[0] >= 0,
                prod(dims.drop_first()) >= 0,
        ;
    }
}

/// Row-major byte strides for extents `dims` and element size `size`:
/// `stride[i] == size * prod(dims[i+1..])`, so the last axis varies fastest.
pub open spec fn row_major_strides(dims: Seq<usize>, size: nat) -> Seq<int> {
    Seq::new(dims.len(), |i: int| size * prod(dims.skip(i + 1)))
}

/// Column-major byte strides: `stride[i] == size * prod(dims[..i])`, so the
/// first axis varies fastest.
pub open spec fn col_major_strides(dims: Seq<usize>, size: nat) -> Seq<int> {
    Seq::new(dims.len(), |i: int| size * prod(dims.take(i)))
}

/// The byte offset that multi-index `idx` denotes under byte strides
/// `strides`: the dot product of the two.
pub open spec fn offset_of(idx: Seq<usize>, strides: Seq<int>) -> int
    decreases idx.len(),
{
    if idx.len() == 0 {
        0
    } else {
        idx[0] * strides[0] + offset_of(idx.drop_first(), strides.drop_first())
    }
}

/// The row-major flat position of multi-index `idx` within extents `dims`.
pub open spec fn flat_index(idx: Seq<usize>, dims: Seq<usize>) -> int
    decreases idx.len(),
{
    if idx.len() == 0 {
        0
    } else {
        idx[0] * prod(dims.drop_first()) + flat_index(idx.drop_first(), dims.drop_first())
    }
}

/// `idx` addresses an element of an array of extents `dims`.
pub open spec fn index_in_bounds(idx: Seq<usize>, dims: Seq<usize>) -> bool {
    &&& idx.len() == dims.len()
    &&& forall|i: int| 0 <= i < idx.len() ==> idx[i] < dims[i]
}

pub proof fn lemma_prod_pos_of_in_bounds(idx: Seq<usize>, dims: Seq<usize>)
    requires
        index_in_bounds(idx, dims),
    ensures
        prod(dims) >= 1,
    decreases dims.len(),
{
    if dims.len() > 0 {
        assert(index_in_bounds(idx.drop_first(), dims.drop_first()));
        lemma_prod_pos_of_in_bounds(idx.drop_first(), dims.drop_first());
        assert(dims[0] * prod(dims.drop_first()) >= 1) by (nonlinear_arith)
            requires
                dims[0] >= 1,
                prod(dims.drop_first()) >= 1,
        ;
    }
}

/// An in-bounds multi-index has a flat position inside the array.
pub proof fn lemma_flat_index_bounds(idx: Seq<usize>, dims: Seq<usize>)
    requires
        index_in_bounds(idx, dims),
    ensures
        0 <= flat_index(idx, dims) < prod(dims),
    decreases idx.len(),
{
    if idx.len() > 0 {
        let p = prod(dims.drop_first());
        assert(index_in_bounds(idx.drop_first(), dims.drop_first()));
        lemma_flat_index_bounds(idx.drop_first(), dims.drop_first());
        lemma_prod_pos_of_in_bounds(idx.drop_first(), dims.drop_first());
        assert(idx[0] * p >= 0) by (nonlinear_arith)
            requires
                idx[0] >= 0,
                p >= 0,
        ;
        lemma_mul_inequality(idx[0] as int, dims[0] - 1, p);
        assert((dims[0] - 1) * p + p == dims[0] * p) by (nonlinear_arith);
        assert(prod(dims) == dims[0] * p);
    }
}

/// Under row-major strides, the byte offset of an in-bounds index is its flat
/// position times the element size.
pub proof fn lemma_offset_row_major(idx: Seq<usize>, dims: Seq<usize>, size: nat)
    requires
        idx.len() == dims.len(),
    ensures
        offset_of(idx, row_major_strides(dims, size)) == flat_index(idx, dims) * size,
    decreases idx.len(),
{
    let st = row_major_strides(dims, size);
    if idx.len() == 0 {
        assert(flat_index(idx, dims) == 0);
        assert(offset_of(idx, st) == 0);
    } else {
        assert(st.drop_first() =~= row_major_strides(dims.drop_first(), size)) by {
            assert forall|j: int| 0 <= j < dims.len() - 1 implies st.drop_first()[j]
                == row_major_strides(dims.drop_first(), size)[j] by {
                assert(dims.skip(j + 2) =~= dims.drop_first().skip(j + 1));
            }
        }
        lemma_offset_row_major(idx.drop_first(), dims.drop_first(), size);
        let p = prod(dims.drop_first());
        let f = flat_index(idx.drop_first(), dims.drop_first());
        assert(dims.skip(1) =~= dims.drop_first());
        assert(st[0] == size * p);
        assert(idx[0] * (size * p) + f * size == (idx[0] * p + f) * size) by (nonlinear_arith);
    }
}

/// The largest byte offset any in-bounds multi-index denotes, for extents
/// `dims` (all positive) and non-negative byte strides `strides`.
pub open spec fn max_offset(dims: Seq<usize>, strides: Seq<int>) -> int
    decreases dims.len(),
{
    if dims.len() == 0 {
        0
    } else {
        (dims[0] - 1) * strides[0] + max_offset(dims.drop_first(), strides.drop_first())
    }
}

/// With non-negative strides, the offset of an in-bounds index lies between
/// zero and the largest offset.
pub proof fn lemma_offset_bounds(idx: Seq<usize>, dims: Seq<usize>, strides: Seq<int>)
    requires
        index_in_bounds(idx, dims),
        dims.len() == strides.len(),
        forall|i: int| 0 <= i < strides.len() ==> strides[i] >= 0,
    ensures
        0 <= offset_of(idx, strides) <= max_offset(dims, strides),
    decreases idx.len(),
{
    if idx.len() > 0 {
        assert(index_in_bounds(idx.drop_first(), dims.drop_first()));
        lemma_offset_bounds(idx.drop_first(), dims.drop_first(), strides.drop_first());
        assert(idx[0] * strides[0] >= 0) by (nonlinear_arith)
            requires
                idx[0] >= 0,
                strides[0] >= 0,
        ;
        lemma_mul_inequality(idx[0] as int, dims[0] - 1, strides[0]);
    }
}

/// Extending a prefix by one axis adds that axis's contribution to the dot
/// product.
pub proof fn lemma_offset_take_step(idx: Seq<usize>, st: Seq<int>, i: int)
    requires
        0 <= i < idx.len(),
        idx.len() == st.len(),
    ensures
        offset_of(idx.take(i + 1), st.take(i + 1)) == offset_of(idx.take(i), st.take(i)) + idx[i]
            * st[i],
    decreases i,
{
    if i == 0 {
        assert(idx.take(0) =~= Seq::<usize>::empty());
        assert(st.take(0) =~= Seq::<int>::empty());
        assert(idx.take(1)[0] == idx[0] && st.take(1)[0] == st[0]);
        assert(idx.take(1).drop_first() =~= Seq::<usize>::empty());
        assert(st.take(1).drop_first() =~= Seq::<int>::empty());
        assert(offset_of(idx.take(0), st.take(0)) == 0);
        assert(offset_of(idx.take(1), st.take(1)) == idx[0] * st[0] + offset_of(
            idx.take(1).drop_first(),
            st.take(1).drop_first(),
        ));
    } else {
        assert(idx.take(i + 1)[0] == idx[0] && st.take(i + 1)[0] == st[0]);
        assert(idx.take(i + 1).drop_first() =~= idx.drop_first().take(i));
        assert(st.take(i + 1).drop_first() =~= st.drop_first().take(i));
        assert(idx.take(i)[0] == idx[0] && st.take(i)[0] == st[0]);
        assert(idx.take(i).drop_first() =~= idx.drop_first().take(i - 1));
        assert(st.take(i).drop_first() =~= st.drop_first().take(i - 1));
        assert(idx.drop_first()[i - 1] == idx[i] && st.drop_first()[i - 1] == st[i]);
        lemma_offset_take_step(idx.drop_first(), st.drop_first(), i - 1);
        assert(offset_of(idx.take(i + 1), st.take(i + 1)) == idx[0] * st[0] + offset_of(
            idx.drop_first().take(i),
            st.drop_first().take(i),
        ));
        assert(offset_of(idx.take(i), st.take(i)) == idx[0] * st[0] + offset_of(
            idx.drop_first().take(i - 1),
            st.drop_first().take(i - 1),
        ));
    }
}

/// With non-negative strides, a prefix of the dot product never exceeds the
/// whole.
pub proof fn lemma_offset_prefix_le(idx: Seq<usize>, st: Seq<int>, j: int)
    requires
        idx.len() == st.len(),
        0 <= j <= idx.len(),
        forall|i: int| 0 <= i < st.len() ==> st[i] >= 0,
    ensures
        offset_of(idx.take(j), st.take(j)) <= offset_of(idx, st),
    decreases idx.len() - j,
{
    if j == idx.len() {
        assert(idx.take(j) =~= idx);
        assert(st.take(j) =~= st);
    } else {
        lemma_offset_take_step(idx, st, j);
        assert(idx[j] * st[j] >= 0) by (nonlinear_arith)
            requires
                idx[j] >= 0,
                st[j] >= 0,
        ;
        lemma_offset_prefix_le(idx, st, j + 1);
    }
}

/// With positive extents, every extent of a positive-product shape is
/// positive, and the product of all extents is at least one.
pub proof fn lemma_prod_pos(dims: Seq<usize>)
    requires
        forall|i: int| 0 <= i < dims.len() ==> dims[i] >= 1,
    ensures
        prod(dims) >= 1,
    decreases dims.len(),
{
    if dims.len() > 0 {
        lemma_prod_pos(dims.drop_first());
        assert(dims[0] * prod(dims.drop_first()) >= 1) by (nonlinear_arith)
            requires
                dims[0] >= 1,
                prod(dims.drop_first()) >= 1,
        ;
    }
}

/// Dropping leading axes cannot raise the largest offset when extents are
/// positive and strides non-negative.
pub proof fn lemma_max_offset_grows(dims: Seq<usize>, st: Seq<int>, i: int)
    requires
        0 <= i <= dims.len(),
        dims.len() == st.len(),
        forall|j: int| 0 <= j < st.len() ==> st[j] >= 0,
        forall|j: int| 0 <= j < dims.len() ==> dims[j] >= 1,
    ensures
        max_offset(dims, st) >= max_offset(dims.skip(i), st.skip(i)),
    decreases i,
{
    if i == 0 {
        assert(dims.skip(0) =~= dims);
        assert(st.skip(0) =~= st);
    } else {
        lemma_max_offset_grows(dims, st, i - 1);
        let d = dims.skip(i - 1);
        let s = st.skip(i - 1);
        assert(d[0] == dims[i - 1] && s[0] == st[i - 1]);
        assert(d.drop_first() =~= dims.skip(i));
        assert(s.drop_first() =~= st.skip(i));
        assert((d[0] - 1) * s[0] >= 0) by (nonlinear_arith)
            requires
                d[0] >= 1,
                s[0] >= 0,
        ;
    }
}

/// For row-major strides over positive extents, the largest offset is the
/// element size times one less than the element count.
pub proof fn lemma_max_offset_row_major(dims: Seq<usize>, size: nat)
    requires
        forall|i: int| 0 <= i < dims.len() ==> dims[i] >= 1,
    ensures
        max_offset(dims, row_major_strides(dims, size)) == size * (prod(dims) - 1),
    decreases dims.len(),
{
    let st = row_major_strides(dims, size);
    if dims.len() == 0 {
        assert(size * (prod(dims) - 1) == 0) by (nonlinear_arith)
            requires
                prod(dims) == 1,
        ;
    } else {
        assert(st.drop_first() =~= row_major_strides(dims.drop_first(), size)) by {
            assert forall|j: int| 0 <= j < dims.len() - 1 implies st.drop_first()[j]
                == row_major_strides(dims.drop_first(), size)[j] by {
                assert(dims.skip(j + 2) =~= dims.drop_first().skip(j + 1));
            }
        }
        lemma_max_offset_row_major(dims.drop_first(), size);
        lemma_prod_pos(dims.drop_first());
        let p = prod(dims.drop_first());
        assert(dims.skip(1) =~= dims.drop_first());
        assert(st[0] == size * p);
        assert((dims[0] - 1) * (size * p) + size * (p - 1) == size * (dims[0] * p - 1))
            by (nonlinear_arith);
        assert(prod(dims) == dims[0] * p);
    }
}

/// For column-major strides over positive extents, the largest offset is the
/// same as in the row-major case.
pub proof fn lemma_max_offset_col_major(dims: Seq<usize>, size: nat)
    requires
        forall|i: int| 0 <= i < dims.len() ==> dims[i] >= 1,
    ensures
        max_offset(dims, col_major_strides(dims, size)) == size * (prod(dims) - 1),
    decreases dims.len(),
{
    let st = col_major_strides(dims, size);
    if dims.len() == 0 {
        assert(size * (prod(dims) - 1) == 0) by (nonlinear_arith)
            requires
                prod(dims) == 1,
        ;
    } else {
        let d0 = dims[0] as nat;
        assert(st.drop_first() =~= col_major_strides(dims.drop_first(), (size * d0) as nat)) by {
            assert forall|j: int| 0 <= j < dims.len() - 1 implies st.drop_first()[j]
                == col_major_strides(dims.drop_first(), (size * d0) as nat)[j] by {
                assert(dims.take(j + 1)[0] == dims[0]);
                assert(dims.take(j + 1).drop_first() =~= dims.drop_first().take(j));
                assert(prod(dims.take(j + 1)) == dims[0] * prod(dims.drop_first().take(j)));
                assert(size * (dims[0] * prod(dims.drop_first().take(j))) == ((size * d0) as nat)
                    * prod(dims.drop_first().take(j))) by (nonlinear_arith)
                    requires
                        d0 == dims[0] as nat,
                ;
            }
        }
        lemma_max_offset_col_major(dims.drop_first(), (size * d0) as nat);
        lemma_prod_pos(dims.drop_first());
        let p = prod(dims.drop_first());
        assert(dims.take(0) =~= Seq::<usize>::empty());
        assert(st[0] == size * prod(dims.take(0)));
        assert(st[0] == size);
        assert((dims[0] - 1) * (size as int) + ((size * d0) as nat) * (p - 1) == size * (dims[0] * p
            - 1)) by (nonlinear_arith)
            requires
                d0 == dims[0],
        ;
        assert(prod(dims) == dims[0] * p);
    }
}

/// Compute the product of the extents, or report that it does not fit.
pub fn checked_prod(dims: &Vec<usize>) -> (r: Option<usize>)
    ensures
        match r {
            Some(p) => p == prod(dims@),
            None => prod(dims@) > usize::MAX,
        },
{
    let n = dims.len();
    // a zero extent zeroes the whole product, whatever the other extents are
    let mut i: usize = 0;
    while i < n
        invariant
            i <= n,
            n == dims@.len(),
            forall|j: int| 0 <= j < i ==> dims@[j] > 0,
        decreases n - i,
    {
        if dims[i] == 0 {
            proof {
                lemma_prod_zero(dims@, i as int);
            }
            return Some(0);
        }
        i = i + 1;
    }
    let mut acc: usize = 1;
    let mut k: usize = n;
    proof {
        assert(dims@.skip(n as int) =~= Seq::<usize>::empty());
    }
    while k > 0
        invariant
            k <= n,
            n == dims@.len(),
            forall|j: int| 0 <= j < n ==> dims@[j] > 0,
            acc == prod(dims@.skip(k as int)),
        decreases k,
    {
        k = k - 1;
        proof {
            assert(dims@.skip(k as int).drop_first() =~= dims@.skip(k + 1));
            assert(dims@.skip(k as int)[0] == dims@[k as int]);
        }
        match dims[k].checked_mul(acc) {
            Some(p) => {
                acc = p;
            },
            None => {
                proof {
                    lemma_prod_grows(dims@, k as int);
                }
                return None;
            },
        }
    }
    proof {
        assert(dims@.skip(0) =~= dims@);
    }
    Some(acc)
}

/// With positive extents, the whole product is at least any suffix product.
pub proof fn lemma_prod_grows(dims: Seq<usize>, i: int)
    requires
        0 <= i <= dims.len(),
        forall|j: int| 0 <= j < dims.len() ==> dims[j] > 0,
    ensures
        prod(dims) >= prod(dims.skip(i)),
    decreases i,
{
    if i == 0 {
        assert(dims.skip(0) =~= dims);
    } else {
        lemma_prod_grows(dims, i - 1);
        let s = dims.skip(i - 1);
        assert(s[0] == dims[i - 1]);
        assert(s.drop_first() =~= dims.skip(i));
        assert(prod(s) == dims[i - 1] * prod(dims.skip(i)));
        lemma_prod_nonneg(dims.skip(i));
        assert(dims[i - 1] * prod(dims.skip(i)) >= prod(dims.skip(i))) by (nonlinear_arith)
            requires
                dims[i - 1] >= 1,
                prod(dims.skip(i)) >= 0,
        ;
    }
}

/// A zero extent anywhere makes the whole product zero.
pub proof fn lemma_prod_zero(dims: Seq<usize>, i: int)
    requires
        0 <= i < dims.len(),
        dims[i] == 0,
    ensures
        prod(dims) == 0,
    decreases dims.len(),
{
    if i == 0 {
        assert(dims[0] * prod(dims.drop_first()) == 0) by (nonlinear_arith)
            requires
                dims[0] == 0,
        ;
    } else {
        assert(dims.drop_first()[i - 1] == dims[i]);
        lemma_prod_zero(dims.drop_first(), i - 1);
        assert(dims[0] * prod(dims.drop_first()) == 0) by (nonlinear_arith)
            requires
                prod(dims.drop_first()) == 0,
        ;
    }
}

/// Compute row-major byte strides, or report that some stride does not fit.
pub fn compute_row_major_strides(dims: &Vec<usize>, size: usize) -> (r: Option<Vec<isize>>)
    ensures
        match r {
            Some(st) => st@.map_values(|s: isize| s as int) == row_major_strides(
                dims@,
                size as nat,
            ) && (forall|j: int| 0 <= j < st@.len() ==> st@[j] >= 0),
            None => exists|j: int|
                1 <= j <= dims@.len() && size * prod(dims@.skip(j)) > isize::MAX,
        },
{
    let n = dims.len();
    let mut st: Vec<isize> = Vec::new();
    // strides are built innermost-first, then reversed into axis order
    let mut acc: usize = size;
    proof {
        assert(dims@.skip(n as int) =~= Seq::<usize>::empty());
    }
    let mut k: usize = n;
    while k > 0
        invariant
            k <= n,
            n == dims@.len(),
            k > 0 ==> acc == size * prod(dims@.skip(k as int)),
            st@.len() == n - k,
            forall|j: int| 0 <= j < st@.len() ==> st@[j] == size * prod(dims@.skip(n - j)),
            forall|j: int| 0 <= j < st@.len() ==> st@[j] >= 0,
        decreases k,
    {
        k = k - 1;
        if acc > (isize::MAX as usize) {
            proof {
                assert(1 <= k + 1 <= dims@.len() && size * prod(dims@.skip(k + 1)) > isize::MAX);
            }
            return None;
        }
        st.push(acc as isize);
        proof {
            assert(dims@.skip(k as int).drop_first() =~= dims@.skip(k + 1));
            assert(dims@.skip(k as int)[0] == dims@[k as int]);
            assert(size * (dims@[k as int] * prod(dims@.skip(k + 1))) == (size * prod(dims@.skip(
                k + 1,
            ))) * dims@[k as int]) by (nonlinear_arith);
        }
        if k > 0 {
            match acc.checked_mul(dims[k]) {
                Some(p) => {
                    acc = p;
                },
                None => {
                    proof {
                        assert(1 <= k <= dims@.len() && size * prod(dims@.skip(k as int))
                            > isize::MAX);
                    }
                    return None;
                },
            }
        }
    }
    // reverse into axis order
    let mut out: Vec<isize> = Vec::new();
    let mut j: usize = 0;
    while j < n
        invariant
            j <= n,
            n == dims@.len(),
            st@.len() == n,
            forall|t: int| 0 <= t < n ==> st@[t] == size * prod(dims@.skip(n - t)),
            forall|t: int| 0 <= t < n ==> st@[t] >= 0,
            out@.len() == j,
            forall|t: int| 0 <= t < j ==> out@[t] == size * prod(dims@.skip(t + 1)),
            forall|t: int| 0 <= t < j ==> out@[t] >= 0,
        decreases n - j,
    {
        out.push(st[n - 1 - j]);
        j = j + 1;
    }
    proof {
        assert(out@.map_values(|s: isize| s as int) =~= row_major_strides(dims@, size as nat));
    }
    Some(out)
}

/// Compute column-major byte strides, or report that some stride does not
/// fit.
pub fn compute_col_major_strides(dims: &Vec<usize>, size: usize) -> (r: Option<Vec<isize>>)
    ensures
        match r {
            Some(st) => st@.map_values(|s: isize| s as int) == col_major_strides(
                dims@,
                size as nat,
            ) && (forall|j: int| 0 <= j < st@.len() ==> st@[j] >= 0),
            None => exists|j: int|
                0 <= j < dims@.len() && size * prod(dims@.take(j)) > isize::MAX,
        },
{
    let n = dims.len();
    let mut out: Vec<isize> = Vec::new();
    let mut acc: usize = size;
    let mut i: usize = 0;
    proof {
        assert(dims@.take(0) =~= Seq::<usize>::empty());
    }
    while i < n
        invariant
            i <= n,
            n == dims@.len(),
            i < n ==> acc == size * prod(dims@.take(i as int)),
            out@.len() == i,
            forall|t: int| 0 <= t < i ==> out@[t] == size * prod(dims@.take(t)),
            forall|t: int| 0 <= t < i ==> out@[t] >= 0,
        decreases n - i,
    {
        if acc > (isize::MAX as usize) {
            proof {
                assert(0 <= i < dims@.len() && size * prod(dims@.take(i as int)) > isize::MAX);
            }
            return None;
        }
        out.push(acc as isize);
        proof {
            lemma_prod_take_step(dims@, i as int);
            assert(size * (prod(dims@.take(i as int)) * dims@[i as int]) == (size * prod(
                dims@.take(i as int),
            )) * dims@[i as int]) by (nonlinear_arith);
        }
        if i + 1 < n {
            match acc.checked_mul(dims[i]) {
                Some(p) => {
                    acc = p;
                },
                None => {
                    proof {
                        assert(0 <= i + 1 < dims@.len() && size * prod(dims@.take(i + 1))
                            > isize::MAX);
                    }
                    return None;
                },
            }
        }
        i = i + 1;
    }
    proof {
        assert(out@.map_values(|s: isize| s as int) =~= col_major_strides(dims@, size as nat));
    }
    Some(out)
}

/// Row-major flattening of a sequence of rows.
pub open spec fn flatten2<T>(v: Seq<Seq<T>>) -> Seq<T>
    decreases v.len(),
{
    if v.len() == 0 {
        Seq::empty()
    } else {
        v[0] + flatten2(v.drop_first())
    }
}

/// Row-major flattening of a sequence of planes.
pub open spec fn flatten3<T>(v: Seq<Seq<Seq<T>>>) -> Seq<T>
    decreases v.len(),
{
    if v.len() == 0 {
        Seq::empty()
    } else {
        flatten2(v[0]) + flatten3(v.drop_first())
    }
}

/// Every row has length `m`.
pub open spec fn rect2<T>(v: Seq<Seq<T>>, m: int) -> bool {
    forall|i: int| 0 <= i < v.len() ==> (#[trigger] v[i]).len() == m
}

pub proof fn lemma_flatten2_len<T>(v: Seq<Seq<T>>, m: int)
    requires
        rect2(v, m),
        m >= 0,
    ensures
        flatten2(v).len() == v.len() * m,
    decreases v.len(),
{
    if v.len() == 0 {
        assert(v.len() * m == 0) by (nonlinear_arith)
            requires
                v.len() == 0,
        ;
    } else {
        assert(rect2(v.drop_first(), m));
        lemma_flatten2_len(v.drop_first(), m);
        assert(m + (v.len() - 1) * m == v.len() * m) by (nonlinear_arith);
    }
}

/// The element at row `i`, column `j` sits at flat position `i * m + j`.
pub proof fn lemma_flatten2_index<T>(v: Seq<Seq<T>>, m: int, i: int, j: int)
    requires
        rect2(v, m),
        0 <= i < v.len(),
        0 <= j < m,
    ensures
        0 <= i * m + j < flatten2(v).len(),
        flatten2(v)[i * m + j] == v[i][j],
    decreases i,
{
    lemma_flatten2_len(v, m);
    assert(0 <= i * m + j < v.len() * m) by (nonlinear_arith)
        requires
            0 <= i < v.len(),
            0 <= j < m,
    ;
    if i == 0 {
        assert(i * m + j == j) by (nonlinear_arith)
            requires
                i == 0,
        ;
        assert(flatten2(v)[j] == v[0][j]);
    } else {
        assert(rect2(v.drop_first(), m));
        lemma_flatten2_index(v.drop_first(), m, i - 1, j);
        assert((i - 1) * m + j == i * m + j - m) by (nonlinear_arith);
        assert(i * m + j >= m) by (nonlinear_arith)
            requires
                i >= 1,
                j >= 0,
                m >= 0,
        ;
        assert(flatten2(v)[i * m + j] == flatten2(v.drop_first())[i * m + j - m]);
        assert(v.drop_first()[i - 1] == v[i]);
    }
}

/// Appending one row extends the flattening by that row.
pub proof fn lemma_flatten2_snoc<T>(v: Seq<Seq<T>>, row: Seq<T>)
    ensures
        flatten2(v.push(row)) == flatten2(v) + row,
    decreases v.len(),
{
    if v.len() == 0 {
        assert(v.push(row)[0] == row);
        assert(v.push(row).drop_first() =~= Seq::<Seq<T>>::empty());
        assert(flatten2(Seq::<Seq<T>>::empty()) == Seq::<T>::empty());
        assert(row + Seq::<T>::empty() =~= row);
        assert(flatten2(v) + row =~= row);
    } else {
        assert(v.push(row)[0] == v[0]);
        assert(v.push(row).drop_first() =~= v.drop_first().push(row));
        lemma_flatten2_snoc(v.drop_first(), row);
        assert(v[0] + (flatten2(v.drop_first()) + row) =~= (v[0] + flatten2(v.drop_first()))
            + row);
    }
}

pub proof fn lemma_flatten3_len<T>(v: Seq<Seq<Seq<T>>>, m2: int, m3: int)
    requires
        forall|i: int| 0 <= i < v.len() ==> (#[trigger] v[i]).len() == m2,
        forall|i: int| 0 <= i < v.len() ==> rect2(#[trigger] v[i], m3),
        m2 >= 0,
        m3 >= 0,
    ensures
        flatten3(v).len() == v.len() * (m2 * m3),
    decreases v.len(),
{
    if v.len() == 0 {
        assert(v.len() * (m2 * m3) == 0) by (nonlinear_arith)
            requires
                v.len() == 0,
        ;
    } else {
        lemma_flatten2_len(v[0], m3);
        assert(v[0].len() * m3 == m2 * m3);
        lemma_flatten3_len(v.drop_first(), m2, m3);
        assert(m2 * m3 + (v.len() - 1) * (m2 * m3) == v.len() * (m2 * m3)) by (nonlinear_arith);
        assert(m2 * m3 >= 0) by (nonlinear_arith)
            requires
                m2 >= 0,
                m3 >= 0,
        ;
    }
}

/// The element at plane `i`, row `j`, column `k` sits at flat position
/// `(i * m2 + j) * m3 + k`.
pub proof fn lemma_flatten3_index<T>(v: Seq<Seq<Seq<T>>>, m2: int, m3: int, i: int, j: int, k: int)
    requires
        forall|t: int| 0 <= t < v.len() ==> (#[trigger] v[t]).len() == m2,
        forall|t: int| 0 <= t < v.len() ==> rect2(#[trigger] v[t], m3),
        0 <= i < v.len(),
        0 <= j < m2,
        0 <= k < m3,
    ensures
        0 <= (i * m2 + j) * m3 + k < flatten3(v).len(),
        flatten3(v)[(i * m2 + j) * m3 + k] == v[i][j][k],
    decreases i,
{
    lemma_flatten3_len(v, m2, m3);
    assert(0 <= (i * m2 + j) * m3 + k < v.len() * (m2 * m3)) by (nonlinear_arith)
        requires
            0 <= i < v.len(),
            0 <= j < m2,
            0 <= k < m3,
    ;
    lemma_flatten2_len(v[0], m3);
    if i == 0 {
        assert(j * m3 + k < m2 * m3) by (nonlinear_arith)
            requires
                0 <= j < m2,
                0 <= k < m3,
        ;
        assert(j * m3 + k >= 0) by (nonlinear_arith)
            requires
                0 <= j,
                0 <= k,
                m3 >= 0,
        ;
        assert((i * m2 + j) * m3 + k == j * m3 + k) by (nonlinear_arith)
            requires
                i == 0,
        ;
        assert(flatten3(v)[j * m3 + k] == flatten2(v[0])[j * m3 + k]);
        lemma_flatten2_index(v[0], m3, j, k);
    } else {
        lemma_flatten3_index(v.drop_first(), m2, m3, i - 1, j, k);
        assert(((i - 1) * m2 + j) * m3 + k == (i * m2 + j) * m3 + k - m2 * m3)
            by (nonlinear_arith);
        assert((i * m2 + j) * m3 + k >= m2 * m3) by (nonlinear_arith)
            requires
                i >= 1,
                0 <= j,
                0 <= k,
                m2 >= 0,
                m3 >= 0,
        ;
        assert(flatten3(v)[(i * m2 + j) * m3 + k] == flatten3(v.drop_first())[(i * m2 + j) * m3 + k
            - m2 * m3]);
        assert(v.drop_first()[i - 1] == v[i]);
    }
}

/// Appending one plane extends the flattening by that plane's rows.
pub proof fn lemma_flatten3_snoc<T>(v: Seq<Seq<Seq<T>>>, plane: Seq<Seq<T>>)
    ensures
        flatten3(v.push(plane)) == flatten3(v) + flatten2(plane),
    decreases v.len(),
{
    if v.len() == 0 {
        assert(v.push(plane)[0] == plane);
        assert(v.push(plane).drop_first() =~= Seq::<Seq<Seq<T>>>::empty());
        assert(flatten3(Seq::<Seq<Seq<T>>>::empty()) == Seq::<T>::empty());
        assert(flatten2(plane) + Seq::<T>::empty() =~= flatten2(plane));
        assert(flatten3(v) + flatten2(plane) =~= flatten2(plane));
    } else {
        assert(v.push(plane)[0] == v[0]);
        assert(v.push(plane).drop_first() =~= v.drop_first().push(plane));
        lemma_flatten3_snoc(v.drop_first(), plane);
        assert(flatten2(v[0]) + (flatten3(v.drop_first()) + flatten2(plane)) =~= (flatten2(v[0])
            + flatten3(v.drop_first())) + flatten2(plane));
    }
}

/// With positive extents, the whole product is at least any prefix product.
pub proof fn lemma_prod_take_le(dims: Seq<usize>, j: int)
    requires
        0 <= j <= dims.len(),
        forall|i: int| 0 <= i < dims.len() ==> dims[i] >= 1,
    ensures
        prod(dims.take(j)) <= prod(dims),
        prod(dims.take(j)) >= 1,
    decreases dims.len() - j,
{
    if j == dims.len() {
        assert(dims.take(j) =~= dims);
        lemma_prod_pos(dims);
    } else {
        lemma_prod_take_le(dims, j + 1);
        lemma_prod_take_step(dims, j);
        lemma_prod_pos_take(dims, j);
        assert(prod(dims.take(j)) * dims[j] >= prod(dims.take(j))) by (nonlinear_arith)
            requires
                dims[j] >= 1,
                prod(dims.take(j)) >= 1,
        ;
    }
}

/// A prefix of positive extents has a positive product.
pub proof fn lemma_prod_pos_take(dims: Seq<usize>, j: int)
    requires
        0 <= j <= dims.len(),
        forall|i: int| 0 <= i < dims.len() ==> dims[i] >= 1,
    ensures
        prod(dims.take(j)) >= 1,
{
    assert(forall|i: int| 0 <= i < dims.take(j).len() ==> dims.take(j)[i] >= 1);
    lemma_prod_pos(dims.take(j));
}

/// Extending a prefix by one extent multiplies its product by that extent.
pub proof fn lemma_prod_take_step(dims: Seq<usize>, i: int)
    requires
        0 <= i < dims.len(),
    ensures
        prod(dims.take(i + 1)) == prod(dims.take(i)) * dims[i],
    decreases i,
{
    if i == 0 {
        assert(dims.take(0) =~= Seq::<usize>::empty());
        assert(dims.take(1)[0] == dims[0]);
        assert(dims.take(1).drop_first() =~= Seq::<usize>::empty());
        assert(prod(dims.take(1)) == dims[0] * prod(Seq::<usize>::empty()));
    } else {
        assert(dims.take(i + 1)[0] == dims[0]);
        assert(dims.take(i + 1).drop_first() =~= dims.drop_first().take(i));
        assert(dims.take(i)[0] == dims[0]);
        assert(dims.take(i).drop_first() =~= dims.drop_first().take(i - 1));
        assert(dims.drop_first()[i - 1] == dims[i]);
        lemma_prod_take_step(dims.drop_first(), i - 1);
        assert(dims[0] * (prod(dims.drop_first().take(i - 1)) * dims[i]) == (dims[0] * prod(
            dims.drop_first().take(i - 1),
        )) * dims[i]) by (nonlinear_arith);
    }
}

} // verus!
