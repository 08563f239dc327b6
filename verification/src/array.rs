//! The foreign array object and its typed views.
//!
//! A `PyArray` stands for one array object owned by the untyped runtime: a
//! raw byte buffer together with the metadata the runtime keeps beside it —
//! an element-type tag, a shape, and per-axis byte strides.  Nothing ties the
//! buffer's bytes to a static type; every typed view is justified at runtime
//! by comparing tags and checking the strides before any byte is decoded.

use vstd::prelude::*;

use crate::error::ArrayCastError;
use crate::geom::checked_prod;
use crate::geom::col_major_strides;
use crate::geom::compute_col_major_strides;
use crate::geom::compute_row_major_strides;
use crate::geom::flat_index;
use crate::geom::flatten2;
use crate::geom::flatten3;
use crate::geom::index_in_bounds;
use crate::geom::lemma_flatten2_len;
use crate::geom::lemma_flatten2_snoc;
use crate::geom::lemma_flatten3_len;
use crate::geom::lemma_flatten3_snoc;
use crate::geom::lemma_prod_grows;
use crate::geom::rect2;
use crate::geom::lemma_max_offset_col_major;
use crate::geom::lemma_max_offset_grows;
use crate::geom::lemma_max_offset_row_major;
use crate::geom::lemma_offset_bounds;
use crate::geom::lemma_offset_prefix_le;
use crate::geom::lemma_offset_take_step;
use crate::geom::lemma_prod_pos;
use crate::geom::lemma_prod_pos_of_in_bounds;
use crate::geom::lemma_prod_zero;
use crate::geom::max_offset;
use crate::geom::offset_of;
use crate::geom::prod;
use crate::geom::row_major_strides;
use crate::types::tag_code;
use crate::types::tag_code_spec;
use crate::types::tag_size;
use crate::types::tag_size_spec;
use crate::types::ElemTag;
use crate::types::TypeNum;

verus! {

/// Memory-layout order for newly allocated arrays: whether the last axis
/// (row-major) or the first axis (column-major) varies fastest.
#[derive(Clone, Copy, Debug, PartialEq, Eq, Structural)]
pub enum NpyOrder {
    RowMajor,
    ColumnMajor,
}

/// One array object of the untyped runtime: its element-type tag, shape,
/// per-axis byte strides, and raw data buffer.
#[derive(Debug)]
pub struct PyArray {
    tag: ElemTag,
    dims: Vec<usize>,
    strides: Vec<isize>,
    data: Vec<u8>,
}

/// The metadata and buffer are consistent: one stride per axis, all strides
/// non-negative, the element count fits the address space, and every
/// in-bounds multi-index addresses a full element inside the buffer.
pub open spec fn raw_parts_ok(
    tag: ElemTag,
    dims: Seq<usize>,
    strides: Seq<isize>,
    data: Seq<u8>,
) -> bool {
    let st = strides.map_values(|s: isize| s as int);
    &&& dims.len() == strides.len()
    &&& (forall|i: int| 0 <= i < strides.len() ==> strides[i] >= 0)
    &&& prod(dims) <= usize::MAX
    &&& (prod(dims) > 0 ==> max_offset(dims, st) + tag_size_spec(tag) <= data.len())
}

/// The rows of a vector of rows, as sequences.
pub open spec fn rows2<T>(v: Seq<Vec<T>>) -> Seq<Seq<T>> {
    v.map_values(|r: Vec<T>| r@)
}

/// The planes of a vector of planes, as sequences of sequences.
pub open spec fn rows3<T>(v: Seq<Vec<Vec<T>>>) -> Seq<Seq<Seq<T>>> {
    v.map_values(|g: Vec<Vec<T>>| rows2(g@))
}

/// The length of the trailing row: the expected length of every row.
pub open spec fn trailing2<T>(rows: Seq<Seq<T>>) -> int {
    if rows.len() == 0 {
        0
    } else {
        rows.last().len() as int
    }
}

/// The second-level extent read from the trailing plane.
pub open spec fn trailing3a<T>(v: Seq<Vec<Vec<T>>>) -> int {
    if v.len() == 0 {
        0
    } else {
        v.last()@.len() as int
    }
}

/// The third-level extent read from the trailing row of the trailing plane.
pub open spec fn trailing3b<T>(v: Seq<Vec<Vec<T>>>) -> int {
    if v.len() == 0 || trailing3a(v) == 0 {
        0
    } else {
        v.last()@.last()@.len() as int
    }
}

impl PyArray {
    /// The runtime element-type tag stored in the array's metadata.
    pub closed spec fn tag_of(&self) -> ElemTag {
        self.tag
    }

    /// The extents of the array's axes.
    pub closed spec fn dims_spec(&self) -> Seq<usize> {
        self.dims@
    }

    /// The per-axis byte strides, as stored.
    pub closed spec fn strides_raw(&self) -> Seq<isize> {
        self.strides@
    }

    /// The per-axis byte strides, as integers.
    pub open spec fn strides_spec(&self) -> Seq<int> {
        self.strides_raw().map_values(|s: isize| s as int)
    }

    /// The raw bytes of the array's buffer.
    pub closed spec fn data_spec(&self) -> Seq<u8> {
        self.data@
    }

    /// The byte size of one element.
    pub open spec fn size_spec(&self) -> nat {
        tag_size_spec(self.tag_of())
    }

    /// The number of elements: the product of the extents.
    pub open spec fn len_spec(&self) -> int {
        prod(self.dims_spec())
    }

    /// The array's metadata and buffer are consistent.
    pub open spec fn wf(&self) -> bool {
        raw_parts_ok(self.tag_of(), self.dims_spec(), self.strides_raw(), self.data_spec())
    }

    /// The bytes that hold the element at multi-index `idx`.
    pub open spec fn elem_bytes_at(&self, idx: Seq<usize>) -> Seq<u8> {
        self.data_spec().subrange(
            offset_of(idx, self.strides_spec()),
            offset_of(idx, self.strides_spec()) + self.size_spec(),
        )
    }

    /// The element at multi-index `idx`, decoded as `T`.
    pub open spec fn elem_at<T: TypeNum>(&self, idx: Seq<usize>) -> T {
        T::decode_spec(self.elem_bytes_at(idx))
    }

    /// A typed view of element type `T` may be built over this array: the
    /// tags agree and every byte stride is a whole number of elements.
    pub open spec fn view_ok<T: TypeNum>(&self) -> bool {
        &&& self.tag_of() == T::tag_spec()
        &&& forall|i: int|
            0 <= i < self.strides_spec().len() ==> #[trigger] self.strides_spec()[i] % (
            self.size_spec() as int) == 0
    }

    /// Wrap metadata and a buffer handed over by the runtime as an array,
    /// after checking that they are consistent; the buffer is owned from here
    /// on.  Relies on nothing: every check is performed.
    pub fn from_owned_ptr(
        tag: ElemTag,
        dims: Vec<usize>,
        strides: Vec<isize>,
        data: Vec<u8>,
    ) -> (r: Result<PyArray, ArrayCastError>)
        ensures
            r.is_ok() <==> raw_parts_ok(tag, dims@, strides@, data@),
            match r {
                Ok(a) => {
                    &&& a.tag_of() == tag
                    &&& a.dims_spec() == dims@
                    &&& a.strides_raw() == strides@
                    &&& a.data_spec() == data@
                    &&& a.wf()
                },
                Err(e) => e == ArrayCastError::AllocationFailed,
            },
    {
        let n = dims.len();
        if strides.len() != n {
            return Err(ArrayCastError::AllocationFailed);
        }
        let mut i: usize = 0;
        while i < n
            invariant
                i <= n,
                n == strides@.len(),
                forall|j: int| 0 <= j < i ==> strides@[j] >= 0,
            decreases n - i,
        {
            if strides[i] < 0 {
                return Err(ArrayCastError::AllocationFailed);
            }
            i = i + 1;
        }
        let p = match checked_prod(&dims) {
            Some(p) => p,
            None => {
                return Err(ArrayCastError::AllocationFailed);
            },
        };
        if p > 0 {
            proof {
                assert forall|j: int| 0 <= j < dims@.len() implies dims@[j] >= 1 by {
                    if dims@[j] == 0 {
                        lemma_prod_zero(dims@, j);
                    }
                }
            }
            let ghost st = strides@.map_values(|s: isize| s as int);
            let dlen = data.len();
            let mut mo: usize = 0;
            let mut k: usize = n;
            proof {
                assert(dims@.skip(n as int) =~= Seq::<usize>::empty());
                assert(st.skip(n as int) =~= Seq::<int>::empty());
            }
            while k > 0
                invariant
                    k <= n,
                    n == dims@.len(),
                    n == strides@.len(),
                    st == strides@.map_values(|s: isize| s as int),
                    forall|j: int| 0 <= j < n ==> strides@[j] >= 0,
                    forall|j: int| 0 <= j < n ==> dims@[j] >= 1,
                    mo == max_offset(dims@.skip(k as int), st.skip(k as int)),
                    prod(dims@) > 0,
                    dlen == data@.len(),
                decreases k,
            {
                k = k - 1;
                proof {
                    assert(dims@.skip(k as int)[0] == dims@[k as int]);
                    assert(st.skip(k as int)[0] == st[k as int]);
                    assert(dims@.skip(k as int).drop_first() =~= dims@.skip(k + 1));
                    assert(st.skip(k as int).drop_first() =~= st.skip(k + 1));
                }
                let d: usize = dims[k] - 1;
                let s: usize = strides[k] as usize;
                let term = match d.checked_mul(s) {
                    Some(t) => t,
                    None => {
                        proof {
                            lemma_max_offset_grows(dims@, st, k as int);
                        }
                        return Err(ArrayCastError::AllocationFailed);
                    },
                };
                let next = match mo.checked_add(term) {
                    Some(m) => m,
                    None => {
                        proof {
                            lemma_max_offset_grows(dims@, st, k as int);
                        }
                        return Err(ArrayCastError::AllocationFailed);
                    },
                };
                mo = next;
            }
            proof {
                assert(dims@.skip(0) =~= dims@);
                assert(st.skip(0) =~= st);
            }
            let size = tag_size(tag);
            match mo.checked_add(size) {
                Some(end) => {
                    if end > dlen {
                        return Err(ArrayCastError::AllocationFailed);
                    }
                },
                None => {
                    return Err(ArrayCastError::AllocationFailed);
                },
            }
        }
        Ok(PyArray { tag, dims, strides, data })
    }

    /// Wrap metadata and a buffer that the runtime only lends out: the bytes
    /// are copied into an owned buffer, then checked as in
    /// [`from_owned_ptr`](Self::from_owned_ptr).
    pub fn from_borrowed_ptr(
        tag: ElemTag,
        dims: &Vec<usize>,
        strides: &Vec<isize>,
        data: &Vec<u8>,
    ) -> (r: Result<PyArray, ArrayCastError>)
        ensures
            r.is_ok() <==> raw_parts_ok(tag, dims@, strides@, data@),
            match r {
                Ok(a) => {
                    &&& a.tag_of() == tag
                    &&& a.dims_spec() == dims@
                    &&& a.strides_raw() == strides@
                    &&& a.data_spec() == data@
                    &&& a.wf()
                },
                Err(e) => e == ArrayCastError::AllocationFailed,
            },
    {
        Self::from_owned_ptr(tag, copy_vec(dims), copy_vec(strides), copy_vec(data))
    }

    /// Number of dimensions of the array.
    pub fn ndim(&self) -> (r: usize)
        ensures
            r == self.dims_spec().len(),
    {
        self.dims.len()
    }

    /// The extent of each axis.
    pub fn shape(&self) -> (r: &[usize])
        ensures
            r@ == self.dims_spec(),
    {
        self.dims.as_slice()
    }

    /// Same as [`shape`](Self::shape); kept under its historical name.
    pub fn dims(&self) -> (r: &[usize])
        ensures
            r@ == self.dims_spec(),
    {
        self.shape()
    }

    /// The byte stride of each axis: how many bytes lie between consecutive
    /// elements along that axis.
    pub fn strides(&self) -> (r: &[isize])
        ensures
            r@ == self.strides_raw(),
    {
        self.strides.as_slice()
    }

    /// Number of elements: the product of the extents (one for a
    /// zero-dimensional, scalar array).
    pub fn len(&self) -> (r: usize)
        requires
            self.wf(),
        ensures
            r == self.len_spec(),
    {
        match checked_prod(&self.dims) {
            Some(p) => p,
            None => {
                proof {
                    assert(false);
                }
                vstd::pervasive::unreached()
            },
        }
    }

    /// The numeric code of the element-type tag stored in the array's
    /// metadata.
    pub fn typenum(&self) -> (r: i32)
        ensures
            r == tag_code_spec(self.tag_of()),
    {
        tag_code(self.tag)
    }

    /// Compare the requested element type's tag against the array's runtime
    /// tag; this check precedes every byte reinterpretation.
    fn type_check<T: TypeNum>(&self) -> (r: Result<(), ArrayCastError>)
        ensures
            r.is_ok() <==> self.tag_of() == T::tag_spec(),
            self.tag_of() != T::tag_spec() ==> r == Err::<(), ArrayCastError>(
                ArrayCastError::ToRust {
                    expected: tag_code_spec(T::tag_spec()) as i32,
                    found: tag_code_spec(self.tag_of()) as i32,
                },
            ),
    {
        let test = T::typenum();
        let truth = self.typenum();
        proof {
            crate::types::lemma_tag_code_injective(T::tag_spec(), self.tag_of());
        }
        if test == truth {
            Ok(())
        } else {
            Err(ArrayCastError::ToRust { expected: test, found: truth })
        }
    }

    /// The byte offset of an in-bounds multi-index: the dot product of the
    /// index with the byte strides.
    fn byte_offset(&self, idx: &Vec<usize>) -> (r: usize)
        requires
            self.wf(),
            index_in_bounds(idx@, self.dims_spec()),
        ensures
            r == offset_of(idx@, self.strides_spec()),
            r + self.size_spec() <= self.data_spec().len(),
    {
        proof {
            lemma_prod_pos_of_in_bounds(idx@, self.dims_spec());
            lemma_offset_bounds(idx@, self.dims_spec(), self.strides_spec());
        }
        let ghost st = self.strides_spec();
        let n = idx.len();
        let dlen = self.data.len();
        let mut acc: usize = 0;
        let mut i: usize = 0;
        proof {
            assert(idx@.take(0) =~= Seq::<usize>::empty());
            assert(st.take(0) =~= Seq::<int>::empty());
        }
        while i < n
            invariant
                i <= n,
                n == idx@.len(),
                n == self.strides@.len(),
                st == self.strides_spec(),
                self.wf(),
                index_in_bounds(idx@, self.dims_spec()),
                dlen == self.data_spec().len(),
                offset_of(idx@, st) + self.size_spec() <= dlen,
                acc == offset_of(idx@.take(i as int), st.take(i as int)),
            decreases n - i,
        {
            proof {
                lemma_offset_take_step(idx@, st, i as int);
                lemma_offset_prefix_le(idx@, st, i + 1);
                assert(idx@[i as int] * st[i as int] >= 0) by (nonlinear_arith)
                    requires
                        idx@[i as int] >= 0,
                        st[i as int] >= 0,
                ;
            }
            acc = acc + idx[i] * (self.strides[i] as usize);
            i = i + 1;
        }
        proof {
            assert(idx@.take(n as int) =~= idx@);
            assert(st.take(n as int) =~= st);
        }
        acc
    }

    /// Typed read-only access to the array, after the type and stride checks.
    /// Mirrors the untyped metadata as a geometric descriptor; no bytes are
    /// copied.
    pub fn as_array<T: TypeNum>(&self) -> (r: Result<ArrayViewD<T>, ArrayCastError>)
        requires
            self.wf(),
        ensures
            r.is_ok() <==> self.view_ok::<T>(),
            match r {
                Ok(view) => view.valid_for(self) && view.dims_of() == self.dims_spec(),
                Err(e) => e matches ArrayCastError::ToRust { expected, found } || e matches
                    ArrayCastError::StrideMismatch { stride, elem_size },
            },
            self.tag_of() != T::tag_spec() ==> r == Err::<ArrayViewD<T>, ArrayCastError>(
                ArrayCastError::ToRust {
                    expected: tag_code_spec(T::tag_spec()) as i32,
                    found: tag_code_spec(self.tag_of()) as i32,
                },
            ),
    {
        match self.type_check::<T>() {
            Ok(()) => (),
            Err(e) => {
                return Err(e);
            },
        }
        let strides = match self.elem_strides::<T>() {
            Ok(es) => es,
            Err(e) => {
                return Err(e);
            },
        };
        let dims = copy_vec(&self.dims);
        Ok(ArrayViewD { dims, elem_strides: strides, marker: core::marker::PhantomData })
    }

    /// Typed mutable access to the array, after the same checks.  Callers
    /// must not hold any other view of the same array while they write
    /// through this one; writes go through an exclusive borrow of the array.
    pub fn as_array_mut<T: TypeNum>(&self) -> (r: Result<ArrayViewMutD<T>, ArrayCastError>)
        requires
            self.wf(),
        ensures
            r.is_ok() <==> self.view_ok::<T>(),
            match r {
                Ok(view) => view.valid_for(self) && view.dims_of() == self.dims_spec(),
                Err(e) => e matches ArrayCastError::ToRust { expected, found } || e matches
                    ArrayCastError::StrideMismatch { stride, elem_size },
            },
            self.tag_of() != T::tag_spec() ==> r == Err::<ArrayViewMutD<T>, ArrayCastError>(
                ArrayCastError::ToRust {
                    expected: tag_code_spec(T::tag_spec()) as i32,
                    found: tag_code_spec(self.tag_of()) as i32,
                },
            ),
    {
        match self.type_check::<T>() {
            Ok(()) => (),
            Err(e) => {
                return Err(e);
            },
        }
        let strides = match self.elem_strides::<T>() {
            Ok(es) => es,
            Err(e) => {
                return Err(e);
            },
        };
        let dims = copy_vec(&self.dims);
        Ok(ArrayViewMutD { dims, elem_strides: strides, marker: core::marker::PhantomData })
    }

    /// Build an array from a shape, optional explicit byte strides (row-major
    /// when absent), and an optional buffer (a fresh one of the right size,
    /// with indeterminate contents, when absent).
    pub fn new_<T: TypeNum>(
        dims: &Vec<usize>,
        strides: Option<Vec<isize>>,
        data: Option<Vec<u8>>,
    ) -> (r: Result<PyArray, ArrayCastError>)
        ensures
            match r {
                Ok(a) => {
                    &&& a.wf()
                    &&& a.tag_of() == T::tag_spec()
                    &&& a.dims_spec() == dims@
                    &&& (strides matches Some(s) ==> a.strides_raw() == s@)
                    &&& (strides is None ==> a.strides_spec() == row_major_strides(
                        dims@,
                        tag_size_spec(T::tag_spec()),
                    ))
                    &&& (data matches Some(d) ==> a.data_spec() == d@)
                    &&& (data is None ==> a.data_spec() == Seq::new(
                        (prod(dims@) * tag_size_spec(T::tag_spec())) as nat,
                        |i: int| 0u8,
                    ))
                },
                Err(e) => e == ArrayCastError::AllocationFailed,
            },
            (strides is None && data is None && (forall|i: int|
                0 <= i < dims@.len() ==> dims@[i] >= 1) && prod(dims@) * tag_size_spec(
                T::tag_spec(),
            ) <= isize::MAX) ==> r.is_ok(),
    {
        let size = tag_size(T::tag());
        let ghost all_pos = forall|i: int| 0 <= i < dims@.len() ==> dims@[i] >= 1;
        let ghost small = prod(dims@) * tag_size_spec(T::tag_spec()) <= isize::MAX;
        proof {
            if all_pos {
                lemma_prod_pos(dims@);
            }
        }
        let st: Vec<isize> = match strides {
            Some(s) => s,
            None => {
                match compute_row_major_strides(dims, size) {
                    Some(s) => s,
                    None => {
                        proof {
                            if all_pos && small {
                                let j = choose|j: int|
                                    1 <= j <= dims@.len() && size * prod(dims@.skip(j))
                                        > isize::MAX;
                                crate::geom::lemma_prod_grows(dims@, j);
                                assert(size * prod(dims@.skip(j)) <= size * prod(dims@))
                                    by (nonlinear_arith)
                                    requires
                                        prod(dims@.skip(j)) <= prod(dims@),
                                        size >= 0,
                                ;
                                assert(size * prod(dims@) == prod(dims@) * tag_size_spec(
                                    T::tag_spec(),
                                )) by (nonlinear_arith)
                                    requires
                                        size == tag_size_spec(T::tag_spec()),
                                ;
                                assert(false);
                            }
                        }
                        return Err(ArrayCastError::AllocationFailed);
                    },
                }
            },
        };
        let p = match checked_prod(dims) {
            Some(p) => p,
            None => {
                return Err(ArrayCastError::AllocationFailed);
            },
        };
        let buf: Vec<u8> = match data {
            Some(d) => d,
            None => {
                match p.checked_mul(size) {
                    Some(bytes) => crate::types::zero_bytes(bytes),
                    None => {
                        proof {
                            if all_pos && small {
                                assert(p * size == prod(dims@) * tag_size_spec(T::tag_spec()))
                                    by (nonlinear_arith)
                                    requires
                                        p == prod(dims@),
                                        size == tag_size_spec(T::tag_spec()),
                                ;
                                assert(false);
                            }
                        }
                        return Err(ArrayCastError::AllocationFailed);
                    },
                }
            },
        };
        let dims2 = copy_vec(dims);
        let r = Self::from_owned_ptr(T::tag(), dims2, st, buf);
        proof {
            if strides is None && data is None && all_pos && small {
                let stv = st@.map_values(|s: isize| s as int);
                assert(stv == row_major_strides(dims@, size as nat));
                lemma_max_offset_row_major(dims@, size as nat);
                assert(size * (prod(dims@) - 1) + size == size * prod(dims@)) by (nonlinear_arith);
                assert(size * prod(dims@) == prod(dims@) * tag_size_spec(T::tag_spec()))
                    by (nonlinear_arith)
                    requires
                        size == tag_size_spec(T::tag_spec()),
                ;
                assert(raw_parts_ok(T::tag_spec(), dims@, st@, buf@));
            }
        }
        r
    }

    /// Allocate an array of the given shape with indeterminate contents and
    /// row-major strides.
    pub fn new<T: TypeNum>(dims: &Vec<usize>) -> (r: Result<PyArray, ArrayCastError>)
        ensures
            match r {
                Ok(a) => {
                    &&& a.wf()
                    &&& a.tag_of() == T::tag_spec()
                    &&& a.dims_spec() == dims@
                    &&& a.strides_spec() == row_major_strides(dims@, tag_size_spec(T::tag_spec()))
                    &&& a.data_spec().len() == prod(dims@) * tag_size_spec(T::tag_spec())
                },
                Err(e) => e == ArrayCastError::AllocationFailed,
            },
            ((forall|i: int| 0 <= i < dims@.len() ==> dims@[i] >= 1) && prod(dims@)
                * tag_size_spec(T::tag_spec()) <= isize::MAX) ==> r.is_ok(),
    {
        let r = Self::new_::<T>(dims, None, None);
        proof {
            crate::geom::lemma_prod_nonneg(dims@);
            assert(prod(dims@) * tag_size_spec(T::tag_spec()) >= 0) by (nonlinear_arith)
                requires
                    prod(dims@) >= 0,
            ;
        }
        r
    }

    /// Allocate a zero-filled array of the given shape, with row-major or
    /// column-major strides as requested.
    pub fn zeros<T: TypeNum>(dims: &Vec<usize>, order: NpyOrder) -> (r: Result<
        PyArray,
        ArrayCastError,
    >)
        ensures
            match r {
                Ok(a) => {
                    &&& a.wf()
                    &&& a.tag_of() == T::tag_spec()
                    &&& a.dims_spec() == dims@
                    &&& a.strides_spec() == (if order == NpyOrder::RowMajor {
                        row_major_strides(dims@, tag_size_spec(T::tag_spec()))
                    } else {
                        col_major_strides(dims@, tag_size_spec(T::tag_spec()))
                    })
                    &&& a.data_spec() == Seq::new(
                        (prod(dims@) * tag_size_spec(T::tag_spec())) as nat,
                        |i: int| 0u8,
                    )
                },
                Err(e) => e == ArrayCastError::AllocationFailed,
            },
            ((forall|i: int| 0 <= i < dims@.len() ==> dims@[i] >= 1) && prod(dims@)
                * tag_size_spec(T::tag_spec()) <= isize::MAX) ==> r.is_ok(),
    {
        let size = tag_size(T::tag());
        let ghost all_pos = forall|i: int| 0 <= i < dims@.len() ==> dims@[i] >= 1;
        let ghost small = prod(dims@) * tag_size_spec(T::tag_spec()) <= isize::MAX;
        proof {
            if all_pos {
                lemma_prod_pos(dims@);
            }
            if all_pos && small {
                assert(size * prod(dims@) == prod(dims@) * tag_size_spec(T::tag_spec()))
                    by (nonlinear_arith)
                    requires
                        size == tag_size_spec(T::tag_spec()),
                ;
            }
        }
        let st: Vec<isize> = match order {
            NpyOrder::RowMajor => {
                match compute_row_major_strides(dims, size) {
                    Some(s) => s,
                    None => {
                        proof {
                            if all_pos && small {
                                let j = choose|j: int|
                                    1 <= j <= dims@.len() && size * prod(dims@.skip(j))
                                        > isize::MAX;
                                crate::geom::lemma_prod_grows(dims@, j);
                                assert(size * prod(dims@.skip(j)) <= size * prod(dims@))
                                    by (nonlinear_arith)
                                    requires
                                        prod(dims@.skip(j)) <= prod(dims@),
                                        size >= 0,
                                ;
                                assert(false);
                            }
                        }
                        return Err(ArrayCastError::AllocationFailed);
                    },
                }
            },
            NpyOrder::ColumnMajor => {
                match compute_col_major_strides(dims, size) {
                    Some(s) => s,
                    None => {
                        proof {
                            if all_pos && small {
                                let j = choose|j: int|
                                    0 <= j < dims@.len() && size * prod(dims@.take(j))
                                        > isize::MAX;
                                crate::geom::lemma_prod_take_le(dims@, j);
                                assert(size * prod(dims@.take(j)) <= size * prod(dims@))
                                    by (nonlinear_arith)
                                    requires
                                        prod(dims@.take(j)) <= prod(dims@),
                                        size >= 0,
                                ;
                                assert(false);
                            }
                        }
                        return Err(ArrayCastError::AllocationFailed);
                    },
                }
            },
        };
        let p = match checked_prod(dims) {
            Some(p) => p,
            None => {
                return Err(ArrayCastError::AllocationFailed);
            },
        };
        let bytes = match p.checked_mul(size) {
            Some(bytes) => bytes,
            None => {
                proof {
                    if all_pos && small {
                        assert(false);
                    }
                }
                return Err(ArrayCastError::AllocationFailed);
            },
        };
        let buf = crate::types::zero_bytes(bytes);
        let dims2 = copy_vec(dims);
        let r = Self::from_owned_ptr(T::tag(), dims2, st, buf);
        proof {
            if all_pos && small {
                let stv = st@.map_values(|s: isize| s as int);
                if order == NpyOrder::RowMajor {
                    lemma_max_offset_row_major(dims@, size as nat);
                } else {
                    lemma_max_offset_col_major(dims@, size as nat);
                }
                assert(size * (prod(dims@) - 1) + size == size * prod(dims@)) by (nonlinear_arith);
                assert(raw_parts_ok(T::tag_spec(), dims@, st@, buf@));
            }
        }
        r
    }

    /// The buffer is laid out contiguously in row-major order.
    pub open spec fn is_contiguous(&self) -> bool {
        self.strides_spec() == row_major_strides(self.dims_spec(), self.size_spec())
    }

    /// Construct a one-dimensional array owning the elements of `v`.
    pub fn from_vec<T: TypeNum>(v: Vec<T>) -> (r: Result<PyArray, ArrayCastError>)
        ensures
            r.is_ok(),
            match r {
                Ok(a) => {
                    &&& a.wf()
                    &&& a.tag_of() == T::tag_spec()
                    &&& a.dims_spec() == seq![v@.len() as usize]
                    &&& a.is_contiguous()
                    &&& a.data_spec() == crate::types::encode_all::<T>(v@)
                },
                Err(e) => false,
            },
    {
        Self::build_one_dim::<T>(v.as_slice())
    }

    /// Construct a one-dimensional array from a boxed slice of elements; the
    /// runtime's buffer takes over their values.
    pub fn from_boxed_slice<T: TypeNum>(v: &[T]) -> (r: Result<PyArray, ArrayCastError>)
        ensures
            r.is_ok(),
            match r {
                Ok(a) => {
                    &&& a.wf()
                    &&& a.tag_of() == T::tag_spec()
                    &&& a.dims_spec() == seq![v@.len() as usize]
                    &&& a.is_contiguous()
                    &&& a.data_spec() == crate::types::encode_all::<T>(v@)
                },
                Err(e) => false,
            },
    {
        Self::build_one_dim::<T>(v)
    }

    /// Shared path of the one-dimensional constructors.
    fn build_one_dim<T: TypeNum>(v: &[T]) -> (r: Result<PyArray, ArrayCastError>)
        ensures
            r.is_ok(),
            match r {
                Ok(a) => {
                    &&& a.wf()
                    &&& a.tag_of() == T::tag_spec()
                    &&& a.dims_spec() == seq![v@.len() as usize]
                    &&& a.is_contiguous()
                    &&& a.data_spec() == crate::types::encode_all::<T>(v@)
                },
                Err(e) => false,
            },
    {
        let n = v.len();
        let size = tag_size(T::tag());
        let mut dims: Vec<usize> = Vec::new();
        dims.push(n);
        proof {
            assert(dims@ =~= seq![v@.len() as usize]);
            assert(dims@.drop_first() =~= Seq::<usize>::empty());
            assert(prod(Seq::<usize>::empty()) == 1);
            assert(prod(dims@) == n * prod(Seq::<usize>::empty()));
            assert(prod(dims@) == v@.len());
            assert(tag_size_spec(T::tag_spec()) <= 8);
        }
        let st = match compute_row_major_strides(&dims, size) {
            Some(s) => s,
            None => {
                proof {
                    let j = choose|j: int|
                        1 <= j <= dims@.len() && size * prod(dims@.skip(j)) > isize::MAX;
                    assert(j == 1);
                    assert(dims@.skip(1) =~= Seq::<usize>::empty());
                    assert(prod(Seq::<usize>::empty()) == 1);
                    assert(size * prod(dims@.skip(1)) == size);
                    assert(false);
                }
                return Err(ArrayCastError::AllocationFailed);
            },
        };
        let data = crate::types::encode_slice::<T>(v);
        let r = Self::from_owned_ptr(T::tag(), dims, st, data);
        proof {
            crate::types::lemma_encode_all_len::<T>(v@);
            let dimsq = seq![v@.len() as usize];
            let stv = st@.map_values(|s: isize| s as int);
            assert(stv == row_major_strides(dimsq, tag_size_spec(T::tag_spec())));
            if prod(dimsq) > 0 {
                assert forall|i: int| 0 <= i < dimsq.len() implies dimsq[i] >= 1 by {
                    if dimsq[i] == 0 {
                        lemma_prod_zero(dimsq, i);
                    }
                }
                lemma_max_offset_row_major(dimsq, tag_size_spec(T::tag_spec()));
                assert(tag_size_spec(T::tag_spec()) * (prod(dimsq) - 1) + tag_size_spec(
                    T::tag_spec(),
                ) == tag_size_spec(T::tag_spec()) * prod(dimsq)) by (nonlinear_arith);
                assert(tag_size_spec(T::tag_spec()) * prod(dimsq) == v@.len() * tag_size_spec(
                    T::tag_spec(),
                )) by (nonlinear_arith)
                    requires
                        prod(dimsq) == v@.len(),
                ;
            }
            assert(dimsq.len() == st@.len());
            assert(forall|i: int| 0 <= i < st@.len() ==> st@[i] >= 0);
            assert(prod(dimsq) <= usize::MAX);
            assert(prod(dimsq) > 0 ==> max_offset(dimsq, st@.map_values(|s: isize| s as int))
                + tag_size_spec(T::tag_spec()) <= data@.len());
            assert(raw_parts_ok(T::tag_spec(), dimsq, st@, data@));
        }
        r
    }

    /// Construct a two-dimensional array from rows, after checking that all
    /// rows share the trailing row's length; the rows are flattened in
    /// row-major order.  No array is built when the input is not rectangular.
    pub fn from_vec2<T: TypeNum>(v: &Vec<Vec<T>>) -> (r: Result<PyArray, ArrayCastError>)
        ensures
            (r == Err::<PyArray, ArrayCastError>(ArrayCastError::FromVec { depth: 2 })) <==> !rect2(
                rows2(v@),
                trailing2(rows2(v@)),
            ),
            match r {
                Ok(a) => {
                    &&& rect2(rows2(v@), trailing2(rows2(v@)))
                    &&& a.wf()
                    &&& a.tag_of() == T::tag_spec()
                    &&& a.dims_spec() =~= seq![
                        v@.len() as usize,
                        trailing2(rows2(v@)) as usize,
                    ]
                    &&& a.is_contiguous()
                    &&& a.data_spec() == crate::types::encode_all::<T>(flatten2(rows2(v@)))
                    &&& a.len_spec() == v@.len() * trailing2(rows2(v@))
                },
                Err(e) => e == ArrayCastError::FromVec { depth: 2 } || e
                    == ArrayCastError::AllocationFailed,
            },
            (rect2(rows2(v@), trailing2(rows2(v@))) && v@.len() >= 1 && trailing2(rows2(v@)) >= 1
                && (v@.len() * trailing2(rows2(v@))) * tag_size_spec(T::tag_spec()) <= isize::MAX)
                ==> r.is_ok(),
    {
        let ghost rows = rows2(v@);
        let n = v.len();
        let last_len: usize = if n == 0 {
            0
        } else {
            v[n - 1].len()
        };
        proof {
            if n > 0 {
                assert(rows[n - 1] == v@[n - 1]@);
            }
            assert(trailing2(rows) == last_len);
        }
        let mut i: usize = 0;
        while i < n
            invariant
                i <= n,
                n == v@.len(),
                rows == rows2(v@),
                trailing2(rows) == last_len,
                forall|j: int| 0 <= j < i ==> (#[trigger] rows[j]).len() == last_len,
            decreases n - i,
        {
            if v[i].len() != last_len {
                proof {
                    assert(rows[i as int] == v@[i as int]@);
                    assert(!rect2(rows, trailing2(rows)));
                }
                return Err(ArrayCastError::FromVec { depth: 2 });
            }
            proof {
                assert(rows[i as int] == v@[i as int]@);
            }
            i = i + 1;
        }
        proof {
            assert(rect2(rows, last_len as int));
        }
        let mut flat: Vec<T> = Vec::new();
        let mut a: usize = 0;
        proof {
            assert(rows.take(0) =~= Seq::<Seq<T>>::empty());
        }
        while a < n
            invariant
                a <= n,
                n == v@.len(),
                rows == rows2(v@),
                rect2(rows, last_len as int),
                flat@ == flatten2(rows.take(a as int)),
            decreases n - a,
        {
            let row = &v[a];
            let rl = row.len();
            proof {
                assert(rows[a as int] == v@[a as int]@);
                assert(row@.take(0) =~= Seq::<T>::empty());
                assert(flat@ + Seq::<T>::empty() =~= flat@);
            }
            let ghost base = flat@;
            let mut b: usize = 0;
            while b < rl
                invariant
                    b <= rl,
                    rl == row@.len(),
                    flat@ == base + row@.take(b as int),
                decreases rl - b,
            {
                flat.push(row[b]);
                proof {
                    assert(row@.take(b + 1) =~= row@.take(b as int).push(row@[b as int]));
                    assert(flat@ =~= base + row@.take(b + 1));
                }
                b = b + 1;
            }
            proof {
                assert(row@.take(rl as int) =~= row@);
                lemma_flatten2_snoc(rows.take(a as int), rows[a as int]);
                assert(rows.take(a + 1) =~= rows.take(a as int).push(rows[a as int]));
            }
            a = a + 1;
        }
        proof {
            assert(rows.take(n as int) =~= rows);
        }
        let flen = flat.len();
        let mut dims: Vec<usize> = Vec::new();
        dims.push(n);
        dims.push(last_len);
        proof {
            assert(dims@ =~= seq![n, last_len]);
            assert(dims@.drop_first() =~= seq![last_len]);
            assert(seq![last_len].drop_first() =~= Seq::<usize>::empty());
            assert(prod(Seq::<usize>::empty()) == 1);
            assert(prod(seq![last_len]) == last_len * 1);
            assert(prod(dims@) == n * (last_len as int));
            lemma_flatten2_len(rows, last_len as int);
            assert(prod(dims@) == flat@.len());
            assert(tag_size_spec(T::tag_spec()) <= 8);
        }
        let ghost dimsq = dims@;
        let r = Self::finish_contiguous::<T>(dims, flat, Ghost(flen as int));
        proof {
            if n >= 1 && last_len >= 1 {
                assert(forall|i: int| 0 <= i < dimsq.len() ==> dimsq[i] >= 1);
            }
        }
        r
    }

    /// Construct a three-dimensional array from planes of rows, checking both
    /// nesting levels for rectangularity (against the trailing entry at each
    /// level) before any flattening; no array is built on failure.
    pub fn from_vec3<T: TypeNum>(v: &Vec<Vec<Vec<T>>>) -> (r: Result<PyArray, ArrayCastError>)
        ensures
            (r == Err::<PyArray, ArrayCastError>(ArrayCastError::FromVec { depth: 2 })) <==> !(
            forall|i: int|
                0 <= i < rows3(v@).len() ==> (#[trigger] rows3(v@)[i]).len() == trailing3a(v@)),
            (r == Err::<PyArray, ArrayCastError>(ArrayCastError::FromVec { depth: 3 })) <==> ((
            forall|i: int|
                0 <= i < rows3(v@).len() ==> (#[trigger] rows3(v@)[i]).len() == trailing3a(v@)) && !(
            forall|i: int|
                0 <= i < rows3(v@).len() ==> rect2(#[trigger] rows3(v@)[i], trailing3b(v@)))),
            match r {
                Ok(a) => {
                    &&& (forall|i: int|
                        0 <= i < rows3(v@).len() ==> (#[trigger] rows3(v@)[i]).len() == trailing3a(
                            v@,
                        ))
                    &&& (forall|i: int|
                        0 <= i < rows3(v@).len() ==> rect2(#[trigger] rows3(v@)[i], trailing3b(v@)))
                    &&& a.wf()
                    &&& a.tag_of() == T::tag_spec()
                    &&& a.dims_spec() =~= seq![
                        v@.len() as usize,
                        trailing3a(v@) as usize,
                        trailing3b(v@) as usize,
                    ]
                    &&& a.is_contiguous()
                    &&& a.data_spec() == crate::types::encode_all::<T>(flatten3(rows3(v@)))
                    &&& a.len_spec() == v@.len() * (trailing3a(v@) * trailing3b(v@))
                },
                Err(e) => e == ArrayCastError::FromVec { depth: 2 } || e == ArrayCastError::FromVec {
                    depth: 3,
                } || e == ArrayCastError::AllocationFailed,
            },
            ((forall|i: int|
                0 <= i < rows3(v@).len() ==> (#[trigger] rows3(v@)[i]).len() == trailing3a(v@))
                && (forall|i: int|
                0 <= i < rows3(v@).len() ==> rect2(#[trigger] rows3(v@)[i], trailing3b(v@)))
                && v@.len() >= 1 && trailing3a(v@) >= 1 && trailing3b(v@) >= 1 && (v@.len() * (
            trailing3a(v@) * trailing3b(v@))) * tag_size_spec(T::tag_spec()) <= isize::MAX)
                ==> r.is_ok(),
    {
        let ghost g = rows3(v@);
        let n = v.len();
        let dim2: usize = if n == 0 {
            0
        } else {
            v[n - 1].len()
        };
        proof {
            if n > 0 {
                assert(g[n - 1] == rows2(v@[n - 1]@));
            }
            assert(trailing3a(v@) == dim2);
        }
        let mut i: usize = 0;
        while i < n
            invariant
                i <= n,
                n == v@.len(),
                g == rows3(v@),
                trailing3a(v@) == dim2,
                forall|j: int| 0 <= j < i ==> (#[trigger] g[j]).len() == dim2,
            decreases n - i,
        {
            if v[i].len() != dim2 {
                proof {
                    assert(g[i as int] == rows2(v@[i as int]@));
                }
                return Err(ArrayCastError::FromVec { depth: 2 });
            }
            proof {
                assert(g[i as int] == rows2(v@[i as int]@));
            }
            i = i + 1;
        }
        let dim3: usize = if n == 0 || dim2 == 0 {
            0
        } else {
            v[n - 1][dim2 - 1].len()
        };
        proof {
            if n > 0 && dim2 > 0 {
                assert(g[n - 1] == rows2(v@[n - 1]@));
                assert(g[n - 1][dim2 - 1] == v@[n - 1]@[dim2 - 1]@);
            }
            assert(trailing3b(v@) == dim3);
        }
        let mut i2: usize = 0;
        while i2 < n
            invariant
                i2 <= n,
                n == v@.len(),
                g == rows3(v@),
                trailing3a(v@) == dim2,
                trailing3b(v@) == dim3,
                forall|j: int| 0 <= j < n ==> (#[trigger] g[j]).len() == dim2,
                forall|j: int| 0 <= j < i2 ==> rect2(#[trigger] g[j], dim3 as int),
            decreases n - i2,
        {
            let plane = &v[i2];
            let mut j2: usize = 0;
            proof {
                assert(g[i2 as int] == rows2(v@[i2 as int]@));
            }
            while j2 < dim2
                invariant
                    j2 <= dim2,
                    i2 < n,
                    n == v@.len(),
                    g == rows3(v@),
                    trailing3a(v@) == dim2,
                    trailing3b(v@) == dim3,
                    forall|j: int| 0 <= j < n ==> (#[trigger] g[j]).len() == dim2,
                    plane@ == v@[i2 as int]@,
                    g[i2 as int] == rows2(plane@),
                    dim2 == plane@.len(),
                    forall|t: int|
                        0 <= t < j2 ==> (#[trigger] g[i2 as int][t]).len() == dim3,
                decreases dim2 - j2,
            {
                if plane[j2].len() != dim3 {
                    proof {
                        assert(g[i2 as int][j2 as int] == plane@[j2 as int]@);
                        assert(!rect2(g[i2 as int], dim3 as int));
                    }
                    return Err(ArrayCastError::FromVec { depth: 3 });
                }
                proof {
                    assert(g[i2 as int][j2 as int] == plane@[j2 as int]@);
                }
                j2 = j2 + 1;
            }
            proof {
                assert(rect2(g[i2 as int], dim3 as int));
            }
            i2 = i2 + 1;
        }
        let mut flat: Vec<T> = Vec::new();
        let mut a: usize = 0;
        proof {
            assert(g.take(0) =~= Seq::<Seq<Seq<T>>>::empty());
        }
        while a < n
            invariant
                a <= n,
                n == v@.len(),
                g == rows3(v@),
                forall|j: int| 0 <= j < n ==> (#[trigger] g[j]).len() == dim2,
                forall|j: int| 0 <= j < n ==> rect2(#[trigger] g[j], dim3 as int),
                flat@ == flatten3(g.take(a as int)),
            decreases n - a,
        {
            let plane = &v[a];
            proof {
                assert(g[a as int] == rows2(v@[a as int]@));
                assert(g[a as int].take(0) =~= Seq::<Seq<T>>::empty());
                assert(flatten2(Seq::<Seq<T>>::empty()) == Seq::<T>::empty());
                assert(flat@ + Seq::<T>::empty() =~= flat@);
            }
            let ghost base = flat@;
            let ghost prows = g[a as int];
            let mut b: usize = 0;
            while b < dim2
                invariant
                    b <= dim2,
                    a < n,
                    n == v@.len(),
                    g == rows3(v@),
                    plane@ == v@[a as int]@,
                    prows == g[a as int],
                    prows == rows2(plane@),
                    dim2 == plane@.len(),
                    flat@ == base + flatten2(prows.take(b as int)),
                decreases dim2 - b,
            {
                let row = &plane[b];
                let rl = row.len();
                proof {
                    assert(prows[b as int] == plane@[b as int]@);
                    assert(row@.take(0) =~= Seq::<T>::empty());
                    assert(flat@ + Seq::<T>::empty() =~= flat@);
                }
                let ghost base2 = flat@;
                let mut c: usize = 0;
                while c < rl
                    invariant
                        c <= rl,
                        rl == row@.len(),
                        flat@ == base2 + row@.take(c as int),
                    decreases rl - c,
                {
                    flat.push(row[c]);
                    proof {
                        assert(row@.take(c + 1) =~= row@.take(c as int).push(row@[c as int]));
                        assert(flat@ =~= base2 + row@.take(c + 1));
                    }
                    c = c + 1;
                }
                proof {
                    assert(row@.take(rl as int) =~= row@);
                    lemma_flatten2_snoc(prows.take(b as int), prows[b as int]);
                    assert(prows.take(b + 1) =~= prows.take(b as int).push(prows[b as int]));
                    assert(base + (flatten2(prows.take(b as int)) + row@) =~= (base + flatten2(
                        prows.take(b as int),
                    )) + row@);
                }
                b = b + 1;
            }
            proof {
                assert(prows.take(dim2 as int) =~= prows);
                lemma_flatten3_snoc(g.take(a as int), g[a as int]);
                assert(g.take(a + 1) =~= g.take(a as int).push(g[a as int]));
            }
            a = a + 1;
        }
        proof {
            assert(g.take(n as int) =~= g);
        }
        let flen = flat.len();
        let mut dims: Vec<usize> = Vec::new();
        dims.push(n);
        dims.push(dim2);
        dims.push(dim3);
        proof {
            assert(dims@ =~= seq![n, dim2, dim3]);
            assert(dims@.drop_first() =~= seq![dim2, dim3]);
            assert(seq![dim2, dim3].drop_first() =~= seq![dim3]);
            assert(seq![dim3].drop_first() =~= Seq::<usize>::empty());
            assert(prod(Seq::<usize>::empty()) == 1);
            assert(prod(seq![dim3]) == dim3 * 1);
            assert(prod(seq![dim2, dim3]) == dim2 * (dim3 as int));
            assert(prod(dims@) == n * (dim2 * (dim3 as int)));
            lemma_flatten3_len(g, dim2 as int, dim3 as int);
            assert(prod(dims@) == flat@.len());
            assert(tag_size_spec(T::tag_spec()) <= 8);
        }
        let ghost dimsq = dims@;
        let r = Self::finish_contiguous::<T>(dims, flat, Ghost(flen as int));
        proof {
            if n >= 1 && dim2 >= 1 && dim3 >= 1 {
                assert(forall|i: int| 0 <= i < dimsq.len() ==> dimsq[i] >= 1);
            }
        }
        r
    }

    /// Construct an array of the given extents from an already flattened,
    /// row-major element buffer, checking that the counts agree.  This is
    /// the entry point for data exported element-wise from another array
    /// library.
    pub fn from_flat_parts<T: TypeNum>(dims: Vec<usize>, elems: Vec<T>) -> (r: Result<
        PyArray,
        ArrayCastError,
    >)
        ensures
            prod(dims@) != elems@.len() ==> r == Err::<PyArray, ArrayCastError>(
                ArrayCastError::AllocationFailed,
            ),
            match r {
                Ok(a) => {
                    &&& prod(dims@) == elems@.len()
                    &&& a.wf()
                    &&& a.tag_of() == T::tag_spec()
                    &&& a.dims_spec() == dims@
                    &&& a.is_contiguous()
                    &&& a.data_spec() == crate::types::encode_all::<T>(elems@)
                    &&& a.len_spec() == prod(dims@)
                },
                Err(e) => e == ArrayCastError::AllocationFailed,
            },
            (prod(dims@) == elems@.len() && (forall|i: int|
                0 <= i < dims@.len() ==> dims@[i] >= 1) && prod(dims@) * tag_size_spec(
                T::tag_spec(),
            ) <= isize::MAX) ==> r.is_ok(),
    {
        let flen = elems.len();
        match checked_prod(&dims) {
            Some(p) => {
                if p != flen {
                    return Err(ArrayCastError::AllocationFailed);
                }
            },
            None => {
                return Err(ArrayCastError::AllocationFailed);
            },
        }
        Self::finish_contiguous::<T>(dims, elems, Ghost(flen as int))
    }

    /// Shared tail of the flattening constructors: wrap an already flattened
    /// element buffer under the given extents, row-major.
    fn finish_contiguous<T: TypeNum>(
        dims: Vec<usize>,
        flat: Vec<T>,
        Ghost(flen): Ghost<int>,
    ) -> (r: Result<PyArray, ArrayCastError>)
        requires
            prod(dims@) == flat@.len(),
            flat@.len() == flen,
            flen <= usize::MAX,
        ensures
            match r {
                Ok(a) => {
                    &&& a.wf()
                    &&& a.tag_of() == T::tag_spec()
                    &&& a.dims_spec() == dims@
                    &&& a.is_contiguous()
                    &&& a.data_spec() == crate::types::encode_all::<T>(flat@)
                    &&& a.len_spec() == prod(dims@)
                },
                Err(e) => e == ArrayCastError::AllocationFailed,
            },
            ((forall|i: int| 0 <= i < dims@.len() ==> dims@[i] >= 1) && prod(dims@)
                * tag_size_spec(T::tag_spec()) <= isize::MAX) ==> r.is_ok(),
    {
        let size = tag_size(T::tag());
        let ghost all_pos = forall|i: int| 0 <= i < dims@.len() ==> dims@[i] >= 1;
        let ghost small = prod(dims@) * tag_size_spec(T::tag_spec()) <= isize::MAX;
        let st = match compute_row_major_strides(&dims, size) {
            Some(s) => s,
            None => {
                proof {
                    if all_pos && small {
                        let j = choose|j: int|
                            1 <= j <= dims@.len() && size * prod(dims@.skip(j)) > isize::MAX;
                        lemma_prod_grows(dims@, j);
                        assert(size * prod(dims@.skip(j)) <= size * prod(dims@))
                            by (nonlinear_arith)
                            requires
                                prod(dims@.skip(j)) <= prod(dims@),
                                size >= 0,
                        ;
                        assert(size * prod(dims@) == prod(dims@) * tag_size_spec(T::tag_spec()))
                            by (nonlinear_arith)
                            requires
                                size == tag_size_spec(T::tag_spec()),
                        ;
                        assert(false);
                    }
                }
                return Err(ArrayCastError::AllocationFailed);
            },
        };
        let data = crate::types::encode_slice::<T>(flat.as_slice());
        let r = Self::from_owned_ptr(T::tag(), dims, st, data);
        proof {
            crate::types::lemma_encode_all_len::<T>(flat@);
            let dimsq = dims@;
            let stv = st@.map_values(|s: isize| s as int);
            assert(stv == row_major_strides(dimsq, tag_size_spec(T::tag_spec())));
            if prod(dimsq) > 0 {
                assert forall|i: int| 0 <= i < dimsq.len() implies dimsq[i] >= 1 by {
                    if dimsq[i] == 0 {
                        lemma_prod_zero(dimsq, i);
                    }
                }
                lemma_max_offset_row_major(dimsq, tag_size_spec(T::tag_spec()));
                assert(tag_size_spec(T::tag_spec()) * (prod(dimsq) - 1) + tag_size_spec(
                    T::tag_spec(),
                ) == tag_size_spec(T::tag_spec()) * prod(dimsq)) by (nonlinear_arith);
                assert(tag_size_spec(T::tag_spec()) * prod(dimsq) == flat@.len() * tag_size_spec(
                    T::tag_spec(),
                )) by (nonlinear_arith)
                    requires
                        prod(dimsq) == flat@.len(),
                ;
            }
            assert(dimsq.len() == st@.len());
            assert(forall|i: int| 0 <= i < st@.len() ==> st@[i] >= 0);
            assert(prod(dimsq) <= usize::MAX);
            assert(prod(dimsq) > 0 ==> max_offset(dimsq, st@.map_values(|s: isize| s as int))
                + tag_size_spec(T::tag_spec()) <= data@.len());
            assert(raw_parts_ok(T::tag_spec(), dimsq, st@, data@));
        }
        r
    }

    /// Capacity of a contiguous buffer: it holds all `len` elements.
    proof fn lemma_contig_capacity(&self)
        requires
            self.wf(),
            self.is_contiguous(),
            self.len_spec() > 0,
        ensures
            self.len_spec() * self.size_spec() <= self.data_spec().len(),
            forall|i: int| 0 <= i < self.dims_spec().len() ==> self.dims_spec()[i] >= 1,
    {
        let dims = self.dims_spec();
        let size = self.size_spec();
        assert forall|i: int| 0 <= i < dims.len() implies dims[i] >= 1 by {
            if dims[i] == 0 {
                lemma_prod_zero(dims, i);
            }
        }
        lemma_max_offset_row_major(dims, size);
        assert(size * (prod(dims) - 1) + size == size * prod(dims)) by (nonlinear_arith);
        assert(size * prod(dims) == prod(dims) * size) by (nonlinear_arith);
    }

    /// Decide whether the stored strides are exactly the row-major strides.
    fn check_contiguous(&self) -> (r: bool)
        requires
            self.wf(),
        ensures
            r == self.is_contiguous(),
    {
        let size = tag_size(self.tag);
        match compute_row_major_strides(&self.dims, size) {
            Some(st) => {
                let eq = eq_isize_vecs(&self.strides, &st);
                proof {
                    let stm = st@.map_values(|s: isize| s as int);
                    assert(stm == row_major_strides(self.dims_spec(), self.size_spec()));
                    if self.strides@ == st@ {
                        assert(self.strides_spec() == stm);
                    }
                    if self.strides_spec() == row_major_strides(self.dims_spec(), self.size_spec())
                    {
                        assert(self.strides@ =~= st@) by {
                            assert forall|i: int| 0 <= i < self.strides@.len() implies
                                self.strides@[i] == st@[i] by {
                                assert(self.strides_spec()[i] == self.strides@[i] as int);
                                assert(stm[i] == st@[i] as int);
                                assert(self.strides_spec()[i] == stm[i]);
                            }
                        }
                    }
                }
                eq
            },
            None => {
                proof {
                    let j = choose|j: int|
                        1 <= j <= self.dims_spec().len() && size * prod(self.dims_spec().skip(j))
                            > isize::MAX;
                    if self.is_contiguous() {
                        assert(self.strides_spec()[j - 1] == size * prod(
                            self.dims_spec().skip(j),
                        ));
                        assert(self.strides_spec()[j - 1] <= isize::MAX);
                        assert(false);
                    }
                }
                false
            },
        }
    }

    /// The whole buffer as a typed vector, in row-major order; requires the
    /// buffer to be contiguous.  The elements are decoded copies of the
    /// buffer's bytes.
    pub fn as_slice<T: TypeNum>(&self) -> (r: Result<Vec<T>, ArrayCastError>)
        requires
            self.wf(),
        ensures
            r.is_ok() <==> (self.tag_of() == T::tag_spec() && self.is_contiguous()),
            self.tag_of() != T::tag_spec() ==> r == Err::<Vec<T>, ArrayCastError>(
                ArrayCastError::ToRust {
                    expected: tag_code_spec(T::tag_spec()) as i32,
                    found: tag_code_spec(self.tag_of()) as i32,
                },
            ),
            (self.tag_of() == T::tag_spec() && !self.is_contiguous()) ==> r == Err::<
                Vec<T>,
                ArrayCastError,
            >(ArrayCastError::NotContiguous),
            match r {
                Ok(v) => {
                    &&& v@.len() == self.len_spec()
                    &&& forall|k: int|
                        0 <= k < v@.len() ==> v@[k] == T::decode_spec(
                            #[trigger] self.data_spec().subrange(
                                k * self.size_spec(),
                                (k + 1) * self.size_spec(),
                            ),
                        )
                },
                Err(e) => true,
            },
    {
        match self.type_check::<T>() {
            Ok(()) => (),
            Err(e) => {
                return Err(e);
            },
        }
        if !self.check_contiguous() {
            return Err(ArrayCastError::NotContiguous);
        }
        let p = self.len();
        let size = tag_size(self.tag);
        proof {
            if p > 0 {
                self.lemma_contig_capacity();
            }
        }
        let dlen = self.data.len();
        let mut out: Vec<T> = Vec::new();
        let mut k: usize = 0;
        let mut off: usize = 0;
        while k < p
            invariant
                k <= p,
                self.wf(),
                self.tag_of() == T::tag_spec(),
                size == self.size_spec(),
                p == self.len_spec(),
                dlen == self.data_spec().len(),
                p > 0 ==> p * size <= self.data_spec().len(),
                off == k * size,
                out@.len() == k,
                forall|t: int|
                    0 <= t < k ==> out@[t] == T::decode_spec(
                        #[trigger] self.data_spec().subrange(
                            t * self.size_spec(),
                            (t + 1) * self.size_spec(),
                        ),
                    ),
            decreases p - k,
        {
            proof {
                assert((k + 1) * size <= p * size) by (nonlinear_arith)
                    requires
                        k + 1 <= p,
                        size >= 0,
                ;
                assert((k + 1) * size == k * size + size) by (nonlinear_arith);
            }
            let e = T::read_from(&self.data, off);
            out.push(e);
            off = off + size;
            k = k + 1;
        }
        Ok(out)
    }

    /// Mutable flat access to a contiguous buffer, after the same checks as
    /// [`as_slice`](Self::as_slice); writes go through an exclusive borrow.
    pub fn as_slice_mut<T: TypeNum>(&self) -> (r: Result<FlatSliceMutD<T>, ArrayCastError>)
        requires
            self.wf(),
        ensures
            r.is_ok() <==> (self.tag_of() == T::tag_spec() && self.is_contiguous()),
            self.tag_of() != T::tag_spec() ==> r == Err::<FlatSliceMutD<T>, ArrayCastError>(
                ArrayCastError::ToRust {
                    expected: tag_code_spec(T::tag_spec()) as i32,
                    found: tag_code_spec(self.tag_of()) as i32,
                },
            ),
            (self.tag_of() == T::tag_spec() && !self.is_contiguous()) ==> r == Err::<
                FlatSliceMutD<T>,
                ArrayCastError,
            >(ArrayCastError::NotContiguous),
            match r {
                Ok(f) => f.valid_for(self) && f.len_of() == self.len_spec(),
                Err(e) => true,
            },
    {
        match self.type_check::<T>() {
            Ok(()) => (),
            Err(e) => {
                return Err(e);
            },
        }
        if !self.check_contiguous() {
            return Err(ArrayCastError::NotContiguous);
        }
        let p = self.len();
        Ok(FlatSliceMutD { len: p, marker: core::marker::PhantomData })
    }

    /// Translate the byte strides into per-axis element strides, failing on
    /// any stride that is not a whole number of elements.
    fn elem_strides<T: TypeNum>(&self) -> (r: Result<Vec<usize>, ArrayCastError>)
        requires
            self.wf(),
            self.tag_of() == T::tag_spec(),
        ensures
            match r {
                Ok(es) => {
                    &&& self.view_ok::<T>()
                    &&& es@.len() == self.strides_spec().len()
                    &&& forall|i: int|
                        0 <= i < es@.len() ==> #[trigger] (es@[i] * self.size_spec())
                            == self.strides_spec()[i]
                },
                Err(e) => {
                    &&& !self.view_ok::<T>()
                    &&& e matches ArrayCastError::StrideMismatch { stride, elem_size }
                        && elem_size == self.size_spec() && (exists|i: int|
                        0 <= i < self.strides_spec().len() && self.strides_raw()[i] == stride
                            && self.strides_spec()[i] % (self.size_spec() as int) != 0)
                },
            },
    {
        let size = tag_size(self.tag);
        assert(size >= 1);
        let n = self.strides.len();
        let mut es: Vec<usize> = Vec::new();
        let mut i: usize = 0;
        while i < n
            invariant
                i <= n,
                n == self.strides@.len(),
                self.wf(),
                size == self.size_spec(),
                size >= 1,
                es@.len() == i,
                forall|j: int|
                    0 <= j < i ==> #[trigger] (es@[j] * self.size_spec())
                        == self.strides_spec()[j],
                forall|j: int|
                    0 <= j < i ==> #[trigger] self.strides_spec()[j] % (self.size_spec() as int)
                        == 0,
            decreases n - i,
        {
            let s: usize = self.strides[i] as usize;
            if s % size != 0 {
                proof {
                    assert(s == self.strides_spec()[i as int]);
                    assert(self.strides_spec()[i as int] % (self.size_spec() as int) != 0);
                }
                return Err(
                    ArrayCastError::StrideMismatch { stride: self.strides[i], elem_size: size },
                );
            }
            let q = s / size;
            proof {
                assert(q * size == s) by (nonlinear_arith)
                    requires
                        size >= 1,
                        s >= 0,
                        q == s as int / size as int,
                        s as int % size as int == 0,
                ;
            }
            es.push(q);
            i = i + 1;
        }
        Ok(es)
    }
}

/// A read-only typed view: the geometric descriptor (shape and element
/// strides) under which a type-checked array is read.
#[derive(Debug)]
pub struct ArrayViewD<T: TypeNum> {
    dims: Vec<usize>,
    elem_strides: Vec<usize>,
    marker: core::marker::PhantomData<T>,
}

/// A mutable typed view: the same descriptor, used to write elements through
/// an exclusive borrow of the array.
#[derive(Debug)]
pub struct ArrayViewMutD<T: TypeNum> {
    dims: Vec<usize>,
    elem_strides: Vec<usize>,
    marker: core::marker::PhantomData<T>,
}

/// The descriptor (dims, element strides) matches the array: same shape, and
/// each element stride times the element size is the array's byte stride.
pub open spec fn descriptor_valid_for(
    dims: Seq<usize>,
    elem_strides: Seq<usize>,
    arr: &PyArray,
    tag: ElemTag,
) -> bool {
    &&& arr.wf()
    &&& arr.tag_of() == tag
    &&& dims == arr.dims_spec()
    &&& elem_strides.len() == arr.strides_spec().len()
    &&& forall|i: int|
        0 <= i < elem_strides.len() ==> #[trigger] (elem_strides[i] * arr.size_spec())
            == arr.strides_spec()[i]
}

impl<T: TypeNum> ArrayViewD<T> {
    /// The extents this view was built over.
    pub closed spec fn dims_of(&self) -> Seq<usize> {
        self.dims@
    }

    /// The view still describes `arr`.
    pub closed spec fn valid_for(&self, arr: &PyArray) -> bool {
        descriptor_valid_for(self.dims@, self.elem_strides@, arr, T::tag_spec())
    }

    /// The extent of each axis.
    pub fn shape(&self) -> (r: &[usize])
        ensures
            r@ == self.dims_of(),
    {
        self.dims.as_slice()
    }

    /// Read the element at multi-index `idx`.
    pub fn get(&self, arr: &PyArray, idx: &Vec<usize>) -> (r: T)
        requires
            self.valid_for(arr),
            index_in_bounds(idx@, self.dims_of()),
        ensures
            r == arr.elem_at::<T>(idx@),
    {
        let off = read_offset::<T>(&self.elem_strides, arr, idx);
        T::read_from(&arr.data, off)
    }
}

impl<T: TypeNum> ArrayViewMutD<T> {
    /// The extents this view was built over.
    pub closed spec fn dims_of(&self) -> Seq<usize> {
        self.dims@
    }

    /// The view still describes `arr`.
    pub closed spec fn valid_for(&self, arr: &PyArray) -> bool {
        descriptor_valid_for(self.dims@, self.elem_strides@, arr, T::tag_spec())
    }

    /// The extent of each axis.
    pub fn shape(&self) -> (r: &[usize])
        ensures
            r@ == self.dims_of(),
    {
        self.dims.as_slice()
    }

    /// Read the element at multi-index `idx`.
    pub fn get(&self, arr: &PyArray, idx: &Vec<usize>) -> (r: T)
        requires
            self.valid_for(arr),
            index_in_bounds(idx@, self.dims_of()),
        ensures
            r == arr.elem_at::<T>(idx@),
    {
        let off = read_offset::<T>(&self.elem_strides, arr, idx);
        T::read_from(&arr.data, off)
    }

    /// Write `v` at multi-index `idx`.  Exactly the element's bytes change;
    /// a view constructed afterwards over the same array reads `v` back.
    pub fn write(&self, arr: &mut PyArray, idx: &Vec<usize>, v: T)
        requires
            self.valid_for(&*old(arr)),
            index_in_bounds(idx@, old(arr).dims_spec()),
        ensures
            final(arr).tag_of() == old(arr).tag_of(),
            final(arr).dims_spec() == old(arr).dims_spec(),
            final(arr).strides_raw() == old(arr).strides_raw(),
            final(arr).wf(),
            self.valid_for(final(arr)),
            final(arr).data_spec().len() == old(arr).data_spec().len(),
            final(arr).elem_at::<T>(idx@) == v,
            final(arr).elem_bytes_at(idx@) == T::encode_spec(v),
            forall|j: int|
                0 <= j < old(arr).data_spec().len() && !(offset_of(idx@, old(arr).strides_spec())
                    <= j < offset_of(idx@, old(arr).strides_spec()) + old(arr).size_spec())
                    ==> final(arr).data_spec()[j] == old(arr).data_spec()[j],
    {
        let off = write_offset::<T>(&self.elem_strides, arr, idx);
        let bytes = T::to_bytes(v);
        proof {
            T::lemma_encode_len(v);
        }
        crate::types::splice_bytes(&mut arr.data, off, &bytes);
        proof {
            T::lemma_decode_encode(v);
            assert(arr.elem_bytes_at(idx@) =~= T::encode_spec(v));
            assert(arr.strides_spec() =~= old(arr).strides_spec());
            assert forall|i: int| 0 <= i < self.elem_strides@.len() implies #[trigger] (
            self.elem_strides@[i] * arr.size_spec()) == arr.strides_spec()[i] by {
                assert(self.elem_strides@[i] * old(arr).size_spec() == old(arr).strides_spec()[i]);
            }
        }
    }
}

/// Shared read path of the two views: the byte offset of `idx` in `arr`.
fn read_offset<T: TypeNum>(elem_strides: &Vec<usize>, arr: &PyArray, idx: &Vec<usize>) -> (r:
    usize)
    requires
        descriptor_valid_for(arr.dims_spec(), elem_strides@, arr, T::tag_spec()),
        index_in_bounds(idx@, arr.dims_spec()),
    ensures
        r == offset_of(idx@, arr.strides_spec()),
        r + tag_size_spec(T::tag_spec()) <= arr.data_spec().len(),
{
    arr.byte_offset(idx)
}

/// Shared write path: the same offset, through a mutable borrow.
fn write_offset<T: TypeNum>(elem_strides: &Vec<usize>, arr: &mut PyArray, idx: &Vec<usize>) -> (r:
    usize)
    requires
        descriptor_valid_for(old(arr).dims_spec(), elem_strides@, old(arr), T::tag_spec()),
        index_in_bounds(idx@, old(arr).dims_spec()),
    ensures
        *final(arr) == *old(arr),
        r == offset_of(idx@, old(arr).strides_spec()),
        r + tag_size_spec(T::tag_spec()) <= old(arr).data_spec().len(),
{
    arr.byte_offset(idx)
}

/// Mutable flat access to a contiguous, type-checked buffer: elements are
/// addressed by their row-major position.
#[derive(Debug)]
pub struct FlatSliceMutD<T: TypeNum> {
    len: usize,
    marker: core::marker::PhantomData<T>,
}

impl<T: TypeNum> FlatSliceMutD<T> {
    /// The number of elements addressed.
    pub closed spec fn len_of(&self) -> int {
        self.len as int
    }

    /// The descriptor still matches `arr`: same type, contiguous, same
    /// element count.
    pub closed spec fn valid_for(&self, arr: &PyArray) -> bool {
        &&& arr.wf()
        &&& arr.tag_of() == T::tag_spec()
        &&& arr.is_contiguous()
        &&& self.len == arr.len_spec()
    }

    /// The number of elements addressed.
    pub fn len(&self) -> (r: usize)
        ensures
            r == self.len_of(),
    {
        self.len
    }

    /// Read the element at flat position `k`.
    pub fn get(&self, arr: &PyArray, k: usize) -> (r: T)
        requires
            self.valid_for(arr),
            k < self.len_of(),
        ensures
            r == T::decode_spec(
                arr.data_spec().subrange(k * arr.size_spec(), (k + 1) * arr.size_spec()),
            ),
    {
        let size = tag_size_of::<T>(arr);
        let dlen = arr.data.len();
        proof {
            arr.lemma_contig_capacity();
            assert(arr.data_spec().len() == dlen);
            assert((k + 1) * size <= arr.len_spec() * size) by (nonlinear_arith)
                requires
                    k + 1 <= arr.len_spec(),
                    size >= 0,
            ;
            assert((k + 1) * size == k * size + size) by (nonlinear_arith);
            assert(k * size >= 0) by (nonlinear_arith)
                requires
                    k >= 0,
                    size >= 0,
            ;
        }
        let off = k * size;
        T::read_from(&arr.data, off)
    }

    /// Write `v` at flat position `k`; exactly that element's bytes change.
    pub fn set(&self, arr: &mut PyArray, k: usize, v: T)
        requires
            self.valid_for(&*old(arr)),
            k < self.len_of(),
        ensures
            final(arr).tag_of() == old(arr).tag_of(),
            final(arr).dims_spec() == old(arr).dims_spec(),
            final(arr).strides_raw() == old(arr).strides_raw(),
            final(arr).wf(),
            self.valid_for(final(arr)),
            final(arr).data_spec().len() == old(arr).data_spec().len(),
            final(arr).data_spec().subrange(k * old(arr).size_spec(), (k + 1) * old(
                arr,
            ).size_spec()) == T::encode_spec(v),
            T::decode_spec(
                final(arr).data_spec().subrange(k * old(arr).size_spec(), (k + 1) * old(
                    arr,
                ).size_spec()),
            ) == v,
            forall|j: int|
                0 <= j < old(arr).data_spec().len() && !(k * old(arr).size_spec() <= j < (k + 1)
                    * old(arr).size_spec()) ==> final(arr).data_spec()[j] == old(
                    arr,
                ).data_spec()[j],
    {
        let size = tag_size_of::<T>(arr);
        let dlen = arr.data.len();
        proof {
            arr.lemma_contig_capacity();
            assert(arr.data_spec().len() == dlen);
            assert((k + 1) * size <= arr.len_spec() * size) by (nonlinear_arith)
                requires
                    k + 1 <= arr.len_spec(),
                    size >= 0,
            ;
            assert((k + 1) * size == k * size + size) by (nonlinear_arith);
            assert(k * size >= 0) by (nonlinear_arith)
                requires
                    k >= 0,
                    size >= 0,
            ;
        }
        let off = k * size;
        let bytes = T::to_bytes(v);
        proof {
            T::lemma_encode_len(v);
        }
        crate::types::splice_bytes(&mut arr.data, off, &bytes);
        proof {
            T::lemma_decode_encode(v);
            assert(arr.strides_spec() =~= old(arr).strides_spec());
        }
    }
}

/// The element size of the array's tag, through an immutable borrow.
fn tag_size_of<T: TypeNum>(arr: &PyArray) -> (r: usize)
    requires
        arr.tag_of() == T::tag_spec(),
    ensures
        r == arr.size_spec(),
{
    tag_size(arr.tag)
}

/// Compare two stride vectors.
fn eq_isize_vecs(a: &Vec<isize>, b: &Vec<isize>) -> (r: bool)
    ensures
        r == (a@ == b@),
{
    let n = a.len();
    if b.len() != n {
        proof {
            assert(a@ != b@);
        }
        return false;
    }
    let mut i: usize = 0;
    while i < n
        invariant
            i <= n,
            n == a@.len(),
            n == b@.len(),
            forall|j: int| 0 <= j < i ==> a@[j] == b@[j],
        decreases n - i,
    {
        if a[i] != b[i] {
            proof {
                assert(a@[i as int] != b@[i as int]);
            }
            return false;
        }
        i = i + 1;
    }
    proof {
        assert(a@ =~= b@);
    }
    true
}

/// Law: a zero-filled allocation of element type `T` always admits a typed
/// view of `T`, and every element read through it is `T`'s zero — for every
/// supported element type, every shape, and either memory order.
pub proof fn lemma_zeros_roundtrip<T: TypeNum>(
    a: &PyArray,
    dims: Seq<usize>,
    order: NpyOrder,
    idx: Seq<usize>,
)
    requires
        a.wf(),
        a.tag_of() == T::tag_spec(),
        a.dims_spec() == dims,
        a.strides_spec() == (if order == NpyOrder::RowMajor {
            row_major_strides(dims, tag_size_spec(T::tag_spec()))
        } else {
            col_major_strides(dims, tag_size_spec(T::tag_spec()))
        }),
        a.data_spec() == Seq::new(
            (prod(dims) * tag_size_spec(T::tag_spec())) as nat,
            |i: int| 0u8,
        ),
        index_in_bounds(idx, dims),
    ensures
        a.view_ok::<T>(),
        a.elem_at::<T>(idx) == T::zero_spec(),
{
    let size = tag_size_spec(T::tag_spec());
    assert(size >= 1);
    assert forall|i: int| 0 <= i < a.strides_spec().len() implies #[trigger] a.strides_spec()[i] % (
    a.size_spec() as int) == 0 by {
        if order == NpyOrder::RowMajor {
            assert(a.strides_spec()[i] == row_major_strides(dims, size)[i]);
            assert(row_major_strides(dims, size)[i] == size * prod(dims.skip(i + 1)));
            vstd::arithmetic::div_mod::lemma_mod_multiples_basic(
                prod(dims.skip(i + 1)),
                size as int,
            );
            assert(size * prod(dims.skip(i + 1)) == prod(dims.skip(i + 1)) * size)
                by (nonlinear_arith);
        } else {
            assert(a.strides_spec()[i] == col_major_strides(dims, size)[i]);
            assert(col_major_strides(dims, size)[i] == size * prod(dims.take(i)));
            vstd::arithmetic::div_mod::lemma_mod_multiples_basic(prod(dims.take(i)), size as int);
            assert(size * prod(dims.take(i)) == prod(dims.take(i)) * size) by (nonlinear_arith);
        }
    }
    lemma_prod_pos_of_in_bounds(idx, dims);
    lemma_offset_bounds(idx, dims, a.strides_spec());
    let off = offset_of(idx, a.strides_spec());
    assert(off + size <= a.data_spec().len());
    assert(a.elem_bytes_at(idx) =~= Seq::new(size, |i: int| 0u8));
    T::lemma_decode_zeros();
}

/// Law: a typed view of a different element type than the buffer holds is
/// always refused, and the two reported tag codes are distinct — for every
/// pair of distinct element types.
pub proof fn lemma_type_mismatch_rejected<T1: TypeNum, T2: TypeNum>(a: &PyArray)
    requires
        a.tag_of() == T2::tag_spec(),
        T1::tag_spec() != T2::tag_spec(),
    ensures
        !a.view_ok::<T1>(),
        tag_code_spec(T1::tag_spec()) != tag_code_spec(T2::tag_spec()),
{
    crate::types::lemma_tag_code_injective(T1::tag_spec(), T2::tag_spec());
}

/// Law: in a contiguous array whose buffer encodes `elems`, the element at
/// any in-bounds multi-index is the row-major entry of `elems` at the
/// index's flat position.
pub proof fn lemma_contiguous_elements<T: TypeNum>(a: &PyArray, elems: Seq<T>, idx: Seq<usize>)
    requires
        a.wf(),
        a.tag_of() == T::tag_spec(),
        a.is_contiguous(),
        a.data_spec() == crate::types::encode_all::<T>(elems),
        elems.len() == a.len_spec(),
        index_in_bounds(idx, a.dims_spec()),
    ensures
        0 <= flat_index(idx, a.dims_spec()) < elems.len(),
        a.elem_at::<T>(idx) == elems[flat_index(idx, a.dims_spec())],
{
    let dims = a.dims_spec();
    let size = a.size_spec();
    let f = flat_index(idx, dims);
    crate::geom::lemma_flat_index_bounds(idx, dims);
    crate::geom::lemma_offset_row_major(idx, dims, size);
    assert(offset_of(idx, a.strides_spec()) == f * size);
    crate::types::lemma_encode_all_chunk::<T>(elems, f);
    assert((f + 1) * size == f * size + size) by (nonlinear_arith);
    assert(a.elem_bytes_at(idx) == a.data_spec().subrange(f * size, f * size + size));
    T::lemma_decode_encode(elems[f]);
}

/// Law (flatten correctness): in a contiguous two-dimensional array whose
/// buffer encodes the flattening of `rows`, the element at `[i, j]` is row
/// `i`'s entry `j` — element for element, row-major.
pub proof fn lemma_vec2_elements<T: TypeNum>(a: &PyArray, rows: Seq<Seq<T>>, i: int, j: int)
    requires
        a.wf(),
        a.tag_of() == T::tag_spec(),
        a.is_contiguous(),
        a.dims_spec().len() == 2,
        rows.len() == a.dims_spec()[0],
        rect2(rows, a.dims_spec()[1] as int),
        a.data_spec() == crate::types::encode_all::<T>(flatten2(rows)),
        0 <= i < a.dims_spec()[0],
        0 <= j < a.dims_spec()[1],
    ensures
        a.elem_at::<T>(seq![i as usize, j as usize]) == rows[i][j],
{
    let dims = a.dims_spec();
    let n = dims[0] as int;
    let m = dims[1] as int;
    lemma_flatten2_len(rows, m);
    assert(dims.drop_first() =~= seq![dims[1]]);
    assert(seq![dims[1]].drop_first() =~= Seq::<usize>::empty());
    assert(prod(Seq::<usize>::empty()) == 1);
    assert(prod(seq![dims[1]]) == m * 1);
    assert(prod(dims) == n * m);
    let idx = seq![i as usize, j as usize];
    assert(index_in_bounds(idx, dims));
    assert(idx.drop_first() =~= seq![j as usize]);
    assert(seq![j as usize].drop_first() =~= Seq::<usize>::empty());
    assert(seq![j as usize][0] == j as usize);
    assert(dims.drop_first().drop_first() =~= Seq::<usize>::empty());
    assert(flat_index(Seq::<usize>::empty(), Seq::<usize>::empty()) == 0);
    assert(flat_index(seq![j as usize], dims.drop_first()) == j * prod(
        dims.drop_first().drop_first(),
    ));
    assert(flat_index(idx, dims) == i * m + j * 1);
    lemma_contiguous_elements::<T>(a, flatten2(rows), idx);
    crate::geom::lemma_flatten2_index(rows, m, i, j);
}

/// Copy a vector of plain values.
fn copy_vec<T: Copy>(v: &Vec<T>) -> (r: Vec<T>)
    ensures
        r@ == v@,
{
    let n = v.len();
    let mut out: Vec<T> = Vec::new();
    let mut i: usize = 0;
    while i < n
        invariant
            i <= n,
            n == v@.len(),
            out@ == v@.take(i as int),
        decreases n - i,
    {
        out.push(v[i]);
        proof {
            assert(out@ =~= v@.take(i + 1));
        }
        i = i + 1;
    }
    proof {
        assert(v@.take(n as int) =~= v@);
    }
    out
}

/// Law (flatten correctness, three axes): in a contiguous three-dimensional
/// array whose buffer encodes the flattening of `planes`, the element at
/// `[i, j, k]` is plane `i`'s row `j`'s entry `k`.
pub proof fn lemma_vec3_elements<T: TypeNum>(
    a: &PyArray,
    planes: Seq<Seq<Seq<T>>>,
    i: int,
    j: int,
    k: int,
)
    requires
        a.wf(),
        a.tag_of() == T::tag_spec(),
        a.is_contiguous(),
        a.dims_spec().len() == 3,
        planes.len() == a.dims_spec()[0],
        forall|t: int|
            0 <= t < planes.len() ==> (#[trigger] planes[t]).len() == a.dims_spec()[1],
        forall|t: int|
            0 <= t < planes.len() ==> rect2(#[trigger] planes[t], a.dims_spec()[2] as int),
        a.data_spec() == crate::types::encode_all::<T>(flatten3(planes)),
        0 <= i < a.dims_spec()[0],
        0 <= j < a.dims_spec()[1],
        0 <= k < a.dims_spec()[2],
    ensures
        a.elem_at::<T>(seq![i as usize, j as usize, k as usize]) == planes[i][j][k],
{
    let dims = a.dims_spec();
    let n = dims[0] as int;
    let m2 = dims[1] as int;
    let m3 = dims[2] as int;
    crate::geom::lemma_flatten3_len(planes, m2, m3);
    assert(dims.drop_first() =~= seq![dims[1], dims[2]]);
    assert(seq![dims[1], dims[2]].drop_first() =~= seq![dims[2]]);
    assert(seq![dims[2]].drop_first() =~= Seq::<usize>::empty());
    assert(prod(Seq::<usize>::empty()) == 1);
    assert(prod(seq![dims[2]]) == m3 * 1);
    assert(prod(seq![dims[1], dims[2]]) == m2 * (m3 as int));
    assert(prod(dims) == n * (m2 * m3));
    let idx = seq![i as usize, j as usize, k as usize];
    assert(index_in_bounds(idx, dims));
    assert(idx.drop_first() =~= seq![j as usize, k as usize]);
    assert(seq![j as usize, k as usize].drop_first() =~= seq![k as usize]);
    assert(seq![k as usize].drop_first() =~= Seq::<usize>::empty());
    assert(dims.drop_first().drop_first() =~= seq![dims[2]]);
    assert(seq![dims[2]].drop_first() =~= Seq::<usize>::empty());
    assert(flat_index(Seq::<usize>::empty(), Seq::<usize>::empty()) == 0);
    assert(flat_index(seq![k as usize], seq![dims[2]]) == k * prod(Seq::<usize>::empty()));
    assert(flat_index(seq![j as usize, k as usize], seq![dims[1], dims[2]]) == j * prod(
        seq![dims[2]],
    ) + k * 1);
    assert(flat_index(idx, dims) == i * (m2 * m3) + (j * m3 + k));
    lemma_contiguous_elements::<T>(a, flatten3(planes), idx);
    crate::geom::lemma_flatten3_index(planes, m2, m3, i, j, k);
    assert(i * (m2 * m3) + (j * m3 + k) == (i * m2 + j) * m3 + k) by (nonlinear_arith);
}

} // verus!
