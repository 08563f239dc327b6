use numpy::ArrayCastError;
use numpy::ElemTag;
use numpy::NpyOrder;
use numpy::PyArray;
use numpy::TypeNum;

#[test]
fn zeros_view_roundtrip_row_major() {
    let dims = vec![2usize, 3usize];
    let arr = PyArray::zeros::<u32>(&dims, NpyOrder::RowMajor).unwrap();
    let view = arr.as_array::<u32>().unwrap();
    assert_eq!(view.shape(), &[2, 3]);
    for i in 0..2usize {
        for j in 0..3usize {
            assert_eq!(view.get(&arr, &vec![i, j]), 0u32);
        }
    }
}

#[test]
fn zeros_view_roundtrip_column_major() {
    let dims = vec![3usize, 2usize];
    let arr = PyArray::zeros::<i64>(&dims, NpyOrder::ColumnMajor).unwrap();
    let view = arr.as_array::<i64>().unwrap();
    for i in 0..3usize {
        for j in 0..2usize {
            assert_eq!(view.get(&arr, &vec![i, j]), 0i64);
        }
    }
}

#[test]
fn type_mismatch_is_rejected_with_both_tags() {
    let dims = vec![2usize, 2usize];
    let arr = PyArray::zeros::<i32>(&dims, NpyOrder::RowMajor).unwrap();
    let err = arr.as_array::<u32>().unwrap_err();
    assert_eq!(
        err,
        ArrayCastError::ToRust {
            expected: 6,
            found: 5
        }
    );
    let err2 = arr.as_slice::<u64>().unwrap_err();
    assert_eq!(
        err2,
        ArrayCastError::ToRust {
            expected: 8,
            found: 5
        }
    );
}

#[test]
fn from_vec2_rectangular_succeeds() {
    let v = vec![vec![1u32, 2, 3], vec![1u32, 2, 3]];
    let arr = PyArray::from_vec2::<u32>(&v).unwrap();
    assert_eq!(arr.shape(), &[2, 3]);
    assert_eq!(arr.len(), 6);
}

#[test]
fn from_vec2_ragged_fails_with_depth() {
    let v = vec![vec![1u32], vec![2u32, 3]];
    let err = PyArray::from_vec2::<u32>(&v).unwrap_err();
    assert_eq!(err, ArrayCastError::FromVec { depth: 2 });
}

#[test]
fn from_vec2_trailing_row_is_the_yardstick() {
    // rectangularity is judged against the trailing row's length
    let v = vec![vec![1u8, 2], vec![3u8]];
    let err = PyArray::from_vec2::<u8>(&v).unwrap_err();
    assert_eq!(err, ArrayCastError::FromVec { depth: 2 });
}

#[test]
fn from_vec2_flatten_is_row_major() {
    let v = vec![vec![1i32, 2], vec![3i32, 4]];
    let arr = PyArray::from_vec2::<i32>(&v).unwrap();
    let view = arr.as_array::<i32>().unwrap();
    assert_eq!(view.get(&arr, &vec![0, 0]), 1);
    assert_eq!(view.get(&arr, &vec![0, 1]), 2);
    assert_eq!(view.get(&arr, &vec![1, 0]), 3);
    assert_eq!(view.get(&arr, &vec![1, 1]), 4);
    assert_eq!(arr.as_slice::<i32>().unwrap(), vec![1, 2, 3, 4]);
}

#[test]
fn mutation_is_visible_to_later_views() {
    let dims = vec![2usize, 2usize];
    let mut arr = PyArray::new::<u32>(&dims).unwrap();
    let mview = arr.as_array_mut::<u32>().unwrap();
    mview.write(&mut arr, &vec![1, 0], 7u32);
    mview.write(&mut arr, &vec![0, 1], 9u32);
    let view = arr.as_array::<u32>().unwrap();
    assert_eq!(view.get(&arr, &vec![1, 0]), 7);
    assert_eq!(view.get(&arr, &vec![0, 1]), 9);
}

#[test]
fn strides_and_len_of_new_are_row_major() {
    // element size 8: strides are 30*8, 6*8, 8 and len is 120
    let dims = vec![4usize, 5usize, 6usize];
    let arr = PyArray::new::<u64>(&dims).unwrap();
    assert_eq!(arr.ndim(), 3);
    assert_eq!(arr.shape(), &[4, 5, 6]);
    assert_eq!(arr.dims(), &[4, 5, 6]);
    assert_eq!(arr.strides(), &[240, 48, 8]);
    assert_eq!(arr.len(), 120);
}

#[test]
fn from_vec3_inconsistent_second_level_fails_early() {
    let v = vec![vec![vec![1u32], vec![]]];
    let err = PyArray::from_vec3::<u32>(&v).unwrap_err();
    assert_eq!(err, ArrayCastError::FromVec { depth: 3 });
    let w = vec![vec![vec![1u32, 2]], vec![]];
    let err2 = PyArray::from_vec3::<u32>(&w).unwrap_err();
    assert_eq!(err2, ArrayCastError::FromVec { depth: 2 });
}

#[test]
fn from_vec3_rectangular_flattens_row_major() {
    let v = vec![vec![vec![1u16, 2], vec![3, 4]], vec![vec![5, 6], vec![7, 8]]];
    let arr = PyArray::from_vec3::<u16>(&v).unwrap();
    assert_eq!(arr.shape(), &[2, 2, 2]);
    assert_eq!(arr.as_slice::<u16>().unwrap(), vec![1, 2, 3, 4, 5, 6, 7, 8]);
    let view = arr.as_array::<u16>().unwrap();
    assert_eq!(view.get(&arr, &vec![1, 0, 1]), 6);
}

#[test]
fn from_vec_roundtrips_signed_values() {
    let arr = PyArray::from_vec::<i32>(vec![-1, 2, -3]).unwrap();
    assert_eq!(arr.as_slice::<i32>().unwrap(), vec![-1, 2, -3]);
    let arr64 = PyArray::from_vec::<i64>(vec![i64::MIN, -5, i64::MAX]).unwrap();
    assert_eq!(
        arr64.as_slice::<i64>().unwrap(),
        vec![i64::MIN, -5, i64::MAX]
    );
    let arr8 = PyArray::from_vec::<i8>(vec![-128, 0, 127]).unwrap();
    assert_eq!(arr8.as_slice::<i8>().unwrap(), vec![-128, 0, 127]);
    let arr16 = PyArray::from_vec::<i16>(vec![-32768, 32767]).unwrap();
    assert_eq!(arr16.as_slice::<i16>().unwrap(), vec![-32768, 32767]);
}

#[test]
fn from_boxed_slice_roundtrips_unsigned_and_bool() {
    let arr = PyArray::from_boxed_slice::<u16>(&[1, 65535, 256]).unwrap();
    assert_eq!(arr.as_slice::<u16>().unwrap(), vec![1, 65535, 256]);
    let arrb = PyArray::from_boxed_slice::<bool>(&[true, false, true]).unwrap();
    assert_eq!(arrb.as_slice::<bool>().unwrap(), vec![true, false, true]);
    let arr64 = PyArray::from_boxed_slice::<u64>(&[u64::MAX, 0, 1]).unwrap();
    assert_eq!(arr64.as_slice::<u64>().unwrap(), vec![u64::MAX, 0, 1]);
}

#[test]
fn typenum_reports_the_runtime_tag_code() {
    let dims = vec![1usize];
    assert_eq!(
        PyArray::zeros::<bool>(&dims, NpyOrder::RowMajor)
            .unwrap()
            .typenum(),
        0
    );
    assert_eq!(
        PyArray::zeros::<i8>(&dims, NpyOrder::RowMajor)
            .unwrap()
            .typenum(),
        1
    );
    assert_eq!(
        PyArray::zeros::<u8>(&dims, NpyOrder::RowMajor)
            .unwrap()
            .typenum(),
        2
    );
    assert_eq!(
        PyArray::zeros::<i64>(&dims, NpyOrder::RowMajor)
            .unwrap()
            .typenum(),
        7
    );
    assert_eq!(<u32 as TypeNum>::typenum(), 6);
}

#[test]
fn column_major_buffer_is_not_flat_sliceable() {
    let dims = vec![2usize, 3usize];
    let arr = PyArray::zeros::<u32>(&dims, NpyOrder::ColumnMajor).unwrap();
    assert_eq!(arr.strides(), &[4, 8]);
    assert_eq!(arr.as_slice::<u32>().unwrap_err(), ArrayCastError::NotContiguous);
    // but the strided typed view is still granted
    assert!(arr.as_array::<u32>().is_ok());
}

#[test]
fn flat_slice_mut_writes_single_elements() {
    let mut arr = PyArray::from_vec::<u32>(vec![10, 20, 30]).unwrap();
    let flat = arr.as_slice_mut::<u32>().unwrap();
    assert_eq!(flat.len(), 3);
    flat.set(&mut arr, 1, 99);
    assert_eq!(flat.get(&arr, 1), 99);
    assert_eq!(arr.as_slice::<u32>().unwrap(), vec![10, 99, 30]);
}

#[test]
fn from_owned_ptr_wraps_foreign_bytes() {
    // two little-endian u16 values: 1 and 2
    let arr = PyArray::from_owned_ptr(
        ElemTag::U16,
        vec![2usize],
        vec![2isize],
        vec![1, 0, 2, 0],
    )
    .unwrap();
    assert_eq!(arr.as_slice::<u16>().unwrap(), vec![1, 2]);
    assert_eq!(arr.typenum(), 4);
}

#[test]
fn from_owned_ptr_rejects_short_buffers() {
    let err = PyArray::from_owned_ptr(ElemTag::U32, vec![2usize], vec![4isize], vec![0, 0, 0])
        .unwrap_err();
    assert_eq!(err, ArrayCastError::AllocationFailed);
    let err2 =
        PyArray::from_owned_ptr(ElemTag::U8, vec![1usize], vec![1isize, 1isize], vec![0])
            .unwrap_err();
    assert_eq!(err2, ArrayCastError::AllocationFailed);
}

#[test]
fn from_borrowed_ptr_copies_the_lent_buffer() {
    let lent: Vec<u8> = vec![7, 0, 0, 0, 9, 0, 0, 0];
    let arr =
        PyArray::from_borrowed_ptr(ElemTag::I32, &vec![2usize], &vec![4isize], &lent).unwrap();
    // the original buffer is still the caller's; the array owns a copy
    assert_eq!(lent.len(), 8);
    assert_eq!(arr.as_slice::<i32>().unwrap(), vec![7, 9]);
}

#[test]
fn zero_stride_aliases_one_element() {
    // a broadcast axis: both indexes read the same underlying element
    let arr = PyArray::new_::<u32>(
        &vec![2usize],
        Some(vec![0isize]),
        Some(vec![5, 0, 0, 0]),
    )
    .unwrap();
    let view = arr.as_array::<u32>().unwrap();
    assert_eq!(view.get(&arr, &vec![0]), 5);
    assert_eq!(view.get(&arr, &vec![1]), 5);
}

#[test]
fn misaligned_stride_is_rejected() {
    // a 3-byte stride cannot step over 4-byte elements
    let arr = PyArray::from_owned_ptr(
        ElemTag::U32,
        vec![2usize],
        vec![3isize],
        vec![0u8; 8],
    )
    .unwrap();
    let err = arr.as_array::<u32>().unwrap_err();
    assert_eq!(
        err,
        ArrayCastError::StrideMismatch {
            stride: 3,
            elem_size: 4
        }
    );
}

#[test]
fn scalar_array_has_one_element() {
    let dims: Vec<usize> = vec![];
    let arr = PyArray::zeros::<u8>(&dims, NpyOrder::RowMajor).unwrap();
    assert_eq!(arr.ndim(), 0);
    assert_eq!(arr.len(), 1);
    assert_eq!(arr.as_slice::<u8>().unwrap(), vec![0]);
}

#[test]
fn from_flat_parts_checks_the_element_count() {
    let err = PyArray::from_flat_parts::<u32>(vec![2, 3], vec![1, 2, 3]).unwrap_err();
    assert_eq!(err, ArrayCastError::AllocationFailed);
    let arr = PyArray::from_flat_parts::<u32>(vec![2, 2], vec![1, 2, 3, 4]).unwrap();
    assert_eq!(arr.shape(), &[2, 2]);
    assert_eq!(arr.as_slice::<u32>().unwrap(), vec![1, 2, 3, 4]);
}

#[test]
fn tag_codes_round_trip() {
    for code in 0..13i32 {
        match numpy::types::tag_from_code(code) {
            Some(tag) => assert_eq!(numpy::types::tag_code(tag), code),
            None => assert!(code == 9 || code == 10),
        }
    }
    assert!(numpy::types::tag_from_code(99).is_none());
}

#[test]
fn empty_dimension_gives_empty_array() {
    let v: Vec<Vec<u32>> = vec![];
    let arr = PyArray::from_vec2::<u32>(&v).unwrap();
    assert_eq!(arr.shape(), &[0, 0]);
    assert_eq!(arr.len(), 0);
    assert_eq!(arr.as_slice::<u32>().unwrap(), Vec::<u32>::new());
}
