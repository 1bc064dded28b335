use cdf_header::dataset::Dataset;
use cdf_header::dtype::Dtype;
use cdf_header::error::Error;
use cdf_header::layout::Layout;
use cdf_header::variable::Variable;

fn fixed(extents: Vec<u64>, dtype: Dtype, begin: u64) -> Layout {
    Layout { is_record_variable: false, extents, dtype, begin, record_count: Some(0) }
}

fn record(extents: Vec<u64>, dtype: Dtype, begin: u64, record_count: Option<u64>) -> Layout {
    Layout { is_record_variable: true, extents, dtype, begin, record_count }
}

#[test]
fn element_count_is_the_product_of_the_extents() {
    assert_eq!(fixed(vec![], Dtype::Int, 0).element_count(), Some(1));
    assert_eq!(fixed(vec![7], Dtype::Int, 0).element_count(), Some(7));
    assert_eq!(fixed(vec![2, 3, 4], Dtype::Int, 0).element_count(), Some(24));
    assert_eq!(fixed(vec![2, 0, 4], Dtype::Int, 0).element_count(), Some(0));
    assert_eq!(fixed(vec![1 << 32, 1 << 31], Dtype::Int, 0).element_count(), Some(1 << 63));
    assert_eq!(fixed(vec![1 << 32, 1 << 32], Dtype::Int, 0).element_count(), None);
    assert_eq!(fixed(vec![1 << 32, 1 << 32, 0], Dtype::Int, 0).element_count(), Some(0));
    assert_eq!(fixed(vec![u64::MAX], Dtype::Int, 0).element_count(), Some(u64::MAX));
}

#[test]
fn record_stride_is_elements_times_width() {
    assert_eq!(record(vec![], Dtype::Double, 0, Some(1)).record_stride(), Some(8));
    assert_eq!(record(vec![3, 5], Dtype::Short, 0, Some(1)).record_stride(), Some(30));
    assert_eq!(record(vec![3, 5], Dtype::Byte, 0, None).record_stride(), Some(15));
    assert_eq!(fixed(vec![3, 5], Dtype::Short, 0).record_stride(), None);
    assert_eq!(record(vec![1 << 62], Dtype::Int, 0, Some(1)).record_stride(), None);
    assert_eq!(record(vec![1 << 61], Dtype::Int, 0, Some(1)).record_stride(), Some(1 << 63));
    assert_eq!(record(vec![1 << 40, 1 << 40], Dtype::Byte, 0, Some(1)).record_stride(), None);
}

#[test]
fn shape_puts_the_record_count_first() {
    assert_eq!(fixed(vec![2, 3], Dtype::Int, 0).shape(), vec![2, 3]);
    assert_eq!(record(vec![2, 3], Dtype::Int, 0, Some(9)).shape(), vec![9, 2, 3]);
    assert_eq!(record(vec![2, 3], Dtype::Int, 0, None).shape(), vec![0, 2, 3]);
    assert_eq!(record(vec![], Dtype::Int, 0, Some(4)).shape(), vec![4]);
}

#[test]
fn byte_range_of_a_fixed_variable_is_row_major() {
    let layout = fixed(vec![2, 3, 4], Dtype::Int, 1000);
    assert_eq!(layout.byte_range(0, &[0, 0, 0]), Ok((1000, 1004)));
    assert_eq!(layout.byte_range(0, &[0, 0, 1]), Ok((1004, 1008)));
    assert_eq!(layout.byte_range(0, &[0, 1, 0]), Ok((1016, 1020)));
    assert_eq!(layout.byte_range(0, &[1, 0, 0]), Ok((1048, 1052)));
    assert_eq!(layout.byte_range(0, &[1, 2, 3]), Ok((1000 + 23 * 4, 1000 + 24 * 4)));
    assert_eq!(layout.byte_range(17, &[1, 2, 3]), Ok((1092, 1096)));
}

#[test]
fn byte_range_refuses_indices_outside_the_shape() {
    let layout = fixed(vec![2, 3, 4], Dtype::Int, 1000);
    assert_eq!(layout.byte_range(0, &[2, 0, 0]), Err(Error::IndexOutOfBounds));
    assert_eq!(layout.byte_range(0, &[0, 3, 0]), Err(Error::IndexOutOfBounds));
    assert_eq!(layout.byte_range(0, &[0, 0, 4]), Err(Error::IndexOutOfBounds));
    assert_eq!(layout.byte_range(0, &[0, 0]), Err(Error::IndexOutOfBounds));
    assert_eq!(layout.byte_range(0, &[0, 0, 0, 0]), Err(Error::IndexOutOfBounds));
    assert_eq!(layout.byte_range(0, &[]), Err(Error::IndexOutOfBounds));
    let empty = fixed(vec![3, 0], Dtype::Byte, 0);
    assert_eq!(empty.byte_range(0, &[0, 0]), Err(Error::IndexOutOfBounds));
}

#[test]
fn byte_range_of_a_record_variable_adds_the_records() {
    let layout = record(vec![3, 5], Dtype::Short, 512, Some(4));
    assert_eq!(layout.byte_range(0, &[0, 0]), Ok((512, 514)));
    assert_eq!(layout.byte_range(1, &[0, 0]), Ok((542, 544)));
    assert_eq!(layout.byte_range(3, &[2, 4]), Ok((512 + 3 * 30 + 14 * 2, 512 + 3 * 30 + 15 * 2)));
    assert_eq!(layout.byte_range(4, &[0, 0]), Err(Error::IndexOutOfBounds));
    assert_eq!(layout.byte_range(0, &[3, 0]), Err(Error::IndexOutOfBounds));
    let no_records = record(vec![], Dtype::Int, 0, Some(0));
    assert_eq!(no_records.byte_range(0, &[]), Err(Error::IndexOutOfBounds));
}

#[test]
fn byte_range_takes_any_record_while_their_number_is_open() {
    let layout = record(vec![2], Dtype::Double, 64, None);
    assert_eq!(layout.byte_range(0, &[1]), Ok((72, 80)));
    assert_eq!(layout.byte_range(1_000_000, &[0]), Ok((64 + 16_000_000, 64 + 16_000_008)));
}

#[test]
fn byte_range_refuses_offsets_past_sixty_four_bits() {
    let last = fixed(vec![], Dtype::Int, u64::MAX - 4);
    assert_eq!(last.byte_range(0, &[]), Ok((u64::MAX - 4, u64::MAX)));
    let past = fixed(vec![], Dtype::Int, u64::MAX - 3);
    assert_eq!(past.byte_range(0, &[]), Err(Error::IndexOutOfBounds));
    let huge = fixed(vec![1 << 40, 1 << 40], Dtype::Byte, 0);
    assert_eq!(huge.byte_range(0, &[0, 5]), Ok((5, 6)));
    assert_eq!(huge.byte_range(0, &[1 << 30, 0]), Err(Error::IndexOutOfBounds));
    assert_eq!(huge.byte_range(0, &[(1 << 23) - 1, (1 << 40) - 1]), Ok(((1 << 63) - 1, 1 << 63)));
    let wide = record(vec![1 << 40, 1 << 40], Dtype::Byte, 0, None);
    assert_eq!(wide.byte_range(0, &[0, 7]), Ok((7, 8)));
    assert_eq!(wide.byte_range(1, &[0, 0]), Err(Error::IndexOutOfBounds));
    let strided = record(vec![1 << 31], Dtype::Double, 0, None);
    assert_eq!(strided.byte_range((1 << 30) - 1, &[0]), Ok((((1u64 << 30) - 1) << 34, (((1u64 << 30) - 1) << 34) + 8)));
    assert_eq!(strided.byte_range(1 << 30, &[0]), Err(Error::IndexOutOfBounds));
    let scaled = fixed(vec![1 << 62], Dtype::Double, 0);
    assert_eq!(scaled.byte_range(0, &[1 << 61]), Err(Error::IndexOutOfBounds));
}

#[test]
fn layout_of_a_dataset_resolves_the_dimensions() {
    let mut ds = Dataset::new();
    ds.add_dimension(String::from("time"), 0).unwrap();
    ds.add_dimension(String::from("lat"), 3).unwrap();
    ds.add_dimension(String::from("lon"), 5).unwrap();
    ds.add_variable(
        Variable::new(String::from("field")).with_dimensions(vec![0, 1, 2]).with_dtype(Dtype::Float).with_begin(96),
    )
    .unwrap();
    ds.add_variable(
        Variable::new(String::from("grid")).with_dimensions(vec![2, 1]).with_dtype(Dtype::Double).with_begin(8),
    )
    .unwrap();
    let field = ds.layout(0).unwrap();
    assert!(field.is_record_variable);
    assert_eq!(field.extents, vec![3, 5]);
    assert_eq!(field.dtype, Dtype::Float);
    assert_eq!(field.begin, 96);
    assert_eq!(field.record_count, Some(0));
    assert_eq!(field.record_stride(), Some(60));
    assert_eq!(field.byte_range(0, &[0, 0]), Err(Error::IndexOutOfBounds));
    let grid = ds.layout(1).unwrap();
    assert!(!grid.is_record_variable);
    assert_eq!(grid.extents, vec![5, 3]);
    assert_eq!(grid.record_stride(), None);
    assert_eq!(grid.element_count(), Some(15));
    assert_eq!(grid.byte_range(0, &[4, 2]), Ok((8 + 14 * 8, 8 + 15 * 8)));
    assert!(ds.layout(2).is_none());
}
