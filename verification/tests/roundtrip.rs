use cdf_header::attributes::{Attribute, AttributeValue};
use cdf_header::dataset::Dataset;
use cdf_header::dtype::Dtype;
use cdf_header::error::Error;
use cdf_header::reader::ByteReader;
use cdf_header::variable::Variable;
use cdf_header::writer::{write_count, write_name, write_padding, write_u32, write_u64};
use cdf_header::version::FormatVersion;

fn sample_header() -> Vec<u8> {
    let mut bytes: Vec<u8> = Vec::new();
    bytes.extend(b"CDF\x02");
    bytes.extend([0, 0, 0, 4]);
    bytes.extend([0, 0, 0, 10, 0, 0, 0, 2]);
    bytes.extend([0, 0, 0, 4]);
    bytes.extend(b"time");
    bytes.extend([0, 0, 0, 0]);
    bytes.extend([0, 0, 0, 3]);
    bytes.extend(b"lat\0");
    bytes.extend([0, 0, 0, 5]);
    bytes.extend([0, 0, 0, 12, 0, 0, 0, 1]);
    bytes.extend([0, 0, 0, 5]);
    bytes.extend(b"title\0\0\0");
    bytes.extend([0, 0, 0, 2, 0, 0, 0, 6]);
    bytes.extend(b"sample\0\0");
    bytes.extend([0, 0, 0, 11, 0, 0, 0, 2]);
    bytes.extend([0, 0, 0, 3]);
    bytes.extend(b"lat\0");
    bytes.extend([0, 0, 0, 1, 0, 0, 0, 1]);
    bytes.extend([0, 0, 0, 0, 0, 0, 0, 0]);
    bytes.extend([0, 0, 0, 5, 0, 0, 0, 20]);
    bytes.extend([0, 0, 0, 0, 0, 0, 1, 0]);
    bytes.extend([0, 0, 0, 4]);
    bytes.extend(b"temp");
    bytes.extend([0, 0, 0, 2, 0, 0, 0, 0, 0, 0, 0, 1]);
    bytes.extend([0, 0, 0, 12, 0, 0, 0, 1]);
    bytes.extend([0, 0, 0, 5]);
    bytes.extend(b"scale\0\0\0");
    bytes.extend([0, 0, 0, 3, 0, 0, 0, 1]);
    bytes.extend([0, 7, 0, 0]);
    bytes.extend([0, 0, 0, 6, 0, 0, 0, 40]);
    bytes.extend([0, 0, 0, 1, 0, 0, 1, 20]);
    bytes
}

#[test]
fn canonical_header_is_reproduced_byte_for_byte() {
    let header = sample_header();
    let mut file = header.clone();
    file.extend([9, 9, 9, 9, 9]);
    let mut fp = ByteReader::new(&file);
    let ds = Dataset::decode(&mut fp).unwrap();
    assert_eq!(fp.position(), header.len());
    assert_eq!(ds.encode(), Some(header));
}

#[test]
fn every_version_is_reproduced() {
    for version in [1u8, 2, 5] {
        let wide = version == 5;
        let count = |n: u32| -> Vec<u8> {
            if wide {
                (n as u64).to_be_bytes().to_vec()
            } else {
                n.to_be_bytes().to_vec()
            }
        };
        let mut bytes = b"CDF".to_vec();
        bytes.push(version);
        bytes.extend(count(2));
        bytes.extend([0, 0, 0, 10]);
        bytes.extend(count(1));
        bytes.extend([0, 0, 0, 1, b't', 0, 0, 0, 0, 0, 0, 0]);
        bytes.extend([0, 0, 0, 0]);
        bytes.extend(count(0));
        bytes.extend([0, 0, 0, 11]);
        bytes.extend(count(1));
        bytes.extend([0, 0, 0, 1, b'v', 0, 0, 0]);
        bytes.extend([0, 0, 0, 1, 0, 0, 0, 0]);
        bytes.extend([0, 0, 0, 12]);
        bytes.extend(count(1));
        bytes.extend([0, 0, 0, 1, b'a', 0, 0, 0, 0, 0, 0, 1]);
        bytes.extend(count(3));
        bytes.extend([1, 2, 3, 0]);
        bytes.extend([0, 0, 0, 4, 0, 0, 0, 4]);
        if version == 1 {
            bytes.extend([0, 0, 2, 0]);
        } else {
            bytes.extend([0, 0, 0, 1, 0, 0, 2, 0]);
        }
        let ds = Dataset::open(String::from("f"), &bytes).unwrap();
        assert_eq!(ds.encode(), Some(bytes));
    }
}

#[test]
fn open_record_count_is_reproduced() {
    let mut bytes = b"CDF\x01".to_vec();
    bytes.extend([0xff, 0xff, 0xff, 0xff]);
    bytes.extend([0; 24]);
    let ds = Dataset::open(String::from("f"), &bytes).unwrap();
    assert_eq!(ds.numrecs(), None);
    assert_eq!(ds.encode(), Some(bytes));
}

#[test]
fn lenient_input_is_encoded_in_canonical_form() {
    let mut bytes = b"CDF\x01".to_vec();
    bytes.extend([0, 0, 0, 0]);
    bytes.extend([0, 0, 0, 10, 0, 0, 0, 1]);
    bytes.extend([0, 0, 0, 1, b'x', 0xaa, 0xbb, 0xcc]);
    bytes.extend([0, 0, 0, 2]);
    bytes.extend([0, 0, 0, 12, 0, 0, 0, 0]);
    bytes.extend([0, 0, 0, 11, 0, 0, 0, 0]);
    let ds = Dataset::open(String::from("f"), &bytes).unwrap();
    let mut canonical = b"CDF\x01".to_vec();
    canonical.extend([0, 0, 0, 0]);
    canonical.extend([0, 0, 0, 10, 0, 0, 0, 1]);
    canonical.extend([0, 0, 0, 1, b'x', 0, 0, 0]);
    canonical.extend([0, 0, 0, 2]);
    canonical.extend([0; 16]);
    let encoded = ds.encode().unwrap();
    assert_eq!(encoded, canonical);
    let again = Dataset::open(String::from("f"), &encoded).unwrap();
    assert_eq!(again.dimensions()[0].name, "x");
    assert_eq!(again.dimensions()[0].length, 2);
    assert_eq!(again.encode(), Some(canonical));
}

#[test]
fn built_dataset_decodes_to_itself() {
    let mut ds = Dataset::new();
    assert_eq!(ds.add_dimension(String::from("time"), 0), Ok(()));
    assert_eq!(ds.add_dimension(String::from("x"), 4), Ok(()));
    ds.add_attribute(Attribute {
        name: String::from("history"),
        value: AttributeValue { dtype: Dtype::Char, raw: b"made".to_vec(), count: 4 },
    });
    let var = Variable::new(String::from("speed"))
        .with_dimensions(vec![0, 1])
        .with_dtype(Dtype::Short)
        .with_size(8)
        .with_begin(200)
        .with_attributes(vec![Attribute {
            name: String::from("valid_max"),
            value: AttributeValue { dtype: Dtype::Short, raw: vec![0, 9], count: 1 },
        }]);
    assert_eq!(ds.add_variable(var), Ok(()));
    let bytes = ds.encode().unwrap();
    assert_eq!(&bytes[..8], b"CDF\x01\0\0\0\0");
    let back = Dataset::open(String::from("mem"), &bytes).unwrap();
    assert_eq!(back.version(), FormatVersion::V1_32BIT);
    assert_eq!(back.dimensions().len(), 2);
    assert!(back.dimensions()[0].is_unlimited);
    assert_eq!(back.dimensions()[1].name, "x");
    assert_eq!(back.attributes()[0].value.as_text(), Some(String::from("made")));
    let v = &back.variables()[0];
    assert_eq!(v.name, "speed");
    assert_eq!(v.dimensions, vec![0, 1]);
    assert_eq!(v.dtype, Dtype::Short);
    assert_eq!(v.size, 8);
    assert_eq!(v.begin, 200);
    assert_eq!(v.attributes[0].name, "valid_max");
    assert_eq!(v.attributes[0].value.raw, vec![0, 9]);
    assert_eq!(back.encode(), Some(bytes));
}

#[test]
fn values_that_do_not_fit_are_not_encoded() {
    let mut ds = Dataset::new();
    assert_eq!(ds.add_dimension(String::from("big"), 0x1_0000_0000), Ok(()));
    assert_eq!(ds.encode(), None);
    let mut ds = Dataset::new();
    assert_eq!(ds.add_variable(Variable::new(String::from("v")).with_begin(0x1_0000_0000)), Ok(()));
    assert_eq!(ds.encode(), None);
    let mut ds = Dataset::new();
    assert_eq!(ds.add_variable(Variable::new(String::from("v")).with_size(-1)), Ok(()));
    assert_eq!(ds.encode(), None);
    let mut ds = Dataset::new();
    ds.add_attribute(Attribute {
        name: String::from("a"),
        value: AttributeValue { dtype: Dtype::Int, raw: vec![0, 0, 0], count: 1 },
    });
    assert_eq!(ds.encode(), None);
}

#[test]
fn integers_are_written_most_significant_byte_first() {
    let mut out = vec![7u8];
    write_u32(&mut out, 0x0102_0304);
    assert_eq!(out, vec![7, 1, 2, 3, 4]);
    write_u64(&mut out, 0x1122_3344_5566_7788);
    assert_eq!(out[5..], [0x11, 0x22, 0x33, 0x44, 0x55, 0x66, 0x77, 0x88]);
    let mut out = Vec::new();
    assert!(write_count(&mut out, 267, FormatVersion::V2_64BIT));
    assert_eq!(out, vec![0, 0, 1, 11]);
    let mut out = Vec::new();
    assert!(write_count(&mut out, 267, FormatVersion::V5_64BIT_COUNTS));
    assert_eq!(out, vec![0, 0, 0, 0, 0, 0, 1, 11]);
    let mut out = Vec::new();
    assert!(!write_count(&mut out, 0x1_0000_0000, FormatVersion::V1_32BIT));
}

#[test]
fn names_are_written_with_length_and_zero_padding() {
    let mut out = Vec::new();
    assert!(write_name(&mut out, &String::from("abcde")));
    assert_eq!(out, vec![0, 0, 0, 5, b'a', b'b', b'c', b'd', b'e', 0, 0, 0]);
    let mut out = Vec::new();
    assert!(write_name(&mut out, &String::from("é")));
    assert_eq!(out, vec![0, 0, 0, 2, 0xc3, 0xa9, 0, 0]);
    let mut out = vec![1u8];
    write_padding(&mut out, 6);
    assert_eq!(out, vec![1, 0, 0]);
}

#[test]
fn adding_a_second_record_dimension_fails() {
    let mut ds = Dataset::new();
    assert_eq!(ds.add_dimension(String::from("time"), 0), Ok(()));
    assert_eq!(ds.add_dimension(String::from("x"), 3), Ok(()));
    assert_eq!(ds.add_dimension(String::from("again"), 0), Err(Error::MultipleUnlimitedDimensions));
    assert_eq!(ds.dimensions().len(), 2);
    assert_eq!(ds.record_dimension(), Some(0));
}

#[test]
fn adding_a_variable_checks_its_dimensions() {
    let mut ds = Dataset::new();
    assert_eq!(ds.add_dimension(String::from("x"), 3), Ok(()));
    assert_eq!(ds.add_dimension(String::from("time"), 0), Ok(()));
    let ok = Variable::new(String::from("a")).with_dimensions(vec![1, 0]);
    assert_eq!(ds.add_variable(ok), Ok(()));
    let misplaced = Variable::new(String::from("b")).with_dimensions(vec![0, 1]);
    assert_eq!(ds.add_variable(misplaced), Err(Error::InvalidRecordDimensionPlacement));
    let unknown = Variable::new(String::from("c")).with_dimensions(vec![0, 2]);
    assert_eq!(ds.add_variable(unknown), Err(Error::UnknownDimensionId));
    let first_wins = Variable::new(String::from("d")).with_dimensions(vec![0, 1, 7]);
    assert_eq!(ds.add_variable(first_wins), Err(Error::InvalidRecordDimensionPlacement));
    let unknown_first = Variable::new(String::from("e")).with_dimensions(vec![7, 0, 1]);
    assert_eq!(ds.add_variable(unknown_first), Err(Error::UnknownDimensionId));
    assert_eq!(ds.variables().len(), 1);
    assert!(ds.layout(0).unwrap().is_record_variable);
}
