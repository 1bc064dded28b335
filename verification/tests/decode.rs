use cdf_header::attributes::Attribute;
use cdf_header::dataset::Dataset;
use cdf_header::decode::{read_attrs, read_dims, read_name, read_vars};
use cdf_header::dimension::Dimension;
use cdf_header::dtype::Dtype;
use cdf_header::error::{DecodeError, Error, ListError, State};
use cdf_header::reader::ByteReader;
use cdf_header::version::FormatVersion;

fn be32(v: u32) -> Vec<u8> {
    v.to_be_bytes().to_vec()
}

fn be64(v: u64) -> Vec<u8> {
    v.to_be_bytes().to_vec()
}

fn padded(bytes: &[u8]) -> Vec<u8> {
    let mut out = bytes.to_vec();
    while out.len() % 4 != 0 {
        out.push(0);
    }
    out
}

fn name_field(name: &str) -> Vec<u8> {
    let mut out = be32(name.len() as u32);
    out.extend(padded(name.as_bytes()));
    out
}

fn prologue(version: u8, numrecs: u32) -> Vec<u8> {
    let mut out = b"CDF".to_vec();
    out.push(version);
    out.extend(be32(numrecs));
    out
}

fn absent() -> Vec<u8> {
    vec![0, 0, 0, 0, 0, 0, 0, 0]
}

fn dim_entry(name: &str, length: u32) -> Vec<u8> {
    let mut out = name_field(name);
    out.extend(be32(length));
    out
}

fn attr_entry(name: &str, code: u32, count: u32, values: &[u8]) -> Vec<u8> {
    let mut out = name_field(name);
    out.extend(be32(code));
    out.extend(be32(count));
    out.extend(padded(values));
    out
}

fn var_entry(name: &str, ids: &[u32], attrs: Vec<u8>, code: u32, vsize: u32, begin: Vec<u8>) -> Vec<u8> {
    let mut out = name_field(name);
    out.extend(be32(ids.len() as u32));
    for id in ids {
        out.extend(be32(*id));
    }
    out.extend(attrs);
    out.extend(be32(code));
    out.extend(be32(vsize));
    out.extend(begin);
    out
}

fn list(tag: u32, entries: Vec<Vec<u8>>) -> Vec<u8> {
    let mut out = be32(tag);
    out.extend(be32(entries.len() as u32));
    for entry in entries {
        out.extend(entry);
    }
    out
}

fn failure(kind: Error, state: State, entry: Option<u64>) -> DecodeError {
    DecodeError { kind, state, entry }
}

fn open(bytes: &[u8]) -> Result<Dataset, DecodeError> {
    Dataset::open(String::from("test.nc"), bytes)
}

#[test]
fn wrong_magic_is_not_a_cdf_file() {
    let err = open(b"ABC").unwrap_err();
    assert_eq!(err, failure(Error::NotACdfFile, State::ExpectMagic, None));
    let mut bytes = b"ABC".to_vec();
    bytes.extend(vec![1, 0, 0, 0, 0]);
    let mut fp = ByteReader::new(&bytes);
    let err = Dataset::decode(&mut fp).unwrap_err();
    assert_eq!(err.kind, Error::NotACdfFile);
    assert_eq!(fp.position(), 3);
}

#[test]
fn short_magic_is_truncated() {
    assert_eq!(open(b"CD").unwrap_err(), failure(Error::TruncatedInput, State::ExpectMagic, None));
    assert_eq!(open(b"").unwrap_err(), failure(Error::TruncatedInput, State::ExpectMagic, None));
}

#[test]
fn version_nine_is_unsupported() {
    let bytes = prologue(9, 0);
    assert_eq!(open(&bytes).unwrap_err(), failure(Error::UnsupportedVersion, State::ExpectVersion, None));
    assert_eq!(open(b"CDF").unwrap_err(), failure(Error::TruncatedInput, State::ExpectVersion, None));
}

#[test]
fn versions_one_two_and_five_are_recognised() {
    for (byte, version) in [
        (1u8, FormatVersion::V1_32BIT),
        (2u8, FormatVersion::V2_64BIT),
    ] {
        let mut bytes = prologue(byte, 0);
        bytes.extend(absent());
        bytes.extend(absent());
        bytes.extend(absent());
        let ds = open(&bytes).unwrap();
        assert_eq!(ds.version(), version);
    }
    let mut bytes = b"CDF\x05".to_vec();
    bytes.extend(be64(7));
    for _ in 0..3 {
        bytes.extend(be32(0));
        bytes.extend(be64(0));
    }
    let ds = open(&bytes).unwrap();
    assert_eq!(ds.version(), FormatVersion::V5_64BIT_COUNTS);
    assert_eq!(ds.numrecs(), Some(7));
}

#[test]
fn empty_header_decodes_to_an_empty_dataset() {
    let mut bytes = prologue(1, 0);
    bytes.extend(absent());
    bytes.extend(absent());
    bytes.extend(absent());
    let ds = open(&bytes).unwrap();
    assert_eq!(ds.source().map(|s| s.as_str()), Some("test.nc"));
    assert_eq!(ds.numrecs(), Some(0));
    assert_eq!(ds.record_count(), Some(0));
    assert!(ds.dimensions().is_empty());
    assert!(ds.attributes().is_empty());
    assert!(ds.variables().is_empty());
}

#[test]
fn missing_numrecs_is_truncated() {
    assert_eq!(
        open(b"CDF\x01\x00\x00").unwrap_err(),
        failure(Error::TruncatedInput, State::ExpectNumrecs, None)
    );
}

#[test]
fn all_ones_record_count_is_left_open() {
    let mut bytes = prologue(1, 0xffff_ffff);
    bytes.extend(list(10, vec![dim_entry("time", 0)]));
    bytes.extend(absent());
    bytes.extend(absent());
    let ds = open(&bytes).unwrap();
    assert_eq!(ds.numrecs(), None);
    assert_eq!(ds.record_count(), None);
    let mut wide = b"CDF\x05".to_vec();
    wide.extend(be64(0xffff_ffff));
    for _ in 0..3 {
        wide.extend(be32(0));
        wide.extend(be64(0));
    }
    assert_eq!(open(&wide).unwrap().numrecs(), Some(0xffff_ffff));
    let mut open_wide = b"CDF\x05".to_vec();
    open_wide.extend(be64(u64::MAX));
    for _ in 0..3 {
        open_wide.extend(be32(0));
        open_wide.extend(be64(0));
    }
    assert_eq!(open(&open_wide).unwrap().numrecs(), None);
}

#[test]
fn record_count_is_zero_without_a_record_dimension() {
    let mut bytes = prologue(1, 5);
    bytes.extend(list(10, vec![dim_entry("x", 3)]));
    bytes.extend(absent());
    bytes.extend(absent());
    let ds = open(&bytes).unwrap();
    assert_eq!(ds.numrecs(), Some(5));
    assert_eq!(ds.record_count(), Some(0));
    assert_eq!(ds.record_dimension(), None);
}

#[test]
fn scalar_float_variable_at_offset_64() {
    let mut bytes = prologue(1, 0);
    bytes.extend(absent());
    bytes.extend(absent());
    bytes.extend(list(11, vec![var_entry("temp", &[], absent(), 5, 4, be32(64))]));
    let ds = open(&bytes).unwrap();
    assert_eq!(ds.variables().len(), 1);
    let var = &ds.variables()[0];
    assert_eq!(var.name, "temp");
    assert_eq!(var.dtype, Dtype::Float);
    assert_eq!(var.dimensions, Vec::<u32>::new());
    assert_eq!(var.size, 4);
    assert_eq!(var.begin, 64);
    let layout = ds.layout(0).unwrap();
    assert!(!layout.is_record_variable);
    assert_eq!(layout.shape(), Vec::<u64>::new());
    assert_eq!(layout.element_count(), Some(1));
    assert_eq!(layout.record_stride(), None);
    assert_eq!(layout.byte_range(0, &[]), Ok((64, 68)));
    assert!(ds.layout(1).is_none());
}

#[test]
fn variable_over_the_record_dimension_is_a_record_variable() {
    let mut bytes = prologue(1, 3);
    bytes.extend(list(10, vec![dim_entry("time", 0)]));
    bytes.extend(absent());
    bytes.extend(list(11, vec![var_entry("t", &[0], absent(), 4, 4, be32(100))]));
    let ds = open(&bytes).unwrap();
    assert_eq!(ds.dimensions()[0].name, "time");
    assert_eq!(ds.dimensions()[0].length, 0);
    assert!(ds.dimensions()[0].is_unlimited);
    assert_eq!(ds.record_dimension(), Some(0));
    assert_eq!(ds.record_count(), Some(3));
    let layout = ds.layout(0).unwrap();
    assert!(layout.is_record_variable);
    assert_eq!(layout.element_count(), Some(1));
    assert_eq!(layout.record_stride(), Some(4));
    assert_eq!(layout.shape(), vec![3]);
    assert_eq!(layout.byte_range(0, &[]), Ok((100, 104)));
    assert_eq!(layout.byte_range(2, &[]), Ok((108, 112)));
    assert_eq!(layout.byte_range(3, &[]), Err(Error::IndexOutOfBounds));
}

#[test]
fn truncated_name_is_truncated_input() {
    let mut bytes = prologue(1, 0);
    bytes.extend(be32(10));
    bytes.extend(be32(1));
    bytes.extend(be32(8));
    bytes.extend(b"lati");
    assert_eq!(open(&bytes).unwrap_err(), failure(Error::TruncatedInput, State::ExpectDimList, Some(0)));
    let mut whole = prologue(1, 0);
    whole.extend(list(10, vec![dim_entry("latitude", 4)]));
    whole.extend(absent());
    whole.extend(absent());
    assert!(open(&whole).is_ok());
    for cut in 0..whole.len() {
        let err = open(&whole[..cut]).unwrap_err();
        assert_eq!(err.kind, Error::TruncatedInput);
    }
}

#[test]
fn second_record_dimension_is_refused() {
    let mut bytes = prologue(1, 0);
    bytes.extend(list(10, vec![dim_entry("time", 0), dim_entry("x", 2), dim_entry("again", 0)]));
    bytes.extend(absent());
    bytes.extend(absent());
    assert_eq!(
        open(&bytes).unwrap_err(),
        failure(Error::MultipleUnlimitedDimensions, State::ExpectDimList, Some(2))
    );
}

#[test]
fn second_record_dimension_wins_over_later_truncation() {
    let mut bytes = prologue(1, 0);
    bytes.extend(be32(10));
    bytes.extend(be32(3));
    bytes.extend(dim_entry("a", 0));
    bytes.extend(dim_entry("b", 0));
    bytes.extend(be32(9));
    assert_eq!(
        open(&bytes).unwrap_err(),
        failure(Error::MultipleUnlimitedDimensions, State::ExpectDimList, Some(1))
    );
}

#[test]
fn record_dimension_after_first_place_is_refused() {
    let mut bytes = prologue(1, 0);
    bytes.extend(list(10, vec![dim_entry("time", 0), dim_entry("x", 2)]));
    bytes.extend(absent());
    bytes.extend(list(
        11,
        vec![
            var_entry("good", &[0, 1], absent(), 5, 8, be32(0)),
            var_entry("bad", &[1, 0], absent(), 5, 8, be32(0)),
        ],
    ));
    assert_eq!(
        open(&bytes).unwrap_err(),
        failure(Error::InvalidRecordDimensionPlacement, State::ExpectVarList, Some(1))
    );
    let mut twice = prologue(1, 0);
    twice.extend(list(10, vec![dim_entry("time", 0)]));
    twice.extend(absent());
    twice.extend(list(11, vec![var_entry("v", &[0, 0], absent(), 5, 8, be32(0))]));
    assert_eq!(
        open(&twice).unwrap_err(),
        failure(Error::InvalidRecordDimensionPlacement, State::ExpectVarList, Some(0))
    );
}

#[test]
fn unknown_dimension_id_is_refused() {
    let mut bytes = prologue(1, 0);
    bytes.extend(list(10, vec![dim_entry("x", 2)]));
    bytes.extend(absent());
    bytes.extend(list(11, vec![var_entry("v", &[1], absent(), 5, 8, be32(0))]));
    assert_eq!(
        open(&bytes).unwrap_err(),
        failure(Error::UnknownDimensionId, State::ExpectVarList, Some(0))
    );
}

#[test]
fn unknown_section_tag_is_malformed() {
    let mut bytes = prologue(1, 0);
    bytes.extend(be32(11));
    bytes.extend(be32(0));
    assert_eq!(
        open(&bytes).unwrap_err(),
        failure(Error::MalformedSectionHeader, State::ExpectDimList, None)
    );
    let mut attrs = prologue(1, 0);
    attrs.extend(absent());
    attrs.extend(be32(10));
    assert_eq!(
        open(&attrs).unwrap_err(),
        failure(Error::MalformedSectionHeader, State::ExpectGlobalAttrList, None)
    );
    let mut vars = prologue(1, 0);
    vars.extend(absent());
    vars.extend(absent());
    vars.extend(be32(12));
    vars.extend(be32(0));
    assert_eq!(
        open(&vars).unwrap_err(),
        failure(Error::MalformedSectionHeader, State::ExpectVarList, None)
    );
}

#[test]
fn zero_count_is_an_empty_list_under_either_tag() {
    let mut bytes = prologue(1, 0);
    bytes.extend(list(10, vec![]));
    bytes.extend(list(12, vec![]));
    bytes.extend(list(11, vec![]));
    let ds = open(&bytes).unwrap();
    assert!(ds.dimensions().is_empty());
    assert!(ds.attributes().is_empty());
    assert!(ds.variables().is_empty());
}

#[test]
fn unknown_type_code_is_refused() {
    for code in [0u32, 7, 257, 0x0100_0001] {
        let mut bytes = prologue(1, 0);
        bytes.extend(absent());
        bytes.extend(list(12, vec![attr_entry("a", code, 0, &[])]));
        bytes.extend(absent());
        assert_eq!(
            open(&bytes).unwrap_err(),
            failure(Error::UnknownTypeCode, State::ExpectGlobalAttrList, Some(0))
        );
    }
    let mut bytes = prologue(1, 0);
    bytes.extend(absent());
    bytes.extend(absent());
    bytes.extend(list(11, vec![var_entry("v", &[], absent(), 9, 0, be32(0))]));
    assert_eq!(open(&bytes).unwrap_err(), failure(Error::UnknownTypeCode, State::ExpectVarList, Some(0)));
}

#[test]
fn name_that_is_not_utf8_is_refused() {
    let mut bytes = prologue(1, 0);
    bytes.extend(be32(10));
    bytes.extend(be32(1));
    bytes.extend(be32(2));
    bytes.extend(vec![0xff, 0xfe, 0, 0]);
    bytes.extend(be32(4));
    assert_eq!(open(&bytes).unwrap_err(), failure(Error::InvalidUtf8, State::ExpectDimList, Some(0)));
}

#[test]
fn names_may_hold_any_utf8_text() {
    let mut bytes = prologue(1, 0);
    bytes.extend(list(10, vec![dim_entry("höhe", 4), dim_entry("緯度", 2)]));
    bytes.extend(absent());
    bytes.extend(absent());
    let ds = open(&bytes).unwrap();
    assert_eq!(ds.dimensions()[0].name, "höhe");
    assert_eq!(ds.dimensions()[1].name, "緯度");
}

#[test]
fn padding_bytes_are_not_looked_at() {
    let mut bytes = prologue(1, 0);
    bytes.extend(be32(10));
    bytes.extend(be32(1));
    bytes.extend(be32(1));
    bytes.extend(vec![b'x', 0xaa, 0xbb, 0xcc]);
    bytes.extend(be32(7));
    bytes.extend(absent());
    bytes.extend(absent());
    let ds = open(&bytes).unwrap();
    assert_eq!(ds.dimensions()[0].name, "x");
    assert_eq!(ds.dimensions()[0].length, 7);
}

#[test]
fn attributes_keep_type_count_and_bytes() {
    let mut bytes = prologue(1, 0);
    bytes.extend(absent());
    bytes.extend(list(
        12,
        vec![
            attr_entry("title", 2, 5, b"hello"),
            attr_entry("levels", 3, 3, &[0, 1, 0, 2, 0, 3]),
            attr_entry("scale", 6, 1, &[0x3f, 0xf0, 0, 0, 0, 0, 0, 0]),
        ],
    ));
    bytes.extend(absent());
    let ds = open(&bytes).unwrap();
    let attrs = ds.attributes();
    assert_eq!(attrs.len(), 3);
    assert_eq!(attrs[0].name, "title");
    assert_eq!(attrs[0].value.dtype, Dtype::Char);
    assert_eq!(attrs[0].value.count, 5);
    assert_eq!(attrs[0].value.raw, b"hello".to_vec());
    assert_eq!(attrs[0].value.as_text(), Some(String::from("hello")));
    assert_eq!(attrs[1].value.dtype, Dtype::Short);
    assert_eq!(attrs[1].value.count, 3);
    assert_eq!(attrs[1].value.raw, vec![0, 1, 0, 2, 0, 3]);
    assert_eq!(attrs[1].value.as_text(), None);
    assert_eq!(attrs[2].value.dtype, Dtype::Double);
    assert_eq!(attrs[2].value.raw.len(), 8);
}

#[test]
fn attribute_values_cut_short_are_truncated() {
    let mut bytes = prologue(1, 0);
    bytes.extend(absent());
    bytes.extend(be32(12));
    bytes.extend(be32(1));
    bytes.extend(name_field("a"));
    bytes.extend(be32(4));
    bytes.extend(be32(0x4000_0000));
    bytes.extend(vec![1, 2, 3, 4]);
    assert_eq!(
        open(&bytes).unwrap_err(),
        failure(Error::TruncatedInput, State::ExpectGlobalAttrList, Some(0))
    );
    let mut unpadded = prologue(1, 0);
    unpadded.extend(absent());
    unpadded.extend(be32(12));
    unpadded.extend(be32(1));
    unpadded.extend(name_field("a"));
    unpadded.extend(be32(1));
    unpadded.extend(be32(1));
    unpadded.extend(vec![9]);
    assert_eq!(
        open(&unpadded).unwrap_err(),
        failure(Error::TruncatedInput, State::ExpectGlobalAttrList, Some(0))
    );
}

#[test]
fn huge_wide_attribute_count_is_truncated() {
    let mut bytes = b"CDF\x05".to_vec();
    bytes.extend(be64(0));
    bytes.extend(be32(0));
    bytes.extend(be64(0));
    bytes.extend(be32(12));
    bytes.extend(be64(1));
    bytes.extend(name_field("a"));
    bytes.extend(be32(6));
    bytes.extend(be64(u64::MAX));
    bytes.extend(vec![0; 16]);
    assert_eq!(
        open(&bytes).unwrap_err(),
        failure(Error::TruncatedInput, State::ExpectGlobalAttrList, Some(0))
    );
}

#[test]
fn huge_entry_count_is_truncated() {
    let mut bytes = prologue(1, 0);
    bytes.extend(be32(10));
    bytes.extend(be32(u32::MAX));
    bytes.extend(dim_entry("x", 1));
    assert_eq!(open(&bytes).unwrap_err(), failure(Error::TruncatedInput, State::ExpectDimList, Some(1)));
}

#[test]
fn offsets_are_wide_from_version_two() {
    let mut bytes = prologue(2, 0);
    bytes.extend(absent());
    bytes.extend(absent());
    bytes.extend(list(11, vec![var_entry("v", &[], absent(), 1, 1, be64(0x1_0000_0010))]));
    let ds = open(&bytes).unwrap();
    assert_eq!(ds.variables()[0].begin, 0x1_0000_0010);
    let mut narrow = prologue(2, 0);
    narrow.extend(absent());
    narrow.extend(absent());
    narrow.extend(list(11, vec![var_entry("v", &[], absent(), 1, 1, be32(16))]));
    assert_eq!(
        open(&narrow).unwrap_err(),
        failure(Error::TruncatedInput, State::ExpectVarList, Some(0))
    );
}

#[test]
fn wide_counts_in_version_five() {
    let mut bytes = b"CDF\x05".to_vec();
    bytes.extend(be64(2));
    bytes.extend(be32(10));
    bytes.extend(be64(2));
    bytes.extend(dim_entry("time", 0));
    bytes.extend(dim_entry("x", 3));
    bytes.extend(be32(12));
    bytes.extend(be64(1));
    bytes.extend(name_field("units"));
    bytes.extend(be32(2));
    bytes.extend(be64(1));
    bytes.extend(padded(b"m"));
    bytes.extend(be32(11));
    bytes.extend(be64(1));
    let mut var_attrs = be32(12);
    var_attrs.extend(be64(1));
    var_attrs.extend(name_field("k"));
    var_attrs.extend(be32(4));
    var_attrs.extend(be64(2));
    var_attrs.extend(vec![0, 0, 0, 1, 0, 0, 0, 2]);
    bytes.extend(var_entry("v", &[0, 1], var_attrs, 6, 24, be64(4096)));
    let ds = open(&bytes).unwrap();
    assert_eq!(ds.numrecs(), Some(2));
    assert_eq!(ds.dimensions().len(), 2);
    assert_eq!(ds.attributes()[0].value.as_text(), Some(String::from("m")));
    let var = &ds.variables()[0];
    assert_eq!(var.dimensions, vec![0, 1]);
    assert_eq!(var.attributes.len(), 1);
    assert_eq!(var.attributes[0].value.count, 2);
    assert_eq!(var.size, 24);
    assert_eq!(var.begin, 4096);
    let layout = ds.layout(0).unwrap();
    assert!(layout.is_record_variable);
    assert_eq!(layout.extents, vec![3]);
    assert_eq!(layout.element_count(), Some(3));
    assert_eq!(layout.record_stride(), Some(24));
    assert_eq!(layout.shape(), vec![2, 3]);
    assert_eq!(layout.byte_range(1, &[2]), Ok((4096 + 24 + 16, 4096 + 24 + 24)));
    assert_eq!(layout.byte_range(1, &[3]), Err(Error::IndexOutOfBounds));
    assert_eq!(layout.byte_range(2, &[0]), Err(Error::IndexOutOfBounds));
}

#[test]
fn failure_in_a_variables_attributes_names_the_variable() {
    let mut bytes = prologue(1, 0);
    bytes.extend(absent());
    bytes.extend(absent());
    let bad_attrs = list(12, vec![attr_entry("ok", 1, 0, &[]), attr_entry("bad", 8, 0, &[])]);
    bytes.extend(list(
        11,
        vec![
            var_entry("first", &[], absent(), 1, 0, be32(0)),
            var_entry("second", &[], bad_attrs, 1, 0, be32(0)),
        ],
    ));
    assert_eq!(open(&bytes).unwrap_err(), failure(Error::UnknownTypeCode, State::ExpectVarList, Some(1)));
}

#[test]
fn list_decoders_stop_after_their_list() {
    let mut bytes = list(10, vec![dim_entry("time", 0), dim_entry("lat", 3)]);
    let dims_len = bytes.len();
    bytes.extend(list(12, vec![attr_entry("t", 2, 2, b"ab")]));
    let attrs_end = bytes.len();
    bytes.extend(list(11, vec![var_entry("v", &[0, 1], absent(), 3, 6, be32(1))]));
    let vars_end = bytes.len();
    bytes.extend(vec![1, 2, 3]);
    let mut fp = ByteReader::new(&bytes);
    let dims = read_dims(&mut fp, FormatVersion::V1_32BIT).unwrap();
    assert_eq!(fp.position(), dims_len);
    assert_eq!(dims.len(), 2);
    let attrs = Attribute::from_file(&mut fp, FormatVersion::V1_32BIT).unwrap();
    assert_eq!(fp.position(), attrs_end);
    assert_eq!(attrs.len(), 1);
    let vars = read_vars(&mut fp, &dims, FormatVersion::V1_32BIT).unwrap();
    assert_eq!(fp.position(), vars_end);
    assert_eq!(vars[0].name, "v");
    assert_eq!(fp.remaining(), 3);
    let mut again = ByteReader::new(&bytes[dims_len..]);
    let same = read_attrs(&mut again, FormatVersion::V1_32BIT).unwrap();
    assert_eq!(same[0].name, attrs[0].name);
    assert_eq!(same[0].value.raw, attrs[0].value.raw);
}

#[test]
fn list_errors_carry_the_entry() {
    let bytes = list(12, vec![attr_entry("a", 1, 1, &[1]), attr_entry("b", 0, 0, &[])]);
    let mut fp = ByteReader::new(&bytes);
    assert_eq!(
        read_attrs(&mut fp, FormatVersion::V1_32BIT).unwrap_err(),
        ListError { kind: Error::UnknownTypeCode, entry: Some(1) }
    );
    let mut fp = ByteReader::new(&[0, 0, 0, 5, 0, 0, 0, 0]);
    assert_eq!(
        read_dims(&mut fp, FormatVersion::V1_32BIT).unwrap_err(),
        ListError { kind: Error::MalformedSectionHeader, entry: None }
    );
    let dims: Vec<Dimension> = vec![Dimension::new(String::from("x"), 1)];
    let bytes = list(11, vec![var_entry("v", &[0, 4], absent(), 1, 0, be32(0))]);
    let mut fp = ByteReader::new(&bytes);
    assert_eq!(
        read_vars(&mut fp, &dims, FormatVersion::V1_32BIT).unwrap_err(),
        ListError { kind: Error::UnknownDimensionId, entry: Some(0) }
    );
}

#[test]
fn name_field_is_length_text_and_padding() {
    let mut bytes = name_field("abcde");
    assert_eq!(bytes.len(), 12);
    bytes.push(0x55);
    let mut fp = ByteReader::new(&bytes);
    assert_eq!(read_name(&mut fp), Ok(String::from("abcde")));
    assert_eq!(fp.position(), 12);
    let mut fp = ByteReader::new(&bytes[..11]);
    assert_eq!(read_name(&mut fp), Err(Error::TruncatedInput));
    let empty = name_field("");
    let mut fp = ByteReader::new(&empty);
    assert_eq!(read_name(&mut fp), Ok(String::new()));
    assert_eq!(fp.position(), 4);
}
