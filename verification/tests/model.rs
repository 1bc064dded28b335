use cdf_header::attributes::{Attribute, AttributeValue};
use cdf_header::constants::{element_size, typemap, TAG_ABSENT, TAG_ATTRIBUTE, TAG_DIMENSION, TAG_VARIABLE};
use cdf_header::dataset::Dataset;
use cdf_header::dimension::Dimension;
use cdf_header::dtype::Dtype;
use cdf_header::error::Error;
use cdf_header::lookup::find_last;
use cdf_header::prelude::Layout;
use cdf_header::text::text_from_bytes;
use cdf_header::variable::Variable;
use cdf_header::version::FormatVersion;

#[test]
fn typemap_holds_the_six_kinds() {
    let table = typemap();
    assert_eq!(table.len(), 6);
    assert_eq!(table[&1], (Dtype::Byte, 1));
    assert_eq!(table[&2], (Dtype::Char, 1));
    assert_eq!(table[&3], (Dtype::Short, 2));
    assert_eq!(table[&4], (Dtype::Int, 4));
    assert_eq!(table[&5], (Dtype::Float, 4));
    assert_eq!(table[&6], (Dtype::Double, 8));
    assert!(!table.contains_key(&0));
    assert!(!table.contains_key(&7));
}

#[test]
fn element_size_agrees_with_the_table() {
    let table = typemap();
    for code in 0..=255u8 {
        match element_size(code) {
            Ok(found) => assert_eq!(table[&code], found),
            Err(e) => {
                assert_eq!(e, Error::UnknownTypeCode);
                assert!(!table.contains_key(&code));
            }
        }
    }
    assert_eq!(element_size(5), Ok((Dtype::Float, 4)));
    assert_eq!(element_size(0), Err(Error::UnknownTypeCode));
    assert_eq!(element_size(7), Err(Error::UnknownTypeCode));
}

#[test]
fn kinds_know_their_code_and_width() {
    let kinds = [Dtype::Byte, Dtype::Char, Dtype::Short, Dtype::Int, Dtype::Float, Dtype::Double];
    let widths = [1u8, 1, 2, 4, 4, 8];
    for (i, kind) in kinds.iter().enumerate() {
        assert_eq!(kind.code(), i as u8 + 1);
        assert_eq!(kind.width(), widths[i]);
        assert_eq!(element_size(kind.code()), Ok((*kind, widths[i])));
    }
}

#[test]
fn section_tags_have_their_numbers() {
    assert_eq!(TAG_ABSENT, 0);
    assert_eq!(TAG_DIMENSION, 10);
    assert_eq!(TAG_VARIABLE, 11);
    assert_eq!(TAG_ATTRIBUTE, 12);
}

#[test]
fn versions_fix_the_field_widths() {
    assert_eq!(FormatVersion::from_byte(1), Ok(FormatVersion::V1_32BIT));
    assert_eq!(FormatVersion::from_byte(2), Ok(FormatVersion::V2_64BIT));
    assert_eq!(FormatVersion::from_byte(5), Ok(FormatVersion::V5_64BIT_COUNTS));
    for byte in [0u8, 3, 4, 6, 9, 255] {
        assert_eq!(FormatVersion::from_byte(byte), Err(Error::UnsupportedVersion));
    }
    assert_eq!(FormatVersion::V1_32BIT.offset_width(), 32);
    assert_eq!(FormatVersion::V2_64BIT.offset_width(), 64);
    assert_eq!(FormatVersion::V5_64BIT_COUNTS.offset_width(), 64);
    assert!(!FormatVersion::V1_32BIT.wide_counts());
    assert!(!FormatVersion::V2_64BIT.wide_counts());
    assert!(FormatVersion::V5_64BIT_COUNTS.wide_counts());
    for version in [FormatVersion::V1_32BIT, FormatVersion::V2_64BIT, FormatVersion::V5_64BIT_COUNTS] {
        assert_eq!(FormatVersion::from_byte(version.byte()), Ok(version));
    }
}

#[test]
fn dimension_of_length_zero_is_the_record_dimension() {
    let time = Dimension::new(String::from("time"), 0);
    assert_eq!(time.name, "time");
    assert_eq!(time.length, 0);
    assert!(time.is_unlimited);
    let lat = Dimension::new(String::from("lat"), 180);
    assert_eq!(lat.length, 180);
    assert!(!lat.is_unlimited);
    let copy = lat.clone();
    assert_eq!(copy.name, "lat");
    assert_eq!(copy.length, 180);
    assert!(!copy.is_unlimited);
}

#[test]
fn variable_builders_set_one_field_each() {
    let bare = Variable::new(String::from("v"));
    assert_eq!(bare.name, "v");
    assert!(bare.dimensions.is_empty());
    assert!(bare.attributes.is_empty());
    assert_eq!(bare.dtype, Dtype::Byte);
    assert_eq!(bare.size, 0);
    assert_eq!(bare.begin, 0);
    let full = Variable::new(String::from("v"))
        .with_dimensions(vec![2, 0])
        .with_size(48)
        .with_dtype(Dtype::Double)
        .with_begin(1024)
        .with_attributes(vec![Attribute {
            name: String::from("units"),
            value: AttributeValue { dtype: Dtype::Char, raw: b"K".to_vec(), count: 1 },
        }]);
    assert_eq!(full.name, "v");
    assert_eq!(full.dimensions, vec![2, 0]);
    assert_eq!(full.size, 48);
    assert_eq!(full.dtype, Dtype::Double);
    assert_eq!(full.begin, 1024);
    assert_eq!(full.attributes.len(), 1);
    assert_eq!(full.attributes[0].name, "units");
    let coded = Variable::new(String::from("w")).with_size(3).with_typecode(3).unwrap();
    assert_eq!(coded.dtype, Dtype::Short);
    assert_eq!(coded.size, 3);
    assert_eq!(coded.name, "w");
    assert_eq!(Variable::new(String::from("w")).with_typecode(0).unwrap_err(), Error::UnknownTypeCode);
    assert_eq!(Variable::new(String::from("w")).with_typecode(7).unwrap_err(), Error::UnknownTypeCode);
}

#[test]
fn new_dataset_is_empty() {
    let ds = Dataset::new();
    assert!(ds.source().is_none());
    assert_eq!(ds.version(), FormatVersion::V1_32BIT);
    assert_eq!(ds.numrecs(), Some(0));
    assert_eq!(ds.record_count(), Some(0));
    assert_eq!(ds.record_dimension(), None);
    assert!(ds.dimensions().is_empty());
    assert!(ds.attributes().is_empty());
    assert!(ds.variables().is_empty());
    assert!(ds.layout(0).is_none());
    assert_eq!(ds.encode(), Some(vec![b'C', b'D', b'F', 1, 0, 0, 0, 0, 0, 0, 0, 0, 0, 0, 0, 0, 0, 0, 0, 0, 0, 0, 0, 0, 0, 0, 0, 0, 0, 0, 0, 0]));
}

#[test]
fn a_later_entry_hides_an_earlier_one_of_the_same_name() {
    let mut ds = Dataset::new();
    ds.add_dimension(String::from("x"), 1).unwrap();
    ds.add_dimension(String::from("y"), 2).unwrap();
    ds.add_dimension(String::from("x"), 3).unwrap();
    assert_eq!(ds.dimension_index(&String::from("x")), Some(2));
    assert_eq!(ds.dimension_index(&String::from("y")), Some(1));
    assert_eq!(ds.dimension_index(&String::from("z")), None);
    assert_eq!(ds.dimension_index(&String::from("")), None);
    for name in ["a", "b", "a"] {
        ds.add_attribute(Attribute {
            name: String::from(name),
            value: AttributeValue { dtype: Dtype::Byte, raw: vec![], count: 0 },
        });
        ds.add_variable(Variable::new(String::from(name))).unwrap();
    }
    assert_eq!(ds.attribute_index(&String::from("a")), Some(2));
    assert_eq!(ds.attribute_index(&String::from("b")), Some(1));
    assert_eq!(ds.attribute_index(&String::from("c")), None);
    assert_eq!(ds.variable_index(&String::from("a")), Some(2));
    assert_eq!(ds.variable_index(&String::from("b")), Some(1));
    assert_eq!(ds.variable_index(&String::from("x")), None);
    let attrs = vec![
        Attribute { name: String::from("k"), value: AttributeValue { dtype: Dtype::Byte, raw: vec![1], count: 1 } },
        Attribute { name: String::from("k"), value: AttributeValue { dtype: Dtype::Byte, raw: vec![2], count: 1 } },
    ];
    assert_eq!(find_last(&attrs, &String::from("k")), Some(1));
    assert_eq!(find_last(&attrs, &String::from("K")), None);
    assert_eq!(find_last(&Vec::<Dimension>::new(), &String::from("k")), None);
}

#[test]
fn text_is_read_from_char_payloads_only() {
    let text = AttributeValue { dtype: Dtype::Char, raw: "grüß".as_bytes().to_vec(), count: 6 };
    assert_eq!(text.as_text(), Some(String::from("grüß")));
    let broken = AttributeValue { dtype: Dtype::Char, raw: vec![b'a', 0xc3], count: 2 };
    assert_eq!(broken.as_text(), None);
    let bytes = AttributeValue { dtype: Dtype::Byte, raw: b"abc".to_vec(), count: 3 };
    assert_eq!(bytes.as_text(), None);
    let empty = AttributeValue { dtype: Dtype::Char, raw: vec![], count: 0 };
    assert_eq!(empty.as_text(), Some(String::new()));
}

#[test]
fn bytes_become_text_only_if_they_are_utf8() {
    assert_eq!(text_from_bytes(b"plain".to_vec()), Ok(String::from("plain")));
    assert_eq!(text_from_bytes(vec![0xe2, 0x82, 0xac]), Ok(String::from("€")));
    assert_eq!(text_from_bytes(vec![]), Ok(String::new()));
    assert_eq!(text_from_bytes(vec![0xe2, 0x82]), Err(Error::InvalidUtf8));
    assert_eq!(text_from_bytes(vec![0xff]), Err(Error::InvalidUtf8));
    assert_eq!(text_from_bytes(vec![0xc0, 0x80]), Err(Error::InvalidUtf8));
    assert_eq!(text_from_bytes(vec![0xed, 0xa0, 0x80]), Err(Error::InvalidUtf8));
    assert_eq!(text_from_bytes(vec![0xf4, 0x90, 0x80, 0x80]), Err(Error::InvalidUtf8));
    assert_eq!(text_from_bytes(vec![0xf8, 0x88, 0x80, 0x80, 0x80]), Err(Error::InvalidUtf8));
    assert_eq!(text_from_bytes(vec![0x80]), Err(Error::InvalidUtf8));
    assert_eq!(text_from_bytes(vec![0xf0, 0x9f, 0x98, 0x80]), Ok(String::from("\u{1f600}")));
    assert_eq!(text_from_bytes(vec![0xf4, 0x8f, 0xbf, 0xbf]), Ok(String::from("\u{10ffff}")));
}

#[test]
fn prelude_names_the_main_types() {
    let layout = Layout { is_record_variable: false, extents: vec![], dtype: Dtype::Byte, begin: 3, record_count: None };
    assert_eq!(layout.byte_range(0, &[]), Ok((3, 4)));
}
