use oak::loader::{parse_attribute_line, parse_attributes, parse_attributes_for, parse_vector_file, read_u32_le, LoadError};

fn record(values: &[f32]) -> Vec<u8> {
    let mut out = (values.len() as u32).to_le_bytes().to_vec();
    for v in values {
        out.extend_from_slice(&v.to_le_bytes());
    }
    out
}

#[test]
fn read_u32_little_endian() {
    assert_eq!(read_u32_le(&[0x78, 0x56, 0x34, 0x12, 0xff], 0), 0x1234_5678);
    assert_eq!(read_u32_le(&[0, 0xff, 0xff, 0xff, 0xff], 1), u32::MAX);
}

#[test]
fn vector_file_records() {
    let mut bytes = record(&[1.0, 2.5, -3.0]);
    bytes.extend(record(&[0.0, 4.0, 8.0]));
    let recs = parse_vector_file(&bytes).unwrap();
    assert_eq!(recs.dimensionality, 3);
    assert_eq!(recs.count, 2);
    let values: Vec<f32> = recs.words.iter().map(|w| f32::from_bits(*w)).collect();
    assert_eq!(values, vec![1.0, 2.5, -3.0, 0.0, 4.0, 8.0]);
}

#[test]
fn vector_file_length_not_whole_records() {
    let mut bytes = record(&[1.0, 2.0]);
    bytes.push(0);
    assert_eq!(parse_vector_file(&bytes).err(), Some(LoadError::MalformedVectorFile));
}

#[test]
fn vector_file_header_mismatch() {
    let mut bytes = record(&[1.0, 2.0]);
    let mut second = record(&[3.0, 4.0]);
    second[0] = 3;
    bytes.extend(second);
    assert_eq!(parse_vector_file(&bytes).err(), Some(LoadError::MalformedVectorFile));
}

#[test]
fn vector_file_empty_or_short() {
    assert_eq!(parse_vector_file(&[]).err(), Some(LoadError::MalformedVectorFile));
    assert_eq!(parse_vector_file(&[1, 0]).err(), Some(LoadError::MalformedVectorFile));
    assert_eq!(parse_vector_file(&[9, 0, 0, 0]).err(), Some(LoadError::MalformedVectorFile));
}

#[test]
fn vector_file_zero_dimension() {
    let recs = parse_vector_file(&[0, 0, 0, 0, 0, 0, 0, 0]).unwrap();
    assert_eq!((recs.dimensionality, recs.count), (0, 2));
    assert!(recs.words.is_empty());
    assert_eq!(parse_vector_file(&[0, 0, 0, 0, 1, 0, 0, 0]).err(), Some(LoadError::MalformedVectorFile));
}

#[test]
fn attribute_lines() {
    assert_eq!(parse_attribute_line(b"42"), Some(42));
    assert_eq!(parse_attribute_line(b"-7"), Some(-7));
    assert_eq!(parse_attribute_line(b"+7"), Some(7));
    assert_eq!(parse_attribute_line(b"12\r"), Some(12));
    assert_eq!(parse_attribute_line(b"2147483647"), Some(i32::MAX));
    assert_eq!(parse_attribute_line(b"-2147483648"), Some(i32::MIN));
    assert_eq!(parse_attribute_line(b"2147483648"), None);
    assert_eq!(parse_attribute_line(b"99999999999999999999"), None);
    assert_eq!(parse_attribute_line(b""), None);
    assert_eq!(parse_attribute_line(b"-"), None);
    assert_eq!(parse_attribute_line(b"1a"), None);
    assert_eq!(parse_attribute_line(b" 1"), None);
}

#[test]
fn attribute_file_values() {
    assert_eq!(parse_attributes(b"1\n-2\n+3\n"), Ok(vec![1, -2, 3]));
    assert_eq!(parse_attributes(b"4\r\n5"), Ok(vec![4, 5]));
    assert_eq!(parse_attributes(b""), Ok(vec![]));
}

#[test]
fn attribute_file_reports_line() {
    assert_eq!(parse_attributes(b"1\nx\n3\n"), Err(LoadError::MalformedAttributeFile(2)));
    assert_eq!(parse_attributes(b"1\n\n2"), Err(LoadError::MalformedAttributeFile(2)));
    assert_eq!(parse_attributes(b"1\n2\n3.5"), Err(LoadError::MalformedAttributeFile(3)));
}

#[test]
fn attribute_count_must_match_vectors() {
    assert_eq!(parse_attributes_for(b"1\n2\n3\n", 3), Ok(vec![1, 2, 3]));
    assert_eq!(parse_attributes_for(b"1\n2\n", 3), Err(LoadError::MalformedAttributeFile(3)));
    assert_eq!(parse_attributes_for(b"1\n2\n3\n4", 3), Err(LoadError::MalformedAttributeFile(4)));
    assert_eq!(parse_attributes_for(b"1\nx\n", 3), Err(LoadError::MalformedAttributeFile(2)));
}
