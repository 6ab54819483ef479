use word2vec::format::parse_header;
use word2vec::{LoadError, WordVector};

fn file(count: &str, dim: usize, entries: &[(&[u8], Vec<f32>)]) -> Vec<u8> {
    let mut out = format!("{} {}\n", count, dim).into_bytes();
    for (word, vector) in entries {
        out.extend_from_slice(word);
        out.push(b' ');
        for x in vector {
            out.extend_from_slice(&x.to_le_bytes());
        }
        out.push(b'\n');
    }
    out
}

fn bits(v: &[f32]) -> Vec<u32> {
    v.iter().map(|x| x.to_bits()).collect()
}

#[test]
fn round_trip_reproduces_vocabulary_and_vectors() {
    let entries: Vec<(&[u8], Vec<f32>)> = vec![
        (b"alpha", vec![1.5, -2.0, 0.25]),
        (b"beta", vec![0.0, 3.0, -0.5]),
        ("gr\u{fc}n".as_bytes(), vec![7.0, 8.0, 9.0]),
    ];
    let data = file("3", 3, &entries);
    let m = WordVector::load_from_binary(&data).unwrap();
    assert_eq!(m.len(), 3);
    assert_eq!(m.dimension(), 3);
    assert_eq!(m.word(0).as_str(), "alpha");
    assert_eq!(m.word(1).as_str(), "beta");
    assert_eq!(m.word(2).as_str(), "gr\u{fc}n");
    for (i, (_, v)) in entries.iter().enumerate() {
        assert_eq!(m.vector(i), &bits(v));
    }
    assert!(m.clusters().is_none());
}

#[test]
fn index_is_left_inverse_of_vocabulary() {
    let data = file("4", 1, &[(b"a", vec![1.0]), (b"b", vec![2.0]), (b"a", vec![3.0]), (b"c", vec![4.0])]);
    let m = WordVector::load_from_binary(&data).unwrap();
    assert_eq!(m.get_index("a"), Some(0));
    assert_eq!(m.get_index("b"), Some(1));
    assert_eq!(m.get_index("c"), Some(3));
    assert_eq!(m.get_index("d"), None);
    for i in 0..m.len() {
        let j = m.get_index(m.word(i)).unwrap();
        assert!(j <= i);
        assert_eq!(m.word(j), m.word(i));
    }
    assert!(m.contains("c"));
    assert!(!m.contains("z"));
    assert_eq!(m.vector_of("a"), Some(&bits(&[1.0])));
    assert_eq!(m.vector_of("z"), None);
}

#[test]
fn truncated_vector_is_reported() {
    let mut data = b"2 300\nking ".to_vec();
    for i in 0..100 {
        data.extend_from_slice(&(i as f32).to_le_bytes());
    }
    assert_eq!(WordVector::load_from_binary(&data).err(), Some(LoadError::TruncatedDataError));
}

#[test]
fn missing_separator_before_another_entry_is_truncation() {
    let mut data = file("2", 1, &[(b"a", vec![1.0])]);
    data.pop();
    assert_eq!(WordVector::load_from_binary(&data).err(), Some(LoadError::TruncatedDataError));
}

#[test]
fn missing_separator_after_last_entry_is_tolerated() {
    let mut data = file("1", 2, &[(b"solo", vec![1.0, 2.0])]);
    data.pop();
    let m = WordVector::load_from_binary(&data).unwrap();
    assert_eq!(m.word(0).as_str(), "solo");
    assert_eq!(m.vector(0), &bits(&[1.0, 2.0]));
}

#[test]
fn malformed_headers_are_format_errors() {
    for data in [
        &b""[..],
        b"3 2",
        b"three 2\n",
        b"3 two\n",
        b"3\n",
        b"0 2\n",
        b"3 0\n",
        b" 3 2\n",
        b"3  2\n",
        b"99999999999999999999999 2\n",
    ] {
        assert_eq!(WordVector::load_from_binary(data).err(), Some(LoadError::FormatError));
    }
}

#[test]
fn header_fields_are_read() {
    assert_eq!(parse_header(b"12 300\nrest"), Some((12, 300, 7)));
    assert_eq!(parse_header(b"12 x\n"), None);
}

#[test]
fn word_without_space_is_format_error() {
    assert_eq!(WordVector::load_from_binary(b"1 1\nabc").err(), Some(LoadError::FormatError));
}

#[test]
fn invalid_utf8_word_is_format_error() {
    let data = file("1", 1, &[(&[0xff, 0xfe], vec![1.0])]);
    assert_eq!(WordVector::load_from_binary(&data).err(), Some(LoadError::FormatError));
}

#[test]
fn extra_bytes_after_last_entry_are_ignored() {
    let mut data = file("1", 1, &[(b"x", vec![0.5])]);
    data.extend_from_slice(b"trailing");
    let m = WordVector::load_from_binary(&data).unwrap();
    assert_eq!(m.len(), 1);
}
