use swiss_cheese::encode::{label_encode, reverse_map, EncodingInfo};

fn strings(v: &[&str]) -> Vec<String> {
    v.iter().map(|s| s.to_string()).collect()
}

#[test]
fn labels_are_sorted_and_coded_in_order() {
    let values = strings(&["b", "a", "nan", "b", "c", "<NA>"]);
    let (codes, map) = label_encode(&values);
    assert_eq!(map.labels, strings(&["<NA>", "a", "b", "c", "nan"]));
    assert_eq!(map.codes, vec![None, Some(0), Some(1), Some(2), None]);
    assert_eq!(codes, vec![Some(1), Some(0), None, Some(1), Some(2), None]);
}

#[test]
fn null_spellings_get_no_code() {
    let values = strings(&["NaN", "nan", "<NA>", "NA", "x"]);
    let (codes, map) = label_encode(&values);
    assert_eq!(map.labels, strings(&["<NA>", "NA", "NaN", "nan", "x"]));
    assert_eq!(codes, vec![None, None, None, Some(0), Some(1)]);
}

#[test]
fn sort_order_is_code_point_order() {
    let values = strings(&["é", "z", "Z", "", "ab", "a"]);
    let (_, map) = label_encode(&values);
    let mut expected = values.clone();
    expected.sort();
    expected.dedup();
    assert_eq!(map.labels, expected);
}

#[test]
fn decoding_inverts_encoding() {
    let values = strings(&["red", "green", "nan", "blue", "green"]);
    let (codes, map) = label_encode(&values);
    let rev = reverse_map(&map);
    assert_eq!(rev, strings(&["blue", "green", "red"]));
    let mut info = EncodingInfo::new();
    info.add_column(4, map);
    for (v, c) in values.iter().zip(codes.iter()) {
        match c {
            Some(k) => assert_eq!(info.decode(4, *k).as_ref(), Some(v)),
            None => assert_eq!(v, "nan"),
        }
    }
    assert_eq!(info.decode(4, 3), None);
    assert_eq!(info.decode(1, 0), None);
}

#[test]
fn empty_column() {
    let (codes, map) = label_encode(&[]);
    assert!(codes.is_empty());
    assert!(map.labels.is_empty());
    assert!(reverse_map(&map).is_empty());
}
