use swiss_cheese::input::{input_kind, InputKind};

#[test]
fn input_kind_accepts_ndarray() {
    assert_eq!(input_kind("ndarray"), Ok(InputKind::Numpy));
}

#[test]
fn input_kind_accepts_dataframe() {
    assert_eq!(input_kind("DataFrame"), Ok(InputKind::DataFrame));
}

#[test]
fn input_kind_refuses_other_types() {
    assert_eq!(
        input_kind("list"),
        Err("Unsupported type: 'list'. Supported types are: numpy.ndarray, pandas.DataFrame".to_string())
    );
    assert!(input_kind("ndarra").is_err());
    assert!(input_kind("").is_err());
}
