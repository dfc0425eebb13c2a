use regressor_rs::error::RegressorError;
use regressor_rs::label_encoder::LabelEncoder;

fn labels(items: &[&str]) -> Vec<String> {
    items.iter().map(|s| s.to_string()).collect()
}

fn codes_as_floats(codes: &[usize]) -> Vec<f64> {
    codes.iter().map(|&c| c as f64).collect()
}

#[test]
fn label_encoder_round_trips_and_orders_classes() {
    let mut enc = LabelEncoder::new();
    let codes = enc.fit_transform(&labels(&["b", "a", "c", "a"])).unwrap();
    // sorted classes: a=0, b=1, c=2
    assert_eq!(codes_as_floats(&codes), vec![1.0, 0.0, 2.0, 0.0]);
    assert_eq!(enc.classes(), Some(labels(&["a", "b", "c"]).as_slice()));
    let back = enc.inverse_transform(&codes).unwrap();
    assert_eq!(back, labels(&["b", "a", "c", "a"]));
}

#[test]
fn label_encoder_unknown_label_errors() {
    let mut enc = LabelEncoder::new();
    enc.fit(&labels(&["a", "b"])).unwrap();
    assert!(matches!(
        enc.transform(&labels(&["z"])).unwrap_err(),
        RegressorError::InvalidInput(_)
    ));
}

#[test]
fn label_encoder_before_fit_errors() {
    let enc = LabelEncoder::new();
    assert!(matches!(
        enc.transform(&labels(&["a"])).unwrap_err(),
        RegressorError::NotFitted
    ));
}

#[test]
fn label_encoder_out_of_range_code_errors() {
    let mut enc = LabelEncoder::new();
    enc.fit(&labels(&["a", "b"])).unwrap();
    assert!(matches!(
        enc.inverse_transform(&[5]).unwrap_err(),
        RegressorError::InvalidInput(_)
    ));
}

#[test]
fn label_encoder_rejects_empty_fit() {
    let mut enc = LabelEncoder::new();
    assert!(matches!(enc.fit(&[]).unwrap_err(), RegressorError::EmptyInput));
}

#[test]
fn label_encoder_error_texts_name_the_offender() {
    let mut enc = LabelEncoder::new();
    enc.fit(&labels(&["a", "b"])).unwrap();
    match enc.transform(&labels(&["a", "zz", "q"])).unwrap_err() {
        RegressorError::InvalidInput(msg) => assert_eq!(msg, "unknown label: zz"),
        other => panic!("unexpected error {:?}", other),
    }
    match enc.inverse_transform(&[1, 0, 12, 40]).unwrap_err() {
        RegressorError::InvalidInput(msg) => assert_eq!(msg, "code out of range: 12"),
        other => panic!("unexpected error {:?}", other),
    }
    match enc.inverse_transform(&[2]).unwrap_err() {
        RegressorError::InvalidInput(msg) => assert_eq!(msg, "code out of range: 2"),
        other => panic!("unexpected error {:?}", other),
    }
}

#[test]
fn label_encoder_inverse_before_fit_errors() {
    let enc = LabelEncoder::default();
    assert!(matches!(
        enc.inverse_transform(&[0]).unwrap_err(),
        RegressorError::NotFitted
    ));
    assert_eq!(enc.classes(), None);
}

#[test]
fn label_encoder_classes_follow_byte_order() {
    let mut enc = LabelEncoder::new();
    enc.fit(&labels(&["b", "B", "ab", "a", "", "é", "z", "ab", "a"])).unwrap();
    let mut expected = labels(&["b", "B", "ab", "a", "", "é", "z"]);
    expected.sort();
    assert_eq!(enc.classes(), Some(expected.as_slice()));
    assert_eq!(
        enc.classes(),
        Some(labels(&["", "B", "a", "ab", "b", "z", "é"]).as_slice())
    );
}

#[test]
fn label_encoder_fit_ignores_order_and_repetition() {
    let mut first = LabelEncoder::new();
    first.fit(&labels(&["dog", "cat", "dog", "emu"])).unwrap();
    let mut second = LabelEncoder::new();
    second.fit(&labels(&["emu", "cat", "emu", "dog", "cat"])).unwrap();
    assert_eq!(first.classes(), second.classes());
}

#[test]
fn label_encoder_codes_are_consecutive() {
    let mut enc = LabelEncoder::new();
    let codes = enc
        .fit_transform(&labels(&["x", "y", "x", "w", "y", "v"]))
        .unwrap();
    assert_eq!(codes, vec![2, 3, 2, 1, 3, 0]);
    let mut used = codes.clone();
    used.sort();
    used.dedup();
    assert_eq!(used, vec![0, 1, 2, 3]);
}

#[test]
fn label_encoder_refit_replaces_classes_and_empty_refit_keeps_them() {
    let mut enc = LabelEncoder::new();
    enc.fit(&labels(&["a", "b"])).unwrap();
    assert!(enc.fit(&[]).is_err());
    assert_eq!(enc.classes(), Some(labels(&["a", "b"]).as_slice()));
    enc.fit(&labels(&["q"])).unwrap();
    assert_eq!(enc.classes(), Some(labels(&["q"]).as_slice()));
    assert_eq!(enc.transform(&labels(&["q", "q"])).unwrap(), vec![0, 0]);
    assert!(enc.transform(&labels(&["a"])).is_err());
}

#[test]
fn label_encoder_empty_transform_and_inverse() {
    let mut enc = LabelEncoder::new();
    enc.fit(&labels(&["a"])).unwrap();
    assert_eq!(enc.transform(&[]).unwrap(), Vec::<usize>::new());
    assert_eq!(enc.inverse_transform(&[]).unwrap(), Vec::<String>::new());
}

#[test]
fn label_encoder_fit_transform_equals_fit_then_transform() {
    let input = labels(&["red", "green", "red", "blue"]);
    let mut one_step = LabelEncoder::new();
    let codes = one_step.fit_transform(&input).unwrap();
    let mut two_steps = LabelEncoder::new();
    two_steps.fit(&input).unwrap();
    assert_eq!(two_steps.transform(&input).unwrap(), codes);
    assert_eq!(one_step.classes(), two_steps.classes());
    assert!(matches!(one_step.fit_transform(&[]), Err(RegressorError::EmptyInput)));
    assert_eq!(one_step.classes(), two_steps.classes());
}

#[test]
fn label_encoder_restores_stored_classes() {
    let restored = LabelEncoder::from_classes(Some(labels(&["a", "b", "c"])));
    assert_eq!(restored.transform(&labels(&["c", "a"])).unwrap(), vec![2, 0]);
    assert_eq!(restored.inverse_transform(&[1]).unwrap(), labels(&["b"]));
    let unfitted = LabelEncoder::from_classes(None);
    assert!(matches!(
        unfitted.transform(&labels(&["a"])),
        Err(RegressorError::NotFitted)
    ));
}

#[test]
fn label_encoder_restored_with_repeated_class_codes_first_position() {
    let restored = LabelEncoder::from_classes(Some(labels(&["a", "b", "a"])));
    assert_eq!(restored.transform(&labels(&["a", "b"])).unwrap(), vec![0, 1]);
}
