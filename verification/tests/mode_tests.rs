use swiss_cheese::common::build_rng;
use swiss_cheese::errors::Errors;
use swiss_cheese::mode::{Error, Mode, ModeDefaults, ParamWarning};

fn defaults() -> ModeDefaults<f64> {
    ModeDefaults { mean: 0.5, variance: 0.1, block_size: (0.2, 0.2), n_blobs: 3 }
}

#[test]
fn mar_create() {
    let d = defaults();
    let mode = Mode::new("GM", None, None, None, None, &d).ok().unwrap();
    assert!(mode.check_mar().is_ok());
    let _ = build_rng(None);
    let mode = Mode::new("GM", None, None, None, None, &d).ok().unwrap();
    assert!(mode.check_mar().is_ok());
    let _ = build_rng(Some(5));
}

#[test]
fn mnar_create() {
    let d = defaults();
    let mode = Mode::new("gm", None, None, None, None, &d).ok().unwrap();
    assert!(matches!(mode, Mode::GM(m, v) if m == 0.5 && v == 0.1));
    let mode = Mode::new("gm", Some(0.5), Some(1.0), None, None, &d).ok().unwrap();
    assert!(matches!(mode, Mode::GM(m, v) if m == 0.5 && v == 1.0));
    let _ = build_rng(None);
}

#[test]
fn unknown_mode_message() {
    let d = defaults();
    match Mode::new("gauss", None, None, None, None, &d) {
        Err(Error::UnknownMode(msg)) => assert_eq!(
            msg,
            "Unknown mode parameter: gauss (Alloed: [\"GM\", \"MAX\", \"MIN\", \"BLOCK\", \"BLOB\"])"
        ),
        Ok(_) => panic!("accepted an unknown mode"),
    }
}

#[test]
fn warnings_in_order() {
    let d = defaults();
    let mode: Mode<f64> = Mode::new("max", None, None, None, None, &d).ok().unwrap();
    let w = mode.check_params(&Some(0.5), &None, &Some((0.1, 0.1)), &Some(2));
    assert_eq!(w, vec![ParamWarning::MeanVariance, ParamWarning::BlockSize, ParamWarning::NBlobs]);
}

#[test]
fn names_are_case_insensitive() {
    let d = defaults();
    assert!(matches!(Mode::new("Max", None, None, None, None, &d), Ok(Mode::MAX)));
    assert!(matches!(Mode::new("mIN", None, None, None, None, &d), Ok(Mode::MIN)));
    assert!(matches!(Mode::new("BLOB", None, None, None, Some(4), &d), Ok(Mode::BLOB(4))));
    assert!(matches!(Mode::new("blob", None, None, None, None, &d), Ok(Mode::BLOB(3))));
    // The Kelvin sign lower-cases to `k`.
    assert!(matches!(Mode::new("BLOC\u{212A}", None, None, None, None, &d), Ok(Mode::BLOCK(_))));
    assert!(matches!(
        Mode::new("block", None, None, Some((0.3, 0.5)), None, &d),
        Ok(Mode::BLOCK((w, h))) if w == 0.3 && h == 0.5
    ));
    assert!(matches!(Mode::new("blocks", None, None, None, None, &d), Err(_)));
    assert!(matches!(Mode::new("", None, None, None, None, &d), Err(_)));
}

#[test]
fn names_round_trip() {
    let d = defaults();
    for m in [Mode::GM(0.0, 0.0), Mode::MAX, Mode::MIN, Mode::BLOCK((0.0, 0.0)), Mode::BLOB(1)] {
        let again = Mode::new(m.as_str(), None, None, None, None, &d).ok().unwrap();
        assert_eq!(again.as_str(), m.as_str());
    }
    assert_eq!(Mode::<f64>::BLOCK((1.0, 1.0)).as_str(), "BLOCK");
}

#[test]
fn no_warning_for_matching_parameters() {
    let d = defaults();
    let gm: Mode<f64> = Mode::new("gm", Some(0.2), Some(0.3), None, None, &d).ok().unwrap();
    assert!(gm.check_params(&Some(0.2), &Some(0.3), &None, &None).is_empty());
    let block: Mode<f64> = Mode::new("block", None, None, Some((0.1, 0.1)), None, &d).ok().unwrap();
    assert_eq!(block.check_params(&None, &Some(1.0), &Some((0.1, 0.1)), &None), vec![ParamWarning::MeanVariance]);
    let blob: Mode<f64> = Mode::new("blob", None, None, None, Some(2), &d).ok().unwrap();
    assert_eq!(blob.check_params(&None, &None, &Some((0.1, 0.1)), &Some(2)), vec![ParamWarning::BlockSize]);
}

#[test]
fn warning_messages() {
    assert_eq!(
        ParamWarning::MeanVariance.message(),
        "Mean/variance passed without passing a mode that supports it!"
    );
    assert_eq!(ParamWarning::BlockSize.message(), "Block size passed without passing a mode that supports it!");
    assert_eq!(ParamWarning::NBlobs.message(), "Number of Blobs passed without passing a mode that supports it!");
}

#[test]
fn mar_refuses_pattern_modes() {
    let d = defaults();
    let block: Mode<f64> = Mode::new("block", None, None, None, None, &d).ok().unwrap();
    match block.check_mar() {
        Err(Errors::ValueError(msg)) => assert_eq!(msg, "Mode BLOCK not supported for MAR yet."),
        _ => panic!("block accepted for MAR"),
    }
    let blob: Mode<f64> = Mode::new("blob", None, None, None, None, &d).ok().unwrap();
    match blob.check_mar() {
        Err(Errors::ValueError(msg)) => assert_eq!(msg, "Mode BLOB not supported for MAR yet."),
        _ => panic!("blob accepted for MAR"),
    }
    let min: Mode<f64> = Mode::new("min", None, None, None, None, &d).ok().unwrap();
    assert!(min.check_mar().is_ok());
}

#[test]
fn error_messages() {
    assert_eq!(
        Errors::MaxWorkExeeded.message(),
        "After 500000 iterations the desired amount of missing_rate has not been reached stopping now!"
    );
    assert_eq!(Errors::ValueError("bad".to_string()).message(), "bad");
}
