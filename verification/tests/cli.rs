use tpt_dsp::cli::{is_number, parse_biquad_type, CurveSpec, EffectSpec, EffectSpecError, WindowArg};
use tpt_dsp::filters::BiquadType;
use tpt_dsp::windows::WindowType;

fn s(x: &str) -> String {
    x.to_string()
}

#[test]
fn effect_spec_parsing() {
    assert!(matches!(
        EffectSpec::parse("biquad:lowpass:1000").unwrap(),
        EffectSpec::Biquad { kind: BiquadType::LowPass, ref freq, q: None, gain: None } if freq == "1000"
    ));
    assert!(matches!(
        EffectSpec::parse("waveshaper:tanh:5:1").unwrap(),
        EffectSpec::Waveshaper { curve: CurveSpec::Tanh, .. }
    ));
    assert!(matches!(
        EffectSpec::parse("waveshaper:poly:1,2,3,4").unwrap(),
        EffectSpec::Waveshaper { curve: CurveSpec::Poly(_), .. }
    ));
    match EffectSpec::parse("eq:1000,6,1;2000,-3,1").unwrap() {
        EffectSpec::Eq { bands } => assert_eq!(
            bands,
            vec![vec![s("1000"), s("6"), s("1")], vec![s("2000"), s("-3"), s("1")]]
        ),
        other => panic!("expected eq, got {other:?}"),
    }
    assert!(EffectSpec::parse("bogus:1").is_err());
}

#[test]
fn effect_spec_fields_and_defaults() {
    assert_eq!(
        EffectSpec::parse("biquad:peaking:2000:1.5:-6").unwrap(),
        EffectSpec::Biquad { kind: BiquadType::Peaking, freq: s("2000"), q: Some(s("1.5")), gain: Some(s("-6")) }
    );
    assert_eq!(
        EffectSpec::parse("waveshaper:poly:0,1,0,-0.3:2").unwrap(),
        EffectSpec::Waveshaper {
            curve: CurveSpec::Poly(vec![s("0"), s("1"), s("0"), s("-0.3")]),
            drive: Some(s("2")),
            mix: None
        }
    );
    assert_eq!(
        EffectSpec::parse("delay:0.25").unwrap(),
        EffectSpec::Delay { seconds: s("0.25"), feedback: None, mix: None }
    );
    assert_eq!(
        EffectSpec::parse("reverb:1.2:0.4").unwrap(),
        EffectSpec::Reverb { decay: s("1.2"), wet: Some(s("0.4")) }
    );
    assert_eq!(
        EffectSpec::parse("eq:;100,1,1;;").unwrap(),
        EffectSpec::Eq { bands: vec![vec![s("100"), s("1"), s("1")]] }
    );
    assert_eq!(
        EffectSpec::parse("delay:").unwrap(),
        EffectSpec::Delay { seconds: s(""), feedback: None, mix: None }
    );
}

#[test]
fn effect_spec_errors() {
    assert_eq!(EffectSpec::parse("biquad"), Err(EffectSpecError::MissingKind));
    assert_eq!(EffectSpec::parse(""), Err(EffectSpecError::MissingKind));
    assert_eq!(EffectSpec::parse("biquad:lowpass"), Err(EffectSpecError::MissingField(1)));
    assert_eq!(EffectSpec::parse("biquad:sharp:100"), Err(EffectSpecError::UnknownBiquadType(s("sharp"))));
    assert_eq!(EffectSpec::parse("waveshaper:poly"), Err(EffectSpecError::MissingPolyCoefficients));
    assert_eq!(EffectSpec::parse("waveshaper:sine:2"), Err(EffectSpecError::UnknownCurve(s("sine"))));
    assert_eq!(EffectSpec::parse("eq:;;"), Err(EffectSpecError::NoEqBand));
    assert_eq!(EffectSpec::parse("bogus:1"), Err(EffectSpecError::UnknownEffect(s("bogus"))));
    assert_eq!(EffectSpec::parse("écho:1"), Err(EffectSpecError::UnknownEffect(s("écho"))));
    assert_eq!(EffectSpec::parse("biquad:wobble:1000"), Err(EffectSpecError::UnknownBiquadType(s("wobble"))));
    assert_eq!(EffectSpec::parse("waveshaper:poly:1,2,3"), Err(EffectSpecError::PolyCoefficientCount(3)));
    assert_eq!(EffectSpec::parse("waveshaper:poly:1,2,3,4,5:2"), Err(EffectSpecError::PolyCoefficientCount(5)));
    assert_eq!(EffectSpec::parse("eq:"), Err(EffectSpecError::NoEqBand));
    assert_eq!(EffectSpec::parse("eq:1000,6"), Err(EffectSpecError::EqBandFieldCount(vec![s("1000"), s("6")])));
    assert_eq!(
        EffectSpec::parse("eq:1000,6,1;2000,1,1,1"),
        Err(EffectSpecError::EqBandFieldCount(vec![s("2000"), s("1"), s("1"), s("1")]))
    );
    // Numeric fields are read as numbers by the caller; the structure is fine.
    assert_eq!(EffectSpec::parse("delay:abc"), Ok(EffectSpec::Delay { seconds: s("abc"), feedback: None, mix: None }));
}

#[test]
fn waveshaper_drive_and_mix_follow_the_curve() {
    assert_eq!(
        EffectSpec::parse("waveshaper:tanh:5:0.5"),
        Ok(EffectSpec::Waveshaper { curve: CurveSpec::Tanh, drive: Some(s("5")), mix: Some(s("0.5")) })
    );
    assert_eq!(
        EffectSpec::parse("waveshaper:hardclip:3"),
        Ok(EffectSpec::Waveshaper { curve: CurveSpec::HardClip, drive: Some(s("3")), mix: None })
    );
    assert_eq!(
        EffectSpec::parse("waveshaper:cubic"),
        Ok(EffectSpec::Waveshaper { curve: CurveSpec::Cubic, drive: None, mix: None })
    );
    assert_eq!(
        EffectSpec::parse("waveshaper:poly:1,2,3,4:5:0.5"),
        Ok(EffectSpec::Waveshaper {
            curve: CurveSpec::Poly(vec![s("1"), s("2"), s("3"), s("4")]),
            drive: Some(s("5")),
            mix: Some(s("0.5"))
        })
    );
}

#[test]
fn biquad_type_names() {
    assert_eq!(parse_biquad_type("lowpass"), Some(BiquadType::LowPass));
    assert_eq!(parse_biquad_type("highpass"), Some(BiquadType::HighPass));
    assert_eq!(parse_biquad_type("bandpass"), Some(BiquadType::BandPass));
    assert_eq!(parse_biquad_type("notch"), Some(BiquadType::Notch));
    assert_eq!(parse_biquad_type("allpass"), Some(BiquadType::AllPass));
    assert_eq!(parse_biquad_type("peaking"), Some(BiquadType::Peaking));
    assert_eq!(parse_biquad_type("lowshelf"), Some(BiquadType::LowShelf));
    assert_eq!(parse_biquad_type("highshelf"), Some(BiquadType::HighShelf));
    assert_eq!(parse_biquad_type("LowPass"), None);
    assert_eq!(parse_biquad_type(""), None);
}

#[test]
fn window_args_select_windows() {
    assert_eq!(WindowArg::Hann.to_window(), WindowType::Hann);
    assert_eq!(WindowArg::Hamming.to_window(), WindowType::Hamming);
    assert_eq!(WindowArg::Blackman.to_window(), WindowType::Blackman);
}

#[test]
fn number_errors_come_before_count_errors() {
    assert_eq!(EffectSpec::parse("waveshaper:poly:a,b,c"), Err(EffectSpecError::BadNumber(s("a"))));
    assert_eq!(EffectSpec::parse("waveshaper:poly:1,2,3,x"), Err(EffectSpecError::BadNumber(s("x"))));
    assert_eq!(EffectSpec::parse("waveshaper:poly:1,,3,4"), Err(EffectSpecError::BadNumber(s(""))));
    assert_eq!(EffectSpec::parse("eq:abc"), Err(EffectSpecError::BadNumber(s("abc"))));
    assert_eq!(EffectSpec::parse("eq:1,2;x,1,1"), Err(EffectSpecError::EqBandFieldCount(vec![s("1"), s("2")])));
    assert_eq!(EffectSpec::parse("eq:1,2,3;x,1"), Err(EffectSpecError::BadNumber(s("x"))));
    assert_eq!(
        EffectSpec::parse("eq:1e3,-6,INF"),
        Ok(EffectSpec::Eq { bands: vec![vec![s("1e3"), s("-6"), s("INF")]] })
    );
}

#[test]
fn number_grammar_agrees_with_float_parsing() {
    let cases = [
        "0", "1", "-1", "+1", "1.", ".5", "1.5", "-.5", "+.5e3", ".", "-", "+", "", " 1", "1 ", "1e", "1e5",
        "1E5", "1e+5", "1e-5", "1e+", "e5", ".e5", "1.e5", "1..2", "1.2.3", "12a", "0x10", "inf", "INF", "Inf",
        "-inf", "+infinity", "Infinity", "infinit", "infinityy", "nan", "NaN", "-nan", "nana", "1_0", "٣",
        "1e5.0", "--1", "+-1", "00012", "1e0005", "١", "ｉnf",
    ];
    for c in cases {
        assert_eq!(is_number(c), c.parse::<f32>().is_ok(), "text {c:?}");
    }
}
