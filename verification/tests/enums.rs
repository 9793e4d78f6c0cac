use tpt_dsp::envelope::EnvelopeState;
use tpt_dsp::filters::BiquadType;
use tpt_dsp::oscillator::Waveform;
use tpt_dsp::windows::WindowType;

#[test]
fn waveform_defaults_to_sine() {
    assert_eq!(Waveform::default(), Waveform::Sine);
    assert_ne!(Waveform::default(), Waveform::Square);
}

#[test]
fn enums_compare_by_variant() {
    assert_eq!(EnvelopeState::Idle, EnvelopeState::Idle);
    assert_ne!(EnvelopeState::Attack, EnvelopeState::Release);
    assert_ne!(BiquadType::LowShelf, BiquadType::HighShelf);
    assert_eq!(WindowType::Hann, WindowType::Hann);
    assert_ne!(WindowType::Hamming, WindowType::Blackman);
}
