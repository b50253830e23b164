use plainnote::audio::{accepted_len, buffer_capacity, AudioError, AudioInputConfig};
use plainnote::stt::SttError;

#[test]
fn capacity_is_frames_times_channels() {
    assert_eq!(buffer_capacity(8000 * 2, 1), Some(16_000));
    assert_eq!(buffer_capacity(44_100, 2), Some(88_200));
    assert_eq!(buffer_capacity(usize::MAX, 2), None);
    assert_eq!(buffer_capacity(0, 2), Some(0));
}

#[test]
fn capture_overflow_is_dropped_silently_not_panicked() {
    assert_eq!(accepted_len(5000, 0, 1000), 1000);
    assert_eq!(accepted_len(10, 995, 1000), 5);
    assert_eq!(accepted_len(10, 1000, 1000), 0);
    assert_eq!(accepted_len(3, 0, 8), 3);
}

#[test]
fn capture_session_reports_config() {
    let c = AudioInputConfig { sample_rate: 44100, channels: 2 };
    assert_eq!(c.clone(), AudioInputConfig { sample_rate: 44100, channels: 2 });
    assert_eq!(c.sample_rate, 44100);
    assert_eq!(c.channels, 2);
}

#[test]
fn audio_error_messages() {
    assert_eq!(AudioError::NoInputDevice.to_string(), "no default input device available");
    assert_eq!(AudioError::StreamBuild("x".into()).to_string(), "failed to build input stream: x");
    assert_eq!(
        AudioError::InvalidDuration { msg: "m".into() }.to_string(),
        "invalid recording duration: m"
    );
}

#[test]
fn stt_error_messages() {
    assert_eq!(SttError::ModelMissing { path: "/m.bin".into() }.to_string(), "model file not found at /m.bin");
    assert_eq!(
        SttError::NonUtf8ModelPath { path: "/m".into() }.to_string(),
        "model path is not valid UTF-8: \"/m\""
    );
    assert_eq!(SttError::WhisperRun("r".into()).to_string(), "failed to run whisper inference: r");
    assert_eq!(SttError::WhisperState("s".into()).to_string(), "failed to create whisper state: s");
    assert_eq!(SttError::EmptyInput.to_string(), "no audio samples to transcribe");
}
