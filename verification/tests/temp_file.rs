use parakeet_tdt_app::temp_file::{decimal_string, temp_wav_file_name};

#[test]
fn decimal_matches_std() {
    for n in [0u128, 7, 9, 10, 42, 100, 1_000_000_007, u64::MAX as u128, u128::MAX] {
        assert_eq!(decimal_string(n), n.to_string());
    }
}

#[test]
fn temp_name_format() {
    assert_eq!(temp_wav_file_name(1234, 5678), "parakeet_decode_1234_5678.wav");
    assert_eq!(temp_wav_file_name(0, 0), "parakeet_decode_0_0.wav");
    assert_eq!(
        temp_wav_file_name(u32::MAX, u128::MAX),
        format!("parakeet_decode_{}_{}.wav", u32::MAX, u128::MAX)
    );
}

#[test]
fn temp_names_differ_for_different_inputs() {
    assert_ne!(temp_wav_file_name(1, 23), temp_wav_file_name(12, 3));
    assert_ne!(temp_wav_file_name(1, 2), temp_wav_file_name(1, 3));
}
