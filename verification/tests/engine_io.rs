use whisper_srt::app_state::{WhisperLanguage, WhisperModel};
use whisper_srt::ffmpeg::{format_seconds, segment_file_name};
use whisper_srt::manual_cut::{manual_segment, parse_time_string};
use whisper_srt::time::TimeError;
use whisper_srt::timeline::Segment;
use whisper_srt::vad_recognition::{
    get_vad_script_path, recognize_with_vad, vad_script_places, VadError,
};
use whisper_srt::whisper::{extract_text_from_srt, realtime_output};

#[test]
fn spoken_text_leaves_out_numbers_and_timing() {
    let text = "1\n00:00:01,000 --> 00:00:02,000\nHello there\n\n2\n00:00:03,000 --> 00:00:04,000\n  General  \nKenobi\n\n";
    assert_eq!(extract_text_from_srt(text), "Hello there General Kenobi");
    assert_eq!(extract_text_from_srt(""), "");
    assert_eq!(extract_text_from_srt("1\n2\n\n"), "");
    assert_eq!(extract_text_from_srt("only words"), "only words");
    assert_eq!(extract_text_from_srt("4294967295\n4294967296\na --> b\n"), "4294967296");
}

#[test]
fn white_space_is_what_the_language_calls_so() {
    let mut code = 0u32;
    while code <= 0x3_0000 {
        if let Some(c) = char::from_u32(code) {
            let text = format!("{}x{}", c, c);
            let expected = if c.is_whitespace() { "x".to_string() } else { text.clone() };
            assert_eq!(extract_text_from_srt(&text), expected, "U+{:04X}", code);
        }
        code += 1;
    }
}

#[test]
fn engine_lines_worth_showing() {
    assert_eq!(
        realtime_output("  [00:01.000 --> 00:02.000]  Hello ", 2, 7),
        Some("[2/7] [00:01.000 --> 00:02.000]  Hello".to_string())
    );
    assert_eq!(
        realtime_output("Detecting language using up to the first 30 seconds.", 1, 1),
        Some("[1/1] Detecting language using up to the first 30 seconds.".to_string())
    );
    assert_eq!(realtime_output("", 1, 1), None);
    assert_eq!(realtime_output("   ", 1, 1), None);
    assert_eq!(realtime_output("warnings.warn(...)", 1, 1), None);
    assert_eq!(realtime_output("detecting language", 1, 1), None);
}

#[test]
fn segment_files_are_numbered_in_three_digits() {
    assert_eq!(segment_file_name("film", 0, "wav"), "film_000.wav");
    assert_eq!(segment_file_name("film", 12, "wav"), "film_012.wav");
    assert_eq!(segment_file_name("my film", 999, "mp3"), "my film_999.mp3");
    assert_eq!(segment_file_name("", 1000, ""), "_1000.");
}

#[test]
fn seconds_are_written_short() {
    assert_eq!(format_seconds(0), "0");
    assert_eq!(format_seconds(30_000), "30");
    assert_eq!(format_seconds(30_500), "30.5");
    assert_eq!(format_seconds(30_050), "30.05");
    assert_eq!(format_seconds(30_005), "30.005");
    assert_eq!(format_seconds(1), "0.001");
    assert_eq!(format_seconds(120), "0.12");
    assert_eq!(format_seconds(45_123), "45.123");
    assert_eq!(format_seconds(45_120), "45.12");
    assert_eq!(format_seconds(30_500), (30_500f64 / 1000.0).to_string());
    assert_eq!(format_seconds(45_123), (45_123f64 / 1000.0).to_string());
    assert_eq!(format_seconds(75_000), (75_000f64 / 1000.0).to_string());
}

#[test]
fn manual_clip_must_run_forward() {
    assert_eq!(manual_segment(10_000, 25_500), Ok(Segment { offset: 10_000, duration: 15_500 }));
    assert_eq!(manual_segment(10_000, 10_000), Err(TimeError::InvalidInterval));
    assert_eq!(manual_segment(10_001, 10_000), Err(TimeError::InvalidInterval));
    assert_eq!(parse_time_string("0:10"), Ok(10_000));
    assert_eq!(TimeError::InvalidInterval.message(), "Start time must be less than end time");
    assert_eq!(TimeError::MalformedTime.message(), "Invalid time format");
}

#[test]
fn detection_script_is_the_first_present() {
    assert_eq!(
        vad_script_places(),
        vec![
            "scripts/vad_transcribe_continuous.py",
            "../scripts/vad_transcribe_continuous.py",
            "./vad_transcribe_continuous.py",
        ]
    );
    assert_eq!(get_vad_script_path(&vec![true, true, true]), Ok("scripts/vad_transcribe_continuous.py"));
    assert_eq!(get_vad_script_path(&vec![false, true, true]), Ok("../scripts/vad_transcribe_continuous.py"));
    assert_eq!(get_vad_script_path(&vec![false, false, true]), Ok("./vad_transcribe_continuous.py"));
    assert_eq!(get_vad_script_path(&vec![false, false, false]), Err(VadError::ScriptNotFound));
    assert_eq!(get_vad_script_path(&vec![false, false, false, true]), Err(VadError::ScriptNotFound));
    assert_eq!(get_vad_script_path(&vec![false]), Err(VadError::ScriptNotFound));
    assert_eq!(get_vad_script_path(&Vec::new()), Err(VadError::ScriptNotFound));
    assert_eq!(get_vad_script_path(&vec![false, true]), Ok("../scripts/vad_transcribe_continuous.py"));
}

#[test]
fn detection_needs_a_language_then_a_script() {
    let none = recognize_with_vad(WhisperModel::Base, &WhisperLanguage::Unknown, "", &vec![true]);
    assert_eq!(none.err(), Some(VadError::LanguageNotSpecified));
    let none = recognize_with_vad(WhisperModel::Base, &WhisperLanguage::Custom, "", &Vec::new());
    assert_eq!(none.err(), Some(VadError::LanguageNotSpecified));
    let lost = recognize_with_vad(WhisperModel::Base, &WhisperLanguage::English, "", &vec![false, false, false]);
    assert_eq!(lost.err(), Some(VadError::ScriptNotFound));
    let ready = recognize_with_vad(WhisperModel::Large, &WhisperLanguage::Custom, "ko", &vec![false, true]).unwrap();
    assert_eq!(ready.script, "../scripts/vad_transcribe_continuous.py");
    assert_eq!(ready.language, "ko");
    assert_eq!(ready.model, WhisperModel::Large);
    assert_eq!(VadError::LanguageNotSpecified.message(), "Language not specified");
    assert_eq!(VadError::ScriptNotFound.message(), "找不到VAD脚本文件");
}
