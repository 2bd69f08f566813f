use std::path::PathBuf;
use whisper_srt::app_state::{AppState, ProgressMessage, RecognitionMode, WhisperApp};
use whisper_srt::subtitle::SubtitleEntry;
use whisper_srt::time::TimeError;
use whisper_srt::timeline::{clamp_position, segment_start, Segment};
use whisper_srt::workspace::{is_in_workspace, STATE_FILE_NAME};

fn entry(index: usize, start: u64, end: u64, text: &str) -> SubtitleEntry {
    SubtitleEntry::new(index, start, end, text.to_string())
}

fn paths(names: &[&str]) -> Vec<PathBuf> {
    names.iter().map(PathBuf::from).collect()
}

#[test]
fn new_session_is_idle_and_empty() {
    let app = WhisperApp::default();
    assert_eq!(app.state, AppState::Idle);
    assert_eq!(app.recognition_mode, RecognitionMode::Normal);
    assert!(app.video_path.is_none() && app.audio_path.is_none() && app.srt_path.is_none());
    assert!(app.cut_points.is_empty() && app.audio_segments.is_empty() && app.subtitles.is_empty());
    assert!(app.status_message.is_empty());
    assert!(!app.can_resume);
    assert_eq!(AppState::default(), AppState::Idle);
    assert_eq!(RecognitionMode::default(), RecognitionMode::Normal);
}

#[test]
fn display_time_of_session() {
    assert_eq!(WhisperApp::format_time(5_650), "00:00:05.650");
    assert_eq!(WhisperApp::format_time(600_378), "00:10:00.378");
}

#[test]
fn session_marks_cut_points_at_the_position() {
    let mut app = WhisperApp::default();
    for p in [40_000, 10_000, 40_000, 25_000] {
        app.current_position = p;
        app.add_cut_point();
    }
    assert_eq!(app.cut_points, vec![10_000, 25_000, 40_000]);
    app.remove_cut_point(0);
    assert_eq!(app.cut_points, vec![25_000, 40_000]);
    app.remove_cut_point(2);
    assert_eq!(app.cut_points, vec![25_000, 40_000]);
}

#[test]
fn session_segments_need_valid_cut_points() {
    let mut app = WhisperApp::default();
    app.total_duration = 100_000;
    app.cut_points = vec![30_000, 75_000];
    assert_eq!(
        app.segments(),
        Some(vec![
            Segment { offset: 0, duration: 30_000 },
            Segment { offset: 30_000, duration: 45_000 },
            Segment { offset: 75_000, duration: 25_000 },
        ])
    );
    app.cut_points = vec![30_000, 100_000];
    assert_eq!(app.segments(), None);
}

#[test]
fn deleting_a_subtitle_renumbers_the_rest() {
    let mut app = WhisperApp::default();
    app.subtitles = vec![entry(1, 0, 1, "a"), entry(2, 1, 2, "b"), entry(3, 2, 3, "c")];
    app.delete_subtitle(0);
    let rows: Vec<(usize, &str)> = app.subtitles.iter().map(|e| (e.index, e.text.as_str())).collect();
    assert_eq!(rows, vec![(1, "b"), (2, "c")]);
    app.delete_subtitle(5);
    assert_eq!(app.subtitles.len(), 2);
}

#[test]
fn dropped_file_resets_and_tells_sound_from_recording() {
    let mut app = WhisperApp::default();
    app.cut_points = vec![1, 2];
    app.audio_segments = paths(&["a_000.mp3"]);
    app.recognition_results = vec!["x".to_string()];
    app.workspace_dir = Some(PathBuf::from("/w"));
    app.audio_path = Some(PathBuf::from("/old.wav"));
    app.state = AppState::Processing;
    assert!(!app.handle_dropped_file(PathBuf::from("/v/film.mp4"), "mp4"));
    assert_eq!(app.video_path, Some(PathBuf::from("/v/film.mp4")));
    assert_eq!(app.state, AppState::Idle);
    assert!(app.audio_path.is_none() && app.workspace_dir.is_none());
    assert!(app.cut_points.is_empty() && app.audio_segments.is_empty() && app.recognition_results.is_empty());
    for ext in ["wav", "mp3", "m4a", "flac", "ogg", "opus"] {
        assert!(app.handle_dropped_file(PathBuf::from("/v/sound"), ext), "{}", ext);
    }
    for ext in ["", "mp4", "WAV", "wave", "wa"] {
        assert!(!app.handle_dropped_file(PathBuf::from("/v/other"), ext), "{}", ext);
    }
}

#[test]
fn sound_is_taken_in() {
    let mut app = WhisperApp::default();
    app.load_audio_file(PathBuf::from("/a.wav"), Ok(61_500));
    assert_eq!(app.audio_path, Some(PathBuf::from("/a.wav")));
    assert_eq!(app.state, AppState::AudioExtracted);
    assert_eq!(app.total_duration, 61_500);
    assert_eq!(app.status_message, "音频文件已加载!");
    app.load_audio_file(PathBuf::from("/b.wav"), Err("no device".to_string()));
    assert_eq!(app.total_duration, 61_500);
    assert_eq!(app.status_message, "加载音频失败: no device");
}

#[test]
fn extraction_outcome_is_taken_in() {
    let mut app = WhisperApp::default();
    app.extract_audio(Ok(PathBuf::from("/a.wav")), Ok(5));
    assert!(app.audio_path.is_none());
    assert_eq!(app.state, AppState::Idle);

    app.video_path = Some(PathBuf::from("/a.mp4"));
    app.extract_audio(Err("ffmpeg missing".to_string()), Ok(5));
    assert!(app.audio_path.is_none());
    assert_eq!(app.status_message, "提取音频失败: ffmpeg missing");
    app.extract_audio(Ok(PathBuf::from("/a.wav")), Ok(7_000));
    assert_eq!(app.audio_path, Some(PathBuf::from("/a.wav")));
    assert_eq!(app.state, AppState::AudioExtracted);
    assert_eq!(app.total_duration, 7_000);
    assert_eq!(app.status_message, "音频提取成功!");
    app.extract_audio(Ok(PathBuf::from("/a.wav")), Err("bad".to_string()));
    assert_eq!(app.status_message, "加载音频失败: bad");
}

#[test]
fn cutting_outcome_is_taken_in() {
    let mut app = WhisperApp::default();
    app.cut_audio(Ok(paths(&["a_000.mp3"])));
    assert!(app.audio_segments.is_empty());

    app.audio_path = Some(PathBuf::from("/a.wav"));
    app.state = AppState::Processing;
    app.cut_audio(Ok(paths(&["a_000.mp3", "a_001.mp3", "a_002.mp3"])));
    assert_eq!(app.audio_segments, paths(&["a_000.mp3", "a_001.mp3", "a_002.mp3"]));
    assert_eq!(app.status_message, "音频切割完成，共 3 个片段");
    assert_eq!(app.state, AppState::AudioExtracted);
    app.state = AppState::Processing;
    app.cut_audio(Err("disk full".to_string()));
    assert_eq!(app.audio_segments.len(), 3);
    assert_eq!(app.status_message, "切割音频失败: disk full");
    assert_eq!(app.state, AppState::AudioExtracted);
}

#[test]
fn run_does_not_start_without_segments() {
    let mut app = WhisperApp::default();
    assert_eq!(app.start_recognition(), None);
    assert_eq!(app.status_message, "请先切割音频!");
    assert_eq!(app.state, AppState::Idle);

    app.audio_segments = paths(&["a", "b"]);
    app.recognition_mode = RecognitionMode::VAD;
    app.recognition_results = vec!["old".to_string()];
    assert_eq!(app.start_recognition(), Some(RecognitionMode::VAD));
    assert_eq!(app.state, AppState::Processing);
    assert_eq!((app.processing_done, app.processing_total), (0, 2));
    assert_eq!(app.processing_status, "开始识别...");
    assert!(app.recognition_results.is_empty());
}

#[test]
fn messages_of_a_run_are_taken_in() {
    let mut app = WhisperApp::default();
    app.state = AppState::Processing;
    assert!(!app.handle_message(ProgressMessage::Progress { current: 2, total: 5 }));
    assert_eq!(app.processing_status, "识别片段 2/5");
    assert_eq!((app.processing_done, app.processing_total), (2, 5));
    assert!(!app.handle_message(ProgressMessage::Result { segment: 2, text: "hello".to_string() }));
    assert!(!app.handle_message(ProgressMessage::RealtimeOutput("[1/5] line".to_string())));
    assert!(!app.handle_message(ProgressMessage::Error("识别片段 3 失败: x".to_string())));
    assert_eq!(
        app.recognition_results,
        vec!["片段 2: hello".to_string(), "[1/5] line".to_string(), "❌ 错误: 识别片段 3 失败: x".to_string()]
    );
    assert_eq!(app.state, AppState::Processing);
    assert!(app.handle_message(ProgressMessage::Completed));
    assert_eq!(app.state, AppState::AudioExtracted);
    assert_eq!(app.status_message, "识别完成!");
}

#[test]
fn resume_is_told_from_the_fragments() {
    let mut app = WhisperApp::default();
    app.audio_segments = paths(&["0", "1", "2", "3", "4"]);
    app.completed_segments = vec![0, 1, 2, 3, 4];
    app.check_missing_subtitles(&vec![false, true, false, true, false]);
    assert_eq!(app.completed_segments, vec![1, 3]);
    assert_eq!(app.missing_segments, vec![0, 2, 4]);
    assert!(app.can_resume);

    let run = app.resume_recognition(&vec![false, true, true, true, false]).unwrap();
    assert_eq!(app.missing_segments, vec![0, 4]);
    assert_eq!(run.next_segment(), Some(0));
    assert_eq!(run.progress(), (3, 5));
    assert_eq!(app.state, AppState::Processing);
    assert_eq!(app.processing_status, "从 3/5 片段恢复...");
    assert_eq!((app.processing_done, app.processing_total), (3, 5));

    let mut done = WhisperApp::default();
    assert!(done.resume_recognition(&vec![true, true]).is_none());
    assert_eq!(done.status_message, "没有缺失的片段需要识别!");
    assert_eq!(done.state, AppState::Idle);
    assert!(!done.can_resume);
}

#[test]
fn manual_window_is_read_from_what_was_typed() {
    let mut app = WhisperApp::default();
    app.manual_start_time = "1:30".to_string();
    app.manual_end_time = "1:45.5".to_string();
    assert_eq!(app.cut_manual_segment(), Some(Segment { offset: 90_000, duration: 15_500 }));
    assert_eq!(app.status_message, "");

    app.manual_start_time = "abc".to_string();
    assert_eq!(app.cut_manual_segment(), None);
    assert_eq!(app.status_message, "起始时间格式无效!");
    app.manual_start_time = "10".to_string();
    app.manual_end_time = "".to_string();
    assert_eq!(app.cut_manual_segment(), None);
    assert_eq!(app.status_message, "结束时间格式无效!");
    app.manual_end_time = "10".to_string();
    assert_eq!(app.cut_manual_segment(), None);
    assert_eq!(app.status_message, "切割片段失败: Start time must be less than end time");
}

#[test]
fn manual_window_is_asked_before_anything_starts() {
    let mut app = WhisperApp::default();
    app.manual_start_time = "1:30".to_string();
    app.manual_end_time = "1:45.5".to_string();
    assert_eq!(app.manual_window(), Ok(Segment { offset: 90_000, duration: 15_500 }));
    app.manual_end_time = "1:30".to_string();
    assert_eq!(app.manual_window(), Err(TimeError::InvalidInterval));
    app.manual_end_time = "x".to_string();
    assert_eq!(app.manual_window(), Err(TimeError::MalformedTime));
    app.manual_start_time = "".to_string();
    app.manual_end_time = "10".to_string();
    assert_eq!(app.manual_window(), Err(TimeError::MalformedTime));
}

#[test]
fn manual_recognition_starts_only_with_a_clip_and_a_window() {
    let mut app = WhisperApp::default();
    app.manual_start_time = "10".to_string();
    app.manual_end_time = "20".to_string();
    app.recognition_results = vec!["old".to_string()];
    assert_eq!(app.start_manual_recognition(), None);
    assert_eq!(app.status_message, "没有手动片段可识别!");
    assert_eq!(app.state, AppState::Idle);
    assert_eq!(app.recognition_results.len(), 1);

    app.manual_segment = Some(PathBuf::from("/clip.mp3"));
    app.manual_end_time = "abc".to_string();
    assert_eq!(app.start_manual_recognition(), None);
    assert_eq!(app.status_message, "识别失败: Invalid time format");
    assert_eq!(app.state, AppState::Idle);
    app.manual_end_time = "5".to_string();
    assert_eq!(app.start_manual_recognition(), None);
    assert_eq!(app.status_message, "识别失败: Start time must be less than end time");
    assert_eq!(app.state, AppState::Idle);
    assert_eq!(app.recognition_results.len(), 1);

    app.manual_end_time = "20".to_string();
    assert_eq!(app.start_manual_recognition(), Some(Segment { offset: 10_000, duration: 10_000 }));
    assert_eq!(app.state, AppState::Processing);
    assert_eq!((app.processing_done, app.processing_total), (0, 1));
    assert_eq!(app.processing_status, "正在识别手动片段...");
    assert!(app.recognition_results.is_empty());
}

#[test]
fn manual_result_is_not_folded_in_without_a_window() {
    let mut app = WhisperApp::default();
    app.subtitles = vec![entry(1, 0, 5_000, "a"), entry(2, 9_000, 11_000, "old")];
    app.manual_start_time = "oops".to_string();
    app.manual_end_time = "20".to_string();
    app.recognize_manual_segment(vec![entry(1, 12_000, 13_000, "new")]);
    assert_eq!(app.subtitles.len(), 2);
    assert_eq!(app.subtitles[1].text, "old");
    assert_eq!(app.status_message, "识别失败: Invalid time format");

    app.manual_start_time = "20".to_string();
    app.manual_end_time = "10".to_string();
    app.recognize_manual_segment(vec![entry(1, 12_000, 13_000, "new")]);
    assert_eq!(app.subtitles.len(), 2);
    assert_eq!(app.subtitles[1].text, "old");
    assert_eq!(app.status_message, "识别失败: Start time must be less than end time");

    app.manual_start_time = "20".to_string();
    app.manual_end_time = "20".to_string();
    app.recognize_manual_segment(Vec::new());
    assert_eq!(app.subtitles.len(), 2);
    assert_eq!(app.status_message, "识别失败: Start time must be less than end time");
}

#[test]
fn manual_result_replaces_the_window() {
    let mut app = WhisperApp::default();
    app.subtitles = vec![entry(1, 0, 5_000, "a"), entry(2, 9_000, 11_000, "old"), entry(3, 20_000, 21_000, "c")];
    app.manual_start_time = "10".to_string();
    app.manual_end_time = "20".to_string();
    app.recognize_manual_segment(Vec::new());
    assert_eq!(app.subtitles.len(), 3);
    assert_eq!(app.subtitles[1].text, "old");
    app.recognize_manual_segment(vec![entry(1, 12_000, 13_000, "new")]);
    let rows: Vec<(usize, u64, &str)> =
        app.subtitles.iter().map(|e| (e.index, e.start_time, e.text.as_str())).collect();
    assert_eq!(rows, vec![(1, 0, "a"), (2, 12_000, "new"), (3, 20_000, "c")]);
}

#[test]
fn snapshot_and_restore_of_a_workspace() {
    let mut app = WhisperApp::default();
    app.video_path = Some(PathBuf::from("/v/film.mp4"));
    app.audio_path = Some(PathBuf::from("/v/film.wav"));
    app.cut_points = vec![30_000, 75_000];
    app.audio_segments = paths(&["/v/film_000.mp3", "/v/film_001.mp3", "/v/film_002.mp3"]);
    app.manual_segment = Some(PathBuf::from("/v/film_manual.mp3"));
    app.manual_start_time = "10".to_string();
    app.manual_end_time = "20".to_string();
    app.total_duration = 100_000;
    let snapshot = app.save_workspace(PathBuf::from("/w"), &vec![true, false, true]);
    assert_eq!(app.workspace_dir, Some(PathBuf::from("/w")));
    assert_eq!(snapshot.video_path, Some(PathBuf::from("/v/film.mp4")));
    assert_eq!(snapshot.audio_path, Some(PathBuf::from("/v/film.wav")));
    assert_eq!(snapshot.cut_points, vec![30_000, 75_000]);
    assert_eq!(snapshot.audio_segments.len(), 3);
    assert_eq!(snapshot.completed_segments, vec![0, 2]);
    assert_eq!(snapshot.manual_segment, Some(PathBuf::from("/v/film_manual.mp3")));
    assert_eq!(snapshot.manual_start_time, "10");
    assert_eq!(snapshot.manual_end_time, "20");
    assert_eq!(snapshot.total_duration, 100_000);
    assert_eq!(snapshot.workspace_dir, PathBuf::from("/w"));

    let mut later = WhisperApp::default();
    later.open_workspace(PathBuf::from("/w2"), snapshot, true, &vec![true, true, false]);
    assert_eq!(later.workspace_dir, Some(PathBuf::from("/w2")));
    assert_eq!(later.video_path, Some(PathBuf::from("/v/film.mp4")));
    assert_eq!(later.cut_points, vec![30_000, 75_000]);
    assert_eq!(later.audio_segments.len(), 3);
    assert_eq!(later.total_duration, 100_000);
    assert_eq!(later.state, AppState::AudioExtracted);
    assert_eq!(later.completed_segments, vec![0, 1]);
    assert_eq!(later.missing_segments, vec![2]);
    assert!(later.can_resume);
    assert_eq!(later.status_message, "工作区已加载! 2/3 片段已完成.");
}

#[test]
fn restore_without_sound_stays_idle() {
    let mut app = WhisperApp::default();
    app.audio_path = Some(PathBuf::from("/gone.wav"));
    let snapshot = app.save_workspace(PathBuf::from("/w"), &Vec::new());
    let mut later = WhisperApp::default();
    later.open_workspace(PathBuf::from("/w"), snapshot, false, &Vec::new());
    assert_eq!(later.state, AppState::Idle);
    assert_eq!(later.status_message, "工作区已加载! 0/0 片段已完成.");
}

#[test]
fn subtitle_file_is_taken_in() {
    let mut app = WhisperApp::default();
    let text = "1\n00:00:01,000 --> 00:00:02,000\nHello\n\n2\n00:00:03,000 --> 00:00:04,000\nWorld\n";
    app.open_subtitle_file(PathBuf::from("/s.srt"), Ok(text.to_string()));
    assert_eq!(app.subtitles.len(), 2);
    assert_eq!(app.srt_path, Some(PathBuf::from("/s.srt")));
    assert_eq!(app.status_message, "字幕已加载: 2 条");

    app.open_subtitle_file(PathBuf::from("/t.srt"), Err("No such file".to_string()));
    assert_eq!(app.subtitles.len(), 2);
    assert_eq!(app.srt_path, Some(PathBuf::from("/s.srt")));
    assert_eq!(app.status_message, "加载字幕失败: No such file");

    let bad = "1\n00:00:02,000 --> 00:00:01,000\nx\n";
    app.open_subtitle_file(PathBuf::from("/u.srt"), Ok(bad.to_string()));
    assert_eq!(app.subtitles.len(), 2);
    assert_eq!(app.status_message, "加载字幕失败: Start time must be less than end time");
}

#[test]
fn segment_starts_and_clamping() {
    let cuts = vec![30_000, 75_000];
    assert_eq!(segment_start(&cuts, 0), Some(0));
    assert_eq!(segment_start(&cuts, 1), Some(30_000));
    assert_eq!(segment_start(&cuts, 2), Some(75_000));
    assert_eq!(segment_start(&cuts, 3), None);
    assert_eq!(clamp_position(5, 10), 5);
    assert_eq!(clamp_position(10, 10), 10);
    assert_eq!(clamp_position(11, 10), 10);
}

#[test]
fn workspace_holds_whole_components() {
    assert!(is_in_workspace(&PathBuf::from("/w/segments/a.mp3"), &PathBuf::from("/w")));
    assert!(!is_in_workspace(&PathBuf::from("/work/a.mp3"), &PathBuf::from("/w")));
    assert!(is_in_workspace(&PathBuf::from("/w"), &PathBuf::from("/w")));
    assert!(!is_in_workspace(&PathBuf::from("/w"), &PathBuf::from("/w/segments")));
    assert!(!is_in_workspace(&PathBuf::from("/v/w/a.mp3"), &PathBuf::from("/w")));
    assert_eq!(STATE_FILE_NAME, "workspace_state.json");
}
