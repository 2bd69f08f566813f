use whisper_srt::app_state::{ProgressMessage, WhisperLanguage, WhisperModel};
use whisper_srt::recognition::{recognize_single_segment, RecognitionRun};
use whisper_srt::resume::scan_completion;
use whisper_srt::srt_merger::{merge_fragments, Fragment};

fn show(messages: &[ProgressMessage]) -> Vec<String> {
    messages.iter().map(|m| format!("{:?}", m)).collect()
}

#[test]
fn resume_completeness() {
    let has_fragment = vec![false, true, false, true, false];
    let record = scan_completion(&has_fragment);
    assert_eq!(record.completed, vec![1, 3]);
    assert_eq!(record.missing, vec![0, 2, 4]);
    assert!(record.can_resume);

    let mut run = RecognitionRun::resume(&has_fragment);
    let mut produced: Vec<Option<String>> = vec![
        None,
        Some("1\n00:00:01,000 --> 00:00:02,000\nold 1\n".to_string()),
        None,
        Some("1\n00:00:01,000 --> 00:00:02,000\nold 3\n".to_string()),
        None,
    ];
    let mut taken = Vec::new();
    while let Some(segment) = run.next_segment() {
        taken.push(segment);
        produced[segment] = Some(format!("1\n00:00:01,000 --> 00:00:02,000\nnew {}\n", segment));
        run.record(Ok(format!("new {}", segment)));
    }
    assert_eq!(taken, vec![0, 2, 4]);
    assert_eq!(run.progress(), (5, 5));

    let fragments: Vec<Fragment> = produced
        .into_iter()
        .enumerate()
        .map(|(i, c)| Fragment { offset: 10_000 * i as u64, content: c.unwrap() })
        .collect();
    let track = merge_fragments(&fragments).unwrap();
    let texts: Vec<&str> = track.iter().map(|e| e.text.as_str()).collect();
    assert_eq!(texts, vec!["new 0", "old 1", "new 2", "old 3", "new 4"]);
    let starts: Vec<u64> = track.iter().map(|e| e.start_time).collect();
    assert_eq!(starts, vec![1_000, 11_000, 21_000, 31_000, 41_000]);
}

#[test]
fn nothing_to_resume_without_both_kinds() {
    let none_done = scan_completion(&vec![false, false]);
    assert_eq!(none_done.completed, Vec::<usize>::new());
    assert_eq!(none_done.missing, vec![0, 1]);
    assert!(!none_done.can_resume);

    let all_done = scan_completion(&vec![true, true, true]);
    assert_eq!(all_done.completed, vec![0, 1, 2]);
    assert_eq!(all_done.missing, Vec::<usize>::new());
    assert!(!all_done.can_resume);

    let empty = scan_completion(&Vec::new());
    assert!(empty.completed.is_empty() && empty.missing.is_empty() && !empty.can_resume);
}

#[test]
fn full_run_reports_each_segment() {
    let mut run = RecognitionRun::full(3);
    assert_eq!(run.progress(), (0, 3));
    assert_eq!(run.next_segment(), Some(0));
    let first = run.record(Ok("hello".to_string()));
    assert_eq!(
        show(&first),
        vec![
            "Result { segment: 1, text: \"hello\" }".to_string(),
            "Progress { current: 1, total: 3 }".to_string(),
        ]
    );
    assert_eq!(run.next_segment(), Some(1));
    let second = run.record(Err("no speech".to_string()));
    assert_eq!(show(&second), vec![format!("{:?}", ProgressMessage::Error("识别片段 2 失败: no speech".to_string()))]);
    assert_eq!(run.next_segment(), Some(2));
    let third = run.record(Ok(String::new()));
    assert_eq!(
        show(&third),
        vec!["Result { segment: 3, text: \"\" }".to_string(), "Progress { current: 3, total: 3 }".to_string()]
    );
    assert_eq!(run.next_segment(), None);
    assert!(run.record(Ok("late".to_string())).is_empty());
    assert_eq!(run.progress(), (3, 3));
}

#[test]
fn resumed_run_counts_what_was_done_before() {
    let mut run = RecognitionRun::resume(&vec![true, false, true, false]);
    assert_eq!(run.progress(), (2, 4));
    assert_eq!(run.next_segment(), Some(1));
    let first = run.record(Ok("b".to_string()));
    assert_eq!(
        show(&first),
        vec!["Result { segment: 2, text: \"b\" }".to_string(), "Progress { current: 3, total: 4 }".to_string()]
    );
    assert_eq!(run.next_segment(), Some(3));
    let second = run.record(Ok("d".to_string()));
    assert_eq!(
        show(&second),
        vec!["Result { segment: 4, text: \"d\" }".to_string(), "Progress { current: 4, total: 4 }".to_string()]
    );
    assert_eq!(run.next_segment(), None);
}

#[test]
fn request_names_model_language_and_number() {
    let r = recognize_single_segment(0, 1, WhisperModel::Small, &WhisperLanguage::Japanese, "");
    assert_eq!(r.model, WhisperModel::Small);
    assert_eq!(r.language.as_deref(), Some("ja"));
    assert_eq!((r.current, r.total), (1, 1));

    let r = recognize_single_segment(4, 9, WhisperModel::Turbo, &WhisperLanguage::Custom, "ko");
    assert_eq!(r.language.as_deref(), Some("ko"));
    assert_eq!((r.current, r.total), (5, 9));

    let r = recognize_single_segment(4, 9, WhisperModel::Turbo, &WhisperLanguage::Custom, "");
    assert_eq!(r.language, None);
    let r = recognize_single_segment(4, 9, WhisperModel::Turbo, &WhisperLanguage::Unknown, "ko");
    assert_eq!(r.language, None);
}

#[test]
fn models_and_languages_have_their_names() {
    let models = WhisperModel::all();
    let names: Vec<&str> = models.iter().map(|m| m.as_str()).collect();
    assert_eq!(names, vec!["tiny", "base", "small", "medium", "large", "turbo"]);
    assert_eq!(WhisperModel::default(), WhisperModel::Base);

    let all = WhisperLanguage::all();
    let names: Vec<&str> = all.iter().map(|l| l.as_str()).collect();
    assert_eq!(
        names,
        vec![
            "Auto Detect",
            "English",
            "Chinese",
            "Japanese",
            "French",
            "German",
            "Spanish",
            "Italian",
            "Russian",
            "Custom (Manual Input)",
        ]
    );
    let codes: Vec<Option<&str>> = all.iter().map(|l| l.to_code("xx")).collect();
    assert_eq!(
        codes,
        vec![None, Some("en"), Some("zh"), Some("ja"), Some("fr"), Some("de"), Some("es"), Some("it"), Some("ru"), Some("xx")]
    );
    assert_eq!(WhisperLanguage::Custom.to_code(""), None);
    assert_eq!(WhisperLanguage::default(), WhisperLanguage::Unknown);
}
