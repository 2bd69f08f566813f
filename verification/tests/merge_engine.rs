use whisper_srt::recognition::remerge_subtitles;
use whisper_srt::srt_merger::{
    merge_fragments, merge_present_fragments, merge_srt_files, shift_subtitles, Fragment,
    MergeError,
};
use whisper_srt::subtitle::{parse_srt_content, SubtitleEntry};
use whisper_srt::timeline::{
    add_cut_point, cut_points_valid, derive_offsets, remove_cut_point, Segment,
};

fn fragment(offset: u64, content: &str) -> Fragment {
    Fragment { offset, content: content.to_string() }
}

fn block(index: usize, timing: &str, text: &str) -> String {
    format!("{}\n{}\n{}\n\n", index, timing, text)
}

#[test]
fn offset_invariance_of_merge() {
    let one = block(1, "00:00:01,000 --> 00:00:02,000", "x");
    let contents = vec![one.clone(), one.clone(), one.clone()];
    let merged = merge_srt_files(&contents, &vec![10_000, 25_000]).unwrap();
    let track = parse_srt_content(&merged).unwrap();
    assert_eq!(track.len(), 3);
    let starts: Vec<u64> = track.iter().map(|e| e.start_time).collect();
    assert_eq!(starts, vec![1_000, 11_000, 26_000]);
    let ends: Vec<u64> = track.iter().map(|e| e.end_time).collect();
    assert_eq!(ends, vec![2_000, 12_000, 27_000]);
    let indices: Vec<usize> = track.iter().map(|e| e.index).collect();
    assert_eq!(indices, vec![1, 2, 3]);
}

#[test]
fn merged_text_is_exact() {
    let contents = vec![
        "1\n00:00:01,000 --> 00:00:02,000\nfirst\n".to_string(),
        "1\n00:00:00,500 --> 00:00:01,500\nsecond\n\n2\n00:00:02,000 --> 00:00:03,000\nthird\n".to_string(),
    ];
    let merged = merge_srt_files(&contents, &vec![60_000]).unwrap();
    assert_eq!(
        merged,
        "1\n00:00:01,000 --> 00:00:02,000\nfirst\n\n2\n00:01:00,500 --> 00:01:01,500\nsecond\n\n3\n00:01:02,000 --> 00:01:03,000\nthird\n\n"
    );
}

#[test]
fn idempotent_merge() {
    let contents = vec![
        block(1, "00:00:01,000 --> 00:00:02,000", "a"),
        block(1, "00:00:03,000 --> 00:00:04,500", "b"),
    ];
    let cuts = vec![30_000];
    let first = merge_srt_files(&contents, &cuts).unwrap();
    let second = merge_srt_files(&contents, &cuts).unwrap();
    assert_eq!(first, second);
    assert_eq!(remerge_subtitles(&contents, &cuts).unwrap(), first);
}

#[test]
fn merging_merged_text_changes_nothing() {
    let contents = vec![
        "7\n00:00:05,000 --> 00:00:06,000\n  second  \nline two\n\n3\n00:00:01,000 --> 00:00:02,000\nfirst\n"
            .to_string(),
        block(1, "00:00:00,250 --> 00:00:09,000", "third"),
    ];
    let merged = merge_srt_files(&contents, &vec![40_000]).unwrap();
    assert_eq!(
        merged,
        "1\n00:00:01,000 --> 00:00:02,000\nfirst\n\n2\n00:00:05,000 --> 00:00:06,000\nsecond\nline two\n\n3\n00:00:40,250 --> 00:00:49,000\nthird\n\n"
    );
    let again = merge_srt_files(&vec![merged.clone()], &Vec::new()).unwrap();
    assert_eq!(again, merged);
}

#[test]
fn merge_sorts_across_fragments_and_keeps_overruns() {
    let fragments = vec![
        fragment(0, &block(1, "00:00:29,000 --> 00:00:35,000", "overrun")),
        fragment(30_000, &block(1, "00:00:01,000 --> 00:00:02,000", "next")),
        fragment(30_000, &block(1, "00:00:00,000 --> 00:00:00,500", "again")),
    ];
    let track = merge_fragments(&fragments).unwrap();
    let rows: Vec<(usize, u64, u64, &str)> =
        track.iter().map(|e| (e.index, e.start_time, e.end_time, e.text.as_str())).collect();
    assert_eq!(
        rows,
        vec![(1, 29_000, 35_000, "overrun"), (2, 30_000, 30_500, "again"), (3, 31_000, 32_000, "next")]
    );
}

#[test]
fn absent_fragment_moves_no_other() {
    let one = block(1, "00:00:01,000 --> 00:00:02,000", "x");
    let contents = vec![Some(one.clone()), None, Some(one.clone())];
    let merged = merge_present_fragments(&contents, &vec![10_000, 25_000]).unwrap();
    assert_eq!(
        merged,
        "1\n00:00:01,000 --> 00:00:02,000\nx\n\n2\n00:00:26,000 --> 00:00:27,000\nx\n\n"
    );
    let track = parse_srt_content(&merged).unwrap();
    let starts: Vec<u64> = track.iter().map(|e| e.start_time).collect();
    assert_eq!(starts, vec![1_000, 26_000]);

    let only_last = vec![None, None, Some(one.clone())];
    let merged = merge_present_fragments(&only_last, &vec![10_000, 25_000]).unwrap();
    assert_eq!(merged, "1\n00:00:26,000 --> 00:00:27,000\nx\n\n");

    let none: Vec<Option<String>> = vec![None, None];
    assert_eq!(merge_present_fragments(&none, &vec![10_000]).unwrap(), "");
    assert_eq!(merge_present_fragments(&Vec::new(), &Vec::new()).unwrap(), "");
}

#[test]
fn present_fragments_merge_as_the_segments_in_order() {
    let texts = vec![
        block(1, "00:00:01,000 --> 00:00:02,000", "a"),
        block(1, "00:00:03,000 --> 00:00:04,500", "b"),
        block(1, "00:00:00,000 --> 00:00:00,500", "c"),
    ];
    let cuts = vec![30_000, 75_000];
    let all: Vec<Option<String>> = texts.iter().cloned().map(Some).collect();
    assert_eq!(merge_present_fragments(&all, &cuts), merge_srt_files(&texts, &cuts));
}

#[test]
fn failure_of_a_present_fragment_names_its_segment() {
    let good = block(1, "00:00:01,000 --> 00:00:02,000", "a");
    let bad = block(1, "00:00:02,000 --> 00:00:01,000", "b");
    let contents = vec![None, Some(good.clone()), None, Some(bad), Some(good.clone())];
    assert_eq!(
        merge_present_fragments(&contents, &vec![10, 20, 30, 40]),
        Err(MergeError::Fragment { segment: 3 })
    );
    let late = vec![None, Some(good.clone()), Some(good)];
    assert_eq!(
        merge_present_fragments(&late, &vec![10, u64::MAX - 1_500]),
        Err(MergeError::TimeOverflow { segment: 2 })
    );
}

#[test]
fn merge_of_nothing_is_empty() {
    assert_eq!(merge_srt_files(&Vec::new(), &Vec::new()).unwrap(), "");
    assert_eq!(merge_fragments(&Vec::new()).unwrap().len(), 0);
    assert_eq!(merge_srt_files(&vec![String::new()], &vec![5_000, 6_000]).unwrap(), "");
}

#[test]
fn merge_names_the_fragment_that_cannot_be_read() {
    let good = block(1, "00:00:01,000 --> 00:00:02,000", "a");
    let bad = block(1, "00:00:02,000 --> 00:00:01,000", "b");
    let contents = vec![good.clone(), bad.clone(), bad];
    assert_eq!(merge_srt_files(&contents, &vec![10, 20]), Err(MergeError::Fragment { segment: 1 }));
}

#[test]
fn merge_names_the_fragment_whose_times_do_not_fit() {
    let fragments = vec![
        fragment(0, &block(1, "00:00:01,000 --> 00:00:02,000", "a")),
        fragment(u64::MAX - 1_500, &block(1, "00:00:01,000 --> 00:00:02,000", "b")),
    ];
    assert_eq!(merge_fragments(&fragments).err(), Some(MergeError::TimeOverflow { segment: 1 }));
}

#[test]
fn shift_moves_every_entry_or_none() {
    let mut track = vec![
        SubtitleEntry::new(1, 1_000, 2_000, "a".to_string()),
        SubtitleEntry::new(2, 3_000, 4_000, "b".to_string()),
    ];
    assert!(shift_subtitles(&mut track, 10_000));
    assert_eq!((track[0].start_time, track[0].end_time), (11_000, 12_000));
    assert_eq!((track[1].start_time, track[1].end_time), (13_000, 14_000));
    assert!(!shift_subtitles(&mut track, u64::MAX - 13_999));
    assert_eq!((track[0].start_time, track[0].end_time), (11_000, 12_000));
    assert_eq!((track[1].start_time, track[1].end_time), (13_000, 14_000));
    assert!(shift_subtitles(&mut track, u64::MAX - 14_000));
    assert_eq!(track[1].end_time, u64::MAX);
}

#[test]
fn end_to_end_scenario() {
    let cuts = vec![30_000, 75_000];
    assert!(cut_points_valid(&cuts, 100_000));
    let segments = derive_offsets(&cuts, 100_000);
    assert_eq!(
        segments,
        vec![
            Segment { offset: 0, duration: 30_000 },
            Segment { offset: 30_000, duration: 45_000 },
            Segment { offset: 75_000, duration: 25_000 },
        ]
    );
    let contents = vec![
        block(1, "00:00:00,000 --> 00:00:29,000", "one"),
        block(1, "00:00:10,000 --> 00:00:44,000", "two"),
        block(1, "00:00:20,000 --> 00:00:27,500", "three overruns"),
    ];
    let fragments: Vec<Fragment> = segments
        .iter()
        .zip(contents.iter())
        .map(|(s, c)| Fragment { offset: s.offset, content: c.clone() })
        .collect();
    let track = merge_fragments(&fragments).unwrap();
    let last = track.last().unwrap();
    assert_eq!(last.end_time, 102_500);
    assert!(last.end_time <= 100_000 + 27_500 - 25_000);
    assert_eq!(track.len(), 3);
}

#[test]
fn no_cut_points_give_one_segment() {
    assert_eq!(derive_offsets(&Vec::new(), 100_000), vec![Segment { offset: 0, duration: 100_000 }]);
    assert_eq!(derive_offsets(&Vec::new(), 0), vec![Segment { offset: 0, duration: 0 }]);
}

#[test]
fn cut_points_are_checked() {
    assert!(cut_points_valid(&Vec::new(), 0));
    assert!(cut_points_valid(&vec![1, 2, 99], 100));
    assert!(!cut_points_valid(&vec![0, 50], 100));
    assert!(!cut_points_valid(&vec![50, 100], 100));
    assert!(!cut_points_valid(&vec![50, 50], 100));
    assert!(!cut_points_valid(&vec![60, 50], 100));
}

#[test]
fn cut_points_stay_sorted_without_duplicates() {
    let mut cuts: Vec<u64> = Vec::new();
    for p in [50_000, 10_000, 75_000, 10_000, 30_000, 75_000] {
        add_cut_point(&mut cuts, p);
    }
    assert_eq!(cuts, vec![10_000, 30_000, 50_000, 75_000]);
    remove_cut_point(&mut cuts, 1);
    assert_eq!(cuts, vec![10_000, 50_000, 75_000]);
    remove_cut_point(&mut cuts, 3);
    assert_eq!(cuts, vec![10_000, 50_000, 75_000]);
}
