use whisper_srt::manual_cut::reconcile_range;
use whisper_srt::subtitle::{
    format_srt_content, insert_subtitle, insert_subtitles, parse_srt_content, reindex_subtitles,
    remove_subtitles_in_range, sort_subtitles_by_time, SubtitleEntry,
};
use whisper_srt::time::TimeError;

fn entry(index: usize, start: u64, end: u64, text: &str) -> SubtitleEntry {
    SubtitleEntry::new(index, start, end, text.to_string())
}

fn summary(track: &[SubtitleEntry]) -> Vec<(usize, u64, u64, String)> {
    track.iter().map(|e| (e.index, e.start_time, e.end_time, e.text.clone())).collect()
}

fn row(index: usize, start: u64, end: u64, text: &str) -> (usize, u64, u64, String) {
    (index, start, end, text.to_string())
}

#[test]
fn entry_block_is_written_exactly() {
    let e = entry(7, 5_650, 600_378, "Hello\nworld");
    assert_eq!(e.to_srt_string(), "7\n00:00:05,650 --> 00:10:00,378\nHello\nworld\n\n");
}

#[test]
fn track_text_is_blocks_in_given_order() {
    let track = vec![entry(2, 3_000, 4_000, "b"), entry(1, 1_000, 2_000, "a")];
    assert_eq!(
        format_srt_content(&track),
        "2\n00:00:03,000 --> 00:00:04,000\nb\n\n1\n00:00:01,000 --> 00:00:02,000\na\n\n"
    );
    assert_eq!(format_srt_content(&Vec::new()), "");
}

#[test]
fn parse_reads_well_formed_blocks() {
    let text = "1\n00:00:01,000 --> 00:00:02,500\nHello\n\n2\n00:00:03,000 --> 00:00:04,000\nTwo\nlines\n\n";
    let track = parse_srt_content(text).unwrap();
    assert_eq!(summary(&track), vec![row(1, 1_000, 2_500, "Hello"), row(2, 3_000, 4_000, "Two\nlines")]);
}

#[test]
fn parse_trims_lines_and_takes_carriage_returns() {
    let text = "  1 \r\n 00:00:01,000   -->   00:00:02,000 \r\n  Hello  \r\n\tthere\r\n \r\n";
    let track = parse_srt_content(text).unwrap();
    assert_eq!(summary(&track), vec![row(1, 1_000, 2_000, "Hello\nthere")]);
}

#[test]
fn parse_keeps_the_numbers_of_the_text() {
    let text = "42\n00:00:01,000 --> 00:00:02,000\nx\n\n7\n00:00:00,500 --> 00:00:00,900\ny\n";
    let track = parse_srt_content(text).unwrap();
    assert_eq!(summary(&track), vec![row(42, 1_000, 2_000, "x"), row(7, 500, 900, "y")]);
}

#[test]
fn parse_accepts_a_block_without_text() {
    let text = "1\n00:00:01,000 --> 00:00:02,000\n\n2\n00:00:03,000 --> 00:00:04,000\nb\n";
    let track = parse_srt_content(text).unwrap();
    assert_eq!(summary(&track), vec![row(1, 1_000, 2_000, ""), row(2, 3_000, 4_000, "b")]);
}

#[test]
fn lenient_parse_index_line_followed_by_index_line() {
    let text = "1\n00:00:01,000 --> 00:00:02,000\nHello\n\n2\n3\n";
    let track = parse_srt_content(text).unwrap();
    assert_eq!(summary(&track), vec![row(1, 1_000, 2_000, "Hello")]);
}

#[test]
fn lenient_parse_stray_index_line_before_a_block() {
    let text = "5\n1\n00:00:01,000 --> 00:00:02,000\nHello\n\n";
    let track = parse_srt_content(text).unwrap();
    assert_eq!(summary(&track), vec![row(1, 1_000, 2_000, "Hello")]);
}

#[test]
fn lenient_parse_passes_over_bad_timing_lines() {
    let text = "1\n00:00:01 --> 00:00:02\nbad\n\n2\n00:00:03,000 --> 00:00:04,000\ngood\n\n3\n00:00:05,000 --> 00:00:06,000 --> 00:00:07,000\nbad\n\n4\n00:00:08,000 -> 00:00:09,000\nbad\n";
    let track = parse_srt_content(text).unwrap();
    assert_eq!(summary(&track), vec![row(2, 3_000, 4_000, "good")]);
}

#[test]
fn parse_of_nothing_is_an_empty_track() {
    assert_eq!(parse_srt_content("").unwrap().len(), 0);
    assert_eq!(parse_srt_content("\n\n  \n").unwrap().len(), 0);
    assert_eq!(parse_srt_content("just words\nand more\n").unwrap().len(), 0);
    assert_eq!(parse_srt_content("1").unwrap().len(), 0);
}

#[test]
fn parse_refuses_a_block_that_does_not_run_forward() {
    let backwards = "1\n00:00:02,000 --> 00:00:01,000\nx\n";
    assert_eq!(parse_srt_content(backwards).err(), Some(TimeError::InvalidInterval));
    let empty = "1\n00:00:01,000 --> 00:00:02,000\nx\n\n2\n00:00:03,000 --> 00:00:03,000\ny\n";
    assert_eq!(parse_srt_content(empty).err(), Some(TimeError::InvalidInterval));
}

#[test]
fn written_track_reads_back() {
    let track = vec![entry(1, 0, 1_500, "first"), entry(2, 1_500, 3_000, "second\nline"), entry(3, 3_600_000, 3_600_001, "late")];
    let back = parse_srt_content(&format_srt_content(&track)).unwrap();
    assert_eq!(summary(&back), summary(&track));
}

#[test]
fn reindex_numbers_from_one() {
    let mut track = vec![entry(9, 5, 6, "a"), entry(0, 1, 2, "b"), entry(9, 3, 4, "c")];
    reindex_subtitles(&mut track);
    assert_eq!(summary(&track), vec![row(1, 5, 6, "a"), row(2, 1, 2, "b"), row(3, 3, 4, "c")]);
    let mut none: Vec<SubtitleEntry> = Vec::new();
    reindex_subtitles(&mut none);
    assert!(none.is_empty());
}

#[test]
fn sort_is_by_start_and_stable() {
    let mut track = vec![
        entry(1, 30, 40, "c1"),
        entry(2, 10, 20, "a1"),
        entry(3, 30, 35, "c2"),
        entry(4, 20, 25, "b"),
        entry(5, 10, 99, "a2"),
        entry(6, 30, 31, "c3"),
    ];
    sort_subtitles_by_time(&mut track);
    assert_eq!(
        summary(&track),
        vec![
            row(2, 10, 20, "a1"),
            row(5, 10, 99, "a2"),
            row(4, 20, 25, "b"),
            row(1, 30, 40, "c1"),
            row(3, 30, 35, "c2"),
            row(6, 30, 31, "c3"),
        ]
    );
}

#[test]
fn sort_leaves_a_sorted_track_alone() {
    let mut track = vec![entry(1, 1, 2, "a"), entry(2, 1, 3, "b"), entry(3, 5, 6, "c")];
    sort_subtitles_by_time(&mut track);
    assert_eq!(summary(&track), vec![row(1, 1, 2, "a"), row(2, 1, 3, "b"), row(3, 5, 6, "c")]);
}

#[test]
fn remove_in_range_takes_every_overlap() {
    let mut track = vec![
        entry(1, 0, 1_000, "before"),
        entry(2, 500, 1_001, "reaches in"),
        entry(3, 1_000, 2_000, "inside"),
        entry(4, 1_999, 5_000, "reaches out"),
        entry(5, 2_000, 3_000, "after"),
        entry(6, 0, 9_000, "covers"),
    ];
    remove_subtitles_in_range(&mut track, 1_000, 2_000);
    assert_eq!(summary(&track), vec![row(1, 0, 1_000, "before"), row(5, 2_000, 3_000, "after")]);
    for e in &track {
        assert!(!(e.start_time < 2_000 && e.end_time > 1_000));
    }
}

#[test]
fn remove_in_range_with_empty_window_keeps_what_touches_it() {
    let mut track = vec![entry(1, 0, 10, "a"), entry(2, 10, 20, "b")];
    remove_subtitles_in_range(&mut track, 10, 10);
    assert_eq!(summary(&track), vec![row(1, 0, 10, "a"), row(2, 10, 20, "b")]);
}

#[test]
fn insert_goes_before_the_first_later_start() {
    let mut track = vec![entry(1, 10, 20, "a"), entry(2, 30, 40, "b"), entry(3, 30, 50, "c"), entry(4, 60, 70, "d")];
    insert_subtitle(&mut track, entry(9, 30, 31, "new"));
    assert_eq!(
        summary(&track),
        vec![row(1, 10, 20, "a"), row(2, 30, 40, "b"), row(3, 30, 50, "c"), row(9, 30, 31, "new"), row(4, 60, 70, "d")]
    );
    insert_subtitle(&mut track, entry(8, 99, 100, "last"));
    assert_eq!(track.last().unwrap().text, "last");
    insert_subtitle(&mut track, entry(7, 0, 1, "first"));
    assert_eq!(track[0].text, "first");
}

#[test]
fn insert_many_sorts_and_renumbers() {
    let mut track = vec![entry(1, 10_000, 11_000, "a"), entry(2, 30_000, 31_000, "c")];
    insert_subtitles(&mut track, vec![entry(1, 40_000, 41_000, "d"), entry(2, 20_000, 21_000, "b")]);
    assert_eq!(
        summary(&track),
        vec![row(1, 10_000, 11_000, "a"), row(2, 20_000, 21_000, "b"), row(3, 30_000, 31_000, "c"), row(4, 40_000, 41_000, "d")]
    );
}

#[test]
fn reconcile_replaces_what_the_window_held() {
    let mut track = vec![
        entry(1, 0, 5_000, "keep 1"),
        entry(2, 5_000, 12_000, "old, reaches in"),
        entry(3, 12_000, 18_000, "old, inside"),
        entry(4, 20_000, 25_000, "keep 2"),
    ];
    reconcile_range(&mut track, 10_000, 20_000, vec![entry(1, 15_000, 19_000, "new 2"), entry(2, 10_000, 14_000, "new 1")]);
    assert_eq!(
        summary(&track),
        vec![row(1, 0, 5_000, "keep 1"), row(2, 10_000, 14_000, "new 1"), row(3, 15_000, 19_000, "new 2"), row(4, 20_000, 25_000, "keep 2")]
    );
}

#[test]
fn reindex_contiguity_after_edits() {
    let mut track = vec![entry(5, 0, 10, "a"), entry(6, 10, 20, "b"), entry(7, 20, 30, "c"), entry(8, 30, 40, "d")];
    remove_subtitles_in_range(&mut track, 10, 20);
    reindex_subtitles(&mut track);
    insert_subtitles(&mut track, vec![entry(1, 12, 18, "x")]);
    reconcile_range(&mut track, 25, 45, vec![entry(1, 26, 27, "y"), entry(2, 28, 29, "z")]);
    for (i, e) in track.iter().enumerate() {
        assert_eq!(e.index, i + 1);
    }
    assert_eq!(track.len(), 4);
}
