use yoteoke::{Block, ParsedLyrics, Timestamp};

fn anchor(position: usize, time: u64) -> Timestamp {
    Timestamp { position, time }
}

fn block(text: &str, anchors: &[(usize, u64)]) -> Block {
    Block {
        lyrics: text.to_string(),
        timestamps: anchors.iter().map(|a| anchor(a.0, a.1)).collect(),
    }
}

#[test]
fn block_without_anchors_has_no_times() {
    let b = block("words\n", &[]);
    assert_eq!(b.start_time(), None);
    assert_eq!(b.end_time(), None);
    assert_eq!(b.get_time_range(), None);
    assert_eq!(b.get_timestamps_surrounding(0), None);
}

#[test]
fn block_with_one_anchor_has_no_window() {
    let b = block("words\n", &[(0, 1500)]);
    assert_eq!(b.start_time(), Some(1500));
    assert_eq!(b.end_time(), Some(1500));
    assert_eq!(b.get_time_range(), None);
    assert_eq!(b.get_timestamps_surrounding(1500), None);
    let sheet = ParsedLyrics { blocks: vec![b] };
    assert_eq!(sheet.get_block_at_time(1500, 1000), None);
}

#[test]
fn window_runs_from_first_to_last_anchor() {
    let b = block("some words\n", &[(0, 1000), (5, 9000), (10, 4000)]);
    assert_eq!(b.start_time(), Some(1000));
    assert_eq!(b.end_time(), Some(4000));
    assert_eq!(b.get_time_range(), Some(1000..4000));
}

#[test]
fn surrounding_pair_encloses_the_time() {
    let b = block("some words\n", &[(0, 1000), (5, 2000), (10, 4000)]);
    assert_eq!(b.get_timestamps_surrounding(999), None);
    assert_eq!(b.get_timestamps_surrounding(1000), Some((anchor(0, 1000), anchor(5, 2000))));
    assert_eq!(b.get_timestamps_surrounding(1999), Some((anchor(0, 1000), anchor(5, 2000))));
    assert_eq!(b.get_timestamps_surrounding(2000), Some((anchor(5, 2000), anchor(10, 4000))));
    assert_eq!(b.get_timestamps_surrounding(3999), Some((anchor(5, 2000), anchor(10, 4000))));
    assert_eq!(b.get_timestamps_surrounding(4000), None);
    assert_eq!(b.get_timestamps_surrounding(4001), None);
}

#[test]
fn each_anchor_opens_its_own_pair() {
    let times = [500u64, 1200, 1201, 7000, 65000];
    let anchors: Vec<(usize, u64)> = times.iter().enumerate().map(|(i, t)| (i * 3, *t)).collect();
    let b = block("a long enough line of text\n", &anchors);
    for i in 0..times.len() - 1 {
        assert_eq!(
            b.get_timestamps_surrounding(times[i]),
            Some((anchor(i * 3, times[i]), anchor(i * 3 + 3, times[i + 1])))
        );
    }
    assert_eq!(b.get_timestamps_surrounding(65000), None);
}

#[test]
fn surrounding_takes_the_first_later_anchor() {
    let b = block("some words\n", &[(0, 1000), (3, 5000), (6, 2000), (9, 6000)]);
    assert_eq!(b.get_timestamps_surrounding(3000), Some((anchor(0, 1000), anchor(3, 5000))));
    assert_eq!(b.get_timestamps_surrounding(5500), Some((anchor(6, 2000), anchor(9, 6000))));
}

#[test]
fn block_is_active_from_lead_before_start_through_end() {
    let sheet = ParsedLyrics { blocks: vec![block("words\n", &[(0, 5000), (5, 7000)])] };
    let only = Some(&sheet.blocks[0]);
    assert_eq!(sheet.get_block_at_time(1999, 3000), None);
    assert_eq!(sheet.get_block_at_time(2000, 3000), only);
    assert_eq!(sheet.get_block_at_time(4999, 0), None);
    assert_eq!(sheet.get_block_at_time(5000, 0), only);
    assert_eq!(sheet.get_block_at_time(6000, 3000), only);
    assert_eq!(sheet.get_block_at_time(7000, 3000), only);
    assert_eq!(sheet.get_block_at_time(7000, 0), only);
    assert_eq!(sheet.get_block_at_time(7001, 3000), None);
    assert_eq!(sheet.get_block_at_time(u64::MAX, u64::MAX), None);
    assert_eq!(sheet.get_block_at_time(0, u64::MAX), only);
}

#[test]
fn first_active_block_wins() {
    let sheet = ParsedLyrics {
        blocks: vec![
            block("skipped\n", &[(0, 100)]),
            block("first\n", &[(0, 1000), (5, 3000)]),
            block("second\n", &[(0, 2000), (6, 5000)]),
        ],
    };
    assert_eq!(sheet.get_block_at_time(2500, 0), Some(&sheet.blocks[1]));
    assert_eq!(sheet.get_block_at_time(3000, 0), Some(&sheet.blocks[1]));
    assert_eq!(sheet.get_block_at_time(3001, 0), Some(&sheet.blocks[2]));
    assert_eq!(sheet.get_block_at_time(500, 1500), Some(&sheet.blocks[1]));
    assert_eq!(sheet.get_block_at_time(5001, 0), None);
}

#[test]
fn window_that_ends_before_it_starts_is_never_met_ahead() {
    let sheet = ParsedLyrics { blocks: vec![block("words\n", &[(0, 5000), (5, 1000)])] };
    assert_eq!(sheet.get_block_at_time(4000, 1000), None);
    assert_eq!(sheet.get_block_at_time(1000, 4000), Some(&sheet.blocks[0]));
}

#[test]
fn empty_sheet_shows_nothing() {
    let sheet = ParsedLyrics { blocks: Vec::new() };
    assert_eq!(sheet.get_block_at_time(0, 3000), None);
    assert_eq!(sheet.sung_unsung_at(0, 3000), None);
}
