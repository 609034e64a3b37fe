use yoteoke::{Block, ParsedLyrics, Timestamp};

fn parse(text: &str) -> ParsedLyrics {
    ParsedLyrics::parse(&text.to_string()).unwrap()
}

fn anchor(position: usize, time: u64) -> Timestamp {
    Timestamp { position, time }
}

#[test]
fn end_to_end_two_blocks() {
    let lyrics = parse("[00:00.000]Hello [00:02.000]world\n\n[00:05.000]Next [00:07.000]block");
    assert_eq!(lyrics.blocks.len(), 2);
    let first = &lyrics.blocks[0];
    assert_eq!(first.lyrics, "Hello world\n");
    assert_eq!(first.timestamps, vec![anchor(0, 0), anchor(6, 2000)]);
    assert_eq!(first.chars_sung_at(1000), 3);
    let second = &lyrics.blocks[1];
    assert_eq!(second.lyrics, "Next block\n");
    assert_eq!(second.timestamps, vec![anchor(0, 5000), anchor(5, 7000)]);
    assert_eq!(lyrics.get_block_at_time(4500, 1000), Some(second));
    assert_eq!(lyrics.get_block_at_time(3000, 1000), None);
}

#[test]
fn empty_text_has_no_blocks() {
    assert_eq!(parse("").blocks, Vec::<Block>::new());
    assert_eq!(parse("\n\n\n").blocks, Vec::<Block>::new());
    assert_eq!(parse("   \n\t\n").blocks, Vec::<Block>::new());
}

#[test]
fn last_block_needs_no_blank_line() {
    let lyrics = parse("one\ntwo");
    assert_eq!(lyrics.blocks.len(), 1);
    assert_eq!(lyrics.blocks[0].lyrics, "one\ntwo\n");
    assert_eq!(parse("one\ntwo\n"), lyrics);
    assert_eq!(parse("one\ntwo\n\n"), lyrics);
}

#[test]
fn positions_count_from_the_start_of_the_block() {
    let lyrics = parse("[00:01.000]la [00:02.000]la\ntext[00:03.250]\n[00:04.000]end");
    assert_eq!(lyrics.blocks.len(), 1);
    let block = &lyrics.blocks[0];
    assert_eq!(block.lyrics, "la la\ntext\nend\n");
    assert_eq!(
        block.timestamps,
        vec![anchor(0, 1000), anchor(3, 2000), anchor(10, 3250), anchor(11, 4000)]
    );
}

#[test]
fn carriage_returns_end_lines() {
    let unix = parse("[00:01.500]la [00:02.000]la\n\n[bad]text[00:03.250]\n[00:04.000]end");
    let dos = parse("[00:01.500]la [00:02.000]la\r\n\r\n[bad]text[00:03.250]\r\n[00:04.000]end");
    let mac = parse("[00:01.500]la [00:02.000]la\r\r[bad]text[00:03.250]\r[00:04.000]end");
    assert_eq!(unix.blocks.len(), 2);
    assert_eq!(unix.blocks[0].lyrics, "la la\n");
    assert_eq!(unix.blocks[1].lyrics, "text\nend\n");
    assert_eq!(unix.blocks[1].timestamps, vec![anchor(4, 3250), anchor(5, 4000)]);
    assert_eq!(dos, unix);
    assert_eq!(mac, unix);
}

#[test]
fn lone_carriage_return_parts_two_lines() {
    let lyrics = parse("a\rb");
    assert_eq!(lyrics.blocks.len(), 1);
    assert_eq!(lyrics.blocks[0].lyrics, "a\nb\n");
}

#[test]
fn lines_are_trimmed() {
    let lyrics = parse("   \t[00:01.000]word  \n\u{a0}next\u{3000}");
    assert_eq!(lyrics.blocks.len(), 1);
    assert_eq!(lyrics.blocks[0].lyrics, "word\nnext\n");
    assert_eq!(lyrics.blocks[0].timestamps, vec![anchor(0, 1000)]);
}

#[test]
fn white_space_inside_a_line_stays() {
    let lyrics = parse("a  b [00:01.000] c");
    assert_eq!(lyrics.blocks[0].lyrics, "a  b  c\n");
    assert_eq!(lyrics.blocks[0].timestamps, vec![anchor(5, 1000)]);
}

#[test]
fn blank_lines_part_blocks_once() {
    let one = parse("A\n\nB");
    assert_eq!(one.blocks.len(), 2);
    assert_eq!(one.blocks[0].lyrics, "A\n");
    assert_eq!(one.blocks[1].lyrics, "B\n");
    assert_eq!(parse("A\n\n\nB"), one);
    assert_eq!(parse("A\n\n\n\n\n\nB"), one);
    assert_eq!(parse("A\n  \n\t\nB"), one);
    assert_eq!(parse("\n\nA\n\nB\n\n"), one);
}

#[test]
fn tags_that_give_no_time_are_dropped_from_the_text() {
    let lyrics = parse("[chorus]la [1:2]la [00:01.000");
    assert_eq!(lyrics.blocks.len(), 1);
    assert_eq!(lyrics.blocks[0].lyrics, "la la \n");
    assert_eq!(lyrics.blocks[0].timestamps, Vec::<Timestamp>::new());
}

#[test]
fn tag_only_line_makes_a_block() {
    let lyrics = parse("[00:01.000]");
    assert_eq!(lyrics.blocks.len(), 1);
    assert_eq!(lyrics.blocks[0].lyrics, "\n");
    assert_eq!(lyrics.blocks[0].timestamps, vec![anchor(0, 1000)]);
}

#[test]
fn tags_side_by_side_share_a_position() {
    let lyrics = parse("ab[00:01.000][00:02.000]cd[00:03.000]");
    assert_eq!(lyrics.blocks[0].lyrics, "abcd\n");
    assert_eq!(
        lyrics.blocks[0].timestamps,
        vec![anchor(2, 1000), anchor(2, 2000), anchor(4, 3000)]
    );
}

#[test]
fn milliseconds_are_taken_as_written() {
    let lyrics = parse("[00:00.5]a[00:00.50]b[00:00.5000]c[1:1.1]d");
    assert_eq!(
        lyrics.blocks[0].timestamps,
        vec![anchor(0, 5), anchor(1, 50), anchor(2, 5000), anchor(3, 61001)]
    );
}

#[test]
fn numerals_out_of_range_give_no_anchor() {
    let lyrics = parse("[4294967296:00.000]x[4294967295:00.000]y[0:4294967296.0]z[0:0.4294967296]");
    assert_eq!(lyrics.blocks[0].lyrics, "xyz\n");
    assert_eq!(lyrics.blocks[0].timestamps, vec![anchor(1, 4294967295 * 60000)]);
}

#[test]
fn largest_time_fits() {
    let lyrics = parse("[4294967295:4294967295.4294967295]");
    let time = (4294967295u64 * 60 + 4294967295) * 1000 + 4294967295;
    assert_eq!(lyrics.blocks[0].timestamps, vec![anchor(0, time)]);
}

#[test]
fn positions_count_characters() {
    let lyrics = parse("\u{e9}t\u{e9}[00:01.000]\u{65e5}\u{672c}[00:02.000]");
    assert_eq!(lyrics.blocks[0].lyrics, "\u{e9}t\u{e9}\u{65e5}\u{672c}\n");
    assert_eq!(lyrics.blocks[0].timestamps, vec![anchor(3, 1000), anchor(5, 2000)]);
}

#[test]
fn unclosed_bracket_drops_the_rest_of_the_line() {
    let lyrics = parse("keep [00:01.000]this [not closed\nnext line");
    assert_eq!(lyrics.blocks[0].lyrics, "keep this \nnext line\n");
    assert_eq!(lyrics.blocks[0].timestamps, vec![anchor(5, 1000)]);
}

#[test]
fn anchors_may_run_backwards() {
    let lyrics = parse("[00:05.000]a[00:01.000]b");
    assert_eq!(lyrics.blocks[0].timestamps, vec![anchor(0, 5000), anchor(1, 1000)]);
    assert_eq!(lyrics.blocks[0].chars_sung_at(3000), 0);
}
