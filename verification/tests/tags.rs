use yoteoke::{LyricTag, ParsedLyrics};

fn tag(position: usize, text: &str) -> LyricTag {
    LyricTag { position, tag: text.to_string() }
}

#[test]
fn text_without_brackets_is_untouched() {
    let (tags, text) = ParsedLyrics::extract_tags("plain words, no tags");
    assert_eq!(tags, Vec::<LyricTag>::new());
    assert_eq!(text, "plain words, no tags");
}

#[test]
fn empty_line_has_nothing() {
    let (tags, text) = ParsedLyrics::extract_tags("");
    assert_eq!(tags, Vec::<LyricTag>::new());
    assert_eq!(text, "");
}

#[test]
fn every_span_is_taken_out() {
    let (tags, text) = ParsedLyrics::extract_tags("[00:00.000]Hello [x]big [] [00:02.000]world[!]");
    assert_eq!(text, "Hello big  world");
    assert_eq!(
        tags,
        vec![
            tag(0, "[00:00.000]"),
            tag(6, "[x]"),
            tag(10, "[]"),
            tag(11, "[00:02.000]"),
            tag(16, "[!]"),
        ]
    );
}

#[test]
fn stripping_gives_back_the_text_between_spans() {
    let texts = ["one ", "", " two] ", "three"];
    let spans = ["[00:01.000]", "[[nested]", "[no time]"];
    let mut line = String::new();
    let mut expected = String::new();
    for i in 0..texts.len() {
        line.push_str(texts[i]);
        expected.push_str(texts[i]);
        if i < spans.len() {
            line.push_str(spans[i]);
        }
    }
    let (tags, text) = ParsedLyrics::extract_tags(&line);
    assert_eq!(text, expected);
    assert_eq!(tags.len(), spans.len());
}

#[test]
fn closing_bracket_outside_a_tag_is_text() {
    let (tags, text) = ParsedLyrics::extract_tags("a]b[c]d]");
    assert_eq!(text, "a]bd]");
    assert_eq!(tags, vec![tag(3, "[c]")]);
}

#[test]
fn unclosed_bracket_hides_what_follows() {
    let (tags, text) = ParsedLyrics::extract_tags("ab[cd");
    assert_eq!(text, "ab");
    assert_eq!(tags, Vec::<LyricTag>::new());
}

#[test]
fn opening_bracket_inside_a_tag_starts_it_anew() {
    let (tags, text) = ParsedLyrics::extract_tags("[a[00:01.000]xy[c]");
    assert_eq!(text, "xy");
    assert_eq!(tags, vec![tag(2, "[00:01.000]"), tag(4, "[c]")]);
}

#[test]
fn tag_positions_count_characters() {
    let (tags, text) = ParsedLyrics::extract_tags("\u{65e5}\u{672c}[a]\u{8a9e}[b]");
    assert_eq!(text, "\u{65e5}\u{672c}\u{8a9e}");
    assert_eq!(tags, vec![tag(2, "[a]"), tag(3, "[b]")]);
}
