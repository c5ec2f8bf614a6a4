use roses::html::{content_blocks, Segment};
use roses::images::half_block_runs;
use roses::text::strip_control_chars;
use roses::theme::{parse_hex, Rgb};
use roses::opml::xml_escape;
use roses::feedbin::id_chunks;
use roses::store::stale_unread;

#[test]
fn stripping_leaves_no_control_character() {
    let s: String = (0u32..0x200).filter_map(char::from_u32).collect();
    let out = strip_control_chars(&s);
    assert!(out.chars().all(|c| !c.is_control()));
    assert_eq!(out.chars().count(), s.chars().filter(|c| !c.is_control()).count());
}

#[test]
fn escaping_leaves_no_markup_character() {
    let out = xml_escape("<a href=\"x\" title='y'>&</a>");
    assert!(!out.contains('<') && !out.contains('>') && !out.contains('"') && !out.contains('\''));
}

#[test]
fn shorthand_color_is_each_digit_doubled() {
    assert_eq!(parse_hex("#9c3"), parse_hex("#99cc33"));
    assert_eq!(parse_hex("#9c3"), Some(Rgb { r: 0x99, g: 0xCC, b: 0x33 }));
}

#[test]
fn runs_expand_back_to_the_cells() {
    let a = Rgb { r: 1, g: 1, b: 1 };
    let b = Rgb { r: 2, g: 2, b: 2 };
    let cells = vec![(a, b), (a, b), (a, a), (b, b), (b, b), (b, b)];
    let mut back = Vec::new();
    for (cell, n) in half_block_runs(&cells) {
        assert!(n > 0);
        back.extend(std::iter::repeat(cell).take(n));
    }
    assert_eq!(back, cells);
}

#[test]
fn batching_ids_loses_none() {
    let ids: Vec<i64> = (0..2345).collect();
    let chunks = id_chunks(&ids, 1000);
    assert!(chunks.iter().all(|c| !c.is_empty() && c.len() <= 1000));
    assert_eq!(chunks.concat(), ids);
}

#[test]
fn reconcile_marks_exactly_the_absent() {
    let cached = vec![1, 2, 3, 4, 5];
    let unread = vec![2, 4, 9];
    let stale = stale_unread(&cached, &unread);
    assert_eq!(stale, vec![1, 3, 5]);
}

#[test]
fn escaping_round_trips_and_keeps_plain_text() {
    let s = "Tom & Jerry <\"quoted\"> 'tick'";
    let out = xml_escape(s);
    let back = out
        .replace("&lt;", "<")
        .replace("&gt;", ">")
        .replace("&quot;", "\"")
        .replace("&apos;", "'")
        .replace("&amp;", "&");
    assert_eq!(back, s);
    for (i, _) in out.match_indices('&') {
        let rest = &out[i..];
        assert!(["&amp;", "&lt;", "&gt;", "&quot;", "&apos;"].iter().any(|e| rest.starts_with(e)));
    }
    assert_eq!(xml_escape("plain text"), "plain text");
}

#[test]
fn writes_go_out_in_ceil_n_over_1000_batches() {
    let ids: Vec<i64> = (0..2500).collect();
    assert_eq!(id_chunks(&ids, 1000).len(), 3);
    assert_eq!(id_chunks(&ids[..1000], 1000).len(), 1);
    assert!(id_chunks(&[], 1000).is_empty());
}

#[test]
fn wrapping_only_breaks_between_words() {
    let lines = roses::reader::wrap_title("Hello World Foo", 10);
    assert_eq!(lines.join(" "), "Hello World Foo");
    assert!(lines.iter().all(|l| !l.is_empty()));
    assert_eq!(roses::reader::wrap_title("   ", 10), vec![String::new()]);
}

#[test]
fn content_segments_are_tidy() {
    let blocks = content_blocks("<p>  safe\u{1b}[31mtext  </p><img src=\"https://x/i.png\"><p>\n\n</p>");
    for b in &blocks {
        match b {
            Segment::Text(t) => {
                assert!(!t.is_empty());
                assert_eq!(t.trim(), t);
                assert!(t.chars().all(|c| c == '\n' || c == '\t' || !c.is_control()));
            }
            Segment::Image(u) => assert!(!u.is_empty()),
        }
    }
    assert!(matches!(&blocks[0], Segment::Text(t) if t.contains("safe") && !t.contains('\u{1b}')));
}

#[test]
fn sanitized_text_is_clean_and_stable() {
    let raw = "  first line   \n\n\n\n second\t \n\u{7}\n\n\nthird  \n\n";
    let once = roses::html::sanitize(raw);
    assert_eq!(roses::html::sanitize(&once), once, "sanitizing twice changes nothing");
    assert!(!once.contains("\n\n\n"), "no two blank lines in a row");
    for line in once.lines() {
        assert_eq!(line.trim_end(), line, "no line ends in whitespace");
    }
    assert_eq!(once.trim(), once);
}

#[test]
fn wrapped_lines_fit_the_width() {
    for width in [1u16, 5, 10, 20] {
        for line in roses::reader::wrap_title("A quick brown fox jumps over the extraordinarily lazy dog", width) {
            assert!(unicode_width::UnicodeWidthStr::width(line.as_str()) <= width as usize, "{line:?} at {width}");
        }
    }
}
