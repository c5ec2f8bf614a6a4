use roses::html::{content_blocks, decode_entities, decode_entity, extract_img_src, is_block_tag, sanitize, tag_name, Segment};

fn html_to_text(html: &str) -> String {
    content_blocks(html)
        .into_iter()
        .filter_map(|segment| match segment {
            Segment::Text(text) => Some(text),
            Segment::Image(_) => None,
        })
        .collect::<Vec<_>>()
        .join("\n\n")
}

#[test]
fn html_to_text_strips_tags_and_breaks_paragraphs() {
    assert_eq!(html_to_text("a<br>b"), "a\nb");
    assert_eq!(html_to_text("<p>One <b>bold</b></p><p>Two</p>"), "One bold\n\nTwo");
}

#[test]
fn html_to_text_decodes_entities() {
    assert_eq!(
        html_to_text("Tom &amp; Jerry &lt;3 &#39;hi&#39; &#x2764; &nbsp;end"),
        "Tom & Jerry <3 'hi' ❤  end"
    );
}

#[test]
fn html_to_text_strips_control_chars_blocking_escape_injection() {
    let out = html_to_text("safe\u{1b}[31mtext");
    assert!(!out.contains('\u{1b}'), "escape byte must be stripped: {out:?}");
    assert!(out.contains("safe"));
}

#[test]
fn content_blocks_separate_images_from_text() {
    let blocks = content_blocks("<p>before</p><img src=\"https://x/i.png\" alt=\"a\"><p>after</p>");
    assert_eq!(blocks.len(), 3);
    assert!(matches!(&blocks[0], Segment::Text(t) if t == "before"));
    assert!(matches!(&blocks[1], Segment::Image(u) if u == "https://x/i.png"));
    assert!(matches!(&blocks[2], Segment::Text(t) if t == "after"));
}

#[test]
fn extract_img_src_handles_quotes_and_ignores_srcset() {
    assert_eq!(extract_img_src("img src=\"https://x/a.png\""), Some("https://x/a.png".to_string()));
    assert_eq!(extract_img_src("img src='https://x/b.png'"), Some("https://x/b.png".to_string()));
    assert_eq!(
        extract_img_src("img srcset=\"https://x/s.png 2x\" src=\"https://x/real.png\""),
        Some("https://x/real.png".to_string())
    );
    assert_eq!(extract_img_src("img alt=\"no source\""), None);
}

#[test]
fn tag_names_are_lowercased_and_trimmed() {
    assert_eq!(tag_name("/P "), "p");
    assert_eq!(tag_name("BR/"), "br");
    assert_eq!(tag_name("img src=x"), "img");
    assert!(is_block_tag("/Div"));
    assert!(is_block_tag("h3 class=x"));
    assert!(!is_block_tag("b"));
    assert!(!is_block_tag("span"));
}

#[test]
fn entities_decode_named_and_numeric_forms() {
    assert_eq!(decode_entity("amp"), Some("&".to_string()));
    assert_eq!(decode_entity("#65"), Some("A".to_string()));
    assert_eq!(decode_entity("#x41"), Some("A".to_string()));
    assert_eq!(decode_entity("#xD800"), None);
    assert_eq!(decode_entity("bogus"), None);
    assert_eq!(decode_entities("a &bogus; b &amp c"), "a &bogus; b &amp c");
}

#[test]
fn sanitize_collapses_blank_lines_and_trims() {
    assert_eq!(sanitize("  a  \n\n\n\nb\x1b \n"), "a\n\nb");
    assert_eq!(sanitize("\n\n"), "");
}
