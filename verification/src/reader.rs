//! What the reader pane and footer say: the media line, durations, the
//! loading indicator, wrapped article titles, and the lines of an entry.

use vstd::prelude::*;
use crate::decimal::{dec, dec_pad2, parse_u64, parse_u64_spec, push_dec, push_dec_pad2};
use crate::feedbin::{spec_external_url, spec_lead_image_url, Enclosure, Entry};
use crate::html::{content_blocks, content_blocks_spec, lines_of, seg_views, split_lines, views, Segment, SegmentView};
use crate::text::{chars_to_string, char_is_ws, is_ws, str_chars, string_push, strip_control_chars, strip_spec, trim, trim_str};
use crate::feedbin::spec_enclosure_url;
use crate::tui::{image_urls_exec, image_urls_of, ImageState};
use unicode_width::{UnicodeWidthChar, UnicodeWidthStr};

verus! {

/// `raw` as a clock time when it is a whole number of seconds.
pub open spec fn clock_text(secs: nat) -> Seq<char> {
    let h = secs / 3600;
    let m = (secs % 3600) / 60;
    let s = secs % 60;
    if h > 0 {
        dec(h) + ":"@ + dec_pad2(m) + ":"@ + dec_pad2(s)
    } else {
        dec(m) + ":"@ + dec_pad2(s)
    }
}

/// An iTunes duration for display: bare seconds become `H:MM:SS` / `M:SS`;
/// anything else passes through.
pub open spec fn format_duration_spec(raw: Seq<char>) -> Seq<char> {
    match parse_u64_spec(raw) {
        Some(secs) => clock_text(secs as nat),
        None => raw,
    }
}

/// Format an iTunes duration: bare seconds become `H:MM:SS` / `M:SS`;
/// anything else (already formatted) passes through.
pub fn format_duration(raw: &str) -> (r: String)
    ensures
        r@ == format_duration_spec(raw@),
{
    match parse_u64(raw) {
        Some(secs) => {
            let h = secs / 3600;
            let m = (secs % 3600) / 60;
            let s = secs % 60;
            let mut out = String::new();
            if h > 0 {
                push_dec(&mut out, h);
                out.append(":");
                push_dec_pad2(&mut out, m);
                out.append(":");
                push_dec_pad2(&mut out, s);
            } else {
                push_dec(&mut out, m);
                out.append(":");
                push_dec_pad2(&mut out, s);
            }
            out
        },
        None => String::from_str(raw),
    }
}

/// Whether `p` starts `s`.
pub fn has_prefix(s: &str, p: &str) -> (r: bool)
    ensures
        r == p@.is_prefix_of(s@),
{
    let sv = str_chars(s);
    let pv = str_chars(p);
    if pv.len() > sv.len() {
        return false;
    }
    let mut i: usize = 0;
    while i < pv.len()
        invariant
            0 <= i <= pv@.len(),
            pv@.len() <= sv@.len(),
            sv@ == s@,
            pv@ == p@,
            forall|k: int| 0 <= k < i ==> pv@[k] == sv@[k],
        decreases pv@.len() - i,
    {
        if pv[i] != sv[i] {
            proof {
                assert(p@ != s@.subrange(0, p@.len() as int)) by {
                    assert(s@.subrange(0, p@.len() as int)[i as int] == sv@[i as int]);
                }
            }
            return false;
        }
        i += 1;
    }
    proof {
        assert(p@ =~= s@.subrange(0, p@.len() as int));
    }
    true
}

/// The view of an optional string.
pub open spec fn opt_view(o: Option<String>) -> Option<Seq<char>> {
    match o {
        Some(s) => Some(s@),
        None => None,
    }
}

/// The media kind a MIME type names.
pub open spec fn media_kind(t: Option<Seq<char>>) -> Seq<char> {
    match t {
        Some(s) => if "video"@.is_prefix_of(s) {
            "Video"@
        } else if "audio"@.is_prefix_of(s) {
            "Audio"@
        } else {
            "Media"@
        },
        None => "Media"@,
    }
}

/// The podcast/media line of the reader header: the kind, then the
/// formatted duration when one is given.
pub open spec fn podcast_indicator_spec(enc: Enclosure) -> Seq<char> {
    let kind = media_kind(opt_view(enc.enclosure_type));
    match opt_view(enc.itunes_duration) {
        Some(d) => if trim(d).len() > 0 {
            kind + " · "@ + format_duration_spec(trim(d))
        } else {
            kind
        },
        None => kind,
    }
}

/// A short podcast/media indicator, e.g. "Audio · 47:03".
pub fn podcast_indicator(enc: &Enclosure) -> (r: String)
    ensures
        r@ == podcast_indicator_spec(*enc),
{
    let kind = match &enc.enclosure_type {
        Some(t) => if has_prefix(t.as_str(), "video") {
            "Video"
        } else if has_prefix(t.as_str(), "audio") {
            "Audio"
        } else {
            "Media"
        },
        None => "Media",
    };
    let mut out = String::from_str(kind);
    match &enc.itunes_duration {
        Some(d) => {
            let t = trim_str(d.as_str());
            if t.as_str().is_empty() {
                proof {
                    assert(t@.len() == 0);
                }
            } else {
                proof {
                    assert(t@.len() > 0);
                }
                out.append(" · ");
                let f = format_duration(t.as_str());
                out.append(f.as_str());
            }
        },
        None => {},
    }
    out
}

/// The spinner frame for animation tick `i`.
pub open spec fn spinner_spec(i: nat) -> char {
    let k = i % 10;
    if k == 0 {
        '⠋'
    } else if k == 1 {
        '⠙'
    } else if k == 2 {
        '⠹'
    } else if k == 3 {
        '⠸'
    } else if k == 4 {
        '⠼'
    } else if k == 5 {
        '⠴'
    } else if k == 6 {
        '⠦'
    } else if k == 7 {
        '⠧'
    } else if k == 8 {
        '⠇'
    } else {
        '⠏'
    }
}

fn spinner_frame(tick: usize) -> (c: char)
    ensures
        c == spinner_spec(tick as nat),
{
    let k = tick % 10;
    if k == 0 {
        '⠋'
    } else if k == 1 {
        '⠙'
    } else if k == 2 {
        '⠹'
    } else if k == 3 {
        '⠸'
    } else if k == 4 {
        '⠼'
    } else if k == 5 {
        '⠴'
    } else if k == 6 {
        '⠦'
    } else if k == 7 {
        '⠧'
    } else if k == 8 {
        '⠇'
    } else {
        '⠏'
    }
}

/// The footer's loading indicator text, e.g. "⠙ Loading 4 of 19 images".
pub open spec fn loading_text(done: nat, total: nat, tick: nat) -> Seq<char> {
    seq![spinner_spec(tick)] + " Loading "@ + dec(done) + " of "@ + dec(total) + " images"@
}

/// The lower-right loading indicator; the animation frame comes from `tick`.
pub fn loading_indicator(done: usize, total: usize, tick: usize) -> (r: String)
    ensures
        r@ == loading_text(done as nat, total as nat, tick as nat),
{
    let mut out = String::new();
    crate::text::string_push(&mut out, spinner_frame(tick));
    out.append(" Loading ");
    push_dec(&mut out, done as u64);
    out.append(" of ");
    push_dec(&mut out, total as u64);
    out.append(" images");
    out
}

/// Whether the background auto-refresh should fire now: it is enabled, no
/// fetch is in flight, and at least the interval has elapsed since the last
/// fetch. Times are in milliseconds.
pub fn should_auto_refresh(interval: Option<u64>, elapsed: u64, in_flight: bool) -> (r: bool)
    ensures
        r == match interval {
            Some(i) => !in_flight && elapsed >= i,
            None => false,
        },
{
    match interval {
        Some(i) => !in_flight && elapsed >= i,
        None => false,
    }
}


/// The display width `unicode_width` gives a string (`UnicodeWidthStr::width`).
pub uninterp spec fn str_width(s: Seq<char>) -> usize;

/// The display width `unicode_width` gives a character
/// (`UnicodeWidthChar::width`; `None` for control characters).
pub uninterp spec fn char_width(c: char) -> Option<usize>;

/// `unicode_width::UnicodeWidthStr::width`: the terminal columns `s` takes.
/// Its value is named, not stated: it follows the crate's Unicode tables.
#[verifier::external_body]
fn display_width(s: &str) -> (r: usize)
    ensures
        r == str_width(s@),
{
    UnicodeWidthStr::width(s)
}

/// `unicode_width::UnicodeWidthChar::width`: the columns `c` takes, `None`
/// for a control character. The crate documents no character wider than 3.
#[verifier::external_body]
fn char_display_width(c: char) -> (r: Option<usize>)
    ensures
        r == char_width(c),
        r matches Some(w) ==> w <= 3,
{
    UnicodeWidthChar::width(c)
}

/// Splitting state: the finished words and the word being read.
pub open spec fn words_acc(s: Seq<char>) -> (Seq<Seq<char>>, Seq<char>)
    decreases s.len(),
{
    if s.len() == 0 {
        (seq![], seq![])
    } else {
        let (ws, cur) = words_acc(s.drop_last());
        if is_ws(s.last()) {
            if cur.len() > 0 {
                (ws.push(cur), seq![])
            } else {
                (ws, cur)
            }
        } else {
            (ws, cur.push(s.last()))
        }
    }
}

/// The whitespace-separated words of `s` (`str::split_whitespace`).
pub open spec fn words(s: Seq<char>) -> Seq<Seq<char>> {
    let (ws, cur) = words_acc(s);
    if cur.len() > 0 {
        ws.push(cur)
    } else {
        ws
    }
}

/// The words of `s`, in order.
pub fn split_words(s: &str) -> (r: Vec<String>)
    ensures
        r@.map_values(|w: String| w@) == words(s@),
{
    let v = str_chars(s);
    let mut ws: Vec<String> = Vec::new();
    let mut cur = String::new();
    let mut i: usize = 0;
    while i < v.len()
        invariant
            0 <= i <= v@.len(),
            v@ == s@,
            (ws@.map_values(|w: String| w@), cur@) == words_acc(v@.take(i as int)),
        decreases v@.len() - i,
    {
        proof {
            assert(v@.take(i + 1).drop_last() == v@.take(i as int));
            assert(v@.take(i + 1).last() == v@[i as int]);
        }
        let c = v[i];
        if char_is_ws(c) {
            if !cur.as_str().is_empty() {
                let ghost before = ws@.map_values(|w: String| w@);
                let mut done = String::new();
                std::mem::swap(&mut done, &mut cur);
                ws.push(done);
                proof {
                    assert(ws@.map_values(|w: String| w@) =~= before.push(
                        words_acc(v@.take(i as int)).1,
                    ));
                }
            }
        } else {
            string_push(&mut cur, c);
        }
        i += 1;
    }
    proof {
        assert(v@.take(v@.len() as int) == v@);
    }
    if !cur.as_str().is_empty() {
        let ghost before = ws@.map_values(|w: String| w@);
        ws.push(cur);
        proof {
            assert(ws@.map_values(|w: String| w@) =~= before.push(words_acc(s@).1));
        }
    }
    ws
}

/// Wrapping state: the finished lines, the line being filled, its width.
pub open spec fn flush_line(st: (Seq<Seq<char>>, Seq<char>, int)) -> (Seq<Seq<char>>, Seq<char>, int) {
    (st.0.push(st.1), seq![], 0)
}

/// Place one character of an over-wide word, breaking the line first when
/// it would overflow a non-empty line.
pub open spec fn step_char(st: (Seq<Seq<char>>, Seq<char>, int), ch: char, width: int) -> (
    Seq<Seq<char>>,
    Seq<char>,
    int,
) {
    let cw = match char_width(ch) {
        Some(x) => x as int,
        None => 0,
    };
    let st1 = if st.2 + cw > width && st.2 > 0 {
        flush_line(st)
    } else {
        st
    };
    (st1.0, st1.1.push(ch), st1.2 + cw)
}

/// Place the characters `cs` one by one.
pub open spec fn wrap_chars(st: (Seq<Seq<char>>, Seq<char>, int), cs: Seq<char>, width: int) -> (
    Seq<Seq<char>>,
    Seq<char>,
    int,
)
    decreases cs.len(),
{
    if cs.len() == 0 {
        st
    } else {
        step_char(wrap_chars(st, cs.drop_last(), width), cs.last(), width)
    }
}

/// Place one word: a word wider than the line starts a fresh line and is
/// broken by characters; another goes on the current line after a space,
/// or on a fresh line when it would not fit.
pub open spec fn step_word(st: (Seq<Seq<char>>, Seq<char>, int), w: Seq<char>, width: int) -> (
    Seq<Seq<char>>,
    Seq<char>,
    int,
) {
    let ww = str_width(w) as int;
    if ww > width {
        wrap_chars(
            if st.2 > 0 {
                flush_line(st)
            } else {
                st
            },
            w,
            width,
        )
    } else {
        let sep: int = if st.2 > 0 {
            1
        } else {
            0
        };
        let st1 = if st.2 + sep + ww > width {
            flush_line(st)
        } else {
            st
        };
        let st2 = if st1.2 > 0 {
            (st1.0, st1.1.push(' '), st1.2 + 1)
        } else {
            st1
        };
        (st2.0, st2.1 + w, st2.2 + ww)
    }
}

/// Place the words `ws` in order on empty lines.
pub open spec fn wrap_words(ws: Seq<Seq<char>>, width: int) -> (Seq<Seq<char>>, Seq<char>, int)
    decreases ws.len(),
{
    if ws.len() == 0 {
        (seq![], seq![], 0)
    } else {
        step_word(wrap_words(ws.drop_last(), width), ws.last(), width)
    }
}

/// The wrapped lines of a title: never empty, width at least 1.
pub open spec fn wrap_title_spec(text: Seq<char>, width: u16) -> Seq<Seq<char>> {
    let w: int = if width < 1 {
        1
    } else {
        width as int
    };
    let st = wrap_words(words(text), w);
    if st.2 > 0 || st.0.len() == 0 {
        st.0.push(st.1)
    } else {
        st.0
    }
}

/// Move the current line into `lines`.
fn flush_exec(lines: &mut Vec<String>, line: &mut String)
    ensures
        final(lines)@.map_values(|l: String| l@) == old(lines)@.map_values(|l: String| l@).push(
            old(line)@,
        ),
        final(line)@.len() == 0,
{
    let mut done = String::new();
    std::mem::swap(&mut done, line);
    let ghost before = lines@.map_values(|l: String| l@);
    lines.push(done);
    proof {
        assert(lines@.map_values(|l: String| l@) =~= before.push(old(line)@));
    }
}

/// Word-wrap `text` to `width` display columns, breaking on whitespace and
/// hard-splitting any word wider than the line. Always at least one line.
pub fn wrap_title(text: &str, width: u16) -> (r: Vec<String>)
    ensures
        r@.map_values(|l: String| l@) == wrap_title_spec(text@, width),
{
    let w: usize = if width < 1 {
        1
    } else {
        width as usize
    };
    let ws = split_words(text);
    let ghost wv = ws@.map_values(|x: String| x@);
    let mut lines: Vec<String> = Vec::new();
    let mut line = String::new();
    let mut lw: usize = 0;
    let mut k: usize = 0;
    while k < ws.len()
        invariant
            0 <= k <= ws@.len(),
            wv == ws@.map_values(|x: String| x@),
            wv == words(text@),
            1 <= w <= 65535,
            lw <= w + 3,
            (lines@.map_values(|l: String| l@), line@, lw as int) == wrap_words(
                wv.take(k as int),
                w as int,
            ),
        decreases ws@.len() - k,
    {
        proof {
            assert(wv.take(k + 1).drop_last() == wv.take(k as int));
            assert(wv.take(k + 1).last() == ws@[k as int]@);
        }
        let word = ws[k].as_str();
        let ghost prev = (lines@.map_values(|l: String| l@), line@, lw as int);
        let ww = display_width(word);
        if ww > w {
            if lw > 0 {
                flush_exec(&mut lines, &mut line);
                lw = 0;
            }
            let cs = str_chars(word);
            let ghost st0 = (lines@.map_values(|l: String| l@), line@, lw as int);
            proof {
                if prev.2 > 0 {
                    assert(line@ =~= Seq::<char>::empty());
                }
                assert(st0 == (if prev.2 > 0 { flush_line(prev) } else { prev }));
            }
            let mut j: usize = 0;
            while j < cs.len()
                invariant
                    0 <= j <= cs@.len(),
                    cs@ == word@,
                    1 <= w <= 65535,
                    lw <= w + 3,
                    (lines@.map_values(|l: String| l@), line@, lw as int) == wrap_chars(
                        st0,
                        cs@.take(j as int),
                        w as int,
                    ),
                decreases cs@.len() - j,
            {
                proof {
                    assert(cs@.take(j + 1).drop_last() == cs@.take(j as int));
                    assert(cs@.take(j + 1).last() == cs@[j as int]);
                }
                let ch = cs[j];
                let cw = match char_display_width(ch) {
                    Some(x) => x,
                    None => 0,
                };
                if lw + cw > w && lw > 0 {
                    flush_exec(&mut lines, &mut line);
                    lw = 0;
                    proof {
                        assert(line@ =~= Seq::<char>::empty());
                    }
                }
                string_push(&mut line, ch);
                lw = lw + cw;
                j += 1;
            }
            proof {
                assert(cs@.take(cs@.len() as int) == cs@);
                assert(step_word(prev, word@, w as int) == wrap_chars(st0, word@, w as int));
            }
        } else {
            let sep: usize = if lw > 0 {
                1
            } else {
                0
            };
            if lw + sep + ww > w {
                flush_exec(&mut lines, &mut line);
                lw = 0;
                proof {
                    assert(line@ =~= Seq::<char>::empty());
                }
            }
            if lw > 0 {
                string_push(&mut line, ' ');
                lw = lw + 1;
            }
            let ghost mid = line@;
            line.append(word);
            lw = lw + ww;
            proof {
                assert(line@ =~= mid + word@);
                let sp: int = if prev.2 > 0 { 1 } else { 0 };
                let st1 = if prev.2 + sp + ww > w { flush_line(prev) } else { prev };
                let st2 = if st1.2 > 0 { (st1.0, st1.1.push(' '), st1.2 + 1) } else { st1 };
                assert(mid == st2.1);
                assert((lines@.map_values(|l: String| l@), line@, lw as int) == step_word(prev, word@, w as int));
            }
        }
        k += 1;
    }
    proof {
        assert(wv.take(wv.len() as int) == wv);
    }
    if lw > 0 || lines.len() == 0 {
        flush_exec(&mut lines, &mut line);
    }
    lines
}

} // verus!

verus! {

/// One line of the reader pane, by role; the terminal front end styles it.
#[derive(Debug)]
pub enum ReaderLine {
    Title(String),
    /// Author and publication date, joined by " · ".
    Meta(String),
    /// The podcast/media indicator.
    Media(String),
    /// The primary link (what opening the entry opens).
    Link(String),
    /// "permalink: …", shown under an external link.
    Permalink(String),
    Blank,
    Text(String),
    /// An image (inline, or the lead image), by URL.
    Image(String),
}

/// The mathematical content of a [`ReaderLine`].
pub enum LineView {
    Title(Seq<char>),
    Meta(Seq<char>),
    Media(Seq<char>),
    Link(Seq<char>),
    Permalink(Seq<char>),
    Blank,
    Text(Seq<char>),
    Image(Seq<char>),
}

impl View for ReaderLine {
    type V = LineView;

    open spec fn view(&self) -> LineView {
        match self {
            ReaderLine::Title(s) => LineView::Title(s@),
            ReaderLine::Meta(s) => LineView::Meta(s@),
            ReaderLine::Media(s) => LineView::Media(s@),
            ReaderLine::Link(s) => LineView::Link(s@),
            ReaderLine::Permalink(s) => LineView::Permalink(s@),
            ReaderLine::Blank => LineView::Blank,
            ReaderLine::Text(s) => LineView::Text(s@),
            ReaderLine::Image(s) => LineView::Image(s@),
        }
    }
}

/// The views of reader lines.
pub open spec fn line_views(v: Seq<ReaderLine>) -> Seq<LineView> {
    v.map_values(|l: ReaderLine| l@)
}

/// The meta line's parts: the trimmed author (when not blank), then the
/// formatted date (when given).
pub open spec fn meta_parts(e: Entry, date: Option<Seq<char>>) -> Seq<Seq<char>> {
    (match e.author {
        Some(a) => if trim(a@).len() > 0 {
            seq![strip_spec(trim(a@))]
        } else {
            seq![]
        },
        None => seq![],
    }) + (match date {
        Some(d) => seq![d],
        None => seq![],
    })
}

/// The header of the reader: title, meta line (dropped when empty), media
/// indicator, link lines, then a blank line. Every field from the feed has
/// its control characters stripped.
pub open spec fn header_spec(e: Entry, date: Option<Seq<char>>) -> Seq<LineView> {
    let title = strip_spec(
        match e.title {
            Some(t) => t@,
            None => "(untitled)"@,
        },
    );
    let parts = meta_parts(e, date);
    let meta = if parts.len() == 0 {
        seq![]
    } else if parts.len() == 1 {
        seq![LineView::Meta(parts[0])]
    } else {
        seq![LineView::Meta(parts[0] + " · "@ + parts[1])]
    };
    let media = media_lines(e);
    let links = match spec_external_url(e) {
        Some(x) => seq![LineView::Link(strip_spec(x@))] + match e.url {
            Some(u) => seq![LineView::Permalink("permalink: "@ + strip_spec(u@))],
            None => seq![],
        },
        None => match e.url {
            Some(u) => seq![LineView::Link(strip_spec(u@))],
            None => seq![],
        },
    };
    seq![LineView::Title(title)] + meta + media + links + seq![LineView::Blank]
}

/// The media line, when the entry has an enclosure.
pub open spec fn media_lines(e: Entry) -> Seq<LineView> {
    match e.enclosure {
        Some(enc) => seq![LineView::Media(strip_spec(podcast_indicator_spec(*enc)))],
        None => seq![],
    }
}

/// The HTML the reader renders: content, else summary, else a placeholder.
pub open spec fn reader_body(e: Entry) -> Seq<char> {
    match e.content {
        Some(c) => c@,
        None => match e.summary {
            Some(s) => s@,
            None => "(no content)"@,
        },
    }
}

/// Reader lines for segments: each text run line by line, each image as is.
pub open spec fn segment_lines(segs: Seq<SegmentView>) -> Seq<LineView>
    decreases segs.len(),
{
    if segs.len() == 0 {
        seq![]
    } else {
        segment_lines(segs.drop_last()) + match segs.last() {
            SegmentView::Text(t) => lines_of(t).map_values(|l: Seq<char>| LineView::Text(l)),
            SegmentView::Image(u) => seq![LineView::Image(u)],
        }
    }
}

/// The body lines: the lead image first when the body has no inline image,
/// then the body's segments.
pub open spec fn body_spec(e: Entry) -> Seq<LineView> {
    let segs = content_blocks_spec(reader_body(e));
    (if image_urls_of(segs).len() == 0 && spec_lead_image_url(e) is Some {
        seq![LineView::Image(spec_lead_image_url(e)->0@)]
    } else {
        seq![]
    }) + segment_lines(segs)
}

/// Every line of the reader for an entry, given its formatted date.
pub open spec fn reader_lines_spec(e: Entry, date: Option<Seq<char>>) -> Seq<LineView> {
    header_spec(e, date) + body_spec(e)
}

fn push_line(v: &mut Vec<ReaderLine>, l: ReaderLine)
    ensures
        line_views(final(v)@) == line_views(old(v)@).push(l@),
{
    let ghost before = line_views(v@);
    v.push(l);
    proof {
        assert(line_views(v@) =~= before.push(l@));
    }
}

fn segment_lines_exec(segs: &Vec<Segment>, out: &mut Vec<ReaderLine>)
    ensures
        line_views(final(out)@) == line_views(old(out)@) + segment_lines(seg_views(segs@)),
{
    let ghost start = line_views(out@);
    let mut i: usize = 0;
    while i < segs.len()
        invariant
            0 <= i <= segs@.len(),
            line_views(out@) == start + segment_lines(seg_views(segs@).take(i as int)),
        decreases segs@.len() - i,
    {
        proof {
            assert(seg_views(segs@).take(i + 1).drop_last() == seg_views(segs@).take(i as int));
            assert(seg_views(segs@).take(i + 1).last() == segs@[i as int]@);
        }
        let ghost mid = line_views(out@);
        match &segs[i] {
            Segment::Text(t) => {
                let chars = str_chars(t.as_str());
                let ls = split_lines(&chars);
                let ghost target = lines_of(t@).map_values(|l: Seq<char>| LineView::Text(l));
                let mut j: usize = 0;
                while j < ls.len()
                    invariant
                        0 <= j <= ls@.len(),
                        views(ls@) == lines_of(t@),
                        chars@ == t@,
                        line_views(out@) == mid + target.take(j as int),
                        target == lines_of(t@).map_values(|l: Seq<char>| LineView::Text(l)),
                    decreases ls@.len() - j,
                {
                    let n = ls[j].len();
                    let s = chars_to_string(&ls[j], 0, n);
                    proof {
                        assert(ls[j as int]@.subrange(0, n as int) == ls@[j as int]@);
                        assert(views(ls@)[j as int] == ls@[j as int]@);
                    }
                    push_line(out, ReaderLine::Text(s));
                    proof {
                        assert(target.take(j + 1) =~= target.take(j as int).push(
                            LineView::Text(ls@[j as int]@),
                        ));
                    }
                    j += 1;
                }
                proof {
                    assert(target.take(ls@.len() as int) == target);
                    assert(line_views(out@) =~= start + segment_lines(
                        seg_views(segs@).take(i + 1),
                    ));
                }
            },
            Segment::Image(u) => {
                push_line(out, ReaderLine::Image(u.clone()));
                proof {
                    assert(line_views(out@) =~= start + segment_lines(
                        seg_views(segs@).take(i + 1),
                    ));
                }
            },
        }
        i += 1;
    }
    proof {
        assert(seg_views(segs@).take(segs@.len() as int) == seg_views(segs@));
    }
}

fn meta_line(entry: &Entry, date: Option<String>, out: &mut Vec<ReaderLine>)
    ensures
        line_views(final(out)@) == line_views(old(out)@) + ({
            let parts = meta_parts(*entry, opt_view(date));
            if parts.len() == 0 {
                Seq::<LineView>::empty()
            } else if parts.len() == 1 {
                seq![LineView::Meta(parts[0])]
            } else {
                seq![LineView::Meta(parts[0] + " · "@ + parts[1])]
            }
        }),
{
    let mut parts: Vec<String> = Vec::new();
    if let Some(a) = &entry.author {
        let t = trim_str(a.as_str());
        if !t.as_str().is_empty() {
            parts.push(strip_control_chars(t.as_str()));
        }
    }
    if let Some(d) = date {
        parts.push(d);
    }
    proof {
        assert(parts@.map_values(|p: String| p@) =~= meta_parts(*entry, opt_view(date)));
    }
    if parts.len() == 1 {
        let m = parts[0].clone();
        push_line(out, ReaderLine::Meta(m));
    } else if parts.len() == 2 {
        let mut m = parts[0].clone();
        m.append(" · ");
        m.append(parts[1].as_str());
        push_line(out, ReaderLine::Meta(m));
    } else {
        proof {
            assert(line_views(out@) =~= line_views(old(out)@) + Seq::<LineView>::empty());
        }
    }
}

fn link_lines(entry: &Entry, out: &mut Vec<ReaderLine>)
    ensures
        line_views(final(out)@) == line_views(old(out)@) + match spec_external_url(*entry) {
            Some(x) => seq![LineView::Link(strip_spec(x@))] + match entry.url {
                Some(u) => seq![LineView::Permalink("permalink: "@ + strip_spec(u@))],
                None => Seq::<LineView>::empty(),
            },
            None => match entry.url {
                Some(u) => seq![LineView::Link(strip_spec(u@))],
                None => Seq::<LineView>::empty(),
            },
        },
{
    let ghost start = line_views(out@);
    match entry.external_url() {
        Some(x) => {
            push_line(out, ReaderLine::Link(strip_control_chars(x)));
            if let Some(u) = &entry.url {
                let mut p = String::from_str("permalink: ");
                let s = strip_control_chars(u.as_str());
                p.append(s.as_str());
                push_line(out, ReaderLine::Permalink(p));
            }
            proof {
                assert(line_views(out@) =~= start + (seq![LineView::Link(strip_spec(spec_external_url(*entry)->0@))] + match entry.url {
                    Some(u) => seq![LineView::Permalink("permalink: "@ + strip_spec(u@))],
                    None => Seq::<LineView>::empty(),
                }));
            }
        },
        None => {
            if let Some(u) = &entry.url {
                push_line(out, ReaderLine::Link(strip_control_chars(u.as_str())));
            } else {
                proof {
                    assert(line_views(out@) =~= start + Seq::<LineView>::empty());
                }
            }
        },
    }
}

fn header_lines(entry: &Entry, date: Option<String>) -> (r: Vec<ReaderLine>)
    ensures
        line_views(r@) == header_spec(*entry, opt_view(date)),
{
    let mut out: Vec<ReaderLine> = Vec::new();
    let title = match &entry.title {
        Some(t) => strip_control_chars(t.as_str()),
        None => strip_control_chars("(untitled)"),
    };
    push_line(&mut out, ReaderLine::Title(title));
    meta_line(entry, date, &mut out);
    let ghost b = line_views(out@);
    if let Some(enc) = &entry.enclosure {
        let p = podcast_indicator(enc);
        push_line(&mut out, ReaderLine::Media(strip_control_chars(p.as_str())));
    }
    let ghost c = line_views(out@);
    link_lines(entry, &mut out);
    push_line(&mut out, ReaderLine::Blank);
    proof {
        assert(c =~= b + media_lines(*entry));
        assert(line_views(out@) =~= header_spec(*entry, opt_view(date)));
    }
    out
}

/// Build the reader pane's lines for `entry`; `date` is its publication
/// time, already formatted for display (or `None` to leave it out).
pub fn reader_lines(entry: &Entry, date: Option<String>) -> (r: Vec<ReaderLine>)
    ensures
        line_views(r@) == reader_lines_spec(*entry, opt_view(date)),
{
    let mut out = header_lines(entry, date);
    let ghost head = line_views(out@);
    let body: &str = match &entry.content {
        Some(c) => c.as_str(),
        None => match &entry.summary {
            Some(s) => s.as_str(),
            None => "(no content)",
        },
    };
    let blocks = content_blocks(body);
    let inline = image_urls_exec(&blocks);
    if inline.len() == 0 {
        if let Some(url) = entry.lead_image_url() {
            push_line(&mut out, ReaderLine::Image(String::from_str(url)));
        }
    }
    let ghost mid = line_views(out@);
    segment_lines_exec(&blocks, &mut out);
    proof {
        let lead = if image_urls_of(content_blocks_spec(reader_body(*entry))).len() == 0
            && spec_lead_image_url(*entry) is Some {
            seq![LineView::Image(spec_lead_image_url(*entry)->0@)]
        } else {
            Seq::<LineView>::empty()
        };
        assert(mid =~= head + lead);
        assert(line_views(out@) =~= header_spec(*entry, opt_view(date)) + body_spec(*entry));
    }
    out
}

} // verus!

verus! {

/// The placeholder shown for an image that is not drawn: `None` once its
/// art is ready, a notice when it failed, a loading line otherwise; when
/// remote images are off, a notice that says so in place of any fetch.
pub open spec fn image_notice_spec(st: Option<ImageState>, url: Seq<char>, remote_images: bool) -> Option<
    Seq<char>,
> {
    if !remote_images {
        Some("[remote images off: "@ + url + "]"@)
    } else {
        match st {
            Some(ImageState::Ready) => None,
            Some(ImageState::Failed) => Some("[image unavailable: "@ + url + "]"@),
            _ => Some("[image loading… "@ + url + "]"@),
        }
    }
}

/// The text shown in place of an image's art, if any.
pub fn image_notice(st: Option<ImageState>, url: &str, remote_images: bool) -> (r: Option<String>)
    ensures
        opt_view(r) == image_notice_spec(st, url@, remote_images),
{
    if !remote_images {
        let mut s = String::from_str("[remote images off: ");
        s.append(url);
        s.append("]");
        return Some(s);
    }
    match st {
        Some(ImageState::Ready) => None,
        Some(ImageState::Failed) => {
            let mut s = String::from_str("[image unavailable: ");
            s.append(url);
            s.append("]");
            Some(s)
        },
        _ => {
            let mut s = String::from_str("[image loading… ");
            s.append(url);
            s.append("]");
            Some(s)
        },
    }
}

/// What opening an entry opens: its podcast enclosure, else its link-blog
/// target, else its permalink — control characters stripped.
pub open spec fn open_url_spec(e: Entry) -> Option<Seq<char>> {
    match spec_enclosure_url(e) {
        Some(u) => Some(strip_spec(u@)),
        None => match spec_external_url(e) {
            Some(u) => Some(strip_spec(u@)),
            None => match e.url {
                Some(u) => Some(strip_spec(u@)),
                None => None,
            },
        },
    }
}

/// The URL that opening `e` launches.
pub fn open_url(e: &Entry) -> (r: Option<String>)
    ensures
        opt_view(r) == open_url_spec(*e),
{
    match e.enclosure_url() {
        Some(u) => Some(strip_control_chars(u)),
        None => match e.external_url() {
            Some(u) => Some(strip_control_chars(u)),
            None => match &e.url {
                Some(u) => Some(strip_control_chars(u.as_str())),
                None => None,
            },
        },
    }
}

} // verus!

verus! {

/// chrono layout of the reader's publication date, e.g.
/// "Sunday, June 15, 2026 at 6:00 AM".
pub const PUBLISHED_FORMAT: &'static str = "%A, %B %-d, %Y at %-I:%M %p";

/// Whether chrono reads `raw` as an RFC 3339 timestamp
/// (`DateTime::parse_from_rfc3339` succeeds).
pub uninterp spec fn rfc3339_ok(raw: Seq<char>) -> bool;

/// The date text chrono gives for `raw` shown at a fixed UTC offset of
/// `offset_secs` seconds, formatted with the chrono layout `layout`.
pub uninterp spec fn published_at(raw: Seq<char>, offset_secs: i32, layout: Seq<char>) -> Option<Seq<char>>;

/// `DateTime::parse_from_rfc3339`, `with_timezone(&Local)` and `format`
/// with `layout`: the date in the host's time zone. The text depends on
/// that time zone and is not stated; that there is one exactly when the
/// timestamp parses is. `layout` must be a valid chrono layout, since
/// rendering an invalid one panics.
#[verifier::external_body]
fn format_local(raw: &str, layout: &str) -> (r: Option<String>)
    requires
        layout@ == PUBLISHED_FORMAT@,
    ensures
        r is Some <==> rfc3339_ok(raw@),
{
    chrono::DateTime::parse_from_rfc3339(raw).ok().map(|d| d.with_timezone(&chrono::Local).format(layout).to_string())
}

/// `DateTime::parse_from_rfc3339`, `FixedOffset::east_opt`, `with_timezone`
/// and `format` with `layout`: the date at a fixed offset, named, and
/// present exactly when the timestamp parses.
#[verifier::external_body]
fn format_at_offset(raw: &str, offset_secs: i32, layout: &str) -> (r: Option<String>)
    requires
        -86400 < offset_secs < 86400,
        layout@ == PUBLISHED_FORMAT@,
    ensures
        crate::reader::opt_view(r) == published_at(raw@, offset_secs, layout@),
        r is Some <==> rfc3339_ok(raw@),
{
    let tz = chrono::FixedOffset::east_opt(offset_secs).unwrap();
    chrono::DateTime::parse_from_rfc3339(raw).ok().map(|d| d.with_timezone(&tz).format(layout).to_string())
}

/// An entry's publication date for the reader header, in the host's time
/// zone: none when the entry has none or it is not an RFC 3339 timestamp.
pub fn format_published(published: &Option<String>) -> (r: Option<String>)
    ensures
        match published {
            Some(p) => r is Some <==> rfc3339_ok(p@),
            None => r is None,
        },
{
    match published {
        Some(p) => format_local(p.as_str(), PUBLISHED_FORMAT),
        None => None,
    }
}

/// The publication date shown at a fixed UTC offset (seconds east; within
/// a day either way).
pub fn format_published_in(raw: &str, offset_secs: i32) -> (r: Option<String>)
    requires
        -86400 < offset_secs < 86400,
    ensures
        opt_view(r) == published_at(raw@, offset_secs, PUBLISHED_FORMAT@),
        r is Some <==> rfc3339_ok(raw@),
{
    format_at_offset(raw, offset_secs, PUBLISHED_FORMAT)
}

} // verus!
