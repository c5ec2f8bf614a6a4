//! The reader's state machine: which sources and articles are loaded, where
//! the cursor is, optimistic mark-read with undo, lazy loading of older
//! entries and the image pre-fetch queue. Rendering lives outside the library;
//! everything that decides *what* is shown and *what happens next* is here.

use std::collections::{HashMap, VecDeque};
use vstd::prelude::*;
use crate::feedbin::Entry;
use crate::feedbin::spec_lead_image_url;
use crate::html::{content_blocks, content_blocks_spec, seg_views, Segment, SegmentView};
use crate::text::{seq_lt, str_eq, str_lt};

verus! {

broadcast use vstd::std_specs::hash::group_hash_axioms;

/// Lines the reader scrolls per PageUp/PageDown.
pub const READER_PAGE: u16 = 10;
/// Lines the reader scrolls per ↑/↓.
pub const READER_SCROLL_STEP: u16 = 3;
/// How many of the newest unread entries are hydrated on the initial load.
pub const DISPLAY_LIMIT: usize = 50;
/// How many more unread entries one lazy load-more hydrates.
pub const LOAD_MORE_BATCH: usize = 100;
/// Begin hydrating the next batch once the selection is within this many
/// entries of the oldest loaded one.
pub const LOAD_MORE_THRESHOLD: usize = 15;
/// Cap on simultaneous image fetches.
pub const MAX_IMAGE_FETCHES: usize = 6;

/// Which column the cursor is in.
#[derive(Clone, Copy, PartialEq, Eq, Structural, Debug)]
pub enum Focus {
    Sources,
    Articles,
    Reader,
}

/// Whether the first load is still running, finished, or failed.
#[derive(Debug)]
pub enum Status {
    Loading,
    Ready,
    Failed(String),
}

/// The name shown for a feed the subscriptions list does not name.
pub open spec fn unknown_feed() -> Seq<char> {
    "(unknown feed)"@
}

/// The display name of `fid`: its title, or the unknown-feed placeholder.
pub open spec fn name_of(titles: Map<i64, String>, fid: i64) -> Seq<char> {
    if titles.contains_key(fid) {
        titles[fid]@
    } else {
        unknown_feed()
    }
}

/// Sources are ordered by display name, then by feed id.
pub open spec fn key_lt(titles: Map<i64, String>, a: i64, b: i64) -> bool {
    seq_lt(name_of(titles, a), name_of(titles, b)) || (name_of(titles, a) == name_of(titles, b)
        && a < b)
}

/// Count one more entry of `fid` in the ordered `(feed, count)` rows: bump
/// its row, or insert a new row before the first row that sorts after it.
pub open spec fn insert_source(rows: Seq<(i64, usize)>, fid: i64, titles: Map<i64, String>) -> Seq<
    (i64, usize),
>
    decreases rows.len(),
{
    if rows.len() == 0 {
        seq![(fid, 1usize)]
    } else if rows[0].0 == fid {
        seq![(fid, (rows[0].1 + 1) as usize)] + rows.drop_first()
    } else if key_lt(titles, fid, rows[0].0) {
        seq![(fid, 1usize)] + rows
    } else {
        seq![rows[0]] + insert_source(rows.drop_first(), fid, titles)
    }
}

/// The sources column for `entries`: one `(feed_id, loaded entry count)` row
/// per feed, ordered by name then id.
pub open spec fn sources_spec(entries: Seq<Entry>, titles: Map<i64, String>) -> Seq<(i64, usize)>
    decreases entries.len(),
{
    if entries.len() == 0 {
        seq![]
    } else {
        insert_source(sources_spec(entries.drop_last(), titles), entries.last().feed_id, titles)
    }
}

/// The ids of the loaded articles of `fid`, oldest first (entries are stored
/// newest first, so this is their reverse).
pub open spec fn art_ids(entries: Seq<Entry>, fid: i64) -> Seq<i64>
    decreases entries.len(),
{
    if entries.len() == 0 {
        seq![]
    } else {
        (if entries.last().feed_id == fid {
            seq![entries.last().id]
        } else {
            seq![]
        }) + art_ids(entries.drop_last(), fid)
    }
}

/// How many loaded entries belong to `fid`.
pub open spec fn count_feed(entries: Seq<Entry>, fid: i64) -> nat
    decreases entries.len(),
{
    if entries.len() == 0 {
        0
    } else {
        count_feed(entries.drop_last(), fid) + (if entries.last().feed_id == fid {
            1nat
        } else {
            0nat
        })
    }
}

/// The first position of `x` in `s` at or after `i`, or -1.
pub open spec fn find_from(s: Seq<i64>, x: i64, i: int) -> int
    decreases s.len() - i,
{
    if i < 0 || i >= s.len() {
        -1
    } else if s[i] == x {
        i
    } else {
        find_from(s, x, i + 1)
    }
}

/// The first position of `x` in `s`, if any.
pub open spec fn index_of(s: Seq<i64>, x: i64) -> Option<int> {
    if find_from(s, x, 0) >= 0 {
        Some(find_from(s, x, 0))
    } else {
        None
    }
}

/// The feed ids of a rows sequence.
pub open spec fn row_ids(rows: Seq<(i64, usize)>) -> Seq<i64> {
    rows.map_values(|r: (i64, usize)| r.0)
}

/// The ids of a sequence of entries.
pub open spec fn entry_ids(entries: Seq<Entry>) -> Seq<i64> {
    entries.map_values(|e: Entry| e.id)
}

/// The first position of `x` in `v` (exact: `find_from(v@, x, 0)`).
pub fn position_of(v: &Vec<i64>, x: i64) -> (r: Option<usize>)
    ensures
        match r {
            Some(i) => index_of(v@, x) == Some(i as int),
            None => index_of(v@, x) is None,
        },
{
    let mut i: usize = 0;
    while i < v.len()
        invariant
            0 <= i <= v@.len(),
            find_from(v@, x, 0) == find_from(v@, x, i as int),
        decreases v@.len() - i,
    {
        if v[i] == x {
            return Some(i);
        }
        i += 1;
    }
    None
}

/// The ids of `entries`, in order.
pub fn ids_of(entries: &Vec<Entry>) -> (r: Vec<i64>)
    ensures
        r@ == entry_ids(entries@),
{
    let mut r: Vec<i64> = Vec::new();
    let mut i: usize = 0;
    while i < entries.len()
        invariant
            0 <= i <= entries@.len(),
            r@ == entry_ids(entries@.take(i as int)),
        decreases entries@.len() - i,
    {
        r.push(entries[i].id);
        proof {
            assert(entry_ids(entries@.take(i + 1)) =~= entry_ids(entries@.take(i as int)).push(
                entries@[i as int].id,
            ));
        }
        i += 1;
    }
    proof {
        assert(entries@.take(entries@.len() as int) =~= entries@);
    }
    r
}

} // verus!

verus! {

/// Cache state for one entry image. The rendered art itself is kept by the
/// terminal front end; the library tracks only whether it resolved.
#[derive(Clone, Copy, PartialEq, Eq, Structural, Debug)]
pub enum ImageState {
    Loading,
    Ready,
    Failed,
}

/// One entry of the image cache: a URL and its state.
#[derive(Debug)]
pub struct ImageEntry {
    pub url: String,
    pub state: ImageState,
}

/// A batch of entries marked read together and restorable as a unit, each
/// with its position in `entries` at removal time.
#[derive(Debug)]
pub struct Undone {
    pub batch: Vec<(Entry, usize)>,
}

/// A pending y/n confirmation shown in the footer, intercepting the next key.
#[derive(Clone, Copy, PartialEq, Eq, Structural, Debug)]
pub enum Confirm {
    MarkWindowRead,
}

/// What a keypress asks the run loop to do beyond changing the state.
#[derive(Clone, Copy, PartialEq, Eq, Structural, Debug)]
pub enum Action {
    Nothing,
    Reload,
    MarkRead,
    /// Mark every loaded article in the selected source read.
    MarkSourceRead,
    /// Mark every loaded article read — the whole window.
    MarkWindowRead,
    Undo,
    OpenInBrowser,
}

/// A key press, as far as the reader distinguishes keys.
#[derive(Clone, Copy, PartialEq, Eq, Structural, Debug)]
pub enum Key {
    Char(char),
    Up,
    Down,
    Left,
    Right,
    Home,
    End,
    PageUp,
    PageDown,
    Esc,
    Other,
}

/// A fully-loaded snapshot from Feedbin.
#[derive(Debug)]
pub struct Loaded {
    pub entries: Vec<Entry>,
    pub feed_titles: HashMap<i64, String>,
    pub total_unread: usize,
    /// Unread ids beyond the hydrated window, newest first.
    pub pending_ids: Vec<i64>,
}

/// Which unread-state write a background task performed.
#[derive(Clone, Copy, PartialEq, Eq, Structural, Debug)]
pub enum WriteOp {
    MarkRead,
    Undo,
}

/// A message from background work to the reader.
#[derive(Debug)]
pub enum Msg {
    Loaded(Result<Loaded, String>),
    /// The outcome of a mark-read / undo write, with its batch.
    Write { op: WriteOp, batch: Vec<(Entry, usize)>, result: Result<(), String> },
    /// An image fetch finished (`Ok`) or failed.
    Image { url: String, result: Result<(), String> },
    /// A lazily-hydrated batch of older unread entries.
    LoadedMore(Result<Vec<Entry>, String>),
    /// The conditional unread fetch answered "not modified".
    NotModified,
    /// Fresh HTTP validators from a full unread fetch, to be persisted; no
    /// effect on the state.
    Validators(crate::feedbin::Validators),
}

/// The reader's whole state.
#[derive(Debug)]
pub struct App {
    pub status: Status,
    /// All loaded unread entries, newest first.
    pub entries: Vec<Entry>,
    pub feed_titles: HashMap<i64, String>,
    pub total_unread: usize,
    /// Unread ids not yet hydrated, newest first.
    pub pending_ids: Vec<i64>,
    /// The batch a background load-more is hydrating, if any.
    pub in_flight_more: Option<Vec<i64>>,
    pub focus: Focus,
    /// Selection is by id, so it survives mark/undo edits.
    pub selected_source: Option<i64>,
    pub selected_article: Option<i64>,
    pub reader_scroll: u16,
    /// Image states keyed by source URL (the first entry for a URL counts).
    pub images: Vec<ImageEntry>,
    /// Image URLs awaiting a fetch slot, in priority order.
    pub image_queue: VecDeque<String>,
    /// Every distinct image URL of the current load, in on-screen order.
    pub image_urls: Vec<String>,
    /// Loading-spinner animation frame.
    pub spinner_tick: usize,
    /// Inner width of the reader pane at the last draw.
    pub reader_width: u16,
    /// Bumped whenever an image resolves.
    pub image_generation: u64,
    /// Marked-read batches that can be restored, most recent last.
    pub undo_stack: Vec<Undone>,
    /// Transient footer message; cleared on the next key.
    pub notice: Option<String>,
    /// A pending y/n confirmation; the next key answers it.
    pub pending_confirm: Option<Confirm>,
    /// Whether the keybinding help overlay is open.
    pub show_help: bool,
    pub should_quit: bool,
    /// Whether images may be fetched from the hosts feeds name. When off,
    /// none is ever queued, so no request leaves for those hosts.
    pub remote_images: bool,
}

/// The first element of a sequence, if any.
pub open spec fn first_of(s: Seq<i64>) -> Option<i64> {
    if s.len() > 0 {
        Some(s[0])
    } else {
        None
    }
}

/// `x` clamped to `lo..=hi`.
pub open spec fn clamp(x: int, lo: int, hi: int) -> int {
    if x < lo {
        lo
    } else if x > hi {
        hi
    } else {
        x
    }
}

fn key_lt_exec(titles: &HashMap<i64, String>, a: i64, b: i64) -> (r: bool)
    ensures
        r == key_lt(titles@, a, b),
{
    let na = feed_name_of(titles, a);
    let nb = feed_name_of(titles, b);
    if str_lt(na, nb) {
        true
    } else if str_lt(nb, na) {
        false
    } else {
        proof {
            if na@ != nb@ {
                crate::text::lemma_seq_lt_total(na@, nb@);
            }
        }
        a < b
    }
}

pub fn feed_name_of(titles: &HashMap<i64, String>, fid: i64) -> (r: &str)
    ensures
        r@ == name_of(titles@, fid),
{
    match titles.get(&fid) {
        Some(t) => t.as_str(),
        None => "(unknown feed)",
    }
}

proof fn lemma_insert_source_counts(
    rows: Seq<(i64, usize)>,
    fid: i64,
    titles: Map<i64, String>,
    bound: nat,
)
    requires
        forall|k: int| 0 <= k < rows.len() ==> (#[trigger] rows[k]).1 <= bound,
        bound < usize::MAX,
    ensures
        forall|k: int|
            0 <= k < insert_source(rows, fid, titles).len() ==> (#[trigger] insert_source(
                rows,
                fid,
                titles,
            )[k]).1 <= bound + 1,
    decreases rows.len(),
{
    if rows.len() > 0 && rows[0].0 != fid && !key_lt(titles, fid, rows[0].0) {
        lemma_insert_source_counts(rows.drop_first(), fid, titles, bound);
        let r = insert_source(rows, fid, titles);
        assert forall|k: int| 0 <= k < r.len() implies (#[trigger] r[k]).1 <= bound + 1 by {
            if k > 0 {
                assert(r[k] == insert_source(rows.drop_first(), fid, titles)[k - 1]);
            }
        }
    }
}

proof fn lemma_sources_counts(entries: Seq<Entry>, titles: Map<i64, String>)
    requires
        entries.len() < usize::MAX,
    ensures
        forall|k: int|
            0 <= k < sources_spec(entries, titles).len() ==> (#[trigger] sources_spec(
                entries,
                titles,
            )[k]).1 <= entries.len(),
    decreases entries.len(),
{
    if entries.len() > 0 {
        lemma_sources_counts(entries.drop_last(), titles);
        lemma_insert_source_counts(
            sources_spec(entries.drop_last(), titles),
            entries.last().feed_id,
            titles,
            (entries.len() - 1) as nat,
        );
    }
}

fn insert_source_exec(rows: &Vec<(i64, usize)>, fid: i64, titles: &HashMap<i64, String>) -> (r:
    Vec<(i64, usize)>)
    requires
        forall|k: int| 0 <= k < rows@.len() ==> (#[trigger] rows@[k]).1 < usize::MAX,
    ensures
        r@ == insert_source(rows@, fid, titles@),
{
    let mut out: Vec<(i64, usize)> = Vec::new();
    let mut j: usize = 0;
    proof {
        assert(rows@.skip(0) == rows@);
    }
    loop
        invariant
            0 <= j <= rows@.len(),
            out@ == rows@.take(j as int),
            insert_source(rows@, fid, titles@) == rows@.take(j as int) + insert_source(
                rows@.skip(j as int),
                fid,
                titles@,
            ),
        ensures
            0 <= j <= rows@.len(),
            out@ == rows@.take(j as int),
            insert_source(rows@, fid, titles@) == rows@.take(j as int) + insert_source(
                rows@.skip(j as int),
                fid,
                titles@,
            ),
            j == rows@.len() || rows@[j as int].0 == fid || key_lt(titles@, fid, rows@[j as int].0),
        decreases rows@.len() - j,
    {
        if j == rows.len() {
            break;
        }
        let row = rows[j];
        if row.0 == fid || key_lt_exec(titles, fid, row.0) {
            break;
        }
        proof {
            let rest = rows@.skip(j as int);
            assert(rest[0] == row);
            assert(rest.drop_first() == rows@.skip(j + 1));
            assert(rows@.take(j + 1) == rows@.take(j as int).push(row));
            assert(rows@.take(j as int) + (seq![row] + insert_source(rows@.skip(j + 1), fid, titles@))
                == rows@.take(j + 1) + insert_source(rows@.skip(j + 1), fid, titles@));
        }
        out.push(row);
        j += 1;
    }
    let ghost rest = rows@.skip(j as int);
    if j == rows.len() {
        out.push((fid, 1));
        proof {
            assert(rest.len() == 0);
            assert(rows@.take(j as int) == rows@);
        }
        return out;
    }
    let row = rows[j];
    let start: usize;
    if row.0 == fid {
        out.push((fid, row.1 + 1));
        start = j + 1;
    } else {
        out.push((fid, 1));
        start = j;
    }
    let ghost prefix = out@;
    let mut k: usize = start;
    while k < rows.len()
        invariant
            start <= k <= rows@.len(),
            j < rows@.len(),
            out@ == prefix + rows@.subrange(start as int, k as int),
        decreases rows@.len() - k,
    {
        out.push(rows[k]);
        proof {
            assert(rows@.subrange(start as int, k + 1) == rows@.subrange(start as int, k as int).push(
                rows@[k as int],
            ));
        }
        k += 1;
    }
    proof {
        assert(rest[0] == row);
        if row.0 == fid {
            assert(rest.drop_first() =~= rows@.subrange(start as int, rows@.len() as int));
            assert(out@ =~= rows@.take(j as int) + insert_source(rest, fid, titles@));
        } else {
            assert(rest =~= rows@.subrange(start as int, rows@.len() as int));
            assert(out@ =~= rows@.take(j as int) + insert_source(rest, fid, titles@));
        }
    }
    out
}

/// The loaded article ids of `fid` in `entries`, oldest first.
pub fn article_ids_in(entries: &Vec<Entry>, fid: i64) -> (r: Vec<i64>)
    ensures
        r@ == art_ids(entries@, fid),
{
    let mut r: Vec<i64> = Vec::new();
    let mut i: usize = 0;
    while i < entries.len()
        invariant
            0 <= i <= entries@.len(),
            r@ == art_ids(entries@.take(i as int), fid),
        decreases entries@.len() - i,
    {
        proof {
            assert(entries@.take(i + 1).drop_last() == entries@.take(i as int));
        }
        if entries[i].feed_id == fid {
            r.insert(0, entries[i].id);
            proof {
                assert(r@ =~= seq![entries@[i as int].id] + art_ids(entries@.take(i as int), fid));
            }
        } else {
            proof {
                assert(r@ =~= Seq::<i64>::empty() + art_ids(entries@.take(i as int), fid));
            }
        }
        i += 1;
    }
    proof {
        assert(entries@.take(entries@.len() as int) == entries@);
    }
    r
}

/// The sources column for `entries`: `(feed_id, count)` rows ordered by
/// name then id.
pub fn sources_of(entries: &Vec<Entry>, titles: &HashMap<i64, String>) -> (r: Vec<(i64, usize)>)
    ensures
        r@ == sources_spec(entries@, titles@),
{
    let mut rows: Vec<(i64, usize)> = Vec::new();
    let mut i: usize = 0;
    while i < entries.len()
        invariant
            0 <= i <= entries@.len(),
            rows@ == sources_spec(entries@.take(i as int), titles@),
        decreases entries@.len() - i,
    {
        proof {
            assert(entries@.take(i + 1).drop_last() == entries@.take(i as int));
            lemma_sources_counts(entries@.take(i as int), titles@);
        }
        rows = insert_source_exec(&rows, entries[i].feed_id, titles);
        i += 1;
    }
    proof {
        assert(entries@.take(entries@.len() as int) == entries@);
    }
    rows
}

} // verus!

verus! {

/// Whether a rows sequence names `fid`.
pub fn rows_contain(rows: &Vec<(i64, usize)>, fid: i64) -> (r: bool)
    ensures
        r == row_ids(rows@).contains(fid),
{
    let mut i: usize = 0;
    while i < rows.len()
        invariant
            0 <= i <= rows@.len(),
            forall|k: int| 0 <= k < i ==> (#[trigger] rows@[k]).0 != fid,
        decreases rows@.len() - i,
    {
        if rows[i].0 == fid {
            proof {
                assert(row_ids(rows@)[i as int] == fid);
            }
            return true;
        }
        i += 1;
    }
    proof {
        if row_ids(rows@).contains(fid) {
            let k = choose|k: int| 0 <= k < row_ids(rows@).len() && row_ids(rows@)[k] == fid;
            assert(rows@[k].0 == fid);
        }
    }
    false
}

/// Whether `v` holds `x`.
pub fn vec_contains(v: &Vec<i64>, x: i64) -> (r: bool)
    ensures
        r == v@.contains(x),
{
    let mut i: usize = 0;
    while i < v.len()
        invariant
            0 <= i <= v@.len(),
            forall|k: int| 0 <= k < i ==> v@[k] != x,
        decreases v@.len() - i,
    {
        if v[i] == x {
            return true;
        }
        i += 1;
    }
    false
}

/// `cur` moved by `delta` and clamped to `0..=last`.
fn step_index(cur: usize, delta: i32, last: usize) -> (r: usize)
    requires
        cur <= last,
    ensures
        r as int == clamp(cur + delta, 0, last as int),
{
    if delta >= 0 {
        let d = delta as usize;
        if d > last - cur {
            last
        } else {
            cur + d
        }
    } else {
        let d = (0i64 - delta as i64) as usize;
        if d > cur {
            0
        } else {
            cur - d
        }
    }
}

impl App {
    /// The sources column: `(feed_id, loaded count)` rows by name then id.
    pub open spec fn sources_view(self) -> Seq<(i64, usize)> {
        sources_spec(self.entries@, self.feed_titles@)
    }

    /// The loaded article ids of `fid`, oldest first.
    pub open spec fn art_view(self, fid: i64) -> Seq<i64> {
        art_ids(self.entries@, fid)
    }

    /// The first article of a source, if a source is given and has one.
    pub open spec fn first_article_of(self, src: Option<i64>) -> Option<i64> {
        match src {
            Some(f) => first_of(self.art_view(f)),
            None => None,
        }
    }

    /// The first source in display order, if any.
    pub open spec fn first_source(self) -> Option<i64> {
        first_of(row_ids(self.sources_view()))
    }

    /// Position of the selected source in the sources column.
    pub open spec fn source_index_spec(self) -> Option<int> {
        match self.selected_source {
            Some(f) => index_of(row_ids(self.sources_view()), f),
            None => None,
        }
    }

    /// Position of the selected article in its source's column.
    pub open spec fn article_index_spec(self) -> Option<int> {
        match (self.selected_source, self.selected_article) {
            (Some(f), Some(a)) => index_of(self.art_view(f), a),
            _ => None,
        }
    }

    /// Focus the first source and its first article.
    pub open spec fn reset_spec(self) -> App {
        App {
            focus: Focus::Sources,
            reader_scroll: 0,
            selected_source: self.first_source(),
            selected_article: self.first_article_of(self.first_source()),
            ..self
        }
    }

    /// Keep the cursor where it was when the selected source and article
    /// still exist; keep the source but pick its first article when only the
    /// article vanished; otherwise reselect from the top.
    pub open spec fn preserve_spec(self) -> App {
        let src_present = match self.selected_source {
            Some(f) => row_ids(self.sources_view()).contains(f),
            None => false,
        };
        if !src_present {
            self.reset_spec()
        } else {
            let f = self.selected_source->0;
            let art_present = match self.selected_article {
                Some(a) => self.art_view(f).contains(a),
                None => false,
            };
            if art_present {
                self
            } else {
                let moved = App {
                    selected_article: first_of(self.art_view(f)),
                    reader_scroll: 0,
                    ..self
                };
                if first_of(self.art_view(f)) is None {
                    moved.reset_spec()
                } else {
                    moved
                }
            }
        }
    }

    /// Move within the sources column.
    pub open spec fn move_source_spec(self, delta: int) -> App {
        let rows = self.sources_view();
        if rows.len() == 0 {
            self
        } else {
            let cur = match self.source_index_spec() {
                Some(i) => i,
                None => 0,
            };
            let f = rows[clamp(cur + delta, 0, rows.len() - 1)].0;
            App {
                selected_source: Some(f),
                selected_article: first_of(self.art_view(f)),
                reader_scroll: 0,
                ..self
            }
        }
    }

    /// Move within the selected source's articles.
    pub open spec fn move_article_spec(self, delta: int) -> App {
        match self.selected_source {
            None => self,
            Some(f) => {
                let ids = self.art_view(f);
                if ids.len() == 0 {
                    self
                } else {
                    let cur = match self.article_index_spec() {
                        Some(i) => i,
                        None => 0,
                    };
                    App {
                        selected_article: Some(ids[clamp(cur + delta, 0, ids.len() - 1)]),
                        reader_scroll: 0,
                        ..self
                    }
                }
            },
        }
    }

    /// Move the cursor up (`delta < 0`) or down within the focused column; in
    /// the reader, scroll by a few lines.
    pub open spec fn move_cursor_spec(self, delta: int) -> App {
        match self.focus {
            Focus::Sources => self.move_source_spec(delta),
            Focus::Articles => self.move_article_spec(delta),
            Focus::Reader => App {
                reader_scroll: if delta > 0 {
                    self.reader_scroll.saturating_add(READER_SCROLL_STEP)
                } else {
                    self.reader_scroll.saturating_sub(READER_SCROLL_STEP)
                },
                ..self
            },
        }
    }

    /// Jump to the first or last item of the focused column (or the top or
    /// bottom of the reader).
    pub open spec fn move_to_edge_spec(self, first: bool) -> App {
        match self.focus {
            Focus::Sources => {
                let rows = self.sources_view();
                if rows.len() == 0 {
                    self
                } else {
                    let f = if first {
                        rows[0].0
                    } else {
                        rows.last().0
                    };
                    App {
                        selected_source: Some(f),
                        selected_article: first_of(self.art_view(f)),
                        reader_scroll: 0,
                        ..self
                    }
                }
            },
            Focus::Articles => match self.selected_source {
                None => self,
                Some(f) => {
                    let ids = self.art_view(f);
                    if ids.len() == 0 {
                        self
                    } else {
                        App {
                            selected_article: Some(
                                if first {
                                    ids[0]
                                } else {
                                    ids.last()
                                },
                            ),
                            reader_scroll: 0,
                            ..self
                        }
                    }
                },
            },
            Focus::Reader => App {
                reader_scroll: if first {
                    0
                } else {
                    u16::MAX
                },
                ..self
            },
        }
    }

    /// Move focus one column right (sources → articles → reader).
    pub open spec fn focus_right_spec(self) -> App {
        match self.focus {
            Focus::Sources => {
                let art = if self.selected_article is None {
                    self.first_article_of(self.selected_source)
                } else {
                    self.selected_article
                };
                if art is Some {
                    App { selected_article: art, focus: Focus::Articles, reader_scroll: 0, ..self }
                } else {
                    App { selected_article: art, ..self }
                }
            },
            Focus::Articles => App { focus: Focus::Reader, reader_scroll: 0, ..self },
            Focus::Reader => self,
        }
    }

    /// Move focus one column left (reader → articles → sources).
    pub open spec fn focus_left_spec(self) -> App {
        App {
            focus: match self.focus {
                Focus::Reader => Focus::Articles,
                _ => Focus::Sources,
            },
            reader_scroll: 0,
            ..self
        }
    }

    /// The display name of a feed.
    pub fn feed_name(&self, feed_id: i64) -> (r: &str)
        ensures
            r@ == name_of(self.feed_titles@, feed_id),
    {
        feed_name_of(&self.feed_titles, feed_id)
    }

    /// Distinct sources `(feed_id, unread-in-window count)`, ordered by name.
    pub fn sources(&self) -> (r: Vec<(i64, usize)>)
        ensures
            r@ == self.sources_view(),
    {
        sources_of(&self.entries, &self.feed_titles)
    }

    /// Article ids for one source, oldest first (the displayed order).
    pub fn article_ids(&self, feed_id: i64) -> (r: Vec<i64>)
        ensures
            r@ == self.art_view(feed_id),
    {
        article_ids_in(&self.entries, feed_id)
    }

    /// Position of the selected source in the sources column.
    pub fn source_index(&self) -> (r: Option<usize>)
        ensures
            match r {
                Some(i) => self.source_index_spec() == Some(i as int),
                None => self.source_index_spec() is None,
            },
    {
        let sel = match self.selected_source {
            Some(s) => s,
            None => return None,
        };
        let rows = self.sources();
        let mut ids: Vec<i64> = Vec::new();
        let mut i: usize = 0;
        while i < rows.len()
            invariant
                0 <= i <= rows@.len(),
                ids@ == row_ids(rows@).take(i as int),
            decreases rows@.len() - i,
        {
            ids.push(rows[i].0);
            proof {
                assert(row_ids(rows@).take(i + 1) == row_ids(rows@).take(i as int).push(rows@[i as int].0));
            }
            i += 1;
        }
        proof {
            assert(row_ids(rows@).take(rows@.len() as int) == row_ids(rows@));
        }
        position_of(&ids, sel)
    }

    /// Position of the selected article in its source's column.
    pub fn article_index(&self) -> (r: Option<usize>)
        ensures
            match r {
                Some(i) => self.article_index_spec() == Some(i as int),
                None => self.article_index_spec() is None,
            },
    {
        match (self.selected_source, self.selected_article) {
            (Some(f), Some(a)) => {
                let ids = self.article_ids(f);
                position_of(&ids, a)
            },
            _ => None,
        }
    }

    /// The first article of a source.
    fn first_article(&self, src: Option<i64>) -> (r: Option<i64>)
        ensures
            r == self.first_article_of(src),
    {
        match src {
            Some(f) => {
                let ids = self.article_ids(f);
                if ids.len() > 0 {
                    Some(ids[0])
                } else {
                    None
                }
            },
            None => None,
        }
    }

    /// Focus the first source and its first article (after a fresh load).
    pub fn reset_selection(&mut self)
        ensures
            *final(self) == old(self).reset_spec(),
    {
        self.focus = Focus::Sources;
        self.reader_scroll = 0;
        let rows = self.sources();
        let first_source = if rows.len() > 0 {
            Some(rows[0].0)
        } else {
            None
        };
        self.selected_source = first_source;
        self.selected_article = self.first_article(first_source);
    }

    /// After a reload, keep the cursor when the selected source and article
    /// still exist; otherwise fall back as [`App::preserve_spec`] says.
    pub fn preserve_or_reselect(&mut self)
        ensures
            *final(self) == old(self).preserve_spec(),
    {
        let rows = self.sources();
        let src_present = match self.selected_source {
            Some(f) => rows_contain(&rows, f),
            None => false,
        };
        if !src_present {
            self.reset_selection();
            return;
        }
        let feed_id = match self.selected_source {
            Some(f) => f,
            None => return,
        };
        let ids = self.article_ids(feed_id);
        let art_present = match self.selected_article {
            Some(a) => vec_contains(&ids, a),
            None => false,
        };
        if !art_present {
            self.selected_article = if ids.len() > 0 {
                Some(ids[0])
            } else {
                None
            };
            self.reader_scroll = 0;
            if self.selected_article.is_none() {
                self.reset_selection();
            }
        }
    }

    /// Move within the sources column.
    pub fn move_source(&mut self, delta: i32)
        ensures
            *final(self) == old(self).move_source_spec(delta as int),
    {
        let rows = self.sources();
        if rows.len() == 0 {
            return;
        }
        let cur = match self.source_index() {
            Some(i) => i,
            None => 0,
        };
        proof {
            if let Some(i) = self.source_index_spec() {
                lemma_index_of_bounds(row_ids(rows@), self.selected_source->0);
            }
        }
        let next = step_index(cur, delta, rows.len() - 1);
        let feed_id = rows[next].0;
        self.selected_source = Some(feed_id);
        self.selected_article = self.first_article(Some(feed_id));
        self.reader_scroll = 0;
    }

    /// Move within the selected source's articles.
    pub fn move_article(&mut self, delta: i32)
        ensures
            *final(self) == old(self).move_article_spec(delta as int),
    {
        let feed_id = match self.selected_source {
            Some(f) => f,
            None => return,
        };
        let ids = self.article_ids(feed_id);
        if ids.len() == 0 {
            return;
        }
        let cur = match self.article_index() {
            Some(i) => i,
            None => 0,
        };
        proof {
            if let Some(i) = self.article_index_spec() {
                lemma_index_of_bounds(ids@, self.selected_article->0);
            }
        }
        let next = step_index(cur, delta, ids.len() - 1);
        self.selected_article = Some(ids[next]);
        self.reader_scroll = 0;
    }

    /// Move the cursor within the focused column (scroll in the reader).
    pub fn move_cursor(&mut self, delta: i32)
        ensures
            *final(self) == old(self).move_cursor_spec(delta as int),
    {
        match self.focus {
            Focus::Sources => self.move_source(delta),
            Focus::Articles => self.move_article(delta),
            Focus::Reader => {
                self.reader_scroll = if delta > 0 {
                    self.reader_scroll.saturating_add(READER_SCROLL_STEP)
                } else {
                    self.reader_scroll.saturating_sub(READER_SCROLL_STEP)
                };
            },
        }
    }

    /// Jump to the first (`true`) or last item in the focused column.
    pub fn move_to_edge(&mut self, first: bool)
        ensures
            *final(self) == old(self).move_to_edge_spec(first),
    {
        match self.focus {
            Focus::Sources => {
                let rows = self.sources();
                if rows.len() > 0 {
                    let feed_id = if first {
                        rows[0].0
                    } else {
                        rows[rows.len() - 1].0
                    };
                    self.selected_source = Some(feed_id);
                    self.selected_article = self.first_article(Some(feed_id));
                    self.reader_scroll = 0;
                }
            },
            Focus::Articles => {
                if let Some(feed_id) = self.selected_source {
                    let ids = self.article_ids(feed_id);
                    if ids.len() > 0 {
                        let id = if first {
                            ids[0]
                        } else {
                            ids[ids.len() - 1]
                        };
                        self.selected_article = Some(id);
                        self.reader_scroll = 0;
                    }
                }
            },
            Focus::Reader => {
                self.reader_scroll = if first {
                    0
                } else {
                    u16::MAX
                };
            },
        }
    }

    /// Move focus one column to the right.
    pub fn focus_right(&mut self)
        ensures
            *final(self) == old(self).focus_right_spec(),
    {
        match self.focus {
            Focus::Sources => {
                if self.selected_article.is_none() {
                    self.selected_article = self.first_article(self.selected_source);
                }
                if self.selected_article.is_some() {
                    self.focus = Focus::Articles;
                    self.reader_scroll = 0;
                }
            },
            Focus::Articles => {
                self.focus = Focus::Reader;
                self.reader_scroll = 0;
            },
            Focus::Reader => {},
        }
    }

    /// Move focus one column to the left.
    pub fn focus_left(&mut self)
        ensures
            *final(self) == old(self).focus_left_spec(),
    {
        self.focus = match self.focus {
            Focus::Reader => Focus::Articles,
            _ => Focus::Sources,
        };
        self.reader_scroll = 0;
    }
}

/// A found position lies inside the sequence and holds the value.
pub proof fn lemma_index_of_bounds(s: Seq<i64>, x: i64)
    ensures
        index_of(s, x) matches Some(i) ==> 0 <= i < s.len() && s[i] == x,
        index_of(s, x) is None ==> !s.contains(x),
{
    lemma_find_from(s, x, 0);
}

proof fn lemma_find_from(s: Seq<i64>, x: i64, i: int)
    requires
        0 <= i,
    ensures
        find_from(s, x, i) >= 0 ==> i <= find_from(s, x, i) < s.len() && s[find_from(s, x, i)] == x
            && forall|k: int| i <= k < find_from(s, x, i) ==> s[k] != x,
        find_from(s, x, i) < 0 ==> forall|k: int| i <= k < s.len() ==> s[k] != x,
    decreases s.len() - i,
{
    if i < s.len() && s[i] != x {
        lemma_find_from(s, x, i + 1);
    }
}

} // verus!

verus! {

/// Split `entries` into what stays and the batch at the increasing positions
/// `idx` (each taken entry paired with its position).
pub fn split_at_positions(entries: &Vec<Entry>, idx: &Vec<usize>) -> (r: (
    Vec<Entry>,
    Vec<(Entry, usize)>,
))
    requires
        crate::batch::ascending_below(idx@, entries@.len() as int),
    ensures
        r.0@ == crate::batch::without(entries@, idx@),
        r.1@ == crate::batch::taken(entries@, idx@),
{
    let mut kept: Vec<Entry> = Vec::new();
    let mut batch: Vec<(Entry, usize)> = Vec::new();
    let mut p: usize = 0;
    let mut i: usize = 0;
    while i < entries.len()
        invariant
            0 <= i <= entries@.len(),
            0 <= p <= idx@.len(),
            crate::batch::ascending_below(idx@, entries@.len() as int),
            forall|a: int| 0 <= a < p ==> idx@[a] < i,
            p < idx@.len() ==> idx@[p as int] >= i,
            kept@ == crate::batch::sub_seq(
                entries@.take(i as int),
                |j: int| !crate::batch::listed(idx@, j),
            ),
            batch@ == crate::batch::taken(entries@, idx@.take(p as int)),
        decreases entries@.len() - i,
    {
        let e = entries[i].duplicate();
        let hit = p < idx.len() && idx[p] == i;
        proof {
            assert(entries@.take(i + 1).drop_last() == entries@.take(i as int));
            assert(entries@.take(i + 1).last() == entries@[i as int]);
            if hit {
                assert(crate::batch::listed(idx@, i as int));
            } else {
                assert(!crate::batch::listed(idx@, i as int)) by {
                    if crate::batch::listed(idx@, i as int) {
                        let k = choose|k: int| 0 <= k < idx@.len() && idx@[k] as int == i;
                        if k < p {
                        } else if k > p {
                            assert(idx@[p as int] < idx@[k]);
                        }
                    }
                }
            }
        }
        if hit {
            batch.push((e, i));
            proof {
                assert(idx@.take(p + 1) == idx@.take(p as int).push(i));
                assert(crate::batch::taken(entries@, idx@.take(p + 1)) =~= crate::batch::taken(
                    entries@,
                    idx@.take(p as int),
                ).push((entries@[i as int], i)));
            }
            p += 1;
        } else {
            kept.push(e);
        }
        i += 1;
    }
    proof {
        assert(entries@.take(entries@.len() as int) == entries@);
        if p < idx@.len() {
            assert(idx@[p as int] < entries@.len());
        }
        assert(idx@.take(p as int) == idx@);
    }
    (kept, batch)
}

/// Put a batch back at its recorded positions (in batch order).
pub fn reinsert_into(entries: &mut Vec<Entry>, batch: &Vec<(Entry, usize)>)
    ensures
        final(entries)@ == crate::batch::reinsert(old(entries)@, batch@),
{
    let ghost start = entries@;
    let mut i: usize = 0;
    proof {
        assert(batch@.skip(0) == batch@);
    }
    while i < batch.len()
        invariant
            0 <= i <= batch@.len(),
            crate::batch::reinsert(start, batch@) == crate::batch::reinsert(
                entries@,
                batch@.skip(i as int),
            ),
        decreases batch@.len() - i,
    {
        let at = if batch[i].1 < entries.len() {
            batch[i].1
        } else {
            entries.len()
        };
        let e = batch[i].0.duplicate();
        proof {
            assert(batch@.skip(i as int)[0] == batch@[i as int]);
            assert(batch@.skip(i as int).drop_first() == batch@.skip(i + 1));
        }
        entries.insert(at, e);
        i += 1;
    }
}

} // verus!

verus! {

/// The positions of `fid`'s entries in `s`, increasing.
pub open spec fn feed_positions(s: Seq<Entry>, fid: i64) -> Seq<usize>
    decreases s.len(),
{
    if s.len() == 0 {
        seq![]
    } else {
        feed_positions(s.drop_last(), fid) + (if s.last().feed_id == fid {
            seq![(s.len() - 1) as usize]
        } else {
            seq![]
        })
    }
}

/// Every position `0..n`, increasing.
pub open spec fn all_positions(n: nat) -> Seq<usize> {
    Seq::new(n, |i: int| i as usize)
}

/// The positions of one source's entries are increasing and in range.
pub proof fn lemma_feed_positions_ascending(s: Seq<Entry>, fid: i64)
    requires
        s.len() <= usize::MAX,
    ensures
        crate::batch::ascending_below(feed_positions(s, fid), s.len() as int),
        forall|k: int|
            0 <= k < feed_positions(s, fid).len() ==> s[#[trigger] feed_positions(s, fid)[k] as int].feed_id
                == fid,
    decreases s.len(),
{
    if s.len() > 0 {
        lemma_feed_positions_ascending(s.drop_last(), fid);
        let p = feed_positions(s.drop_last(), fid);
        let q = feed_positions(s, fid);
        assert forall|k: int| 0 <= k < q.len() implies s[#[trigger] q[k] as int].feed_id == fid by {
            if k < p.len() {
                assert(q[k] == p[k]);
                assert(s.drop_last()[p[k] as int] == s[p[k] as int]);
            }
        }
    }
}

/// A source's positions are exactly the entries belonging to it.
pub proof fn lemma_feed_positions_complete(s: Seq<Entry>, fid: i64, i: int)
    requires
        s.len() <= usize::MAX,
        0 <= i < s.len(),
        s[i].feed_id == fid,
    ensures
        crate::batch::listed(feed_positions(s, fid), i),
    decreases s.len(),
{
    let q = feed_positions(s, fid);
    if i == s.len() - 1 {
        assert(q[q.len() - 1] as int == i);
    } else {
        lemma_feed_positions_complete(s.drop_last(), fid, i);
        let p = feed_positions(s.drop_last(), fid);
        let k = choose|k: int| 0 <= k < p.len() && p[k] as int == i;
        assert(q[k] as int == i);
    }
}

/// The entries of `fid` at the increasing positions.
fn feed_positions_exec(entries: &Vec<Entry>, fid: i64) -> (r: Vec<usize>)
    ensures
        r@ == feed_positions(entries@, fid),
{
    let mut r: Vec<usize> = Vec::new();
    let mut i: usize = 0;
    while i < entries.len()
        invariant
            0 <= i <= entries@.len(),
            r@ == feed_positions(entries@.take(i as int), fid),
        decreases entries@.len() - i,
    {
        proof {
            assert(entries@.take(i + 1).drop_last() == entries@.take(i as int));
        }
        if entries[i].feed_id == fid {
            r.push(i);
        }
        proof {
            assert(r@ =~= feed_positions(entries@.take(i + 1), fid));
        }
        i += 1;
    }
    proof {
        assert(entries@.take(entries@.len() as int) == entries@);
    }
    r
}

/// `t + n`, stopping at `usize::MAX`.
pub open spec fn sat_add(t: usize, n: nat) -> usize {
    if t + n > usize::MAX {
        usize::MAX
    } else {
        (t + n) as usize
    }
}

/// `t - n`, stopping at zero.
pub open spec fn sat_sub(t: usize, n: nat) -> usize {
    if t < n {
        0
    } else {
        (t - n) as usize
    }
}

impl App {
    /// After removing articles from `feed_id`: stay near `hint` in the same
    /// source, or — if it emptied — drop focus to the sources column and pick
    /// the first remaining source.
    pub open spec fn reselect_after_removal_spec(self, feed_id: i64, hint: int) -> App {
        let ids = self.art_view(feed_id);
        if ids.len() > 0 {
            App {
                selected_source: Some(feed_id),
                selected_article: Some(ids[crate::batch::min_int(hint, ids.len() - 1)]),
                reader_scroll: 0,
                ..self
            }
        } else {
            App {
                selected_source: self.first_source(),
                selected_article: self.first_article_of(self.first_source()),
                focus: Focus::Sources,
                reader_scroll: 0,
                ..self
            }
        }
    }

    /// The position in `entries` that a single mark-read targets: the
    /// selected article, when an article (not a source) is focused.
    pub open spec fn mark_read_target(self) -> Option<int> {
        if self.focus == Focus::Sources {
            None
        } else {
            match self.selected_article {
                Some(a) => index_of(entry_ids(self.entries@), a),
                None => None,
            }
        }
    }

    /// Where a restored batch puts the cursor and the unread count.
    pub open spec fn after_reinsert(self, batch: Seq<(Entry, usize)>) -> App {
        let counted = App { total_unread: sat_add(self.total_unread, batch.len()), ..self };
        if batch.len() > 0 {
            App {
                selected_source: Some(batch[0].0.feed_id),
                selected_article: Some(batch[0].0.id),
                focus: Focus::Articles,
                reader_scroll: 0,
                ..counted
            }
        } else {
            counted
        }
    }

    /// After removing articles from `feed_id`, pick the next selection.
    pub fn reselect_after_removal(&mut self, feed_id: i64, hint: usize)
        ensures
            *final(self) == old(self).reselect_after_removal_spec(feed_id, hint as int),
    {
        let ids = self.article_ids(feed_id);
        if ids.len() > 0 {
            self.selected_source = Some(feed_id);
            let at = if hint < ids.len() - 1 {
                hint
            } else {
                ids.len() - 1
            };
            self.selected_article = Some(ids[at]);
        } else {
            let rows = self.sources();
            let first_source = if rows.len() > 0 {
                Some(rows[0].0)
            } else {
                None
            };
            self.selected_source = first_source;
            self.selected_article = self.first_article(first_source);
            self.focus = Focus::Sources;
        }
        self.reader_scroll = 0;
    }

    /// Take the entries at the increasing positions `idx` out of the window
    /// and lower the unread count by as many.
    fn take_positions(&mut self, idx: &Vec<usize>) -> (r: Vec<(Entry, usize)>)
        requires
            crate::batch::ascending_below(idx@, old(self).entries@.len() as int),
        ensures
            r@ == crate::batch::taken(old(self).entries@, idx@),
            final(self).entries@ == crate::batch::without(old(self).entries@, idx@),
            *final(self) == (App {
                entries: final(self).entries,
                total_unread: sat_sub(old(self).total_unread, idx@.len()),
                ..*old(self)
            }),
    {
        let (kept, batch) = split_at_positions(&self.entries, idx);
        self.entries = kept;
        self.total_unread = if self.total_unread < idx.len() {
            0
        } else {
            self.total_unread - idx.len()
        };
        batch
    }

    /// Remove the entries at the increasing positions `idx` as one batch,
    /// lower the unread count and reselect within the first one's source.
    /// `None`, with nothing changed, when there is nothing to remove.
    fn remove_batch(&mut self, idx: &Vec<usize>) -> (r: Option<Vec<(Entry, usize)>>)
        requires
            crate::batch::ascending_below(idx@, old(self).entries@.len() as int),
        ensures
            old(self).counts_add_up() ==> final(self).counts_add_up(),
            idx@.len() == 0 ==> r is None && *final(self) == *old(self),
            idx@.len() > 0 ==> {
                &&& r matches Some(b) && b@ == crate::batch::taken(old(self).entries@, idx@)
                &&& final(self).entries@ == crate::batch::without(old(self).entries@, idx@)
                &&& *final(self) == (App {
                    entries: final(self).entries,
                    total_unread: sat_sub(old(self).total_unread, idx@.len()),
                    ..*old(self)
                }).reselect_after_removal_spec(old(self).entries@[idx@[0] as int].feed_id, 0)
            },
    {
        if idx.len() == 0 {
            return None;
        }
        let feed_id = self.entries[idx[0]].feed_id;
        proof {
            crate::batch::lemma_without_len(self.entries@, idx@);
        }
        let batch = self.take_positions(idx);
        self.reselect_after_removal(feed_id, 0);
        Some(batch)
    }

    /// Optimistically mark the selected article read (only when an article is
    /// the active target). Returns it with its index as a one-element batch.
    pub fn begin_mark_read(&mut self) -> (r: Option<Vec<(Entry, usize)>>)
        ensures
            old(self).counts_add_up() ==> final(self).counts_add_up(),
            match old(self).mark_read_target() {
                None => r is None && *final(self) == *old(self),
                Some(i) => {
                    let hint = match old(self).article_index_spec() {
                        Some(h) => h,
                        None => 0,
                    };
                    &&& r matches Some(b) && b@ == crate::batch::taken(
                        old(self).entries@,
                        seq![i as usize],
                    )
                    &&& final(self).entries@ == crate::batch::without(
                        old(self).entries@,
                        seq![i as usize],
                    )
                    &&& *final(self) == (App {
                        entries: final(self).entries,
                        total_unread: sat_sub(old(self).total_unread, 1),
                        ..*old(self)
                    }).reselect_after_removal_spec(old(self).entries@[i].feed_id, hint)
                },
            },
    {
        if self.focus == Focus::Sources {
            return None;
        }
        let article = match self.selected_article {
            Some(a) => a,
            None => return None,
        };
        let hint = match self.article_index() {
            Some(h) => h,
            None => 0,
        };
        let ids = ids_of(&self.entries);
        let index = match position_of(&ids, article) {
            Some(i) => i,
            None => return None,
        };
        proof {
            lemma_index_of_bounds(ids@, article);
        }
        let feed_id = self.entries[index].feed_id;
        let mut idx: Vec<usize> = Vec::new();
        idx.push(index);
        proof {
            assert(idx@ == seq![index]);
            crate::batch::lemma_without_len(self.entries@, idx@);
        }
        let batch = self.take_positions(&idx);
        self.reselect_after_removal(feed_id, hint);
        Some(batch)
    }

    /// Optimistically mark every loaded article in the selected source read.
    /// Un-hydrated pending ids stay unread.
    pub fn begin_mark_source_read(&mut self) -> (r: Option<Vec<(Entry, usize)>>)
        ensures
            old(self).counts_add_up() ==> final(self).counts_add_up(),
            match old(self).selected_source {
                None => r is None && *final(self) == *old(self),
                Some(f) => {
                    let idx = feed_positions(old(self).entries@, f);
                    if idx.len() == 0 {
                        r is None && *final(self) == *old(self)
                    } else {
                        &&& r matches Some(b) && b@ == crate::batch::taken(old(self).entries@, idx)
                        &&& final(self).entries@ == crate::batch::without(old(self).entries@, idx)
                        &&& *final(self) == (App {
                            entries: final(self).entries,
                            total_unread: sat_sub(old(self).total_unread, idx.len()),
                            ..*old(self)
                        }).reselect_after_removal_spec(f, 0)
                    }
                },
            },
    {
        let feed_id = match self.selected_source {
            Some(f) => f,
            None => return None,
        };
        let idx = feed_positions_exec(&self.entries, feed_id);
        if idx.len() == 0 {
            return None;
        }
        let n = self.entries.len();
        proof {
            assert(self.entries@.len() == n);
            lemma_feed_positions_ascending(self.entries@, feed_id);
            assert(self.entries@[idx@[0] as int].feed_id == feed_id);
        }
        self.remove_batch(&idx)
    }

    /// Optimistically mark every loaded article read — the whole window.
    pub fn begin_mark_window_read(&mut self) -> (r: Option<Vec<(Entry, usize)>>)
        ensures
            old(self).counts_add_up() ==> final(self).counts_add_up(),
            old(self).entries@.len() == 0 ==> r is None && *final(self) == *old(self),
            old(self).entries@.len() > 0 ==> {
                let idx = all_positions(old(self).entries@.len());
                &&& r matches Some(b) && b@ == crate::batch::taken(old(self).entries@, idx)
                &&& final(self).entries@.len() == 0
                &&& *final(self) == (App {
                    entries: final(self).entries,
                    total_unread: sat_sub(old(self).total_unread, idx.len()),
                    ..*old(self)
                }).reselect_after_removal_spec(old(self).entries@[0].feed_id, 0)
            },
    {
        let n = self.entries.len();
        if n == 0 {
            return None;
        }
        let mut idx: Vec<usize> = Vec::new();
        let mut i: usize = 0;
        while i < n
            invariant
                0 <= i <= n,
                idx@ == all_positions(i as nat),
            decreases n - i,
        {
            idx.push(i);
            proof {
                assert(idx@ =~= all_positions((i + 1) as nat));
            }
            i += 1;
        }
        let ghost before = self.entries@;
        proof {
            assert(idx@[0] == 0);
        }
        let batch = self.remove_batch(&idx);
        proof {
            lemma_without_all(before);
        }
        batch
    }

    /// Put a removed batch back at the positions it had, bump the unread
    /// count, and focus the first restored entry.
    pub fn reinsert_batch(&mut self, batch: &Vec<(Entry, usize)>)
        ensures
            final(self).entries@ == crate::batch::reinsert(old(self).entries@, batch@),
            *final(self) == (App { entries: final(self).entries, ..*old(self) }).after_reinsert(
                batch@,
            ),
    {
        reinsert_into(&mut self.entries, batch);
        let mut i: usize = 0;
        let mut t = self.total_unread;
        let ghost t0 = self.total_unread;
        while i < batch.len()
            invariant
                0 <= i <= batch@.len(),
                t == sat_add(t0, i as nat),
            decreases batch@.len() - i,
        {
            t = t.saturating_add(1);
            i += 1;
        }
        self.total_unread = t;
        if batch.len() > 0 {
            self.selected_source = Some(batch[0].0.feed_id);
            self.selected_article = Some(batch[0].0.id);
            self.focus = Focus::Articles;
            self.reader_scroll = 0;
        }
    }

    /// Optimistically restore the most recent undo batch as a unit; returns
    /// the batch for the network write.
    pub fn begin_undo(&mut self) -> (r: Option<Vec<(Entry, usize)>>)
        ensures
            old(self).counts_add_up() && (old(self).undo_stack@.len() > 0 ==> old(self).total_unread
                + old(self).undo_stack@.last().batch@.len() <= usize::MAX) ==> final(self).counts_add_up(),
            old(self).undo_stack@.len() == 0 ==> r is None && *final(self) == *old(self),
            old(self).undo_stack@.len() > 0 ==> {
                let b = old(self).undo_stack@.last().batch;
                &&& r matches Some(rb) && rb == b
                &&& final(self).undo_stack@ == old(self).undo_stack@.drop_last()
                &&& final(self).entries@ == crate::batch::reinsert(old(self).entries@, b@)
                &&& *final(self) == (App {
                    entries: final(self).entries,
                    undo_stack: final(self).undo_stack,
                    ..*old(self)
                }).after_reinsert(b@)
            },
    {
        if self.undo_stack.len() == 0 {
            return None;
        }
        match self.undo_stack.pop() {
            None => None,
            Some(undone) => {
                let batch = undone.batch;
                proof {
                    crate::batch::lemma_reinsert_len(self.entries@, batch@);
                }
                self.reinsert_batch(&batch);
                Some(batch)
            },
        }
    }
}

proof fn lemma_without_all(s: Seq<Entry>)
    requires
        s.len() <= usize::MAX,
    ensures
        crate::batch::without(s, all_positions(s.len())).len() == 0,
{
    let ap = all_positions(s.len());
    assert forall|i: int| 0 <= i < s.len() implies #[trigger] crate::batch::listed(ap, i) by {
        assert(ap[i] as int == i);
    }
    crate::batch::lemma_without_none_kept(s, ap);
}

} // verus!

verus! {

/// The HTML an entry's reader body is built from: its content, else its
/// summary, else nothing.
pub open spec fn body_of(e: Entry) -> Seq<char> {
    match e.content {
        Some(c) => c@,
        None => match e.summary {
            Some(s) => s@,
            None => seq![],
        },
    }
}

/// The image URLs among reader segments, in order.
pub open spec fn image_urls_of(segs: Seq<SegmentView>) -> Seq<Seq<char>>
    decreases segs.len(),
{
    if segs.len() == 0 {
        seq![]
    } else {
        image_urls_of(segs.drop_last()) + match segs.last() {
            SegmentView::Image(u) => seq![u],
            SegmentView::Text(_) => seq![],
        }
    }
}

/// The images an article shows: its inline images, or — only when it has
/// none — its lead image.
pub open spec fn article_images_spec(e: Entry) -> Seq<Seq<char>> {
    let inline = image_urls_of(content_blocks_spec(body_of(e)));
    if inline.len() == 0 && spec_lead_image_url(e) is Some {
        seq![spec_lead_image_url(e)->0@]
    } else {
        inline
    }
}

/// The views of a vector of strings.
pub open spec fn str_views(v: Seq<String>) -> Seq<Seq<char>> {
    v.map_values(|s: String| s@)
}

/// The `(url, state)` pairs of an image cache.
pub open spec fn image_views(images: Seq<ImageEntry>) -> Seq<(Seq<char>, ImageState)> {
    images.map_values(|e: ImageEntry| (e.url@, e.state))
}

/// The state recorded for `url` (the first entry for it counts).
pub open spec fn image_state(images: Seq<(Seq<char>, ImageState)>, url: Seq<char>) -> Option<
    ImageState,
>
    decreases images.len(),
{
    if images.len() == 0 {
        None
    } else if images[0].0 == url {
        Some(images[0].1)
    } else {
        image_state(images.drop_first(), url)
    }
}

/// `s` without repeats, keeping first occurrences in order.
pub open spec fn dedup(s: Seq<Seq<char>>) -> Seq<Seq<char>>
    decreases s.len(),
{
    if s.len() == 0 {
        seq![]
    } else {
        dedup(s.drop_last()) + (if dedup(s.drop_last()).contains(s.last()) {
            seq![]
        } else {
            seq![s.last()]
        })
    }
}

/// The URLs of `urls` that have no recorded image state.
pub open spec fn unseen(urls: Seq<Seq<char>>, images: Seq<(Seq<char>, ImageState)>) -> Seq<
    Seq<char>,
>
    decreases urls.len(),
{
    if urls.len() == 0 {
        seq![]
    } else {
        unseen(urls.drop_last(), images) + (if image_state(images, urls.last()) is None {
            seq![urls.last()]
        } else {
            seq![]
        })
    }
}

pub(crate) fn image_urls_exec(segs: &Vec<Segment>) -> (r: Vec<String>)
    ensures
        str_views(r@) == image_urls_of(seg_views(segs@)),
{
    let mut r: Vec<String> = Vec::new();
    let mut i: usize = 0;
    while i < segs.len()
        invariant
            0 <= i <= segs@.len(),
            str_views(r@) == image_urls_of(seg_views(segs@).take(i as int)),
        decreases segs@.len() - i,
    {
        proof {
            assert(seg_views(segs@).take(i + 1).drop_last() == seg_views(segs@).take(i as int));
            assert(seg_views(segs@).take(i + 1).last() == segs@[i as int]@);
        }
        match &segs[i] {
            Segment::Image(u) => {
                let ghost before = r@;
                r.push(u.clone());
                proof {
                    assert(str_views(r@) =~= str_views(before).push(u@));
                }
            },
            Segment::Text(_) => {
                proof {
                    assert(str_views(r@) =~= str_views(r@) + Seq::<Seq<char>>::empty());
                }
            },
        }
        i += 1;
    }
    proof {
        assert(seg_views(segs@).take(segs@.len() as int) == seg_views(segs@));
    }
    r
}

/// Image URLs in one article's body, in document order (the lead image
/// stands in when the body has none).
pub fn article_image_urls(entry: &Entry) -> (r: Vec<String>)
    ensures
        str_views(r@) == article_images_spec(*entry),
{
    let body: &str = match &entry.content {
        Some(c) => c.as_str(),
        None => match &entry.summary {
            Some(s) => s.as_str(),
            None => "",
        },
    };
    proof {
        if entry.content is None && entry.summary is None {
            reveal_strlit("");
        }
    }
    let blocks = content_blocks(body);
    let inline = image_urls_exec(&blocks);
    if inline.len() == 0 {
        if let Some(url) = entry.lead_image_url() {
            let mut v: Vec<String> = Vec::new();
            v.push(String::from_str(url));
            proof {
                assert(str_views(v@) =~= seq![spec_lead_image_url(*entry)->0@]);
            }
            return v;
        }
    }
    inline
}

fn str_views_contains(v: &Vec<String>, s: &String) -> (r: bool)
    ensures
        r == str_views(v@).contains(s@),
{
    let mut i: usize = 0;
    while i < v.len()
        invariant
            0 <= i <= v@.len(),
            forall|k: int| 0 <= k < i ==> v@[k]@ != s@,
        decreases v@.len() - i,
    {
        if str_eq(v[i].as_str(), s.as_str()) {
            proof {
                assert(str_views(v@)[i as int] == s@);
            }
            return true;
        }
        i += 1;
    }
    proof {
        if str_views(v@).contains(s@) {
            let k = choose|k: int| 0 <= k < str_views(v@).len() && str_views(v@)[k] == s@;
            assert(v@[k]@ == s@);
        }
    }
    false
}

/// The recorded state of `url` in the image cache.
pub fn image_state_of(images: &Vec<ImageEntry>, url: &str) -> (r: Option<ImageState>)
    ensures
        r == image_state(image_views(images@), url@),
{
    let ghost iv = image_views(images@);
    let mut i: usize = 0;
    proof {
        assert(iv.skip(0) == iv);
    }
    while i < images.len()
        invariant
            0 <= i <= images@.len(),
            iv == image_views(images@),
            image_state(iv, url@) == image_state(iv.skip(i as int), url@),
        decreases images@.len() - i,
    {
        proof {
            assert(iv.skip(i as int)[0] == iv[i as int]);
            assert(iv.skip(i as int).drop_first() == iv.skip(i + 1));
        }
        if str_eq(images[i].url.as_str(), url) {
            return Some(images[i].state);
        }
        i += 1;
    }
    None
}

proof fn lemma_image_state_push(
    images: Seq<(Seq<char>, ImageState)>,
    e: (Seq<char>, ImageState),
    url: Seq<char>,
)
    ensures
        image_state(images.push(e), url) == (if image_state(images, url) is Some {
            image_state(images, url)
        } else if e.0 == url {
            Some(e.1)
        } else {
            None
        }),
    decreases images.len(),
{
    if images.len() > 0 {
        assert(images.push(e).drop_first() == images.drop_first().push(e));
        assert(images.push(e)[0] == images[0]);
        lemma_image_state_push(images.drop_first(), e, url);
    } else {
        assert(images.push(e).drop_first() =~= Seq::<(Seq<char>, ImageState)>::empty());
        assert(images.push(e)[0] == e);
        assert(image_state(images.push(e).drop_first(), url) is None);
    }
}

impl App {
    /// The entry with id `id` (the first one holding it), if loaded.
    pub open spec fn entry_with_id(self, id: i64) -> Option<Entry> {
        match index_of(entry_ids(self.entries@), id) {
            Some(i) => Some(self.entries@[i]),
            None => None,
        }
    }

    /// Image URLs of the articles `ids`, in order.
    pub open spec fn urls_of_articles(self, ids: Seq<i64>) -> Seq<Seq<char>>
        decreases ids.len(),
    {
        if ids.len() == 0 {
            seq![]
        } else {
            self.urls_of_articles(ids.drop_last()) + match self.entry_with_id(ids.last()) {
                Some(e) => article_images_spec(e),
                None => seq![],
            }
        }
    }

    /// Image URLs of the sources `rows`, in on-screen order.
    pub open spec fn urls_of_sources(self, rows: Seq<(i64, usize)>) -> Seq<Seq<char>>
        decreases rows.len(),
    {
        if rows.len() == 0 {
            seq![]
        } else {
            self.urls_of_sources(rows.drop_last()) + self.urls_of_articles(
                self.art_view(rows.last().0),
            )
        }
    }

    /// Every image URL of the loaded window in on-screen order: sources
    /// top-to-bottom, articles oldest first, images in document order.
    pub open spec fn load_urls(self) -> Seq<Seq<char>> {
        self.urls_of_sources(self.sources_view())
    }

    /// With remote images on, `after` is `self` with the load's unseen
    /// images queued as `Loading` and the load's distinct image URLs
    /// recorded; with them off, `after` is `self`.
    pub open spec fn refilled(self, after: App) -> bool {
        if !self.remote_images {
            after == self
        } else {
            self.refilled_remote(after)
        }
    }

    /// `refilled` when remote images are on.
    pub open spec fn refilled_remote(self, after: App) -> bool {
        &&& str_views(after.image_urls@) == dedup(self.load_urls())
        &&& image_views(after.images@) == image_views(self.images@) + unseen(
            dedup(self.load_urls()),
            image_views(self.images@),
        ).map_values(|u: Seq<char>| (u, ImageState::Loading))
        &&& str_views(after.image_queue@) == str_views(self.image_queue@) + unseen(
            dedup(self.load_urls()),
            image_views(self.images@),
        )
        &&& after == (App {
            images: after.images,
            image_queue: after.image_queue,
            image_urls: after.image_urls,
            ..self
        })
    }

    /// The loaded entry with the given id.
    pub fn entry_by_id(&self, id: i64) -> (r: Option<&Entry>)
        ensures
            match self.entry_with_id(id) {
                Some(e) => r matches Some(x) && *x == e,
                None => r is None,
            },
    {
        let ids = ids_of(&self.entries);
        match position_of(&ids, id) {
            Some(i) => {
                proof {
                    lemma_index_of_bounds(ids@, id);
                }
                Some(&self.entries[i])
            },
            None => None,
        }
    }

    fn urls_of_articles_exec(&self, ids: &Vec<i64>) -> (r: Vec<String>)
        ensures
            str_views(r@) == self.urls_of_articles(ids@),
    {
        let mut r: Vec<String> = Vec::new();
        let mut i: usize = 0;
        while i < ids.len()
            invariant
                0 <= i <= ids@.len(),
                str_views(r@) == self.urls_of_articles(ids@.take(i as int)),
            decreases ids@.len() - i,
        {
            proof {
                assert(ids@.take(i + 1).drop_last() == ids@.take(i as int));
            }
            if let Some(entry) = self.entry_by_id(ids[i]) {
                let mut urls = article_image_urls(entry);
                let ghost before = r@;
                r.append(&mut urls);
                proof {
                    assert(str_views(r@) =~= str_views(before) + article_images_spec(*entry));
                }
            } else {
                proof {
                    assert(str_views(r@) =~= str_views(r@) + Seq::<Seq<char>>::empty());
                }
            }
            i += 1;
        }
        proof {
            assert(ids@.take(ids@.len() as int) == ids@);
        }
        r
    }

    /// Every image URL of the loaded window, in on-screen order.
    pub fn load_image_urls(&self) -> (r: Vec<String>)
        ensures
            str_views(r@) == self.load_urls(),
    {
        let rows = self.sources();
        let mut r: Vec<String> = Vec::new();
        let mut i: usize = 0;
        while i < rows.len()
            invariant
                0 <= i <= rows@.len(),
                rows@ == self.sources_view(),
                str_views(r@) == self.urls_of_sources(rows@.take(i as int)),
            decreases rows@.len() - i,
        {
            proof {
                assert(rows@.take(i + 1).drop_last() == rows@.take(i as int));
            }
            let ids = self.article_ids(rows[i].0);
            let mut urls = self.urls_of_articles_exec(&ids);
            let ghost before = r@;
            r.append(&mut urls);
            proof {
                assert(str_views(r@) =~= str_views(before) + self.urls_of_articles(
                    self.art_view(rows@[i as int].0),
                ));
            }
            i += 1;
        }
        proof {
            assert(rows@.take(rows@.len() as int) == rows@);
        }
        r
    }

    /// Enqueue every not-yet-seen image of the load for pre-fetch in
    /// on-screen order, marking each `Loading`, and record the load's
    /// distinct image URLs for the progress count.
    pub fn refill_image_queue(&mut self)
        ensures
            old(self).refilled(*final(self)),
    {
        if !self.remote_images {
            return;
        }
        let all = self.load_image_urls();
        let ghost orig = image_views(self.images@);
        let ghost q0 = str_views(self.image_queue@);
        let mut urls: Vec<String> = Vec::new();
        let mut i: usize = 0;
        while i < all.len()
            invariant
                0 <= i <= all@.len(),
                str_views(all@) == old(self).load_urls(),
                orig == image_views(old(self).images@),
                q0 == str_views(old(self).image_queue@),
                str_views(urls@) == dedup(str_views(all@).take(i as int)),
                image_views(self.images@) == orig + unseen(
                    dedup(str_views(all@).take(i as int)),
                    orig,
                ).map_values(|u: Seq<char>| (u, ImageState::Loading)),
                str_views(self.image_queue@) == q0 + unseen(
                    dedup(str_views(all@).take(i as int)),
                    orig,
                ),
                forall|x: Seq<char>|
                    !str_views(urls@).contains(x) ==> image_state(image_views(self.images@), x)
                        == image_state(orig, x),
                *self == (App {
                    images: self.images,
                    image_queue: self.image_queue,
                    image_urls: self.image_urls,
                    ..*old(self)
                }),
            decreases all@.len() - i,
        {
            let ghost d = dedup(str_views(all@).take(i as int));
            proof {
                assert(str_views(all@).take(i + 1).drop_last() == str_views(all@).take(i as int));
                assert(str_views(all@).take(i + 1).last() == all@[i as int]@);
            }
            let url = &all[i];
            proof {
                assert(dedup(str_views(all@).take(i + 1)) == d + (if d.contains(url@) {
                    Seq::<Seq<char>>::empty()
                } else {
                    seq![url@]
                }));
            }
            if !str_views_contains(&urls, url) {
                proof {
                    assert(d + seq![url@] == d.push(url@));
                }
                let ghost before_images = image_views(self.images@);
                let ghost before_urls = str_views(urls@);
                let ghost before_queue = str_views(self.image_queue@);
                urls.push(url.clone());
                let st = image_state_of(&self.images, url.as_str());
                if st.is_none() {
                    self.images.push(ImageEntry { url: url.clone(), state: ImageState::Loading });
                    self.image_queue.push_back(url.clone());
                    proof {
                        assert(image_state(orig, url@) is None);
                        assert(str_views(self.image_queue@) =~= before_queue.push(url@));
                        assert(image_views(self.images@) =~= before_images.push(
                            (url@, ImageState::Loading),
                        ));
                        assert(unseen(d.push(url@), orig) == unseen(d, orig).push(url@)) by {
                            assert(d.push(url@).drop_last() == d);
                        }
                        assert(unseen(d.push(url@), orig).map_values(
                            |u: Seq<char>| (u, ImageState::Loading),
                        ) =~= unseen(d, orig).map_values(|u: Seq<char>| (u, ImageState::Loading)).push(
                            (url@, ImageState::Loading),
                        ));
                        assert forall|x: Seq<char>| !str_views(urls@).contains(x) implies image_state(
                            image_views(self.images@),
                            x,
                        ) == image_state(orig, x) by {
                            assert(str_views(urls@) =~= before_urls.push(url@));
                            if before_urls.contains(x) {
                                let k = choose|k: int| 0 <= k < before_urls.len() && before_urls[k] == x;
                                assert(str_views(urls@)[k] == x);
                            }
                            lemma_image_state_push(before_images, (url@, ImageState::Loading), x);
                        }
                    }
                } else {
                    proof {
                        assert(image_state(orig, url@) is Some);
                        assert(unseen(d.push(url@), orig) == unseen(d, orig)) by {
                            assert(d.push(url@).drop_last() == d);
                        }
                        assert forall|x: Seq<char>| !str_views(urls@).contains(x) implies image_state(
                            image_views(self.images@),
                            x,
                        ) == image_state(orig, x) by {
                            assert(str_views(urls@) =~= before_urls.push(url@));
                            if before_urls.contains(x) {
                                let k = choose|k: int| 0 <= k < before_urls.len() && before_urls[k] == x;
                                assert(str_views(urls@)[k] == x);
                            }
                        }
                    }
                }
                proof {
                    assert(str_views(urls@) =~= before_urls.push(url@));
                }
            } else {
                proof {
                    assert(d + Seq::<Seq<char>>::empty() == d);
                }
            }
            i += 1;
        }
        proof {
            assert(str_views(all@).take(all@.len() as int) == str_views(all@));
        }
        self.image_urls = urls;
    }
}

} // verus!

verus! {

/// The entries' publication times, compared as text (`None` first).
pub open spec fn pub_key(e: Entry) -> Option<Seq<char>> {
    match e.published {
        Some(s) => Some(s@),
        None => None,
    }
}

/// Strict order on optional times: `None` precedes every time.
pub open spec fn opt_lt(a: Option<Seq<char>>, b: Option<Seq<char>>) -> bool {
    match (a, b) {
        (None, Some(_)) => true,
        (Some(x), Some(y)) => seq_lt(x, y),
        _ => false,
    }
}

/// Where a stable newest-first sort puts `x` after the sorted `r`: before
/// every element published strictly earlier, after the rest.
pub open spec fn desc_pos(r: Seq<Entry>, x: Entry) -> int
    decreases r.len(),
{
    if r.len() == 0 || !opt_lt(pub_key(r.last()), pub_key(x)) {
        r.len() as int
    } else {
        desc_pos(r.drop_last(), x)
    }
}

/// A stable sort of `s`, newest `published` first.
pub open spec fn sort_newest_first(s: Seq<Entry>) -> Seq<Entry>
    decreases s.len(),
{
    if s.len() == 0 {
        seq![]
    } else {
        let r = sort_newest_first(s.drop_last());
        r.insert(desc_pos(r, s.last()), s.last())
    }
}

proof fn lemma_desc_pos_bounds(r: Seq<Entry>, x: Entry)
    ensures
        0 <= desc_pos(r, x) <= r.len(),
    decreases r.len(),
{
    if r.len() > 0 && opt_lt(pub_key(r.last()), pub_key(x)) {
        lemma_desc_pos_bounds(r.drop_last(), x);
    }
}

proof fn lemma_sort_len(s: Seq<Entry>)
    ensures
        sort_newest_first(s).len() == s.len(),
    decreases s.len(),
{
    if s.len() > 0 {
        lemma_sort_len(s.drop_last());
        lemma_desc_pos_bounds(sort_newest_first(s.drop_last()), s.last());
    }
}

/// Whether `a` was published strictly before `b`.
pub fn published_before(a: &Option<String>, b: &Option<String>) -> (r: bool)
    ensures
        r == opt_lt(
            match a {
                Some(s) => Some(s@),
                None => None,
            },
            match b {
                Some(s) => Some(s@),
                None => None,
            },
        ),
{
    match (a, b) {
        (None, Some(_)) => true,
        (Some(x), Some(y)) => str_lt(x.as_str(), y.as_str()),
        _ => false,
    }
}

/// Sort entries newest first (a stable sort on `published`, compared as
/// text, with unpublished entries last).
pub fn sort_newest_first_exec(entries: Vec<Entry>) -> (r: Vec<Entry>)
    ensures
        r@ == sort_newest_first(entries@),
{
    let mut r: Vec<Entry> = Vec::new();
    let mut i: usize = 0;
    while i < entries.len()
        invariant
            0 <= i <= entries@.len(),
            r@ == sort_newest_first(entries@.take(i as int)),
        decreases entries@.len() - i,
    {
        proof {
            assert(entries@.take(i + 1).drop_last() == entries@.take(i as int));
            lemma_sort_len(entries@.take(i as int));
        }
        let x = entries[i].duplicate();
        let mut p = r.len();
        proof {
            assert(r@.take(p as int) == r@);
        }
        while p > 0 && published_before(&r[p - 1].published, &x.published)
            invariant
                0 <= p <= r@.len(),
                desc_pos(r@, x) == desc_pos(r@.take(p as int), x),
            decreases p,
        {
            proof {
                assert(r@.take(p as int).drop_last() == r@.take(p - 1));
                assert(r@.take(p as int).last() == r@[p - 1]);
            }
            p -= 1;
        }
        proof {
            if p > 0 {
                assert(r@.take(p as int).last() == r@[p - 1]);
            }
            assert(desc_pos(r@.take(p as int), x) == p);
        }
        r.insert(p, x);
        i += 1;
    }
    proof {
        assert(entries@.take(entries@.len() as int) == entries@);
    }
    r
}

} // verus!

verus! {

/// Whether none of a batch's entries is among the `present` ids.
pub open spec fn batch_absent(b: Seq<(Entry, usize)>, present: Seq<i64>) -> bool {
    forall|k: int| 0 <= k < b.len() ==> !present.contains(#[trigger] b[k].0.id)
}

/// The undo batches a reload keeps: those none of whose entries came back.
pub open spec fn kept_undos(stack: Seq<Undone>, present: Seq<i64>) -> Seq<Undone>
    decreases stack.len(),
{
    if stack.len() == 0 {
        seq![]
    } else {
        kept_undos(stack.drop_last(), present) + (if batch_absent(stack.last().batch@, present) {
            seq![stack.last()]
        } else {
            seq![]
        })
    }
}

/// Take a failed undo's entries back out of the window (each one present by
/// id), lowering the unread count for each.
pub open spec fn drop_ids(s: Seq<Entry>, t: usize, b: Seq<(Entry, usize)>) -> (Seq<Entry>, usize)
    decreases b.len(),
{
    if b.len() == 0 {
        (s, t)
    } else {
        match index_of(entry_ids(s), b[0].0.id) {
            Some(p) => drop_ids(s.remove(p), sat_sub(t, 1), b.drop_first()),
            None => drop_ids(s, t, b.drop_first()),
        }
    }
}

/// Dropping ids lowers the count by exactly as many entries as it removes.
pub proof fn lemma_drop_ids_counts(s: Seq<Entry>, t: usize, b: Seq<(Entry, usize)>)
    requires
        t >= s.len(),
    ensures
        drop_ids(s, t, b).1 >= drop_ids(s, t, b).0.len(),
        drop_ids(s, t, b).1 - drop_ids(s, t, b).0.len() == t - s.len(),
    decreases b.len(),
{
    if b.len() > 0 {
        lemma_index_of_bounds(entry_ids(s), b[0].0.id);
        match index_of(entry_ids(s), b[0].0.id) {
            Some(p) => {
                assert(entry_ids(s).len() == s.len());
                lemma_drop_ids_counts(s.remove(p), sat_sub(t, 1), b.drop_first());
            },
            None => {
                lemma_drop_ids_counts(s, t, b.drop_first());
            },
        }
    }
}

/// The image cache with `url` set to `st`, every other URL unchanged.
pub open spec fn image_set(
    before: Seq<(Seq<char>, ImageState)>,
    after: Seq<(Seq<char>, ImageState)>,
    url: Seq<char>,
    st: ImageState,
) -> bool {
    forall|u: Seq<char>|
        #[trigger] image_state(after, u) == (if u == url {
            Some(st)
        } else {
            image_state(before, u)
        })
}

/// How many of `urls` have finished (ready or failed).
pub open spec fn done_count(urls: Seq<Seq<char>>, images: Seq<(Seq<char>, ImageState)>) -> nat
    decreases urls.len(),
{
    if urls.len() == 0 {
        0
    } else {
        done_count(urls.drop_last(), images) + (match image_state(images, urls.last()) {
            Some(ImageState::Ready) | Some(ImageState::Failed) => 1nat,
            _ => 0nat,
        })
    }
}

/// The elements of `q` that are (`inside`) or are not among `w`, in order.
pub open spec fn pick(q: Seq<Seq<char>>, w: Seq<Seq<char>>, inside: bool) -> Seq<Seq<char>>
    decreases q.len(),
{
    if q.len() == 0 {
        seq![]
    } else {
        pick(q.drop_last(), w, inside) + (if w.contains(q.last()) == inside {
            seq![q.last()]
        } else {
            seq![]
        })
    }
}

/// The footer prompt for the whole-window confirmation.
pub open spec fn confirm_text(n: nat) -> Seq<char> {
    "Mark all "@ + crate::decimal::dec(n) + " loaded articles read?  y / n"@
}

/// The notice after a failed mark-read (rolled back).
pub open spec fn mark_failed_text(n: nat, err: Seq<char>) -> Seq<char> {
    if n == 1 {
        "Mark read failed (restored): "@ + err
    } else {
        "Mark "@ + crate::decimal::dec(n) + " read failed (restored): "@ + err
    }
}

fn prefixed(a: &str, b: &str) -> (r: String)
    ensures
        r@ == a@ + b@,
{
    let mut s = String::from_str(a);
    s.append(b);
    s
}

fn mark_failed_notice(n: usize, err: &String) -> (r: String)
    ensures
        r@ == mark_failed_text(n as nat, err@),
{
    if n == 1 {
        prefixed("Mark read failed (restored): ", err.as_str())
    } else {
        let mut s = String::from_str("Mark ");
        crate::decimal::push_dec(&mut s, n as u64);
        s.append(" read failed (restored): ");
        s.append(err.as_str());
        s
    }
}

/// The image cache without any entry for `url`, order kept.
pub open spec fn without_url(v: Seq<(Seq<char>, ImageState)>, url: Seq<char>) -> Seq<
    (Seq<char>, ImageState),
>
    decreases v.len(),
{
    if v.len() == 0 {
        seq![]
    } else {
        without_url(v.drop_last(), url) + (if v.last().0 != url {
            seq![v.last()]
        } else {
            seq![]
        })
    }
}

proof fn lemma_without_url(v: Seq<(Seq<char>, ImageState)>, url: Seq<char>)
    ensures
        forall|u: Seq<char>|
            #[trigger] image_state(without_url(v, url), u) == (if u == url {
                None
            } else {
                image_state(v, u)
            }),
    decreases v.len(),
{
    if v.len() > 0 {
        let p = v.drop_last();
        let l = v.last();
        lemma_without_url(p, url);
        assert(v =~= p.push(l));
        assert forall|u: Seq<char>|
            #[trigger] image_state(without_url(v, url), u) == (if u == url {
                None
            } else {
                image_state(v, u)
            }) by {
            lemma_image_state_push(p, l, u);
            if l.0 != url {
                assert(without_url(v, url) =~= without_url(p, url).push(l));
                lemma_image_state_push(without_url(p, url), l, u);
            } else {
                assert(without_url(v, url) =~= without_url(p, url));
            }
        }
    }
}

impl App {
    /// The state before any load.
    pub fn new() -> (r: App)
        ensures
            r.status is Loading,
            r.entries@.len() == 0,
            r.feed_titles@ == Map::<i64, String>::empty(),
            r.total_unread == 0,
            r.pending_ids@.len() == 0,
            r.in_flight_more is None,
            r.focus == Focus::Sources,
            r.selected_source is None,
            r.selected_article is None,
            r.reader_scroll == 0,
            r.images@.len() == 0,
            r.image_queue@.len() == 0,
            r.image_urls@.len() == 0,
            r.spinner_tick == 0,
            r.reader_width == 0,
            r.image_generation == 0,
            r.undo_stack@.len() == 0,
            r.notice is None,
            r.pending_confirm is None,
            !r.show_help,
            !r.should_quit,
            r.remote_images,
    {
        App {
            status: Status::Loading,
            entries: Vec::new(),
            feed_titles: HashMap::new(),
            total_unread: 0,
            pending_ids: Vec::new(),
            in_flight_more: None,
            focus: Focus::Sources,
            selected_source: None,
            selected_article: None,
            reader_scroll: 0,
            images: Vec::new(),
            image_queue: VecDeque::new(),
            image_urls: Vec::new(),
            spinner_tick: 0,
            reader_width: 0,
            image_generation: 0,
            undo_stack: Vec::new(),
            notice: None,
            pending_confirm: None,
            show_help: false,
            should_quit: false,
            remote_images: true,
        }
    }

    /// Record `st` as the state of the image at `url`.
    pub fn set_image(&mut self, url: String, st: ImageState)
        ensures
            image_views(final(self).images@) == without_url(image_views(old(self).images@), url@).push((url@, st)),
            image_set(image_views(old(self).images@), image_views(final(self).images@), url@, st),
            *final(self) == (App { images: final(self).images, ..*old(self) }),
    {
        let ghost v = image_views(self.images@);
        let mut kept: Vec<ImageEntry> = Vec::new();
        let mut old_images: Vec<ImageEntry> = Vec::new();
        std::mem::swap(&mut old_images, &mut self.images);
        let ghost all = old_images@;
        let total = old_images.len();
        let mut i: usize = 0;
        while old_images.len() > 0
            invariant
                v == image_views(all),
                i + old_images@.len() == all.len(),
                all.len() == total,
                old_images@ == all.skip(i as int),
                image_views(kept@) == without_url(image_views(all.take(i as int)), url@),
                *self == (App { images: self.images, ..*old(self) }),
            decreases old_images@.len(),
        {
            let e = old_images.remove(0);
            proof {
                assert(all.skip(i as int)[0] == all[i as int]);
                assert(all.skip(i as int).remove(0) == all.skip(i + 1));
                assert(image_views(all.take(i + 1)) == image_views(all.take(i as int)).push(
                    (all[i as int].url@, all[i as int].state),
                ));
                assert(image_views(all.take(i + 1)).drop_last() == image_views(all.take(i as int)));
            }
            if !str_eq(e.url.as_str(), url.as_str()) {
                let ghost before = image_views(kept@);
                kept.push(e);
                proof {
                    assert(image_views(kept@) =~= before.push((all[i as int].url@, all[i as int].state)));
                }
            }
            i += 1;
        }
        proof {
            assert(all.take(i as int) == all);
            lemma_without_url(v, url@);
        }
        let ghost before = image_views(kept@);
        kept.push(ImageEntry { url, state: st });
        proof {
            assert(image_views(kept@) =~= before.push((url@, st)));
            assert forall|u: Seq<char>| #[trigger] image_state(image_views(kept@), u) == (if u
                == url@ {
                Some(st)
            } else {
                image_state(v, u)
            }) by {
                lemma_image_state_push(before, (url@, st), u);
            }
        }
        self.images = kept;
    }

    /// Progress of the current load's image fetches as `(done, total)`, or
    /// `None` when there are no images or all have resolved.
    pub fn image_progress(&self) -> (r: Option<(usize, usize)>)
        ensures
            ({
                let total = self.image_urls@.len();
                let done = done_count(str_views(self.image_urls@), image_views(self.images@));
                r == (if total == 0 || done >= total {
                    None::<(usize, usize)>
                } else {
                    Some((done as usize, total as usize))
                })
            }),
    {
        let total = self.image_urls.len();
        if total == 0 {
            return None;
        }
        let mut done: usize = 0;
        let mut i: usize = 0;
        while i < total
            invariant
                0 <= i <= total,
                total == self.image_urls@.len(),
                done as nat == done_count(str_views(self.image_urls@).take(i as int), image_views(self.images@)),
                done <= i,
            decreases total - i,
        {
            proof {
                assert(str_views(self.image_urls@).take(i + 1).drop_last() == str_views(
                    self.image_urls@,
                ).take(i as int));
            }
            match image_state_of(&self.images, self.image_urls[i].as_str()) {
                Some(ImageState::Ready) | Some(ImageState::Failed) => {
                    done += 1;
                },
                _ => {},
            }
            i += 1;
        }
        proof {
            assert(str_views(self.image_urls@).take(total as int) == str_views(self.image_urls@));
        }
        if done < total {
            Some((done, total))
        } else {
            None
        }
    }

    /// Pop the next image URL to fetch (already marked `Loading`).
    pub fn next_queued_image(&mut self) -> (r: Option<String>)
        ensures
            old(self).image_queue@.len() == 0 ==> r is None && *final(self) == *old(self),
            old(self).image_queue@.len() > 0 ==> r == Some(old(self).image_queue@[0])
                && final(self).image_queue@ == old(self).image_queue@.drop_first() && *final(self) == (App {
                image_queue: final(self).image_queue,
                ..*old(self)
            }),
    {
        if self.image_queue.len() == 0 {
            return None;
        }
        self.image_queue.pop_front()
    }

    /// The selected article's entry, if loaded.
    pub open spec fn selected_entry(self) -> Option<Entry> {
        match self.selected_article {
            Some(id) => self.entry_with_id(id),
            None => None,
        }
    }

    /// The selected article's entry, if any.
    pub fn selected_article_entry(&self) -> (r: Option<&Entry>)
        ensures
            match self.selected_entry() {
                Some(e) => r matches Some(x) && *x == e,
                None => r is None,
            },
    {
        match self.selected_article {
            Some(id) => self.entry_by_id(id),
            None => None,
        }
    }

    /// Bump the focused article's still-queued images to the front, keeping
    /// everything else in its top-to-bottom order.
    pub fn prioritize_selected_images(&mut self)
        ensures
            ({
                let q = str_views(old(self).image_queue@);
                match old(self).selected_entry() {
                    Some(e) if q.len() > 0 && article_images_spec(e).len() > 0 => {
                        &&& str_views(final(self).image_queue@) == pick(q, article_images_spec(e), true)
                            + pick(q, article_images_spec(e), false)
                        &&& *final(self) == (App {
                            image_queue: final(self).image_queue,
                            ..*old(self)
                        })
                    },
                    _ => *final(self) == *old(self),
                }
            }),
    {
        if self.image_queue.len() == 0 {
            return;
        }
        let wanted = match self.selected_article_entry() {
            Some(e) => article_image_urls(e),
            None => return,
        };
        if wanted.len() == 0 {
            return;
        }
        let ghost q = str_views(self.image_queue@);
        let ghost w = str_views(wanted@);
        let mut front: Vec<String> = Vec::new();
        let mut rest: Vec<String> = Vec::new();
        let mut i: usize = 0;
        while i < self.image_queue.len()
            invariant
                0 <= i <= self.image_queue@.len(),
                q == str_views(self.image_queue@),
                w == str_views(wanted@),
                str_views(front@) == pick(q.take(i as int), w, true),
                str_views(rest@) == pick(q.take(i as int), w, false),
            decreases self.image_queue@.len() - i,
        {
            let u = self.image_queue[i].clone();
            proof {
                assert(q.take(i + 1).drop_last() == q.take(i as int));
                assert(q.take(i + 1).last() == u@);
            }
            if str_views_contains(&wanted, &u) {
                let ghost b = str_views(front@);
                front.push(u);
                proof {
                    assert(str_views(front@) =~= b.push(q[i as int]));
                }
            } else {
                let ghost b = str_views(rest@);
                rest.push(u);
                proof {
                    assert(str_views(rest@) =~= b.push(q[i as int]));
                }
            }
            i += 1;
        }
        proof {
            assert(q.take(q.len() as int) == q);
        }
        let mut queue: VecDeque<String> = VecDeque::new();
        let mut j: usize = 0;
        while j < front.len()
            invariant
                0 <= j <= front@.len(),
                str_views(queue@) == str_views(front@).take(j as int),
            decreases front@.len() - j,
        {
            let ghost before = str_views(queue@);
            let u = front[j].clone();
            assert(u@ == str_views(front@)[j as int]);
            queue.push_back(u);
            proof {
                assert(str_views(queue@) =~= before.push(u@));
                assert(str_views(front@).take(j + 1) =~= str_views(front@).take(j as int).push(u@));
            }
            j += 1;
        }
        let mut j: usize = 0;
        while j < rest.len()
            invariant
                0 <= j <= rest@.len(),
                str_views(queue@) == str_views(front@) + str_views(rest@).take(j as int),
            decreases rest@.len() - j,
        {
            let ghost before = str_views(queue@);
            let u = rest[j].clone();
            assert(u@ == str_views(rest@)[j as int]);
            queue.push_back(u);
            proof {
                assert(str_views(queue@) =~= before.push(u@));
                assert(str_views(rest@).take(j + 1) =~= str_views(rest@).take(j as int).push(u@));
                assert(str_views(front@) + str_views(rest@).take(j + 1) =~= (str_views(front@) + str_views(
                    rest@,
                ).take(j as int)).push(u@));
            }
            j += 1;
        }
        proof {
            assert(str_views(front@).take(front@.len() as int) =~= str_views(front@));
            assert(str_views(rest@).take(rest@.len() as int) =~= str_views(rest@));
        }
        self.image_queue = queue;
    }

    /// Whether the selection is near the oldest loaded entry while unread ids
    /// remain un-hydrated — the cue to fetch the next batch.
    pub open spec fn near_tail_spec(self) -> bool {
        if self.pending_ids@.len() == 0 {
            false
        } else {
            match (match self.selected_article {
                Some(id) => index_of(entry_ids(self.entries@), id),
                None => None,
            }) {
                Some(idx) => idx + LOAD_MORE_THRESHOLD >= self.entries@.len(),
                None => self.entries@.len() <= LOAD_MORE_THRESHOLD,
            }
        }
    }

    /// Whether a load-more is due.
    pub fn near_tail(&self) -> (r: bool)
        ensures
            r == self.near_tail_spec(),
    {
        if self.pending_ids.len() == 0 {
            return false;
        }
        let pos = match self.selected_article {
            Some(id) => {
                let ids = ids_of(&self.entries);
                position_of(&ids, id)
            },
            None => None,
        };
        proof {
            if let Some(id) = self.selected_article {
                lemma_index_of_bounds(entry_ids(self.entries@), id);
            }
        }
        match pos {
            Some(idx) => idx >= self.entries.len() || self.entries.len() - idx <= LOAD_MORE_THRESHOLD,
            None => self.entries.len() <= LOAD_MORE_THRESHOLD,
        }
    }

    /// If a load-more is warranted and none is in flight, move the next batch
    /// of pending ids into `in_flight_more` and return it for hydration.
    pub fn maybe_begin_load_more(&mut self) -> (r: Option<Vec<i64>>)
        ensures
            old(self).counts_add_up() ==> final(self).counts_add_up(),
            (old(self).in_flight_more is Some || !old(self).near_tail_spec()) ==> r is None
                && *final(self) == *old(self),
            (old(self).in_flight_more is None && old(self).near_tail_spec()) ==> {
                let n = crate::batch::min_int(old(self).pending_ids@.len() as int, LOAD_MORE_BATCH as int);
                &&& r matches Some(b) && b@ == old(self).pending_ids@.take(n)
                &&& final(self).pending_ids@ == old(self).pending_ids@.skip(n)
                &&& final(self).in_flight_more matches Some(f) && f@ == old(self).pending_ids@.take(n)
                &&& *final(self) == (App {
                    pending_ids: final(self).pending_ids,
                    in_flight_more: final(self).in_flight_more,
                    ..*old(self)
                })
            },
    {
        if self.in_flight_more.is_some() || !self.near_tail() {
            return None;
        }
        let n = if self.pending_ids.len() < LOAD_MORE_BATCH {
            self.pending_ids.len()
        } else {
            LOAD_MORE_BATCH
        };
        let mut batch: Vec<i64> = Vec::new();
        let mut rest: Vec<i64> = Vec::new();
        let mut i: usize = 0;
        while i < self.pending_ids.len()
            invariant
                0 <= i <= self.pending_ids@.len(),
                n <= self.pending_ids@.len(),
                batch@ == self.pending_ids@.take(crate::batch::min_int(i as int, n as int)),
                rest@ == (if i <= n {
                    Seq::<i64>::empty()
                } else {
                    self.pending_ids@.subrange(n as int, i as int)
                }),
            decreases self.pending_ids@.len() - i,
        {
            if i < n {
                batch.push(self.pending_ids[i]);
                proof {
                    assert(self.pending_ids@.take(i + 1) == self.pending_ids@.take(i as int).push(
                        self.pending_ids@[i as int],
                    ));
                }
            } else {
                rest.push(self.pending_ids[i]);
                proof {
                    if i == n {
                        assert(rest@ =~= self.pending_ids@.subrange(n as int, i + 1));
                    } else {
                        assert(rest@ =~= self.pending_ids@.subrange(n as int, i + 1));
                    }
                }
            }
            i += 1;
        }
        proof {
            assert(rest@ =~= self.pending_ids@.skip(n as int));
        }
        self.pending_ids = rest;
        self.in_flight_more = Some(batch.clone());
        Some(batch)
    }
}

} // verus!

verus! {

/// The notice after a failed refresh that keeps the cached view.
pub open spec fn cached_text(err: Seq<char>) -> Seq<char> {
    "Couldn't reach Feedbin — showing cached: "@ + err
}

/// The notice after a failed undo (the batch stays read).
pub open spec fn undo_failed_text(err: Seq<char>) -> Seq<char> {
    "Undo failed (kept read): "@ + err
}

/// The notice after a failed load-more (the batch goes back to pending).
pub open spec fn more_failed_text(err: Seq<char>) -> Seq<char> {
    "Load more failed (will retry): "@ + err
}

fn batch_absent_exec(b: &Vec<(Entry, usize)>, present: &Vec<i64>) -> (r: bool)
    ensures
        r == batch_absent(b@, present@),
{
    let mut k: usize = 0;
    while k < b.len()
        invariant
            0 <= k <= b@.len(),
            forall|j: int| 0 <= j < k ==> !present@.contains(#[trigger] b@[j].0.id),
        decreases b@.len() - k,
    {
        if vec_contains(present, b[k].0.id) {
            return false;
        }
        k += 1;
    }
    true
}

impl App {
    /// The state right after a fresh snapshot is installed and the cursor
    /// kept or reselected (before the undo stack and image queue follow).
    pub open spec fn on_loaded(self, l: Loaded) -> App {
        App {
            status: Status::Ready,
            entries: l.entries,
            feed_titles: l.feed_titles,
            total_unread: l.total_unread,
            pending_ids: l.pending_ids,
            in_flight_more: None,
            notice: None,
            ..self
        }.preserve_spec()
    }

    /// Keep only the undo batches none of whose entries is among `present`.
    fn retain_undos(&mut self, present: &Vec<i64>)
        ensures
            final(self).undo_stack@ == kept_undos(old(self).undo_stack@, present@),
            *final(self) == (App { undo_stack: final(self).undo_stack, ..*old(self) }),
    {
        let mut stack: Vec<Undone> = Vec::new();
        std::mem::swap(&mut stack, &mut self.undo_stack);
        let ghost all = stack@;
        let total = stack.len();
        let mut kept: Vec<Undone> = Vec::new();
        let mut i: usize = 0;
        while stack.len() > 0
            invariant
                i + stack@.len() == all.len(),
                all.len() == total,
                stack@ == all.skip(i as int),
                kept@ == kept_undos(all.take(i as int), present@),
                *self == (App { undo_stack: self.undo_stack, ..*old(self) }),
                all == old(self).undo_stack@,
            decreases stack@.len(),
        {
            let u = stack.remove(0);
            proof {
                assert(all.skip(i as int)[0] == all[i as int]);
                assert(all.skip(i as int).remove(0) == all.skip(i + 1));
                assert(all.take(i + 1).drop_last() == all.take(i as int));
                assert(all.take(i + 1).last() == all[i as int]);
            }
            if batch_absent_exec(&u.batch, present) {
                let ghost before = kept@;
                kept.push(u);
                proof {
                    assert(kept@ =~= before + seq![all[i as int]]);
                }
            } else {
                proof {
                    assert(kept@ =~= kept@ + Seq::<Undone>::empty());
                }
            }
            i += 1;
        }
        proof {
            assert(all.take(i as int) == all);
        }
        self.undo_stack = kept;
    }

    /// Install a fresh snapshot: keep the reader's place where it survived,
    /// keep the undo batches the snapshot did not bring back, queue images.
    fn apply_loaded(&mut self, loaded: Loaded)
        ensures
            final(self).undo_stack@ == kept_undos(old(self).undo_stack@, entry_ids(loaded.entries@)),
            (App { undo_stack: final(self).undo_stack, ..old(self).on_loaded(loaded) }).refilled(
                *final(self),
            ),
    {
        let present = ids_of(&loaded.entries);
        self.entries = loaded.entries;
        self.feed_titles = loaded.feed_titles;
        self.total_unread = loaded.total_unread;
        self.pending_ids = loaded.pending_ids;
        self.in_flight_more = None;
        self.status = Status::Ready;
        self.notice = None;
        self.preserve_or_reselect();
        self.retain_undos(&present);
        self.refill_image_queue();
    }

    /// Take a failed undo's entries back out of the window.
    fn drop_batch(&mut self, batch: &Vec<(Entry, usize)>)
        ensures
            ({
                let d = drop_ids(old(self).entries@, old(self).total_unread, batch@);
                &&& final(self).entries@ == d.0
                &&& *final(self) == (App {
                    entries: final(self).entries,
                    total_unread: d.1,
                    ..*old(self)
                })
            }),
    {
        let ghost target = drop_ids(self.entries@, self.total_unread, batch@);
        proof {
            assert(batch@.skip(0) == batch@);
        }
        let mut k: usize = 0;
        while k < batch.len()
            invariant
                0 <= k <= batch@.len(),
                drop_ids(self.entries@, self.total_unread, batch@.skip(k as int)) == target,
                target == drop_ids(old(self).entries@, old(self).total_unread, batch@),
                *self == (App {
                    entries: self.entries,
                    total_unread: self.total_unread,
                    ..*old(self)
                }),
            decreases batch@.len() - k,
        {
            proof {
                assert(batch@.skip(k as int)[0] == batch@[k as int]);
                assert(batch@.skip(k as int).drop_first() == batch@.skip(k + 1));
            }
            let ids = ids_of(&self.entries);
            match position_of(&ids, batch[k].0.id) {
                Some(p) => {
                    proof {
                        lemma_index_of_bounds(ids@, batch@[k as int].0.id);
                    }
                    self.entries.remove(p);
                    self.total_unread = if self.total_unread < 1 {
                        0
                    } else {
                        self.total_unread - 1
                    };
                },
                None => {},
            }
            k += 1;
        }
        proof {
            assert(batch@.skip(batch@.len() as int).len() == 0);
        }
    }

    /// The unread count covers every unread entry the window knows of:
    /// the loaded ones, the pending ids and a batch being hydrated.
    pub open spec fn counts_add_up(self) -> bool {
        self.total_unread == self.entries@.len() + self.pending_ids@.len() + match self.in_flight_more {
            Some(b) => b@.len(),
            None => 0,
        }
    }

    /// `msg` carries counts that agree with the window: a load counts its
    /// own entries and pending ids, a hydrated batch is the one in flight,
    /// and a rolled-back batch fits the count.
    pub open spec fn fits_counts(self, msg: Msg) -> bool {
        match msg {
            Msg::Loaded(Ok(l)) => l.total_unread == l.entries@.len() + l.pending_ids@.len(),
            Msg::LoadedMore(Ok(more)) => self.in_flight_more matches Some(b) && b@.len() == more@.len(),
            Msg::Write { op: WriteOp::MarkRead, batch, result: Err(_) } => self.total_unread + batch@.len()
                <= usize::MAX,
            _ => true,
        }
    }

    /// `after` is `self` once the background result `msg` is applied.
    pub open spec fn applied(self, msg: Msg, after: App) -> bool {
        match msg {
            Msg::Loaded(Ok(l)) => {
                &&& after.undo_stack@ == kept_undos(
                    self.undo_stack@,
                    entry_ids(l.entries@),
                )
                &&& (App { undo_stack: after.undo_stack, ..self.on_loaded(l) }).refilled(
                    after,
                )
            },
            Msg::Loaded(Err(e)) => if self.entries@.len() == 0 {
                after == (App { status: Status::Failed(e), ..self })
            } else {
                &&& after.notice matches Some(n) && n@ == cached_text(e@)
                &&& after == (App { notice: after.notice, ..self })
            },
            Msg::Write { op: WriteOp::MarkRead, batch, result: Ok(_) } => {
                &&& after.undo_stack@ == self.undo_stack@.push(Undone { batch })
                &&& after == (App { undo_stack: after.undo_stack, ..self })
            },
            Msg::Write { op: WriteOp::MarkRead, batch, result: Err(e) } => {
                &&& after.entries@ == crate::batch::reinsert(self.entries@, batch@)
                &&& after.notice matches Some(n) && n@ == mark_failed_text(
                    batch@.len(),
                    e@,
                )
                &&& after == (App {
                    notice: after.notice,
                    ..(App { entries: after.entries, ..self }).after_reinsert(
                        batch@,
                    )
                })
            },
            Msg::Write { op: WriteOp::Undo, batch: _, result: Ok(_) } => after == self,
            Msg::Write { op: WriteOp::Undo, batch, result: Err(e) } => {
                let d = drop_ids(self.entries@, self.total_unread, batch@);
                &&& after.entries@ == d.0
                &&& after.undo_stack@ == self.undo_stack@.push(Undone { batch })
                &&& after.notice matches Some(n) && n@ == undo_failed_text(e@)
                &&& after == (App {
                    undo_stack: after.undo_stack,
                    notice: after.notice,
                    ..(App {
                        entries: after.entries,
                        total_unread: d.1,
                        ..self
                    }).preserve_spec()
                })
            },
            Msg::Image { url, result } => {
                &&& image_views(after.images@) == without_url(image_views(self.images@), url@).push(
                    (
                        url@,
                        if result is Ok {
                            ImageState::Ready
                        } else {
                            ImageState::Failed
                        },
                    ),
                )
                &&& image_set(
                    image_views(self.images@),
                    image_views(after.images@),
                    url@,
                    if result is Ok {
                        ImageState::Ready
                    } else {
                        ImageState::Failed
                    },
                )
                &&& after.image_generation == (if self.image_generation == u64::MAX {
                    0
                } else {
                    (self.image_generation + 1) as u64
                })
                &&& after == (App {
                    images: after.images,
                    image_generation: after.image_generation,
                    ..self
                })
            },
            Msg::LoadedMore(Ok(more)) => {
                &&& after.entries@ == sort_newest_first(self.entries@ + more@)
                &&& (App {
                    entries: after.entries,
                    in_flight_more: None,
                    ..self
                }).refilled(after)
            },
            Msg::LoadedMore(Err(e)) => {
                &&& after.pending_ids@ == (match self.in_flight_more {
                    Some(b) => b@ + self.pending_ids@,
                    None => self.pending_ids@,
                })
                &&& after.notice matches Some(n) && n@ == more_failed_text(e@)
                &&& after == (App {
                    pending_ids: after.pending_ids,
                    in_flight_more: None,
                    notice: after.notice,
                    ..self
                })
            },
            Msg::Validators(_) => after == self,
            Msg::NotModified => after == (App {
                status: if self.status is Loading {
                    Status::Ready
                } else {
                    self.status
                },
                notice: None,
                ..self
            }),
        }
    }

    /// Fold one message from background work into the state.
    pub fn apply(&mut self, msg: Msg)
        ensures
            old(self).applied(msg, *final(self)),
    {
        match msg {
            Msg::Loaded(Ok(loaded)) => {
                self.apply_loaded(loaded);
            },
            Msg::Loaded(Err(err)) => {
                if self.entries.len() == 0 {
                    self.status = Status::Failed(err);
                } else {
                    self.notice = Some(
                        prefixed("Couldn't reach Feedbin — showing cached: ", err.as_str()),
                    );
                }
            },
            Msg::Write { op: WriteOp::MarkRead, batch, result } => match result {
                Ok(()) => {
                    self.undo_stack.push(Undone { batch });
                },
                Err(err) => {
                    let n = batch.len();
                    self.reinsert_batch(&batch);
                    self.notice = Some(mark_failed_notice(n, &err));
                },
            },
            Msg::Write { op: WriteOp::Undo, batch, result } => {
                if let Err(err) = result {
                    self.drop_batch(&batch);
                    self.preserve_or_reselect();
                    self.undo_stack.push(Undone { batch });
                    self.notice = Some(prefixed("Undo failed (kept read): ", err.as_str()));
                }
            },
            Msg::Image { url, result } => {
                let st = match result {
                    Ok(()) => ImageState::Ready,
                    Err(_) => ImageState::Failed,
                };
                self.set_image(url, st);
                self.image_generation = self.image_generation.wrapping_add(1);
            },
            Msg::LoadedMore(Ok(more)) => {
                let mut more = more;
                let mut all: Vec<Entry> = Vec::new();
                std::mem::swap(&mut all, &mut self.entries);
                all.append(&mut more);
                self.entries = sort_newest_first_exec(all);
                self.in_flight_more = None;
                self.refill_image_queue();
            },
            Msg::LoadedMore(Err(err)) => {
                if let Some(mut batch) = self.in_flight_more.take() {
                    batch.append(&mut self.pending_ids);
                    self.pending_ids = batch;
                }
                self.notice = Some(prefixed("Load more failed (will retry): ", err.as_str()));
            },
            Msg::Validators(_) => {},
            Msg::NotModified => {
                if let Status::Loading = self.status {
                    self.status = Status::Ready;
                }
                self.notice = None;
            },
        }
    }
}

} // verus!

verus! {

impl App {
    /// What a key press does: the next state and the action for the run loop.
    /// The help overlay swallows any key; a pending confirmation takes `y`/`Y`
    /// as yes and anything else as no; otherwise the notice clears and the
    /// key's binding applies.
    pub open spec fn key_spec(self, k: Key) -> (App, Action) {
        if self.show_help {
            (App { show_help: false, ..self }, Action::Nothing)
        } else if self.pending_confirm is Some {
            (
                App { pending_confirm: None, ..self },
                if k == Key::Char('y') || k == Key::Char('Y') {
                    Action::MarkWindowRead
                } else {
                    Action::Nothing
                },
            )
        } else {
            let s = App { notice: None, ..self };
            match k {
                Key::Char('q') | Key::Esc => (App { should_quit: true, ..s }, Action::Nothing),
                Key::Down | Key::Char('j') => (s.move_cursor_spec(1), Action::Nothing),
                Key::Up | Key::Char('k') => (s.move_cursor_spec(-1), Action::Nothing),
                Key::Right | Key::Char('l') => (s.focus_right_spec(), Action::Nothing),
                Key::Left | Key::Char('h') => (s.focus_left_spec(), Action::Nothing),
                Key::Home | Key::Char('g') => (s.move_to_edge_spec(true), Action::Nothing),
                Key::End | Key::Char('G') => (s.move_to_edge_spec(false), Action::Nothing),
                Key::PageDown => (
                    if s.focus == Focus::Reader {
                        App { reader_scroll: s.reader_scroll.saturating_add(READER_PAGE), ..s }
                    } else {
                        s
                    },
                    Action::Nothing,
                ),
                Key::PageUp => (
                    if s.focus == Focus::Reader {
                        App { reader_scroll: s.reader_scroll.saturating_sub(READER_PAGE), ..s }
                    } else {
                        s
                    },
                    Action::Nothing,
                ),
                Key::Char('m') => (s, Action::MarkRead),
                Key::Char('M') => (s, Action::MarkSourceRead),
                Key::Char('A') => (
                    if s.entries@.len() > 0 {
                        App { pending_confirm: Some(Confirm::MarkWindowRead), ..s }
                    } else {
                        s
                    },
                    Action::Nothing,
                ),
                Key::Char('u') => (s, Action::Undo),
                Key::Char('o') => (s, Action::OpenInBrowser),
                Key::Char('r') => (s, Action::Reload),
                Key::Char('?') => (App { show_help: true, ..s }, Action::Nothing),
                _ => (s, Action::Nothing),
            }
        }
    }

    /// Handle one key press; returns what the run loop should do next.
    pub fn handle_key(&mut self, code: Key) -> (r: Action)
        ensures
            (*final(self), r) == old(self).key_spec(code),
    {
        if self.show_help {
            self.show_help = false;
            return Action::Nothing;
        }
        if self.pending_confirm.is_some() {
            self.pending_confirm = None;
            return match code {
                Key::Char('y') | Key::Char('Y') => Action::MarkWindowRead,
                _ => Action::Nothing,
            };
        }
        self.notice = None;
        match code {
            Key::Char('q') | Key::Esc => {
                self.should_quit = true;
            },
            Key::Down | Key::Char('j') => self.move_cursor(1),
            Key::Up | Key::Char('k') => self.move_cursor(-1),
            Key::Right | Key::Char('l') => self.focus_right(),
            Key::Left | Key::Char('h') => self.focus_left(),
            Key::Home | Key::Char('g') => self.move_to_edge(true),
            Key::End | Key::Char('G') => self.move_to_edge(false),
            Key::PageDown => {
                if self.focus == Focus::Reader {
                    self.reader_scroll = self.reader_scroll.saturating_add(READER_PAGE);
                }
            },
            Key::PageUp => {
                if self.focus == Focus::Reader {
                    self.reader_scroll = self.reader_scroll.saturating_sub(READER_PAGE);
                }
            },
            Key::Char('m') => return Action::MarkRead,
            Key::Char('M') => return Action::MarkSourceRead,
            Key::Char('A') => {
                if self.entries.len() > 0 {
                    self.pending_confirm = Some(Confirm::MarkWindowRead);
                }
            },
            Key::Char('u') => return Action::Undo,
            Key::Char('o') => return Action::OpenInBrowser,
            Key::Char('r') => return Action::Reload,
            Key::Char('?') => {
                self.show_help = true;
            },
            _ => {},
        }
        Action::Nothing
    }

    /// The footer confirmation prompt, if a confirmation is pending.
    pub fn confirm_prompt(&self) -> (r: Option<String>)
        ensures
            match self.pending_confirm {
                Some(_) => r matches Some(p) && p@ == confirm_text(self.entries@.len()),
                None => r is None,
            },
    {
        match self.pending_confirm {
            Some(Confirm::MarkWindowRead) => {
                let mut s = String::from_str("Mark all ");
                crate::decimal::push_dec(&mut s, self.entries.len() as u64);
                s.append(" loaded articles read?  y / n");
                Some(s)
            },
            None => None,
        }
    }
}


impl App {
    /// The URL that `o` opens for the selected entry: its enclosure, else its
    /// external link, else its permalink (control characters stripped).
    pub fn selected_url(&self) -> (r: Option<String>)
        ensures
            match self.selected_entry() {
                Some(e) => crate::reader::opt_view(r) == crate::reader::open_url_spec(e),
                None => r is None,
            },
    {
        match self.selected_article_entry() {
            Some(e) => crate::reader::open_url(e),
            None => None,
        }
    }
}


/// Where `x` goes in the descending `r`: after every element at least `x`.
pub open spec fn ins_pos(r: Seq<i64>, x: i64) -> int
    decreases r.len(),
{
    if r.len() == 0 || r.last() >= x {
        r.len() as int
    } else {
        ins_pos(r.drop_last(), x)
    }
}

/// `s` sorted from the largest id down.
pub open spec fn sort_desc(s: Seq<i64>) -> Seq<i64>
    decreases s.len(),
{
    if s.len() == 0 {
        seq![]
    } else {
        let r = sort_desc(s.drop_last());
        r.insert(ins_pos(r, s.last()), s.last())
    }
}

/// Whether `s` runs from the largest value down.
pub open spec fn is_desc(s: Seq<i64>) -> bool {
    forall|i: int, j: int| 0 <= i < j < s.len() ==> s[i] >= s[j]
}

proof fn lemma_ins_pos(r: Seq<i64>, x: i64)
    requires
        is_desc(r),
    ensures
        0 <= ins_pos(r, x) <= r.len(),
        forall|k: int| 0 <= k < ins_pos(r, x) ==> r[k] >= x,
        forall|k: int| ins_pos(r, x) <= k < r.len() ==> r[k] < x,
    decreases r.len(),
{
    if r.len() > 0 && r.last() < x {
        let p = r.drop_last();
        assert(is_desc(p));
        lemma_ins_pos(p, x);
        assert forall|k: int| 0 <= k < ins_pos(r, x) implies r[k] >= x by {
            assert(r[k] == p[k]);
        }
        assert forall|k: int| ins_pos(r, x) <= k < r.len() implies r[k] < x by {
            if k < r.len() - 1 {
                assert(r[k] == p[k]);
            }
        }
    } else if r.len() > 0 {
        assert forall|k: int| 0 <= k < ins_pos(r, x) implies r[k] >= x by {
            if k < r.len() - 1 {
                assert(r[k] >= r[r.len() - 1]);
            }
        }
    }
}

/// Sorting ids puts them in descending order and keeps every id as often as
/// it occurred.
pub proof fn lemma_sort_desc(s: Seq<i64>)
    ensures
        is_desc(sort_desc(s)),
        sort_desc(s).to_multiset() == s.to_multiset(),
        sort_desc(s).len() == s.len(),
    decreases s.len(),
{
    broadcast use vstd::multiset::group_multiset_axioms;
    broadcast use vstd::seq_lib::group_to_multiset_ensures;
    if s.len() > 0 {
        let p = s.drop_last();
        let x = s.last();
        lemma_sort_desc(p);
        let r = sort_desc(p);
        lemma_ins_pos(r, x);
        let q = ins_pos(r, x);
        let t = r.insert(q, x);
        assert forall|i: int, j: int| 0 <= i < j < t.len() implies t[i] >= t[j] by {
            if j < q {
            } else if j == q {
            } else if i < q {
            } else if i == q {
            } else {
            }
        }
        assert(s =~= p.push(x));
        r.to_multiset_ensures();
        assert(t =~= r.subrange(0, q).push(x) + r.subrange(q, r.len() as int));
        assert(r =~= r.subrange(0, q) + r.subrange(q, r.len() as int));
        vstd::seq_lib::lemma_multiset_commutative(r.subrange(0, q).push(x), r.subrange(q, r.len() as int));
        vstd::seq_lib::lemma_multiset_commutative(r.subrange(0, q), r.subrange(q, r.len() as int));
        vstd::seq_lib::lemma_multiset_commutative(p, seq![x]);
        assert(p.push(x) =~= p + seq![x]);
        assert(r.subrange(0, q).push(x) =~= r.subrange(0, q) + seq![x]);
        vstd::seq_lib::lemma_multiset_commutative(r.subrange(0, q), seq![x]);
    }
}

/// Order the unread ids newest (largest) first and split them into the
/// window hydrated now and the ids left pending.
pub fn plan_window(unread: Vec<i64>) -> (r: (Vec<i64>, Vec<i64>))
    ensures
        ({
            let n = crate::batch::min_int(unread@.len() as int, DISPLAY_LIMIT as int);
            &&& r.0@ == sort_desc(unread@).take(n)
            &&& r.1@ == sort_desc(unread@).skip(n)
        }),
{
    let mut sorted: Vec<i64> = Vec::new();
    let mut i: usize = 0;
    while i < unread.len()
        invariant
            0 <= i <= unread@.len(),
            sorted@ == sort_desc(unread@.take(i as int)),
        decreases unread@.len() - i,
    {
        proof {
            assert(unread@.take(i + 1).drop_last() == unread@.take(i as int));
            lemma_sort_desc(unread@.take(i as int));
        }
        let x = unread[i];
        let mut p = sorted.len();
        proof {
            assert(sorted@.take(p as int) == sorted@);
        }
        while p > 0 && sorted[p - 1] < x
            invariant
                0 <= p <= sorted@.len(),
                ins_pos(sorted@, x) == ins_pos(sorted@.take(p as int), x),
            decreases p,
        {
            proof {
                assert(sorted@.take(p as int).drop_last() == sorted@.take(p - 1));
                assert(sorted@.take(p as int).last() == sorted@[p - 1]);
            }
            p -= 1;
        }
        proof {
            if p > 0 {
                assert(sorted@.take(p as int).last() == sorted@[p - 1]);
            }
            assert(ins_pos(sorted@.take(p as int), x) == p);
        }
        sorted.insert(p, x);
        i += 1;
    }
    proof {
        assert(unread@.take(unread@.len() as int) == unread@);
        lemma_sort_desc(unread@);
    }
    let n = if sorted.len() < DISPLAY_LIMIT {
        sorted.len()
    } else {
        DISPLAY_LIMIT
    };
    let mut window: Vec<i64> = Vec::new();
    let mut pending: Vec<i64> = Vec::new();
    let mut k: usize = 0;
    while k < sorted.len()
        invariant
            0 <= k <= sorted@.len(),
            n <= sorted@.len(),
            window@ == sorted@.take(crate::batch::min_int(k as int, n as int)),
            pending@ == (if k <= n {
                Seq::<i64>::empty()
            } else {
                sorted@.subrange(n as int, k as int)
            }),
        decreases sorted@.len() - k,
    {
        if k < n {
            window.push(sorted[k]);
            proof {
                assert(sorted@.take(k + 1) == sorted@.take(k as int).push(sorted@[k as int]));
            }
        } else {
            pending.push(sorted[k]);
            proof {
                assert(pending@ =~= sorted@.subrange(n as int, k + 1));
            }
        }
        k += 1;
    }
    proof {
        assert(pending@ =~= sorted@.skip(n as int));
    }
    (window, pending)
}


/// Whether `s` runs newest first: no entry is strictly newer than one
/// before it.
pub open spec fn is_newest_first(s: Seq<Entry>) -> bool {
    forall|i: int, j: int| 0 <= i < j < s.len() ==> !opt_lt(pub_key(s[i]), pub_key(s[j]))
}

proof fn lemma_opt_lt_order(a: Option<Seq<char>>, b: Option<Seq<char>>, c: Option<Seq<char>>)
    ensures
        !opt_lt(a, a),
        opt_lt(a, b) ==> !opt_lt(b, a),
        opt_lt(a, b) && opt_lt(b, c) ==> opt_lt(a, c),
        !opt_lt(a, b) && !opt_lt(b, c) ==> !opt_lt(a, c),
{
    if let Some(x) = a {
        crate::text::lemma_seq_lt_irreflexive(x);
    }
    if let (Some(x), Some(y)) = (a, b) {
        if seq_lt(x, y) {
            crate::text::lemma_seq_lt_asymmetric(x, y);
        }
    }
    match (a, b, c) {
        (Some(x), Some(y), Some(z)) => {
            if seq_lt(x, y) && seq_lt(y, z) {
                crate::text::lemma_seq_lt_transitive(x, y, z);
            }
            if !seq_lt(x, y) && !seq_lt(y, z) && seq_lt(x, z) {
                if x != y {
                    crate::text::lemma_seq_lt_total(x, y);
                }
                if y != z {
                    crate::text::lemma_seq_lt_total(y, z);
                }
                if x == y {
                } else if y == z {
                } else {
                    crate::text::lemma_seq_lt_transitive(z, y, x);
                    crate::text::lemma_seq_lt_asymmetric(x, z);
                }
            }
        },
        _ => {},
    }
}

proof fn lemma_desc_pos(r: Seq<Entry>, x: Entry)
    requires
        is_newest_first(r),
    ensures
        0 <= desc_pos(r, x) <= r.len(),
        forall|k: int| 0 <= k < desc_pos(r, x) ==> !opt_lt(pub_key(#[trigger] r[k]), pub_key(x)),
        forall|k: int| desc_pos(r, x) <= k < r.len() ==> opt_lt(pub_key(#[trigger] r[k]), pub_key(x)),
    decreases r.len(),
{
    if r.len() > 0 && opt_lt(pub_key(r.last()), pub_key(x)) {
        let p = r.drop_last();
        assert(is_newest_first(p)) by {
            assert forall|i: int, j: int| 0 <= i < j < p.len() implies !opt_lt(pub_key(p[i]), pub_key(p[j])) by {
                assert(p[i] == r[i] && p[j] == r[j]);
            }
        }
        lemma_desc_pos(p, x);
        assert forall|k: int| 0 <= k < desc_pos(r, x) implies !opt_lt(pub_key(#[trigger] r[k]), pub_key(x)) by {
            assert(r[k] == p[k]);
        }
        assert forall|k: int| desc_pos(r, x) <= k < r.len() implies opt_lt(pub_key(#[trigger] r[k]), pub_key(x)) by {
            if k < r.len() - 1 {
                assert(r[k] == p[k]);
            }
        }
    } else if r.len() > 0 {
        assert forall|k: int| 0 <= k < desc_pos(r, x) implies !opt_lt(pub_key(#[trigger] r[k]), pub_key(x)) by {
            if k < r.len() - 1 {
                assert(!opt_lt(pub_key(r[k]), pub_key(r[r.len() - 1])));
                lemma_opt_lt_order(pub_key(r[k]), pub_key(r[r.len() - 1]), pub_key(x));
            }
        }
    }
}

/// Sorting newest first orders the entries so that none is strictly newer
/// than one before it, and keeps every entry exactly as often as it was
/// there.
pub proof fn law_sort_newest_first(s: Seq<Entry>)
    ensures
        is_newest_first(sort_newest_first(s)),
        sort_newest_first(s).to_multiset() == s.to_multiset(),
        sort_newest_first(s).len() == s.len(),
    decreases s.len(),
{
    broadcast use vstd::multiset::group_multiset_axioms;
    broadcast use vstd::seq_lib::group_to_multiset_ensures;
    if s.len() > 0 {
        let p = s.drop_last();
        let x = s.last();
        law_sort_newest_first(p);
        let r = sort_newest_first(p);
        lemma_desc_pos(r, x);
        let q = desc_pos(r, x);
        let t = r.insert(q, x);
        assert forall|i: int, j: int| 0 <= i < j < t.len() implies !opt_lt(pub_key(t[i]), pub_key(t[j])) by {
            if j < q {
                assert(t[i] == r[i] && t[j] == r[j]);
            } else if j == q {
                assert(t[i] == r[i] && t[j] == x);
            } else if i < q {
                assert(t[i] == r[i] && t[j] == r[j - 1]);
            } else if i == q {
                assert(t[i] == x && t[j] == r[j - 1]);
                lemma_opt_lt_order(pub_key(r[j - 1]), pub_key(x), pub_key(x));
            } else {
                assert(t[i] == r[i - 1] && t[j] == r[j - 1]);
            }
        }
        assert(s =~= p.push(x));
        r.to_multiset_ensures();
        assert(t =~= r.subrange(0, q).push(x) + r.subrange(q, r.len() as int));
        assert(r =~= r.subrange(0, q) + r.subrange(q, r.len() as int));
        vstd::seq_lib::lemma_multiset_commutative(r.subrange(0, q).push(x), r.subrange(q, r.len() as int));
        vstd::seq_lib::lemma_multiset_commutative(r.subrange(0, q), r.subrange(q, r.len() as int));
        vstd::seq_lib::lemma_multiset_commutative(p, seq![x]);
        assert(p.push(x) =~= p + seq![x]);
        assert(r.subrange(0, q).push(x) =~= r.subrange(0, q) + seq![x]);
        vstd::seq_lib::lemma_multiset_commutative(r.subrange(0, q), seq![x]);
    }
}


proof fn lemma_key_lt_order(t: Map<i64, String>, a: i64, b: i64, c: i64)
    ensures
        !key_lt(t, a, a),
        key_lt(t, a, b) ==> !key_lt(t, b, a),
        key_lt(t, a, b) && key_lt(t, b, c) ==> key_lt(t, a, c),
        a != b ==> key_lt(t, a, b) || key_lt(t, b, a),
{
    let (x, y, z) = (name_of(t, a), name_of(t, b), name_of(t, c));
    crate::text::lemma_seq_lt_irreflexive(x);
    if seq_lt(x, y) {
        crate::text::lemma_seq_lt_asymmetric(x, y);
    }
    if seq_lt(x, y) && seq_lt(y, z) {
        crate::text::lemma_seq_lt_transitive(x, y, z);
    }
    if x != y {
        crate::text::lemma_seq_lt_total(x, y);
    }
    if seq_lt(y, x) {
        crate::text::lemma_seq_lt_irreflexive(y);
    }
}

/// Whether rows are strictly ordered by name, then feed id.
pub open spec fn rows_ordered(rows: Seq<(i64, usize)>, titles: Map<i64, String>) -> bool {
    forall|i: int, j: int| 0 <= i < j < rows.len() ==> key_lt(titles, #[trigger] rows[i].0, #[trigger] rows[j].0)
}

proof fn lemma_insert_source_law(
    rows: Seq<(i64, usize)>,
    fid: i64,
    titles: Map<i64, String>,
    cf: spec_fn(i64) -> nat,
)
    requires
        rows_ordered(rows, titles),
        forall|k: int| 0 <= k < rows.len() ==> (#[trigger] rows[k]).1 == cf(rows[k].0) && rows[k].1 < usize::MAX,
        forall|f: i64| #[trigger] row_ids(rows).contains(f) <==> cf(f) > 0,
    ensures
        rows_ordered(insert_source(rows, fid, titles), titles),
        forall|k: int|
            0 <= k < insert_source(rows, fid, titles).len() ==> (#[trigger] insert_source(rows, fid, titles)[k]).1
                == cf(insert_source(rows, fid, titles)[k].0) + (if insert_source(rows, fid, titles)[k].0 == fid {
                1nat
            } else {
                0nat
            }),
        forall|f: i64| #[trigger] row_ids(insert_source(rows, fid, titles)).contains(f) <==> (cf(f) > 0 || f == fid),
    decreases rows.len(),
{
    let r = insert_source(rows, fid, titles);
    if rows.len() == 0 {
        assert(r == seq![(fid, 1usize)]);
        assert(row_ids(r) =~= seq![fid]);
        assert(row_ids(rows) =~= Seq::<i64>::empty());
        assert(!row_ids(rows).contains(fid));
        assert(cf(fid) == 0);
        assert forall|f: i64| #[trigger] row_ids(r).contains(f) <==> (cf(f) > 0 || f == fid) by {
            if cf(f) > 0 {
                assert(row_ids(rows).contains(f));
            }
            if f == fid {
                assert(row_ids(r)[0] == fid);
            }
        }
    } else if rows[0].0 == fid {
        assert(r == seq![(fid, (rows[0].1 + 1) as usize)] + rows.drop_first());
        assert(rows[0].1 == cf(fid));
        assert forall|i: int, j: int| 0 <= i < j < r.len() implies key_lt(titles, #[trigger] r[i].0, #[trigger] r[j].0) by {
            assert(r[i].0 == rows[i].0 && r[j].0 == rows[j].0);
        }
        assert forall|k: int| 0 <= k < r.len() implies (#[trigger] r[k]).1 == cf(r[k].0) + (if r[k].0 == fid { 1nat } else { 0nat }) by {
            if k > 0 {
                assert(r[k] == rows[k]);
                assert(key_lt(titles, rows[0].0, rows[k].0));
                lemma_key_lt_order(titles, rows[k].0, rows[k].0, rows[k].0);
            }
        }
        assert(row_ids(r) =~= row_ids(rows));
        assert forall|f: i64| #[trigger] row_ids(r).contains(f) <==> (cf(f) > 0 || f == fid) by {
            if f == fid {
                assert(row_ids(rows)[0] == fid);
            }
        }
    } else if key_lt(titles, fid, rows[0].0) {
        assert(r == seq![(fid, 1usize)] + rows);
        assert(!row_ids(rows).contains(fid)) by {
            if row_ids(rows).contains(fid) {
                let m = choose|m: int| 0 <= m < row_ids(rows).len() && row_ids(rows)[m] == fid;
                if m > 0 {
                    assert(key_lt(titles, rows[0].0, rows[m].0));
                }
                lemma_key_lt_order(titles, fid, rows[0].0, fid);
            }
        }
        assert forall|i: int, j: int| 0 <= i < j < r.len() implies key_lt(titles, #[trigger] r[i].0, #[trigger] r[j].0) by {
            if i == 0 {
                if j > 1 {
                    assert(key_lt(titles, rows[0].0, rows[j - 1].0));
                    lemma_key_lt_order(titles, fid, rows[0].0, rows[j - 1].0);
                }
            } else {
                assert(r[i] == rows[i - 1] && r[j] == rows[j - 1]);
            }
        }
        assert forall|k: int| 0 <= k < r.len() implies (#[trigger] r[k]).1 == cf(r[k].0) + (if r[k].0 == fid { 1nat } else { 0nat }) by {
            if k > 0 {
                assert(r[k] == rows[k - 1]);
                if rows[k - 1].0 == fid {
                    assert(row_ids(rows)[k - 1] == fid);
                }
            } else {
                assert(cf(fid) == 0) by {
                    if cf(fid) > 0 {
                        assert(row_ids(rows).contains(fid));
                    }
                }
            }
        }
        assert(row_ids(r) =~= seq![fid] + row_ids(rows));
        assert forall|f: i64| #[trigger] row_ids(r).contains(f) <==> (cf(f) > 0 || f == fid) by {
            if row_ids(rows).contains(f) {
                let m = choose|m: int| 0 <= m < row_ids(rows).len() && row_ids(rows)[m] == f;
                assert(row_ids(r)[m + 1] == f);
            }
            if row_ids(r).contains(f) && f != fid {
                let m = choose|m: int| 0 <= m < row_ids(r).len() && row_ids(r)[m] == f;
                assert(row_ids(rows)[m - 1] == f);
            }
            if f == fid {
                assert(row_ids(r)[0] == fid);
            }
        }
    } else {
        let rest = rows.drop_first();
        assert(rows_ordered(rest, titles)) by {
            assert forall|i: int, j: int| 0 <= i < j < rest.len() implies key_lt(titles, #[trigger] rest[i].0, #[trigger] rest[j].0) by {
                assert(rest[i] == rows[i + 1] && rest[j] == rows[j + 1]);
            }
        }
        let cf2 = |f: i64| if f == rows[0].0 { 0nat } else { cf(f) };
        assert forall|k: int| 0 <= k < rest.len() implies (#[trigger] rest[k]).1 == cf2(rest[k].0) && rest[k].1 < usize::MAX by {
            assert(rest[k] == rows[k + 1]);
            assert(key_lt(titles, rows[0].0, rows[k + 1].0));
            lemma_key_lt_order(titles, rows[0].0, rows[0].0, rows[0].0);
        }
        assert forall|f: i64| #[trigger] row_ids(rest).contains(f) <==> cf2(f) > 0 by {
            lemma_key_lt_order(titles, rows[0].0, rows[0].0, rows[0].0);
            if row_ids(rest).contains(f) {
                let m = choose|m: int| 0 <= m < row_ids(rest).len() && row_ids(rest)[m] == f;
                assert(row_ids(rows)[m + 1] == f);
                assert(row_ids(rows).contains(f));
                assert(key_lt(titles, rows[0].0, rows[m + 1].0));
                assert(f != rows[0].0);
                assert(cf(f) > 0);
                assert(cf2(f) > 0);
            }
            if cf2(f) > 0 {
                assert(f != rows[0].0);
                assert(cf(f) > 0);
                assert(row_ids(rows).contains(f));
                let m = choose|m: int| 0 <= m < row_ids(rows).len() && row_ids(rows)[m] == f;
                assert(row_ids(rows)[0] == rows[0].0);
                assert(m != 0);
                assert(row_ids(rest)[m - 1] == f);
                assert(row_ids(rest).contains(f));
            }
        }
        lemma_insert_source_law(rest, fid, titles, cf2);
        let r2 = insert_source(rest, fid, titles);
        assert(r == seq![rows[0]] + r2);
        lemma_key_lt_order(titles, fid, rows[0].0, fid);
        assert forall|i: int, j: int| 0 <= i < j < r.len() implies key_lt(titles, #[trigger] r[i].0, #[trigger] r[j].0) by {
            if i == 0 {
                assert(r[j] == r2[j - 1]);
                let g = r2[j - 1].0;
                assert(row_ids(r2)[j - 1] == g);
                assert(row_ids(r2).contains(g));
                if g == fid {
                } else {
                    assert(cf2(g) > 0);
                    assert(row_ids(rest).contains(g));
                    let m = choose|m: int| 0 <= m < row_ids(rest).len() && row_ids(rest)[m] == g;
                    assert(rows[m + 1].0 == g);
                    assert(key_lt(titles, rows[0].0, rows[m + 1].0));
                }
            } else {
                assert(r[i] == r2[i - 1] && r[j] == r2[j - 1]);
            }
        }
        assert forall|k: int| 0 <= k < r.len() implies (#[trigger] r[k]).1 == cf(r[k].0) + (if r[k].0 == fid { 1nat } else { 0nat }) by {
            if k > 0 {
                assert(r[k] == r2[k - 1]);
                let g = r2[k - 1].0;
                assert(row_ids(r2)[k - 1] == g);
                if g == rows[0].0 {
                    assert(row_ids(r2).contains(g));
                    lemma_key_lt_order(titles, rows[0].0, rows[0].0, rows[0].0);
                }
            }
        }
        assert(row_ids(r) =~= seq![rows[0].0] + row_ids(r2));
        assert forall|f: i64| #[trigger] row_ids(r).contains(f) <==> (cf(f) > 0 || f == fid) by {
            if f == rows[0].0 {
                assert(row_ids(r)[0] == f);
                assert(row_ids(rows)[0] == f);
                assert(row_ids(rows).contains(f));
                assert(cf(f) > 0);
            } else {
                assert(cf2(f) == cf(f));
                if row_ids(r2).contains(f) {
                    let m = choose|m: int| 0 <= m < row_ids(r2).len() && row_ids(r2)[m] == f;
                    assert(row_ids(r)[m + 1] == f);
                    assert(row_ids(r).contains(f));
                }
                if row_ids(r).contains(f) {
                    let m = choose|m: int| 0 <= m < row_ids(r).len() && row_ids(r)[m] == f;
                    assert(m != 0);
                    assert(row_ids(r2)[m - 1] == f);
                    assert(row_ids(r2).contains(f));
                }
                if cf(f) > 0 || f == fid {
                    assert(row_ids(r2).contains(f));
                }
            }
        }
    }
}

/// The sum of the rows' counts.
pub open spec fn row_total(rows: Seq<(i64, usize)>) -> nat
    decreases rows.len(),
{
    if rows.len() == 0 {
        0
    } else {
        rows[0].1 as nat + row_total(rows.drop_first())
    }
}

/// Counting one more entry raises the rows' total by one.
proof fn lemma_insert_source_total(rows: Seq<(i64, usize)>, fid: i64, titles: Map<i64, String>)
    requires
        forall|k: int| 0 <= k < rows.len() ==> (#[trigger] rows[k]).1 < usize::MAX,
    ensures
        row_total(insert_source(rows, fid, titles)) == row_total(rows) + 1,
    decreases rows.len(),
{
    if rows.len() == 0 {
        let r = seq![(fid, 1usize)];
        assert(r.drop_first() =~= Seq::<(i64, usize)>::empty());
        assert(row_total(r) == 1 + row_total(r.drop_first()));
    } else if rows[0].0 == fid {
        let r = insert_source(rows, fid, titles);
        assert(rows[0].1 < usize::MAX);
        assert(r[0].1 == rows[0].1 + 1);
        assert(r.drop_first() =~= rows.drop_first());
        assert(row_total(r) == r[0].1 + row_total(r.drop_first()));
    } else if key_lt(titles, fid, rows[0].0) {
        let r = seq![(fid, 1usize)] + rows;
        assert(r.drop_first() =~= rows);
        assert(row_total(r) == r[0].1 + row_total(r.drop_first()));
    } else {
        let rest = rows.drop_first();
        assert forall|k: int| 0 <= k < rest.len() implies (#[trigger] rest[k]).1 < usize::MAX by {
            assert(rest[k] == rows[k + 1]);
        }
        lemma_insert_source_total(rest, fid, titles);
        let ins = insert_source(rest, fid, titles);
        let r = seq![rows[0]] + ins;
        assert(r.drop_first() =~= ins);
        assert(row_total(r) == r[0].1 + row_total(r.drop_first()));
    }
}

/// The sources column is strictly ordered by feed name (then id), so each
/// feed has one row; a row's count is the number of loaded entries of its
/// feed; a feed has a row exactly when some loaded entry is from it; and
/// the counts add up to the number of loaded entries. (The window holds
/// fewer than `usize::MAX` entries: a count is a `usize`.)
pub proof fn law_sources_grouped(entries: Seq<Entry>, titles: Map<i64, String>)
    requires
        entries.len() < usize::MAX,
    ensures
        row_total(sources_spec(entries, titles)) == entries.len(),
        rows_ordered(sources_spec(entries, titles), titles),
        forall|k: int|
            0 <= k < sources_spec(entries, titles).len() ==> (#[trigger] sources_spec(entries, titles)[k]).1
                == count_feed(entries, sources_spec(entries, titles)[k].0),
        forall|f: i64| #[trigger] row_ids(sources_spec(entries, titles)).contains(f) <==> count_feed(entries, f) > 0,
    decreases entries.len(),
{
    if entries.len() > 0 {
        let p = entries.drop_last();
        law_sources_grouped(p, titles);
        lemma_sources_counts(p, titles);
        let rows = sources_spec(p, titles);
        let cf = |f: i64| count_feed(p, f);
        assert forall|k: int| 0 <= k < rows.len() implies (#[trigger] rows[k]).1 == cf(rows[k].0) && rows[k].1 < usize::MAX by {
        }
        assert forall|f: i64| #[trigger] row_ids(rows).contains(f) <==> cf(f) > 0 by {
        }
        lemma_insert_source_law(rows, entries.last().feed_id, titles, cf);
        lemma_insert_source_total(rows, entries.last().feed_id, titles);
    } else {
        assert(row_ids(sources_spec(entries, titles)) =~= Seq::<i64>::empty());
    }
}


/// The loaded entries of `fid`, oldest first: the feed's entries in the
/// reverse of their stored (newest-first) order.
pub open spec fn art_entries(entries: Seq<Entry>, fid: i64) -> Seq<Entry>
    decreases entries.len(),
{
    if entries.len() == 0 {
        seq![]
    } else {
        (if entries.last().feed_id == fid {
            seq![entries.last()]
        } else {
            seq![]
        }) + art_entries(entries.drop_last(), fid)
    }
}

/// The entries a sequence of references points at.
pub open spec fn derefs(v: Seq<&Entry>) -> Seq<Entry> {
    v.map_values(|e: &Entry| *e)
}

impl App {
    /// The loaded entries of one source, oldest first (the displayed order).
    pub fn articles(&self, feed_id: i64) -> (r: Vec<&Entry>)
        ensures
            derefs(r@) == art_entries(self.entries@, feed_id),
    {
        let mut out: Vec<&Entry> = Vec::new();
        let mut i: usize = 0;
        while i < self.entries.len()
            invariant
                0 <= i <= self.entries@.len(),
                derefs(out@) == art_entries(self.entries@.take(i as int), feed_id),
            decreases self.entries@.len() - i,
        {
            proof {
                assert(self.entries@.take(i + 1).drop_last() == self.entries@.take(i as int));
            }
            let e = &self.entries[i];
            if e.feed_id == feed_id {
                out.insert(0, e);
                proof {
                    assert(derefs(out@) =~= seq![self.entries@[i as int]] + art_entries(
                        self.entries@.take(i as int),
                        feed_id,
                    ));
                }
            } else {
                proof {
                    assert(derefs(out@) =~= Seq::<Entry>::empty() + art_entries(
                        self.entries@.take(i as int),
                        feed_id,
                    ));
                }
            }
            i += 1;
        }
        proof {
            assert(self.entries@.take(self.entries@.len() as int) == self.entries@);
        }
        out
    }
}

/// The articles column lists exactly the source's entries in the reverse of
/// their stored order, and its ids are the listed article ids.
pub proof fn law_articles_are_the_feed_reversed(entries: Seq<Entry>, fid: i64)
    ensures
        art_entries(entries, fid) == entries.filter(|e: Entry| e.feed_id == fid).reverse(),
        art_entries(entries, fid).map_values(|e: Entry| e.id) == art_ids(entries, fid),
    decreases entries.len(),
{
    if entries.len() > 0 {
        let p = entries.drop_last();
        law_articles_are_the_feed_reversed(p, fid);
        let pred = |e: Entry| e.feed_id == fid;
        let fp = p.filter(pred);
        reveal(Seq::filter);
        assert(entries.filter(pred) == if pred(entries.last()) {
            fp.push(entries.last())
        } else {
            fp
        });
        if pred(entries.last()) {
            assert(fp.push(entries.last()).reverse() =~= seq![entries.last()] + fp.reverse());
        } else {
            assert(fp.reverse() =~= Seq::<Entry>::empty() + fp.reverse());
        }
        assert(art_entries(entries, fid).map_values(|e: Entry| e.id) =~= art_ids(entries, fid));
    } else {
        reveal(Seq::filter);
        assert(entries.filter(|e: Entry| e.feed_id == fid).reverse() =~= Seq::<Entry>::empty());
    }
}

proof fn lemma_find_from_reaches(s: Seq<i64>, x: i64, j: int, i: int)
    requires
        0 <= j <= i < s.len(),
        s[i] == x,
    ensures
        find_from(s, x, j) >= 0,
    decreases i - j,
{
    if s[j] != x {
        lemma_find_from_reaches(s, x, j + 1, i);
    }
}


impl App {
    /// Whether the all-caught-up screen replaces the columns: loaded, and
    /// nothing unread in the window.
    pub fn shows_caught_up(&self) -> (r: bool)
        ensures
            r == (self.status is Ready && self.entries@.len() == 0),
    {
        match self.status {
            Status::Ready => self.entries.len() == 0,
            _ => false,
        }
    }

    /// What the sources pane says when it has no rows.
    pub fn sources_message(&self) -> (r: String)
        ensures
            r@ == match self.status {
                Status::Loading => "Loading…"@,
                Status::Failed(e) => "Failed to load: "@ + e@,
                Status::Ready => "No unread sources"@,
            },
    {
        match &self.status {
            Status::Loading => String::from_str("Loading…"),
            Status::Failed(err) => prefixed("Failed to load: ", err.as_str()),
            Status::Ready => String::from_str("No unread sources"),
        }
    }

    /// The article the reader shows: the selected one, once focus has left
    /// the sources column and if it is loaded.
    pub fn reader_entry_id(&self) -> (r: Option<i64>)
        ensures
            r == (if self.focus == Focus::Sources {
                None
            } else {
                match self.selected_article {
                    Some(a) => if index_of(entry_ids(self.entries@), a) is Some {
                        Some(a)
                    } else {
                        None
                    },
                    None => None,
                }
            }),
    {
        if self.focus == Focus::Sources {
            return None;
        }
        match self.selected_article {
            Some(a) => {
                let ids = ids_of(&self.entries);
                match position_of(&ids, a) {
                    Some(_) => Some(a),
                    None => None,
                }
            },
            None => None,
        }
    }

    /// The footer's right-hand indicator: image progress while images
    /// resolve, else how much of the unread set is loaded while some is
    /// still pending; nothing while a confirmation owns the footer.
    pub fn right_indicator(&self) -> (r: Option<String>)
        ensures
            ({
                let total = self.image_urls@.len();
                let done = done_count(str_views(self.image_urls@), image_views(self.images@));
                if self.pending_confirm is Some {
                    r is None
                } else if total > 0 && done < total {
                    r matches Some(s) && s@ == crate::reader::loading_text(done, total, self.spinner_tick as nat)
                } else if self.pending_ids@.len() > 0 {
                    r matches Some(s) && s@ == "↓ "@ + crate::decimal::dec(self.entries@.len()) + " of "@
                        + crate::decimal::dec(self.total_unread as nat) + " unread"@
                } else {
                    r is None
                }
            }),
    {
        if self.pending_confirm.is_some() {
            return None;
        }
        let url_count = self.image_urls.len();
        proof {
            assert(self.image_urls@.len() == url_count);
        }
        match self.image_progress() {
            Some((done, total)) => Some(crate::reader::loading_indicator(done, total, self.spinner_tick)),
            None => {
                if self.pending_ids.len() > 0 {
                    let mut s = String::from_str("↓ ");
                    crate::decimal::push_dec(&mut s, self.entries.len() as u64);
                    s.append(" of ");
                    crate::decimal::push_dec(&mut s, self.total_unread as u64);
                    s.append(" unread");
                    Some(s)
                } else {
                    None
                }
            },
        }
    }
}

/// What the footer's left side shows.
#[derive(Debug)]
pub enum FooterLine {
    /// A pending confirmation's question.
    Prompt(String),
    /// A transient notice.
    Notice(String),
    /// The key-help line.
    Help,
}

impl App {
    /// The footer's left side: a pending confirmation over any notice, a
    /// notice over the key help.
    pub fn footer_line(&self) -> (r: FooterLine)
        ensures
            match self.pending_confirm {
                Some(_) => r matches FooterLine::Prompt(p) && p@ == confirm_text(self.entries@.len()),
                None => match self.notice {
                    Some(n) => r matches FooterLine::Notice(t) && t@ == n@,
                    None => r is Help,
                },
            },
    {
        match self.confirm_prompt() {
            Some(p) => FooterLine::Prompt(p),
            None => match &self.notice {
                Some(n) => FooterLine::Notice(n.clone()),
                None => FooterLine::Help,
            },
        }
    }
}

/// The label of an article in the articles column: its trimmed title, or a
/// placeholder when blank, control characters stripped.
pub fn article_label(e: &Entry) -> (r: String)
    ensures
        r@ == crate::text::strip_spec(
            match e.title {
                Some(t) => if crate::text::trim(t@).len() > 0 {
                    crate::text::trim(t@)
                } else {
                    "(untitled)"@
                },
                None => "(untitled)"@,
            },
        ),
{
    match &e.title {
        Some(t) => {
            let tt = crate::text::trim_str(t.as_str());
            if tt.as_str().is_empty() {
                proof {
                    assert(tt@.len() == 0);
                }
                crate::text::strip_control_chars("(untitled)")
            } else {
                proof {
                    assert(tt@.len() > 0);
                }
                crate::text::strip_control_chars(tt.as_str())
            }
        },
        None => crate::text::strip_control_chars("(untitled)"),
    }
}

/// The largest scroll offset that keeps the reader's last row on screen.
pub fn clamp_scroll(scroll: u16, wrapped: u16, height: u16) -> (r: u16)
    ensures
        r == (if scroll < (if wrapped > height { wrapped - height } else { 0 }) {
            scroll
        } else {
            (if wrapped > height { wrapped - height } else { 0 }) as u16
        }),
{
    let max_scroll = if wrapped > height {
        wrapped - height
    } else {
        0
    };
    if scroll < max_scroll {
        scroll
    } else {
        max_scroll
    }
}

/// Whether the reader shows a scrollbar: it is focused and its content
/// overflows the viewport.
pub fn shows_scrollbar(focused: bool, wrapped: u16, height: u16) -> (r: bool)
    ensures
        r == (focused && wrapped > height),
{
    focused && wrapped > height
}

/// The run loop's bookkeeping between ticks: how many image fetches and
/// whether a full fetch are in flight, and the selection last seen.
#[derive(Debug, Clone, Copy, PartialEq, Eq, Structural)]
pub struct LoopState {
    pub images_in_flight: usize,
    pub fetch_in_flight: bool,
    pub last_selected: Option<i64>,
}

impl LoopState {
    /// No more than `MAX_IMAGE_FETCHES` image fetches are in flight.
    pub open spec fn within_cap(self) -> bool {
        self.images_in_flight <= MAX_IMAGE_FETCHES
    }

    /// The state at start-up: the initial fetch is already in flight.
    pub fn new() -> (r: LoopState)
        ensures
            r == (LoopState { images_in_flight: 0, fetch_in_flight: true, last_selected: None }),
            r.within_cap(),
    {
        LoopState { images_in_flight: 0, fetch_in_flight: true, last_selected: None }
    }

    /// Account for a message from background work: an image result frees a
    /// fetch slot; a full load (or "not modified") ends the fetch in flight.
    pub fn on_message(&mut self, msg: &Msg)
        ensures
            final(self).images_in_flight == (if msg is Image {
                if old(self).images_in_flight == 0 { 0 } else { (old(self).images_in_flight - 1) as usize }
            } else {
                old(self).images_in_flight
            }),
            final(self).fetch_in_flight == (if msg is Loaded || msg is NotModified {
                false
            } else {
                old(self).fetch_in_flight
            }),
            final(self).last_selected == old(self).last_selected,
            old(self).within_cap() ==> final(self).within_cap(),
    {
        match msg {
            Msg::Image { .. } => {
                if self.images_in_flight > 0 {
                    self.images_in_flight = self.images_in_flight - 1;
                }
            },
            Msg::Loaded(_) | Msg::NotModified => {
                self.fetch_in_flight = false;
            },
            _ => {},
        }
    }

    /// Whether another image fetch may start (the politeness cap).
    pub fn image_slot_free(&self) -> (r: bool)
        ensures
            r == (self.images_in_flight < MAX_IMAGE_FETCHES),
    {
        self.images_in_flight < MAX_IMAGE_FETCHES
    }

    /// Record that an image fetch started.
    pub fn image_started(&mut self)
        requires
            old(self).images_in_flight < MAX_IMAGE_FETCHES,
        ensures
            *final(self) == (LoopState { images_in_flight: (old(self).images_in_flight + 1) as usize, ..*old(self) }),
            final(self).within_cap(),
    {
        self.images_in_flight = self.images_in_flight + 1;
    }

    /// Record that a full fetch started (initial, manual or automatic).
    pub fn fetch_started(&mut self)
        ensures
            *final(self) == (LoopState { fetch_in_flight: true, ..*old(self) }),
            old(self).within_cap() ==> final(self).within_cap(),
    {
        self.fetch_in_flight = true;
    }

    /// Whether the selection moved since the last tick; remembers the new one.
    pub fn selection_moved(&mut self, selected: Option<i64>) -> (r: bool)
        ensures
            r == (selected != old(self).last_selected),
            *final(self) == (LoopState { last_selected: selected, ..*old(self) }),
            old(self).within_cap() ==> final(self).within_cap(),
    {
        let moved = match (selected, self.last_selected) {
            (Some(a), Some(b)) => a != b,
            (None, None) => false,
            _ => true,
        };
        self.last_selected = selected;
        moved
    }
}

/// What the offline cache does with a message before the reader applies it.
#[derive(Debug)]
pub enum Persist {
    /// Reconcile the cache with a fresh snapshot; the full unread set.
    Replace(Vec<i64>),
    /// Cache a lazily-loaded batch.
    Upsert,
    /// Write read (`false`) or unread (`true`) through for these entries.
    SetUnread(Vec<i64>, bool),
    /// Store the HTTP validators of the unread endpoint.
    SaveValidators,
    /// Nothing to store.
    Skip,
}

/// How a message is persisted: a fresh snapshot reconciles the cache with
/// its full unread set (hydrated ids, then pending ids); a loaded batch is
/// cached; a successful write is written through (unread again for an
/// undo); validators are stored; anything else is not persisted.
pub fn persist_plan(msg: &Msg) -> (r: Persist)
    ensures
        match msg {
            Msg::Loaded(Ok(l)) => r matches Persist::Replace(ids) && ids@ == entry_ids(l.entries@) + l.pending_ids@,
            Msg::LoadedMore(Ok(_)) => r is Upsert,
            Msg::Write { op, batch, result: Ok(_) } => r matches Persist::SetUnread(ids, unread)
                && ids@ == batch@.map_values(|b: (Entry, usize)| b.0.id) && unread == (op == WriteOp::Undo),
            Msg::Validators(_) => r is SaveValidators,
            _ => r is Skip,
        },
{
    match msg {
        Msg::Loaded(Ok(l)) => {
            let ids = crate::store::snapshot_unread_ids(l.entries.as_slice(), l.pending_ids.as_slice());
            proof {
                assert(l.entries@.map_values(|e: Entry| e.id) =~= entry_ids(l.entries@));
            }
            Persist::Replace(ids)
        },
        Msg::LoadedMore(Ok(_)) => Persist::Upsert,
        Msg::Write { op, batch, result: Ok(()) } => {
            let mut ids: Vec<i64> = Vec::new();
            let mut i: usize = 0;
            while i < batch.len()
                invariant
                    0 <= i <= batch@.len(),
                    ids@ == batch@.take(i as int).map_values(|b: (Entry, usize)| b.0.id),
                decreases batch@.len() - i,
            {
                ids.push(batch[i].0.id);
                proof {
                    assert(batch@.take(i + 1).map_values(|b: (Entry, usize)| b.0.id) =~= batch@.take(
                        i as int,
                    ).map_values(|b: (Entry, usize)| b.0.id).push(batch@[i as int].0.id));
                }
                i += 1;
            }
            proof {
                assert(batch@.take(batch@.len() as int) == batch@);
            }
            let unread = match op {
                WriteOp::Undo => true,
                WriteOp::MarkRead => false,
            };
            Persist::SetUnread(ids, unread)
        },
        Msg::Validators(_) => Persist::SaveValidators,
        _ => Persist::Skip,
    }
}

} // verus!
