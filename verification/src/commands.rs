//! The command-line front: which command the arguments ask for, and what the
//! `list`, `export` and `import` commands decide and report.

use vstd::prelude::*;
use crate::decimal::{dec, dec_int, push_dec, push_dec_i64};
use crate::feedbin::{tally_spec, Import, ImportTally, Subscription};
use crate::opml::OpmlFeed;
use crate::text::{seq_lt, str_lt, trim, trim_str};

verus! {

/// How many of the newest unread entries `roses list` prints.
pub const LIST_LIMIT: usize = 20;
/// How many times a running import is polled before giving up the wait.
pub const IMPORT_POLL_MAX: u32 = 150;
/// Seconds between two polls of a running import.
pub const IMPORT_POLL_SECS: u64 = 2;

/// What the command line asks for.
#[derive(Debug, Clone, PartialEq, Eq)]
pub enum Command {
    /// The full-screen reader.
    Tui,
    /// Print unread entries.
    List,
    /// Export subscriptions as OPML, to a file or to stdout.
    Export(Option<String>),
    /// Import subscriptions from an OPML file (the path may be missing).
    Import(Option<String>),
    /// Forget the stored credentials.
    Logout,
    /// Show the all-caught-up screen offline.
    Preview,
}

/// The usage line shown after an unknown command.
pub open spec fn usage_text() -> Seq<char> {
    "Usage: roses [list | export [FILE] | import FILE | logout | preview]"@
}

/// What `format!("{:?}", s)` gives for a string: it quoted, with Rust's
/// debug escapes.
pub uninterp spec fn debug_text(s: Seq<char>) -> Seq<char>;

/// `format!("{:?}", s)`: the string quoted and escaped as Rust's `Debug`
/// does. Its exact escapes are named, not stated.
#[verifier::external_body]
fn debug_quoted(s: &str) -> (r: String)
    ensures
        r@ == debug_text(s@),
{
    format!("{:?}", s)
}

/// The optional second argument.
pub open spec fn second_arg(args: Seq<String>) -> Option<String> {
    if args.len() > 1 {
        Some(args[1])
    } else {
        None
    }
}

/// Read the command from the arguments after the program name.
pub fn parse_command(args: &Vec<String>) -> (r: Result<Command, String>)
    ensures
        args@.len() == 0 ==> r == Ok::<Command, String>(Command::Tui),
        args@.len() > 0 ==> {
            let a = args@[0]@;
            if a == "list"@ {
                r == Ok::<Command, String>(Command::List)
            } else if a == "export"@ {
                r == Ok::<Command, String>(Command::Export(second_arg(args@)))
            } else if a == "import"@ {
                r == Ok::<Command, String>(Command::Import(second_arg(args@)))
            } else if a == "logout"@ {
                r == Ok::<Command, String>(Command::Logout)
            } else if a == "preview"@ {
                r == Ok::<Command, String>(Command::Preview)
            } else {
                r matches Err(m) && m@ == "unknown command "@ + debug_text(a) + ". "@ + usage_text()
            }
        },
{
    if args.len() == 0 {
        return Ok(Command::Tui);
    }
    let a = args[0].as_str();
    let second = if args.len() > 1 {
        Some(args[1].clone())
    } else {
        None
    };
    if crate::text::str_eq(a, "list") {
        Ok(Command::List)
    } else if crate::text::str_eq(a, "export") {
        Ok(Command::Export(second))
    } else if crate::text::str_eq(a, "import") {
        Ok(Command::Import(second))
    } else if crate::text::str_eq(a, "logout") {
        Ok(Command::Logout)
    } else if crate::text::str_eq(a, "preview") {
        Ok(Command::Preview)
    } else {
        let mut m = String::from_str("unknown command ");
        let q = debug_quoted(a);
        m.append(q.as_str());
        m.append(". Usage: roses [list | export [FILE] | import FILE | logout | preview]");
        proof {
            assert(m@ =~= "unknown command "@ + debug_text(a@) + ". "@ + usage_text()) by {
                reveal_strlit(". Usage: roses [list | export [FILE] | import FILE | logout | preview]");
                reveal_strlit(". ");
                reveal_strlit("Usage: roses [list | export [FILE] | import FILE | logout | preview]");
            }
        }
        Err(m)
    }
}

/// The ids `roses list` hydrates: the newest (largest) `LIST_LIMIT` ids.
pub fn newest_ids(unread: Vec<i64>) -> (r: Vec<i64>)
    ensures
        r@ == crate::tui::sort_desc(unread@).take(
            crate::batch::min_int(unread@.len() as int, LIST_LIMIT as int),
        ),
{
    let (window, _rest) = crate::tui::plan_window(unread);
    proof {
        crate::tui::lemma_sort_desc(unread@);
    }
    let n = if window.len() < LIST_LIMIT {
        window.len()
    } else {
        LIST_LIMIT
    };
    let mut out: Vec<i64> = Vec::new();
    let mut i: usize = 0;
    while i < n
        invariant
            0 <= i <= n <= window@.len(),
            out@ == window@.take(i as int),
        decreases n - i,
    {
        out.push(window[i]);
        proof {
            assert(window@.take(i + 1) == window@.take(i as int).push(window@[i as int]));
        }
        i += 1;
    }
    out
}

/// What `str::to_lowercase` gives for a string (full Unicode lowercase).
pub uninterp spec fn lower_text(s: Seq<char>) -> Seq<char>;

/// `str::to_lowercase`: the Unicode lowercase of `s`, named, not stated.
#[verifier::external_body]
fn lowercase(s: &str) -> (r: String)
    ensures
        r@ == lower_text(s@),
{
    s.to_lowercase()
}

/// The OPML feed a subscription becomes, if it has a feed URL: labelled by
/// its title when that is not blank, else by the feed URL.
pub open spec fn export_feed_spec(s: Subscription) -> Option<(Seq<char>, Seq<char>, Option<String>)> {
    match s.feed_url {
        Some(x) => Some(
            (
                match s.title {
                    Some(t) => if trim(t@).len() > 0 {
                        t@
                    } else {
                        x@
                    },
                    None => x@,
                },
                x@,
                s.site_url,
            ),
        ),
        None => None,
    }
}

/// The exportable feeds of `subs`, in order, as `(label, feed URL, site URL)`.
pub open spec fn exportable(subs: Seq<Subscription>) -> Seq<(Seq<char>, Seq<char>, Option<String>)>
    decreases subs.len(),
{
    if subs.len() == 0 {
        seq![]
    } else {
        exportable(subs.drop_last()) + match export_feed_spec(subs.last()) {
            Some(f) => seq![f],
            None => seq![],
        }
    }
}

/// Where a stable sort by lowercase label puts `x` after the sorted `r`:
/// after every element whose label does not sort after it.
pub open spec fn label_pos(r: Seq<(Seq<char>, Seq<char>, Option<String>)>, x: (Seq<char>, Seq<char>, Option<String>)) -> int
    decreases r.len(),
{
    if r.len() == 0 || !seq_lt(lower_text(x.0), lower_text(r.last().0)) {
        r.len() as int
    } else {
        label_pos(r.drop_last(), x)
    }
}

/// A stable sort by lowercase label.
pub open spec fn sort_by_label(s: Seq<(Seq<char>, Seq<char>, Option<String>)>) -> Seq<(Seq<char>, Seq<char>, Option<String>)>
    decreases s.len(),
{
    if s.len() == 0 {
        seq![]
    } else {
        let r = sort_by_label(s.drop_last());
        r.insert(label_pos(r, s.last()), s.last())
    }
}

/// The view of an OPML feed.
pub open spec fn feed_view(f: OpmlFeed) -> (Seq<char>, Seq<char>, Option<String>) {
    (f.text@, f.xml_url@, f.html_url)
}

/// The feeds `roses export` writes: every subscription with a feed URL,
/// labelled by its title (or its URL when the title is blank), sorted by
/// lowercase label; and how many were skipped for having no feed URL.
pub fn export_feeds(subs: Vec<Subscription>) -> (r: (Vec<OpmlFeed>, usize))
    ensures
        r.0@.map_values(|f: OpmlFeed| feed_view(f)) == sort_by_label(exportable(subs@)),
        r.1 == subs@.len() - exportable(subs@).len(),
{
    let mut feeds: Vec<OpmlFeed> = Vec::new();
    let mut i: usize = 0;
    while i < subs.len()
        invariant
            0 <= i <= subs@.len(),
            feeds@.map_values(|f: OpmlFeed| feed_view(f)) == exportable(subs@.take(i as int)),
            feeds@.len() <= i,
        decreases subs@.len() - i,
    {
        proof {
            assert(subs@.take(i + 1).drop_last() == subs@.take(i as int));
            assert(subs@.take(i + 1).last() == subs@[i as int]);
        }
        let s = &subs[i];
        let ghost before = feeds@.map_values(|f: OpmlFeed| feed_view(f));
        match &s.feed_url {
            Some(x) => {
                let text = match &s.title {
                    Some(t) => {
                        let tt = trim_str(t.as_str());
                        if !tt.as_str().is_empty() {
                            proof {
                                assert(tt@.len() > 0);
                            }
                            t.clone()
                        } else {
                            proof {
                                assert(tt@.len() == 0);
                            }
                            x.clone()
                        }
                    },
                    None => x.clone(),
                };
                feeds.push(
                    OpmlFeed {
                        text,
                        xml_url: x.clone(),
                        html_url: crate::feedbin::copy_opt_string(&s.site_url),
                    },
                );
                proof {
                    assert(feeds@.map_values(|f: OpmlFeed| feed_view(f)) =~= before.push(
                        export_feed_spec(subs@[i as int])->0,
                    ));
                }
            },
            None => {
                proof {
                    assert(before + Seq::<(Seq<char>, Seq<char>, Option<String>)>::empty() == before);
                }
            },
        }
        i += 1;
    }
    proof {
        assert(subs@.take(subs@.len() as int) == subs@);
    }
    let ghost unsorted = feeds@.map_values(|f: OpmlFeed| feed_view(f));
    let skipped = subs.len() - feeds.len();
    let mut keys: Vec<String> = Vec::new();
    let mut k: usize = 0;
    while k < feeds.len()
        invariant
            0 <= k <= feeds@.len(),
            keys@.len() == k,
            forall|j: int| 0 <= j < k ==> (#[trigger] keys@[j])@ == lower_text(feeds@[j].text@),
        decreases feeds@.len() - k,
    {
        keys.push(lowercase(feeds[k].text.as_str()));
        k += 1;
    }
    let ghost pairs = keyed(keys@, feeds@);
    proof {
        assert forall|j: int| 0 <= j < pairs.len() implies (#[trigger] pairs[j]).0 == lower_text(pairs[j].1.0) by {}
        assert(pairs.map_values(|e: (Seq<char>, FeedView)| e.1) =~= unsorted);
        lemma_sort_keyed_is_by_label(pairs);
    }
    let sorted = sort_by_keys(feeds, keys);
    (sorted, skipped)
}

/// An OPML feed's fields as plain values.
pub type FeedView = (Seq<char>, Seq<char>, Option<String>);

/// Each feed paired with its sort key.
pub open spec fn keyed(keys: Seq<String>, feeds: Seq<OpmlFeed>) -> Seq<(Seq<char>, FeedView)> {
    Seq::new(feeds.len(), |i: int| (keys[i]@, feed_view(feeds[i])))
}

/// Where a stable sort by key puts an item with key `k` after the sorted
/// `r`: after every item whose key does not sort after `k`.
pub open spec fn keyed_pos(r: Seq<(Seq<char>, FeedView)>, k: Seq<char>) -> int
    decreases r.len(),
{
    if r.len() == 0 || !seq_lt(k, r.last().0) {
        r.len() as int
    } else {
        keyed_pos(r.drop_last(), k)
    }
}

/// A stable insertion sort by key.
pub open spec fn sort_keyed(s: Seq<(Seq<char>, FeedView)>) -> Seq<(Seq<char>, FeedView)>
    decreases s.len(),
{
    if s.len() == 0 {
        seq![]
    } else {
        let r = sort_keyed(s.drop_last());
        r.insert(keyed_pos(r, s.last().0), s.last())
    }
}

proof fn lemma_keyed_pos(r: Seq<(Seq<char>, FeedView)>, x: FeedView)
    requires
        forall|j: int| 0 <= j < r.len() ==> (#[trigger] r[j]).0 == lower_text(r[j].1.0),
    ensures
        keyed_pos(r, lower_text(x.0)) == label_pos(r.map_values(|e: (Seq<char>, FeedView)| e.1), x),
        0 <= keyed_pos(r, lower_text(x.0)) <= r.len(),
    decreases r.len(),
{
    let m = r.map_values(|e: (Seq<char>, FeedView)| e.1);
    if r.len() > 0 {
        let p = r.drop_last();
        assert forall|j: int| 0 <= j < p.len() implies (#[trigger] p[j]).0 == lower_text(p[j].1.0) by {
            assert(p[j] == r[j]);
        }
        lemma_keyed_pos(p, x);
        assert(m.drop_last() =~= p.map_values(|e: (Seq<char>, FeedView)| e.1));
        assert(r.last() == r[r.len() - 1]);
        assert(m.last() == r.last().1);
    }
}

/// Sorting the feeds paired with their lowercase labels by key is sorting
/// them by lowercase label.
proof fn lemma_sort_keyed_is_by_label(s: Seq<(Seq<char>, FeedView)>)
    requires
        forall|j: int| 0 <= j < s.len() ==> (#[trigger] s[j]).0 == lower_text(s[j].1.0),
    ensures
        sort_keyed(s).map_values(|e: (Seq<char>, FeedView)| e.1) == sort_by_label(
            s.map_values(|e: (Seq<char>, FeedView)| e.1),
        ),
        sort_keyed(s).len() == s.len(),
        forall|j: int| 0 <= j < sort_keyed(s).len() ==> (#[trigger] sort_keyed(s)[j]).0 == lower_text(
            sort_keyed(s)[j].1.0,
        ),
    decreases s.len(),
{
    if s.len() > 0 {
        let p = s.drop_last();
        assert forall|j: int| 0 <= j < p.len() implies (#[trigger] p[j]).0 == lower_text(p[j].1.0) by {
            assert(p[j] == s[j]);
        }
        lemma_sort_keyed_is_by_label(p);
        let r = sort_keyed(p);
        let e = s.last();
        assert(e == s[s.len() - 1]);
        lemma_keyed_pos(r, e.1);
        let pos = keyed_pos(r, e.0);
        let rm = r.map_values(|e: (Seq<char>, FeedView)| e.1);
        let sm = s.map_values(|e: (Seq<char>, FeedView)| e.1);
        assert(sm.drop_last() =~= p.map_values(|e: (Seq<char>, FeedView)| e.1));
        assert(sm.last() == e.1);
        assert(r.insert(pos, e).map_values(|e: (Seq<char>, FeedView)| e.1) =~= rm.insert(pos, e.1));
        let ri = r.insert(pos, e);
        assert forall|j: int| 0 <= j < ri.len() implies (#[trigger] ri[j]).0 == lower_text(ri[j].1.0) by {
            if j < pos {
                assert(ri[j] == r[j]);
            } else if j > pos {
                assert(ri[j] == r[j - 1]);
            }
        }
    }
}

/// Sort feeds stably by the given keys (the keys are not compared beyond
/// `<` on characters): each feed goes after every earlier one whose key
/// does not sort after its own.
pub fn sort_by_keys(feeds: Vec<OpmlFeed>, keys: Vec<String>) -> (r: Vec<OpmlFeed>)
    requires
        feeds@.len() == keys@.len(),
    ensures
        r@.map_values(|f: OpmlFeed| feed_view(f)) == sort_keyed(keyed(keys@, feeds@)).map_values(
            |e: (Seq<char>, FeedView)| e.1,
        ),
{
    let ghost all = keyed(keys@, feeds@);
    let mut sorted: Vec<OpmlFeed> = Vec::new();
    let mut sorted_keys: Vec<String> = Vec::new();
    let mut k: usize = 0;
    while k < feeds.len()
        invariant
            0 <= k <= feeds@.len(),
            feeds@.len() == keys@.len(),
            all == keyed(keys@, feeds@),
            sorted@.len() == sorted_keys@.len(),
            keyed(sorted_keys@, sorted@) == sort_keyed(all.take(k as int)),
        decreases feeds@.len() - k,
    {
        let ghost sv = keyed(sorted_keys@, sorted@);
        let ghost x = all[k as int];
        proof {
            assert(all.take(k + 1).drop_last() == all.take(k as int));
            assert(all.take(k + 1).last() == x);
        }
        let key = keys[k].clone();
        let f = feeds[k].duplicate();
        assert(key@ == x.0);
        assert(feed_view(f) == x.1);
        let mut p = sorted.len();
        proof {
            assert(sv.take(p as int) == sv);
        }
        while p > 0 && str_lt(key.as_str(), sorted_keys[p - 1].as_str())
            invariant
                0 <= p <= sv.len(),
                sv.len() == sorted_keys@.len(),
                sorted@.len() == sorted_keys@.len(),
                sv == keyed(sorted_keys@, sorted@),
                key@ == x.0,
                keyed_pos(sv, x.0) == keyed_pos(sv.take(p as int), x.0),
            decreases p,
        {
            proof {
                assert(sv.take(p as int).drop_last() == sv.take(p - 1));
                assert(sv.take(p as int).last() == sv[p - 1]);
            }
            p -= 1;
        }
        proof {
            if p > 0 {
                assert(sv.take(p as int).last() == sv[p - 1]);
            }
            assert(keyed_pos(sv.take(p as int), x.0) == p);
        }
        sorted.insert(p, f);
        sorted_keys.insert(p, key);
        proof {
            assert(keyed(sorted_keys@, sorted@) =~= sv.insert(p as int, x));
        }
        k += 1;
    }
    proof {
        assert(all.take(all.len() as int) == all);
        assert(sorted@.map_values(|f: OpmlFeed| feed_view(f)) =~= keyed(sorted_keys@, sorted@).map_values(
            |e: (Seq<char>, FeedView)| e.1,
        ));
    }
    sorted
}


/// `""` for one, `"s"` otherwise.
pub open spec fn plural(n: nat) -> Seq<char> {
    if n == 1 {
        seq![]
    } else {
        "s"@
    }
}

/// The status line after an export, to a file or to stdout.
pub open spec fn export_message_spec(n: nat, path: Option<Seq<char>>) -> Seq<char> {
    match path {
        Some(p) => "Exported "@ + dec(n) + " subscription"@ + plural(n) + " to "@ + p + "."@,
        None => "Exported "@ + dec(n) + " subscription"@ + plural(n) + "."@,
    }
}

/// The status line after an export of `n` feeds.
pub fn export_message(n: usize, path: Option<&str>) -> (r: String)
    ensures
        r@ == export_message_spec(
            n as nat,
            match path {
                Some(p) => Some(p@),
                None => None,
            },
        ),
{
    let mut m = String::from_str("Exported ");
    push_dec(&mut m, n as u64);
    m.append(" subscription");
    if n != 1 {
        m.append("s");
    }
    proof {
        if n == 1 {
            assert(m@ =~= "Exported "@ + dec(n as nat) + " subscription"@ + plural(n as nat));
        }
    }
    match path {
        Some(p) => {
            m.append(" to ");
            m.append(p);
            m.append(".");
        },
        None => {
            m.append(".");
        },
    }
    m
}

/// The note about feeds left out of an export, if any were.
pub fn skipped_message(skipped: usize) -> (r: Option<String>)
    ensures
        skipped == 0 ==> r is None,
        skipped > 0 ==> (r matches Some(m) && m@ == "Skipped "@ + dec(skipped as nat)
            + " feed(s) with no feed URL."@),
{
    if skipped == 0 {
        return None;
    }
    let mut m = String::from_str("Skipped ");
    push_dec(&mut m, skipped as u64);
    m.append(" feed(s) with no feed URL.");
    Some(m)
}

/// ASCII whitespace as `u8::is_ascii_whitespace` has it.
pub open spec fn is_ascii_ws(b: u8) -> bool {
    b == 0x20 || b == 0x09 || b == 0x0A || b == 0x0C || b == 0x0D
}

/// Whether an OPML file holds nothing but whitespace (nothing to import).
pub fn is_blank(bytes: &[u8]) -> (r: bool)
    ensures
        r == (forall|i: int| 0 <= i < bytes@.len() ==> is_ascii_ws(#[trigger] bytes@[i])),
{
    let mut i: usize = 0;
    while i < bytes.len()
        invariant
            0 <= i <= bytes@.len(),
            forall|j: int| 0 <= j < i ==> is_ascii_ws(#[trigger] bytes@[j]),
        decreases bytes@.len() - i,
    {
        let b = bytes[i];
        if !(b == 0x20 || b == 0x09 || b == 0x0A || b == 0x0C || b == 0x0D) {
            return false;
        }
        i += 1;
    }
    true
}

/// The line announcing how many feeds an import holds, when it holds any.
pub fn importing_message(count: usize) -> (r: Option<String>)
    ensures
        count == 0 ==> r is None,
        count > 0 ==> (r matches Some(m) && m@ == "Importing "@ + dec(count as nat) + " feed"@
            + plural(count as nat) + "…"@),
{
    if count == 0 {
        return None;
    }
    let mut m = String::from_str("Importing ");
    push_dec(&mut m, count as u64);
    m.append(" feed");
    if count != 1 {
        m.append("s");
    }
    proof {
        if count == 1 {
            assert(m@ =~= "Importing "@ + dec(count as nat) + " feed"@ + plural(count as nat));
        }
    }
    m.append("…");
    Some(m)
}

/// Whether to poll a running import again: it is not complete and the poll
/// budget is not spent.
pub fn keep_polling(complete: bool, polls: u32) -> (r: bool)
    ensures
        r == (!complete && polls < IMPORT_POLL_MAX),
{
    !complete && polls < IMPORT_POLL_MAX
}

/// The summary line of an import: done, or still running after the wait.
pub open spec fn import_summary_spec(complete: bool, id: i64, t: (nat, nat, nat, Seq<Seq<char>>)) -> Seq<char> {
    if complete {
        "Done: "@ + dec(t.0) + " complete, "@ + dec(t.2) + " failed."@
    } else {
        "Still processing after "@ + dec((IMPORT_POLL_MAX as nat) * (IMPORT_POLL_SECS as nat))
            + "s: "@ + dec(t.0) + " complete, "@ + dec(t.1) + " pending, "@ + dec(t.2)
            + " failed. Re-run later or check Feedbin (import #"@ + dec_int(id as int) + ")."@
    }
}

/// The report `roses import` prints: the summary line, then one line per
/// failed feed URL.
pub fn import_report(import: &Import) -> (r: Vec<String>)
    ensures
        ({
            let t = tally_spec(import.import_items@);
            &&& r@.len() == t.3.len() + 1
            &&& r@[0]@ == import_summary_spec(import.complete, import.id, t)
            &&& forall|k: int| 0 <= k < t.3.len() ==> (#[trigger] r@[k + 1])@ == "  failed: "@ + t.3[k]
        }),
{
    let tally: ImportTally = import.tally();
    let mut first = String::new();
    if import.complete {
        first.append("Done: ");
        push_dec(&mut first, tally.complete as u64);
        first.append(" complete, ");
        push_dec(&mut first, tally.failed as u64);
        first.append(" failed.");
    } else {
        first.append("Still processing after ");
        push_dec(&mut first, (IMPORT_POLL_MAX as u64) * IMPORT_POLL_SECS);
        first.append("s: ");
        push_dec(&mut first, tally.complete as u64);
        first.append(" complete, ");
        push_dec(&mut first, tally.pending as u64);
        first.append(" pending, ");
        push_dec(&mut first, tally.failed as u64);
        first.append(" failed. Re-run later or check Feedbin (import #");
        push_dec_i64(&mut first, import.id);
        first.append(").");
    }
    let mut out: Vec<String> = Vec::new();
    out.push(first);
    let ghost urls = tally.failed_urls@.map_values(|s: String| s@);
    let mut k: usize = 0;
    while k < tally.failed_urls.len()
        invariant
            0 <= k <= tally.failed_urls@.len(),
            urls == tally.failed_urls@.map_values(|s: String| s@),
            out@.len() == k + 1,
            out@[0]@ == import_summary_spec(import.complete, import.id, tally_spec(import.import_items@)),
            forall|j: int| 0 <= j < k ==> (#[trigger] out@[j + 1])@ == "  failed: "@ + urls[j],
        decreases tally.failed_urls@.len() - k,
    {
        let mut line = String::from_str("  failed: ");
        line.append(tally.failed_urls[k].as_str());
        out.push(line);
        proof {
            assert(urls[k as int] == tally.failed_urls@[k as int]@);
        }
        k += 1;
    }
    out
}

} // verus!
