//! The plain-text listing of unread entries (the non-interactive `list`).

use std::collections::HashMap;
use vstd::prelude::*;
use crate::decimal::{dec, push_dec};
use crate::feedbin::Entry;
use crate::tui::{feed_name_of, name_of};

verus! {

/// The title shown for an entry: its own, or a placeholder.
pub open spec fn title_or_placeholder(e: Entry) -> Seq<char> {
    match e.title {
        Some(t) => t@,
        None => "(untitled)"@,
    }
}

/// The two lines of the `n`-th (1-based) entry: number and title, then the
/// feed name and, when there is one, the URL.
pub open spec fn item_text(n: nat, e: Entry, titles: Map<i64, String>) -> Seq<char> {
    dec(n) + ". "@ + title_or_placeholder(e) + "\n"@ + "   "@ + name_of(titles, e.feed_id) + match e.url {
        Some(u) => " · "@ + u@ + "\n"@,
        None => "\n"@,
    }
}

/// The numbered items for `entries`.
pub open spec fn items_text(entries: Seq<Entry>, titles: Map<i64, String>) -> Seq<char>
    decreases entries.len(),
{
    if entries.len() == 0 {
        seq![]
    } else {
        items_text(entries.drop_last(), titles) + item_text(entries.len(), entries.last(), titles)
    }
}

/// The message shown when nothing is unread.
pub open spec fn caught_up_text() -> Seq<char> {
    "You're all caught up — no unread entries.\n"@
}

/// The whole listing: a friendly message when nothing is unread, else a
/// "showing X of Y" header and the numbered entries.
pub open spec fn format_unread_spec(entries: Seq<Entry>, titles: Map<i64, String>, total: nat) -> Seq<char> {
    if total == 0 {
        caught_up_text()
    } else {
        "Unread entries (showing "@ + dec(entries.len()) + " of "@ + dec(total) + "):\n\n"@
            + items_text(entries, titles)
    }
}

/// Render a readable plain-text list of unread entries. `entries` is the
/// batch to show, `feed_titles` names the feeds, `total_unread` is the full
/// unread count for the "showing X of Y" header.
pub fn format_unread(entries: &[Entry], feed_titles: &HashMap<i64, String>, total_unread: usize) -> (r: String)
    ensures
        r@ == format_unread_spec(entries@, feed_titles@, total_unread as nat),
{
    if total_unread == 0 {
        return String::from_str("You're all caught up — no unread entries.\n");
    }
    let mut out = String::from_str("Unread entries (showing ");
    push_dec(&mut out, entries.len() as u64);
    out.append(" of ");
    push_dec(&mut out, total_unread as u64);
    out.append("):\n\n");
    let ghost head = out@;
    let mut i: usize = 0;
    while i < entries.len()
        invariant
            0 <= i <= entries@.len(),
            out@ == head + items_text(entries@.take(i as int), feed_titles@),
        decreases entries@.len() - i,
    {
        proof {
            assert(entries@.take(i + 1).drop_last() == entries@.take(i as int));
            assert(entries@.take(i + 1).last() == entries@[i as int]);
        }
        let ghost before = out@;
        let e = &entries[i];
        push_dec(&mut out, (i + 1) as u64);
        out.append(". ");
        match &e.title {
            Some(t) => out.append(t.as_str()),
            None => out.append("(untitled)"),
        }
        let ghost a = out@;
        proof {
            assert(a =~= before + dec((i + 1) as nat) + ". "@ + title_or_placeholder(*e));
        }
        out.append("\n   ");
        out.append(feed_name_of(feed_titles, e.feed_id));
        let ghost b = out@;
        proof {
            assert(b =~= a + "\n"@ + "   "@ + name_of(feed_titles@, e.feed_id)) by {
                reveal_strlit("\n   ");
                reveal_strlit("\n");
                reveal_strlit("   ");
            }
        }
        match &e.url {
            Some(u) => {
                out.append(" · ");
                out.append(u.as_str());
                out.append("\n");
            },
            None => out.append("\n"),
        }
        proof {
            assert(out@ =~= before + item_text((i + 1) as nat, entries@[i as int], feed_titles@));
            assert(out@ =~= head + items_text(entries@.take(i + 1), feed_titles@));
        }
        i += 1;
    }
    proof {
        assert(entries@.take(entries@.len() as int) == entries@);
    }
    out
}

} // verus!
