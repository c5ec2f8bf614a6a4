//! The offline cache's rules: where it lives, which cached unread entries a
//! fresh snapshot marks read, and the keys the HTTP validators are kept
//! under. The SQLite plumbing stays with the program around the library.

use std::collections::HashMap;
use vstd::prelude::*;
use crate::config::{join_path, join_spec, APP_NAME};
use crate::feedbin::Entry;

verus! {

/// The database file's name.
pub const DB_FILE: &'static str = "roses.db";

/// A cached snapshot for the initial paint: unread entries (newest first),
/// feed names, and the cached unread count.
#[derive(Debug)]
pub struct CachedSnapshot {
    pub entries: Vec<Entry>,
    pub feed_titles: HashMap<i64, String>,
    pub total_unread: usize,
}

/// The cached-unread ids that are no longer in the server's unread set, in
/// order.
pub open spec fn stale_spec(cached: Seq<i64>, unread: Seq<i64>) -> Seq<i64>
    decreases cached.len(),
{
    if cached.len() == 0 {
        seq![]
    } else {
        stale_spec(cached.drop_last(), unread) + (if unread.contains(cached.last()) {
            seq![]
        } else {
            seq![cached.last()]
        })
    }
}

/// Which cached-unread entries a fresh snapshot marks read: those Feedbin no
/// longer lists as unread (Feedbin is the source of truth).
pub fn stale_unread(cached_unread: &[i64], unread_ids: &[i64]) -> (r: Vec<i64>)
    ensures
        r@ == stale_spec(cached_unread@, unread_ids@),
{
    let mut present: Vec<i64> = Vec::new();
    let mut k: usize = 0;
    while k < unread_ids.len()
        invariant
            0 <= k <= unread_ids@.len(),
            present@ == unread_ids@.take(k as int),
        decreases unread_ids@.len() - k,
    {
        present.push(unread_ids[k]);
        proof {
            assert(unread_ids@.take(k + 1) == unread_ids@.take(k as int).push(unread_ids@[k as int]));
        }
        k += 1;
    }
    proof {
        assert(unread_ids@.take(unread_ids@.len() as int) == unread_ids@);
    }
    let mut out: Vec<i64> = Vec::new();
    let mut i: usize = 0;
    while i < cached_unread.len()
        invariant
            0 <= i <= cached_unread@.len(),
            present@ == unread_ids@,
            out@ == stale_spec(cached_unread@.take(i as int), unread_ids@),
        decreases cached_unread@.len() - i,
    {
        proof {
            assert(cached_unread@.take(i + 1).drop_last() == cached_unread@.take(i as int));
            assert(cached_unread@.take(i + 1).last() == cached_unread@[i as int]);
        }
        if !crate::tui::vec_contains(&present, cached_unread[i]) {
            out.push(cached_unread[i]);
        } else {
            proof {
                assert(out@ + Seq::<i64>::empty() == out@);
            }
        }
        proof {
            assert(out@ =~= stale_spec(cached_unread@.take(i + 1), unread_ids@));
        }
        i += 1;
    }
    proof {
        assert(cached_unread@.take(cached_unread@.len() as int) == cached_unread@);
    }
    out
}

/// The full unread set of a snapshot: the hydrated entries' ids, then the
/// pending ids.
pub fn snapshot_unread_ids(entries: &[Entry], pending_ids: &[i64]) -> (r: Vec<i64>)
    ensures
        r@ == entries@.map_values(|e: Entry| e.id) + pending_ids@,
{
    let mut out: Vec<i64> = Vec::new();
    let mut i: usize = 0;
    while i < entries.len()
        invariant
            0 <= i <= entries@.len(),
            out@ == entries@.take(i as int).map_values(|e: Entry| e.id),
        decreases entries@.len() - i,
    {
        out.push(entries[i].id);
        proof {
            assert(entries@.take(i + 1).map_values(|e: Entry| e.id) =~= entries@.take(
                i as int,
            ).map_values(|e: Entry| e.id).push(entries@[i as int].id));
        }
        i += 1;
    }
    proof {
        assert(entries@.take(entries@.len() as int) == entries@);
    }
    let ghost head = out@;
    let mut k: usize = 0;
    while k < pending_ids.len()
        invariant
            0 <= k <= pending_ids@.len(),
            out@ == head + pending_ids@.take(k as int),
        decreases pending_ids@.len() - k,
    {
        out.push(pending_ids[k]);
        proof {
            assert(out@ =~= head + pending_ids@.take(k + 1));
        }
        k += 1;
    }
    proof {
        assert(pending_ids@.take(pending_ids@.len() as int) == pending_ids@);
    }
    out
}

/// The meta keys an endpoint's validators are stored under:
/// `<endpoint>.etag` and `<endpoint>.last_modified`.
pub fn validator_keys(endpoint: &str) -> (r: (String, String))
    ensures
        r.0@ == endpoint@ + ".etag"@,
        r.1@ == endpoint@ + ".last_modified"@,
{
    let mut a = String::from_str(endpoint);
    a.append(".etag");
    let mut b = String::from_str(endpoint);
    b.append(".last_modified");
    (a, b)
}

/// `$XDG_DATA_HOME/roses` when set and non-empty, else
/// `~/.local/share/roses`.
pub open spec fn data_dir_spec(xdg: Option<Seq<char>>, home: Seq<char>) -> Seq<char> {
    let base = match xdg {
        Some(x) => if x.len() > 0 {
            x
        } else {
            join_spec(join_spec(home, ".local"@), "share"@)
        },
        None => join_spec(join_spec(home, ".local"@), "share"@),
    };
    join_spec(base, "roses"@)
}

/// Resolve the data directory from `$XDG_DATA_HOME` and the home dir.
pub fn data_dir_from(xdg_data_home: Option<&str>, home: &str) -> (r: String)
    ensures
        r@ == data_dir_spec(
            match xdg_data_home {
                Some(x) => Some(x@),
                None => None,
            },
            home@,
        ),
{
    match xdg_data_home {
        Some(x) => {
            if !x.is_empty() {
                return join_path(x, APP_NAME);
            }
        },
        None => {},
    }
    let local = join_path(home, ".local");
    let base = join_path(local.as_str(), "share");
    join_path(base.as_str(), APP_NAME)
}

/// The database file inside the data directory.
pub fn db_path(data_dir: &str) -> (r: String)
    ensures
        r@ == join_spec(data_dir@, "roses.db"@),
{
    join_path(data_dir, DB_FILE)
}

/// The absent ids are no more than the cached ones.
proof fn lemma_stale_len(cached: Seq<i64>, unread: Seq<i64>)
    ensures
        stale_spec(cached, unread).len() <= cached.len(),
    decreases cached.len(),
{
    if cached.len() > 0 {
        lemma_stale_len(cached.drop_last(), unread);
    }
}

/// The load a cached snapshot seeds the window with before the network
/// answers: its entries and feed names, every other cached-unread id
/// (`cached_unread_ids`, newest first) as pending, and as the count exactly
/// those loaded and pending. `None` when nothing is cached.
pub fn seed_load(snap: CachedSnapshot, cached_unread_ids: &Vec<i64>) -> (r: Option<crate::tui::Loaded>)
    requires
        snap.entries@.len() + cached_unread_ids@.len() <= usize::MAX,
    ensures
        snap.entries@.len() == 0 <==> r is None,
        r matches Some(l) ==> {
            &&& l.entries == snap.entries
            &&& l.feed_titles == snap.feed_titles
            &&& l.pending_ids@ == stale_spec(cached_unread_ids@, crate::tui::entry_ids(snap.entries@))
            &&& l.total_unread == l.entries@.len() + l.pending_ids@.len()
        },
{
    if snap.entries.len() == 0 {
        return None;
    }
    let loaded_ids = crate::tui::ids_of(&snap.entries);
    let pending = stale_unread(cached_unread_ids.as_slice(), loaded_ids.as_slice());
    proof {
        lemma_stale_len(cached_unread_ids@, loaded_ids@);
    }
    let total = snap.entries.len() + pending.len();
    Some(crate::tui::Loaded { entries: snap.entries, feed_titles: snap.feed_titles, total_unread: total, pending_ids: pending })
}

} // verus!
