//! The Feedbin data model and the pure parts of talking to the Feedbin v2
//! API: entry accessors, import tallies, request batching and bodies, error
//! messages and conditional-request outcomes.

use vstd::prelude::*;

verus! {

/// A hydrated Feedbin entry. Feedbin sends most fields nullable, so they are
/// `Option`. `content` is HTML. The `images`/`enclosure`/`json_feed` objects
/// are only present when entries are requested in extended mode.
#[derive(Debug, Clone)]
pub struct Entry {
    pub id: i64,
    pub feed_id: i64,
    pub title: Option<String>,
    pub url: Option<String>,
    /// Display name of the author, when Feedbin provides one.
    pub author: Option<String>,
    /// ISO-8601 publication time, compared as a string.
    pub published: Option<String>,
    /// Short summary; the reader falls back to it when `content` is absent.
    pub summary: Option<String>,
    /// Full entry body as HTML.
    pub content: Option<String>,
    /// Feedbin's extracted lead image.
    pub images: Option<Box<EntryImages>>,
    /// Podcast/media enclosure.
    pub enclosure: Option<Box<Enclosure>>,
    /// JSON Feed extras — notably `external_url` for link blogs.
    pub json_feed: Option<Box<JsonFeed>>,
}

/// The `images` object: a curated lead image.
#[derive(Debug, Clone)]
pub struct EntryImages {
    pub size_1: Option<ImageSize>,
}

/// One size of the lead image; only its CDN URL is used.
#[derive(Debug, Clone)]
pub struct ImageSize {
    pub cdn_url: Option<String>,
}

/// The `enclosure` object: a podcast/media attachment.
#[derive(Debug, Clone)]
pub struct Enclosure {
    pub enclosure_url: Option<String>,
    pub enclosure_type: Option<String>,
    pub itunes_duration: Option<String>,
}

/// The `json_feed` object; `external_url` is the link a link-blog entry
/// points out to (distinct from the permalink `url`).
#[derive(Debug, Clone)]
pub struct JsonFeed {
    pub external_url: Option<String>,
}

/// A copy of an optional string, equal to it.
pub fn copy_opt_string(s: &Option<String>) -> (r: Option<String>)
    ensures
        r == *s,
{
    match s {
        Some(v) => Some(v.clone()),
        None => None,
    }
}

/// The `cdn_url` of an entry's `images.size_1`, if every level is present.
pub open spec fn spec_lead_image_url(e: Entry) -> Option<String> {
    match e.images {
        Some(images) => match images.size_1 {
            Some(size) => size.cdn_url,
            None => None,
        },
        None => None,
    }
}

/// The `enclosure_url` of an entry's enclosure, if present.
pub open spec fn spec_enclosure_url(e: Entry) -> Option<String> {
    match e.enclosure {
        Some(enc) => enc.enclosure_url,
        None => None,
    }
}

/// The JSON Feed `external_url` of an entry, if present.
pub open spec fn spec_external_url(e: Entry) -> Option<String> {
    match e.json_feed {
        Some(jf) => jf.external_url,
        None => None,
    }
}

impl Entry {
    /// A field-for-field copy of the entry.
    pub fn duplicate(&self) -> (r: Entry)
        ensures
            r == *self,
    {
        let images = match &self.images {
            Some(im) => {
                let size_1 = match &im.size_1 {
                    Some(sz) => Some(ImageSize { cdn_url: copy_opt_string(&sz.cdn_url) }),
                    None => None,
                };
                Some(Box::new(EntryImages { size_1 }))
            },
            None => None,
        };
        let enclosure = match &self.enclosure {
            Some(enc) => Some(
                Box::new(
                    Enclosure {
                        enclosure_url: copy_opt_string(&enc.enclosure_url),
                        enclosure_type: copy_opt_string(&enc.enclosure_type),
                        itunes_duration: copy_opt_string(&enc.itunes_duration),
                    },
                ),
            ),
            None => None,
        };
        let json_feed = match &self.json_feed {
            Some(jf) => Some(Box::new(JsonFeed { external_url: copy_opt_string(&jf.external_url) })),
            None => None,
        };
        Entry {
            id: self.id,
            feed_id: self.feed_id,
            title: copy_opt_string(&self.title),
            url: copy_opt_string(&self.url),
            author: copy_opt_string(&self.author),
            published: copy_opt_string(&self.published),
            summary: copy_opt_string(&self.summary),
            content: copy_opt_string(&self.content),
            images,
            enclosure,
            json_feed,
        }
    }

    /// Feedbin's extracted lead-image CDN URL, if any.
    pub fn lead_image_url(&self) -> (r: Option<&str>)
        ensures
            match spec_lead_image_url(*self) {
                Some(u) => r is Some && r->0@ == u@,
                None => r is None,
            },
    {
        match &self.images {
            Some(images) => match &images.size_1 {
                Some(size) => match &size.cdn_url {
                    Some(u) => Some(u.as_str()),
                    None => None,
                },
                None => None,
            },
            None => None,
        }
    }

    /// The podcast/media enclosure URL, if any.
    pub fn enclosure_url(&self) -> (r: Option<&str>)
        ensures
            match spec_enclosure_url(*self) {
                Some(u) => r is Some && r->0@ == u@,
                None => r is None,
            },
    {
        match &self.enclosure {
            Some(enc) => match &enc.enclosure_url {
                Some(u) => Some(u.as_str()),
                None => None,
            },
            None => None,
        }
    }

    /// The JSON Feed `external_url` (link-blog target), if any.
    pub fn external_url(&self) -> (r: Option<&str>)
        ensures
            match spec_external_url(*self) {
                Some(u) => r is Some && r->0@ == u@,
                None => r is None,
            },
    {
        match &self.json_feed {
            Some(jf) => match &jf.external_url {
                Some(u) => Some(u.as_str()),
                None => None,
            },
            None => None,
        }
    }
}

} // verus!

verus! {

/// Base URL for the Feedbin v2 API.
pub const DEFAULT_BASE_URL: &'static str = "https://api.feedbin.com/v2";

/// Feedbin caps `entries.json?ids=` at 100 ids per request.
pub const MAX_IDS_PER_REQUEST: usize = 100;

/// Feedbin caps the unread-entry write endpoints at 1,000 ids per request.
pub const MAX_UNREAD_IDS_PER_REQUEST: usize = 1000;

/// One Feedbin subscription: the feed id, its title, and the feed and site
/// URLs (the OPML `xmlUrl` and `htmlUrl`). Feedbin sends all but the id
/// nullable.
#[derive(Debug, Clone)]
pub struct Subscription {
    pub feed_id: i64,
    pub title: Option<String>,
    pub feed_url: Option<String>,
    pub site_url: Option<String>,
}

/// HTTP cache validators for a GET response, replayed as `If-None-Match` /
/// `If-Modified-Since` so an unchanged endpoint answers `304`.
#[derive(Debug, Clone)]
pub struct Validators {
    pub etag: Option<String>,
    pub last_modified: Option<String>,
}

impl Default for Validators {
    fn default() -> (r: Validators)
        ensures
            r.etag is None,
            r.last_modified is None,
    {
        Validators { etag: None, last_modified: None }
    }
}

/// The outcome of a conditional GET: unchanged, or fresh data plus the new
/// validators to store.
#[derive(Debug)]
pub enum Conditional<T> {
    NotModified,
    Modified { data: T, validators: Validators },
}

/// An OPML import job, polled until `complete`.
#[derive(Debug, Clone)]
pub struct Import {
    pub id: i64,
    pub complete: bool,
    /// Per-feed results; empty when Feedbin leaves them out.
    pub import_items: Vec<ImportItem>,
}

/// One feed's result within an import. `status` is Feedbin's word:
/// `"pending"`, `"complete"`, `"failed"`, or one it adds later.
#[derive(Debug, Clone)]
pub struct ImportItem {
    pub feed_url: Option<String>,
    pub status: String,
}

/// A count of an import's per-feed outcomes, plus the URLs that failed.
#[derive(Debug, PartialEq, Eq)]
pub struct ImportTally {
    pub complete: usize,
    pub pending: usize,
    pub failed: usize,
    pub failed_urls: Vec<String>,
}

/// The tally of `items` as `(complete, pending, failed, failed URLs)`: any
/// status other than "complete" or "failed" counts as pending.
pub open spec fn tally_spec(items: Seq<ImportItem>) -> (nat, nat, nat, Seq<Seq<char>>)
    decreases items.len(),
{
    if items.len() == 0 {
        (0, 0, 0, seq![])
    } else {
        let (c, p, f, u) = tally_spec(items.drop_last());
        let it = items.last();
        if it.status@ == "complete"@ {
            (c + 1, p, f, u)
        } else if it.status@ == "failed"@ {
            (c, p, f + 1, match it.feed_url {
                Some(x) => u.push(x@),
                None => u,
            })
        } else {
            (c, p + 1, f, u)
        }
    }
}

impl Import {
    /// Tally the import's items by status, collecting the feed URLs that
    /// failed.
    pub fn tally(&self) -> (r: ImportTally)
        ensures
            ({
                let t = tally_spec(self.import_items@);
                &&& r.complete == t.0
                &&& r.pending == t.1
                &&& r.failed == t.2
                &&& r.failed_urls@.map_values(|s: String| s@) == t.3
            }),
    {
        let mut complete: usize = 0;
        let mut pending: usize = 0;
        let mut failed: usize = 0;
        let mut failed_urls: Vec<String> = Vec::new();
        let mut i: usize = 0;
        while i < self.import_items.len()
            invariant
                0 <= i <= self.import_items@.len(),
                ({
                    let t = tally_spec(self.import_items@.take(i as int));
                    &&& complete == t.0
                    &&& pending == t.1
                    &&& failed == t.2
                    &&& failed_urls@.map_values(|s: String| s@) == t.3
                }),
                complete + pending + failed == i,
            decreases self.import_items@.len() - i,
        {
            proof {
                assert(self.import_items@.take(i + 1).drop_last() == self.import_items@.take(i as int));
                assert(self.import_items@.take(i + 1).last() == self.import_items@[i as int]);
            }
            let item = &self.import_items[i];
            if crate::text::str_eq(item.status.as_str(), "complete") {
                complete += 1;
            } else if crate::text::str_eq(item.status.as_str(), "failed") {
                failed += 1;
                if let Some(url) = &item.feed_url {
                    let ghost before = failed_urls@.map_values(|s: String| s@);
                    failed_urls.push(url.clone());
                    proof {
                        assert(failed_urls@.map_values(|s: String| s@) =~= before.push(url@));
                    }
                }
            } else {
                pending += 1;
            }
            i += 1;
        }
        proof {
            assert(self.import_items@.take(self.import_items@.len() as int) == self.import_items@);
        }
        ImportTally { complete, pending, failed, failed_urls }
    }
}

/// `ids` cut into consecutive batches of at most `n` (the last may be
/// shorter); no batch for no ids.
pub open spec fn chunks_spec(ids: Seq<i64>, n: nat) -> Seq<Seq<i64>>
    decreases ids.len(),
{
    if ids.len() == 0 || n == 0 {
        seq![]
    } else if ids.len() <= n {
        seq![ids]
    } else {
        seq![ids.take(n as int)] + chunks_spec(ids.skip(n as int), n)
    }
}

/// Split `ids` into request batches of at most `n`, in order.
pub fn id_chunks(ids: &[i64], n: usize) -> (r: Vec<Vec<i64>>)
    requires
        n > 0,
    ensures
        r@.map_values(|c: Vec<i64>| c@) == chunks_spec(ids@, n as nat),
{
    let mut out: Vec<Vec<i64>> = Vec::new();
    let mut start: usize = 0;
    proof {
        assert(ids@.skip(0) == ids@);
    }
    while start < ids.len()
        invariant
            0 <= start <= ids@.len(),
            n > 0,
            out@.map_values(|c: Vec<i64>| c@) + chunks_spec(ids@.skip(start as int), n as nat)
                == chunks_spec(ids@, n as nat),
        decreases ids@.len() - start,
    {
        let end = if ids.len() - start <= n {
            ids.len()
        } else {
            start + n
        };
        let mut chunk: Vec<i64> = Vec::new();
        let mut k: usize = start;
        while k < end
            invariant
                start <= k <= end <= ids@.len(),
                chunk@ == ids@.subrange(start as int, k as int),
            decreases end - k,
        {
            chunk.push(ids[k]);
            proof {
                assert(chunk@ =~= ids@.subrange(start as int, k + 1));
            }
            k += 1;
        }
        let ghost rest = ids@.skip(start as int);
        proof {
            if end == ids.len() {
                assert(chunk@ =~= rest);
                assert(ids@.skip(end as int) =~= Seq::<i64>::empty());
            } else {
                assert(chunk@ =~= rest.take(n as int));
                assert(rest.skip(n as int) =~= ids@.skip(end as int));
            }
        }
        let ghost before = out@.map_values(|c: Vec<i64>| c@);
        out.push(chunk);
        proof {
            assert(out@.map_values(|c: Vec<i64>| c@) =~= before.push(ids@.subrange(start as int, end as int)));
            assert(chunks_spec(rest, n as nat) =~= seq![ids@.subrange(start as int, end as int)]
                + chunks_spec(ids@.skip(end as int), n as nat));
            assert(before + chunks_spec(rest, n as nat) =~= out@.map_values(|c: Vec<i64>| c@)
                + chunks_spec(ids@.skip(end as int), n as nat));
        }
        start = end;
    }
    proof {
        assert(out@.map_values(|c: Vec<i64>| c@) + Seq::<Seq<i64>>::empty() =~= out@.map_values(
            |c: Vec<i64>| c@,
        ));
    }
    out
}

/// The ids as a comma-separated decimal list.
pub open spec fn csv_spec(ids: Seq<i64>) -> Seq<char>
    decreases ids.len(),
{
    if ids.len() == 0 {
        seq![]
    } else if ids.len() == 1 {
        crate::decimal::dec_int(ids[0] as int)
    } else {
        csv_spec(ids.drop_last()) + ","@ + crate::decimal::dec_int(ids.last() as int)
    }
}

/// Join ids with commas, as the entry endpoints take them.
pub fn ids_csv(ids: &[i64]) -> (r: String)
    ensures
        r@ == csv_spec(ids@),
{
    let mut out = String::new();
    let mut i: usize = 0;
    while i < ids.len()
        invariant
            0 <= i <= ids@.len(),
            out@ == csv_spec(ids@.take(i as int)),
        decreases ids@.len() - i,
    {
        proof {
            assert(ids@.take(i + 1).drop_last() == ids@.take(i as int));
            assert(ids@.take(i + 1).last() == ids@[i as int]);
        }
        if i > 0 {
            out.append(",");
        }
        crate::decimal::push_dec_i64(&mut out, ids[i]);
        i += 1;
    }
    proof {
        assert(ids@.take(ids@.len() as int) == ids@);
    }
    out
}

/// The JSON body of an entry-id write: `{"<key>":[<ids>]}`.
pub open spec fn write_body_spec(key: Seq<char>, ids: Seq<i64>) -> Seq<char> {
    "{\""@ + key + "\":["@ + csv_spec(ids) + "]}"@
}

/// The JSON body of an entry-id write.
pub fn write_body(key: &str, ids: &[i64]) -> (r: String)
    ensures
        r@ == write_body_spec(key@, ids@),
{
    let mut out = String::from_str("{\"");
    out.append(key);
    out.append("\":[");
    let csv = ids_csv(ids);
    out.append(csv.as_str());
    out.append("]}");
    out
}

/// The message for a 401: the stored credentials were rejected.
pub open spec fn unauthorized_text() -> Seq<char> {
    "Feedbin rejected the stored credentials (HTTP 401). Run `roses logout`, then log in again."@
}

/// The error a failed response gives: the 401 message, or the status with
/// up to 200 characters of the trimmed body.
pub open spec fn status_error_spec(code: u16, status: Seq<char>, body: Seq<char>) -> Seq<char> {
    if code == 401 {
        unauthorized_text()
    } else {
        let snippet = crate::text::trim(body).take(
            if crate::text::trim(body).len() < 200 {
                crate::text::trim(body).len() as int
            } else {
                200
            },
        );
        if snippet.len() == 0 {
            "Feedbin request failed (HTTP "@ + status + ")"@
        } else {
            "Feedbin request failed (HTTP "@ + status + "): "@ + snippet
        }
    }
}

/// Judge a response: a 2xx passes; anything else becomes an actionable
/// error. `status` is the status as displayed (code and reason), `body` the
/// response text.
pub fn check_status(code: u16, status: &str, body: &str) -> (r: Result<(), String>)
    ensures
        200 <= code <= 299 ==> r is Ok,
        !(200 <= code <= 299) ==> (r matches Err(e) && e@ == status_error_spec(code, status@, body@)),
{
    if 200 <= code && code <= 299 {
        return Ok(());
    }
    if code == 401 {
        return Err(String::from_str(
            "Feedbin rejected the stored credentials (HTTP 401). Run `roses logout`, then log in again.",
        ));
    }
    let t = crate::text::trim_str(body);
    let chars = crate::text::str_chars(t.as_str());
    let n = if chars.len() < 200 {
        chars.len()
    } else {
        200
    };
    let snippet = crate::text::chars_to_string(&chars, 0, n);
    proof {
        assert(snippet@ =~= crate::text::trim(body@).take(n as int));
    }
    let mut out = String::from_str("Feedbin request failed (HTTP ");
    out.append(status);
    if n == 0 {
        out.append(")");
    } else {
        out.append("): ");
        out.append(snippet.as_str());
    }
    Err(out)
}

/// The feed-id → title map of the subscriptions that have a title (a later
/// subscription for the same feed wins).
pub open spec fn titles_spec(subs: Seq<Subscription>) -> Map<i64, String>
    decreases subs.len(),
{
    if subs.len() == 0 {
        Map::empty()
    } else {
        let m = titles_spec(subs.drop_last());
        match subs.last().title {
            Some(t) => m.insert(subs.last().feed_id, t),
            None => m,
        }
    }
}

/// Map each subscribed feed id to its title; untitled feeds are left out.
pub fn feed_titles_from(subs: Vec<Subscription>) -> (r: std::collections::HashMap<i64, String>)
    ensures
        r@ == titles_spec(subs@),
{
    let mut m: std::collections::HashMap<i64, String> = std::collections::HashMap::new();
    let mut i: usize = 0;
    while i < subs.len()
        invariant
            0 <= i <= subs@.len(),
            m@ == titles_spec(subs@.take(i as int)),
        decreases subs@.len() - i,
    {
        proof {
            assert(subs@.take(i + 1).drop_last() == subs@.take(i as int));
            assert(subs@.take(i + 1).last() == subs@[i as int]);
        }
        match &subs[i].title {
            Some(t) => {
                m.insert(subs[i].feed_id, t.clone());
            },
            None => {},
        }
        i += 1;
    }
    proof {
        assert(subs@.take(subs@.len() as int) == subs@);
    }
    m
}

/// `base` without trailing slashes.
pub open spec fn trim_slashes(base: Seq<char>) -> Seq<char>
    decreases base.len(),
{
    if base.len() > 0 && base.last() == '/' {
        trim_slashes(base.drop_last())
    } else {
        base
    }
}

/// The URL of `path` under the API base (trailing slashes of the base
/// dropped).
pub fn api_url(base: &str, path: &str) -> (r: String)
    ensures
        r@ == trim_slashes(base@) + "/"@ + path@,
{
    let v = crate::text::str_chars(base);
    let mut end = v.len();
    proof {
        assert(v@.take(end as int) == v@);
    }
    while end > 0 && v[end - 1] == '/'
        invariant
            0 <= end <= v@.len(),
            v@ == base@,
            trim_slashes(base@) == trim_slashes(v@.take(end as int)),
        decreases end,
    {
        proof {
            assert(v@.take(end as int).drop_last() == v@.take(end - 1));
        }
        end -= 1;
    }
    proof {
        if end > 0 {
            assert(v@.take(end as int).last() == v@[end - 1]);
        }
    }
    let mut out = crate::text::chars_to_string(&v, 0, end);
    proof {
        assert(out@ == v@.take(end as int));
    }
    out.append("/");
    out.append(path);
    out
}

} // verus!
