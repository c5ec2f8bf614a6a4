//! Properties the library keeps across its operations, stated over the
//! specifications the operations' contracts use.

use vstd::prelude::*;
use crate::batch::{ascending_below, reinsert, taken, without};
use crate::feedbin::{chunks_spec, tally_spec, ImportItem};
use crate::opml::{escape_char, xml_escape_spec};
use crate::reader::{
    char_width, flush_line, step_char, step_word, str_width, words, words_acc, wrap_chars, wrap_title_spec, wrap_words,
};
use crate::store::stale_spec;
use crate::text::{is_control, strip_spec};
use crate::tui::{batch_absent, kept_undos, sat_add, sat_sub, App, Msg, Undone, WriteOp};

verus! {

/// Marking a batch of articles read and then undoing it (or the write
/// failing and the batch rolling back) puts the window back exactly as it
/// was, and the unread count too when it covered the batch: the removal
/// leaves `without(e, idx)` and hands out `taken(e, idx)`, and restoring
/// that batch reinserts it.
pub proof fn law_mark_then_undo_restores(entries: Seq<crate::feedbin::Entry>, total: usize, idx: Seq<usize>)
    requires
        ascending_below(idx, entries.len() as int),
    ensures
        reinsert(without(entries, idx), taken(entries, idx)) == entries,
        taken(entries, idx).len() == idx.len(),
        total >= idx.len() ==> sat_add(sat_sub(total, idx.len()), taken(entries, idx).len()) == total,
{
    crate::batch::lemma_reinsert_restores(entries, idx);
}

/// After a reload, no kept undo batch holds an entry the fresh window
/// brought back, so an undo can never duplicate a row; and the kept batches
/// are among the old ones, in order.
pub proof fn law_reload_prunes_undo(stack: Seq<Undone>, present: Seq<i64>)
    ensures
        forall|k: int| 0 <= k < kept_undos(stack, present).len() ==> batch_absent(
            (#[trigger] kept_undos(stack, present)[k]).batch@,
            present,
        ),
        kept_undos(stack, present).len() <= stack.len(),
    decreases stack.len(),
{
    if stack.len() > 0 {
        law_reload_prunes_undo(stack.drop_last(), present);
        let p = kept_undos(stack.drop_last(), present);
        let q = kept_undos(stack, present);
        assert forall|k: int| 0 <= k < q.len() implies batch_absent((#[trigger] q[k]).batch@, present) by {
            if k < p.len() {
                assert(q[k] == p[k]);
            }
        }
    }
}

/// A failed load-more gives its batch back in front of the ids still
/// pending, so the pending list is exactly what it was before the attempt.
pub proof fn law_load_more_retry_restores(pending: Seq<i64>, n: int)
    requires
        0 <= n <= pending.len(),
    ensures
        pending.take(n) + pending.skip(n) == pending,
{
    assert(pending.take(n) + pending.skip(n) =~= pending);
}

/// A reload keeps the reader exactly where it was when the selected source
/// and article both survive it.
pub proof fn law_reload_keeps_surviving_selection(a: App)
    requires
        a.selected_source matches Some(f) && crate::tui::row_ids(a.sources_view()).contains(f),
        a.selected_article matches Some(x) && a.art_view(a.selected_source->0).contains(x),
    ensures
        a.preserve_spec() == a,
{
}

/// Stripping control characters leaves none, and keeps every other
/// character.
pub proof fn law_strip_leaves_no_control(s: Seq<char>)
    ensures
        forall|i: int| 0 <= i < strip_spec(s).len() ==> !is_control(#[trigger] strip_spec(s)[i]),
        forall|i: int| 0 <= i < s.len() && !is_control(s[i]) ==> #[trigger] strip_spec(s).contains(
            s[i],
        ),
{
    broadcast use vstd::seq_lib::group_filter_ensures;
    assert forall|i: int| 0 <= i < strip_spec(s).len() implies !is_control(#[trigger] strip_spec(s)[i]) by {
        s.lemma_filter_pred(|c: char| !is_control(c), i);
    }
    assert forall|i: int| 0 <= i < s.len() && !is_control(s[i]) implies #[trigger] strip_spec(
        s,
    ).contains(s[i]) by {
        s.lemma_filter_contains(|c: char| !is_control(c), i);
    }
}

/// Escaped text holds no raw `<`, `>`, `"` or `'`, so it cannot end an
/// attribute or open a tag.
pub proof fn law_escape_is_inert(s: Seq<char>)
    ensures
        forall|i: int|
            0 <= i < xml_escape_spec(s).len() ==> {
                let c = #[trigger] xml_escape_spec(s)[i];
                c != '<' && c != '>' && c != '"' && c != '\''
            },
    decreases s.len(),
{
    if s.len() > 0 {
        law_escape_is_inert(s.drop_last());
        let p = xml_escape_spec(s.drop_last());
        let e = crate::opml::escape_char(s.last());
        reveal_strlit("&amp;");
        reveal_strlit("&lt;");
        reveal_strlit("&gt;");
        reveal_strlit("&quot;");
        reveal_strlit("&apos;");
        assert forall|i: int| 0 <= i < xml_escape_spec(s).len() implies {
            let c = #[trigger] xml_escape_spec(s)[i];
            c != '<' && c != '>' && c != '"' && c != '\''
        } by {
            if i < p.len() {
                assert(xml_escape_spec(s)[i] == p[i]);
            } else {
                assert(xml_escape_spec(s)[i] == e[i - p.len()]);
            }
        }
    }
}

/// The concatenation of a sequence of batches.
pub open spec fn flatten(chunks: Seq<Seq<i64>>) -> Seq<i64>
    decreases chunks.len(),
{
    if chunks.len() == 0 {
        seq![]
    } else {
        chunks[0] + flatten(chunks.drop_first())
    }
}

/// Batching ids loses none and reorders none, every batch holds between
/// one id and the limit, and there are `ceil(len / n)` batches, so `n` ids
/// or fewer are one request and none are no request at all.
pub proof fn law_chunks_cover(ids: Seq<i64>, n: nat)
    requires
        n > 0,
    ensures
        chunks_spec(ids, n).len() == (ids.len() + n - 1) / (n as int),
        flatten(chunks_spec(ids, n)) == ids,
        forall|k: int|
            0 <= k < chunks_spec(ids, n).len() ==> 0 < (#[trigger] chunks_spec(ids, n)[k]).len() <= n,
    decreases ids.len(),
{
    let len = ids.len() as int;
    let m = n as int;
    if ids.len() > n {
        law_chunks_cover(ids.skip(n as int), n);
        assert((len - m + m - 1) / m + 1 == (len + m - 1) / m) by (nonlinear_arith)
            requires
                m > 0,
                len > m,
        {
            assert(len + m - 1 == (len - m + m - 1) + m);
        }
        let c = chunks_spec(ids, n);
        assert(c.drop_first() =~= chunks_spec(ids.skip(n as int), n));
        assert(c[0] == ids.take(n as int));
        assert(flatten(c) == c[0] + flatten(c.drop_first()));
        assert(ids.take(n as int) + ids.skip(n as int) =~= ids);
        assert forall|k: int| 0 <= k < c.len() implies 0 < (#[trigger] c[k]).len() <= n by {
            if k > 0 {
                assert(c[k] == chunks_spec(ids.skip(n as int), n)[k - 1]);
            }
        }
    } else if ids.len() > 0 {
        assert((len + m - 1) / m == 1) by (nonlinear_arith)
            requires
                m > 0,
                0 < len <= m,
        ;
        let c = chunks_spec(ids, n);
        assert(c.drop_first() =~= Seq::<Seq<i64>>::empty());
        assert(flatten(c) == c[0] + flatten(c.drop_first()));
        assert(ids + Seq::<i64>::empty() =~= ids);
    } else {
        assert((len + m - 1) / m == 0) by (nonlinear_arith)
            requires
                m > 0,
                len == 0,
        ;
        assert(chunks_spec(ids, n) =~= Seq::<Seq<i64>>::empty());
    }
}

/// Every import item is counted exactly once, and each failed URL belongs
/// to a failed item.
pub proof fn law_tally_counts_every_item(items: Seq<ImportItem>)
    ensures
        tally_spec(items).0 + tally_spec(items).1 + tally_spec(items).2 == items.len(),
        tally_spec(items).3.len() <= tally_spec(items).2,
    decreases items.len(),
{
    if items.len() > 0 {
        law_tally_counts_every_item(items.drop_last());
    }
}

/// Reconciling the cache marks read exactly the cached-unread entries that
/// Feedbin no longer lists as unread.
pub proof fn law_stale_is_exactly_the_absent(cached: Seq<i64>, unread: Seq<i64>)
    ensures
        forall|x: i64| #[trigger] stale_spec(cached, unread).contains(x) ==> cached.contains(x) && !unread.contains(x),
        forall|x: i64| #[trigger] cached.contains(x) && !unread.contains(x) ==> stale_spec(cached, unread).contains(x),
    decreases cached.len(),
{
    if cached.len() > 0 {
        let p = cached.drop_last();
        law_stale_is_exactly_the_absent(p, unread);
        assert(cached =~= p.push(cached.last()));
        assert forall|x: i64| (stale_spec(cached, unread).contains(x) ==> cached.contains(x)
            && !unread.contains(x)) && (cached.contains(x) && !unread.contains(x) ==> stale_spec(cached, unread).contains(x)) by {
            let sp = stale_spec(p, unread);
            let extra: Seq<i64> = if unread.contains(cached.last()) {
                seq![]
            } else {
                seq![cached.last()]
            };
            assert(stale_spec(cached, unread) == sp + extra);
            if stale_spec(cached, unread).contains(x) {
                let j = choose|j: int| 0 <= j < (sp + extra).len() && (sp + extra)[j] == x;
                if j < sp.len() {
                    assert(sp[j] == x);
                    assert(sp.contains(x));
                    let m = choose|m: int| 0 <= m < p.len() && p[m] == x;
                    assert(cached[m] == x);
                } else {
                    assert(cached[cached.len() - 1] == x);
                }
            }
            if cached.contains(x) && !unread.contains(x) {
                let m = choose|m: int| 0 <= m < cached.len() && cached[m] == x;
                if m < p.len() {
                    assert(p[m] == x);
                    assert(p.contains(x));
                    let j = choose|j: int| 0 <= j < sp.len() && sp[j] == x;
                    assert((sp + extra)[j] == x);
                } else {
                    assert((sp + extra)[sp.len() as int] == x);
                }
            }
        }
    }
}


/// A wrapped title always has at least one line, even for an empty title
/// or a zero width.
pub proof fn law_wrap_never_empty(text: Seq<char>, width: u16)
    ensures
        crate::reader::wrap_title_spec(text, width).len() >= 1,
{
}

/// The three-digit color shorthand means each digit doubled: `#abc` is
/// `#aabbcc`.
pub proof fn law_hex_shorthand_doubles(a: char, b: char, c: char)
    requires
        crate::theme::hex_val(a) is Some,
        crate::theme::hex_val(b) is Some,
        crate::theme::hex_val(c) is Some,
    ensures
        crate::theme::parse_hex_spec(seq!['#', a, b, c]) == crate::theme::parse_hex_spec(
            seq!['#', a, a, b, b, c, c],
        ),
        crate::theme::parse_hex_spec(seq!['#', a, b, c]) is Some,
{
    let s3 = seq!['#', a, b, c];
    let s6 = seq!['#', a, a, b, b, c, c];
    assert(crate::text::trim_end(s3) == s3);
    assert(crate::text::trim_start(s3) == s3);
    assert(crate::text::trim_end(s6) == s6);
    assert(crate::text::trim_start(s6) == s6);
    assert(crate::theme::hex_digits(s3) =~= seq![a, b, c]);
    assert(crate::theme::hex_digits(s6) =~= seq![a, a, b, b, c, c]);
    assert(crate::theme::all_hex(seq![a, b, c]));
    assert(crate::theme::all_hex(seq![a, a, b, b, c, c]));
}

/// The XML entity `t` starts with, as the character it stands for and its
/// length, if it starts with one of `&amp;` `&lt;` `&gt;` `&quot;` `&apos;`.
pub open spec fn entity_prefix(t: Seq<char>) -> Option<(char, nat)> {
    if t.len() >= 5 && t[0] == '&' && t[1] == 'a' && t[2] == 'm' && t[3] == 'p' && t[4] == ';' {
        Some(('&', 5))
    } else if t.len() >= 4 && t[0] == '&' && t[1] == 'l' && t[2] == 't' && t[3] == ';' {
        Some(('<', 4))
    } else if t.len() >= 4 && t[0] == '&' && t[1] == 'g' && t[2] == 't' && t[3] == ';' {
        Some(('>', 4))
    } else if t.len() >= 6 && t[0] == '&' && t[1] == 'q' && t[2] == 'u' && t[3] == 'o' && t[4] == 't'
        && t[5] == ';' {
        Some(('"', 6))
    } else if t.len() >= 6 && t[0] == '&' && t[1] == 'a' && t[2] == 'p' && t[3] == 'o' && t[4] == 's'
        && t[5] == ';' {
        Some(('\'', 6))
    } else {
        None
    }
}

/// Escaped text read back: each of the five entities becomes its character,
/// everything else stays.
pub open spec fn xml_unescape(t: Seq<char>) -> Seq<char>
    decreases t.len(),
{
    if t.len() == 0 {
        seq![]
    } else {
        match entity_prefix(t) {
            Some((c, k)) => seq![c] + xml_unescape(t.skip(k as int)),
            None => seq![t[0]] + xml_unescape(t.skip(1)),
        }
    }
}

/// Escaping works character by character from the front as well.
proof fn lemma_escape_front(s: Seq<char>)
    requires
        s.len() > 0,
    ensures
        xml_escape_spec(s) == escape_char(s[0]) + xml_escape_spec(s.drop_first()),
    decreases s.len(),
{
    if s.len() == 1 {
        assert(s.drop_last() =~= Seq::<char>::empty());
        assert(s.drop_first() =~= Seq::<char>::empty());
        assert(xml_escape_spec(s.drop_last()) =~= Seq::<char>::empty());
        assert(s.last() == s[0]);
        assert(xml_escape_spec(s) == xml_escape_spec(s.drop_last()) + escape_char(s.last()));
        assert(xml_escape_spec(s) =~= escape_char(s[0]));
        assert(escape_char(s[0]) + Seq::<char>::empty() =~= escape_char(s[0]));
    } else {
        lemma_escape_front(s.drop_last());
        assert(s.drop_last().drop_first() =~= s.drop_first().drop_last());
        assert(s.drop_first().last() == s.last());
        assert(s.drop_last()[0] == s[0]);
        let a = escape_char(s[0]);
        let b = xml_escape_spec(s.drop_first().drop_last());
        let c = escape_char(s.last());
        assert(a + b + c =~= a + (b + c));
    }
}

/// Reading back one escaped character gives the character.
proof fn lemma_unescape_one(c: char, t: Seq<char>)
    ensures
        xml_unescape(escape_char(c) + t) == seq![c] + xml_unescape(t),
{
    reveal_strlit("&amp;");
    reveal_strlit("&lt;");
    reveal_strlit("&gt;");
    reveal_strlit("&quot;");
    reveal_strlit("&apos;");
    let u = escape_char(c) + t;
    let k = escape_char(c).len() as int;
    assert(u.skip(k) =~= t);
    assert(u.len() > 0);
    if c == '&' {
        assert(entity_prefix(u) == Some(('&', 5nat)));
    } else if c == '<' {
        assert(entity_prefix(u) == Some(('<', 4nat)));
    } else if c == '>' {
        assert(entity_prefix(u) == Some(('>', 4nat)));
    } else if c == '"' {
        assert(entity_prefix(u) == Some(('"', 6nat)));
    } else if c == '\'' {
        assert(entity_prefix(u) == Some(('\'', 6nat)));
    } else {
        assert(u[0] == c);
        assert(entity_prefix(u) is None);
    }
}

/// Escaping loses nothing: reading the escaped text back gives the original.
pub proof fn law_escape_round_trips(s: Seq<char>)
    ensures
        xml_unescape(xml_escape_spec(s)) == s,
    decreases s.len(),
{
    if s.len() == 0 {
        assert(xml_escape_spec(s) =~= Seq::<char>::empty());
    } else {
        lemma_escape_front(s);
        law_escape_round_trips(s.drop_first());
        lemma_unescape_one(s[0], xml_escape_spec(s.drop_first()));
        assert(seq![s[0]] + s.drop_first() =~= s);
    }
}

/// Every `&` in escaped text begins one of the five entities.
pub proof fn law_escape_ampersands_begin_entities(s: Seq<char>)
    ensures
        forall|i: int|
            0 <= i < xml_escape_spec(s).len() && xml_escape_spec(s)[i] == '&' ==> entity_prefix(
                #[trigger] xml_escape_spec(s).skip(i),
            ) is Some,
    decreases s.len(),
{
    if s.len() > 0 {
        lemma_escape_front(s);
        law_escape_ampersands_begin_entities(s.drop_first());
        reveal_strlit("&amp;");
        reveal_strlit("&lt;");
        reveal_strlit("&gt;");
        reveal_strlit("&quot;");
        reveal_strlit("&apos;");
        let e = escape_char(s[0]);
        let rest = xml_escape_spec(s.drop_first());
        let t = xml_escape_spec(s);
        assert forall|i: int| 0 <= i < t.len() && t[i] == '&' implies entity_prefix(
            #[trigger] t.skip(i),
        ) is Some by {
            if i < e.len() {
                assert(t[i] == e[i]);
                assert(i == 0);
                assert(t.skip(0) =~= t);
                lemma_unescape_shape(s[0], rest);
            } else {
                assert(t.skip(i) =~= rest.skip(i - e.len()));
                assert(rest[i - e.len()] == t[i]);
            }
        }
    } else {
        assert(xml_escape_spec(s) =~= Seq::<char>::empty());
    }
}

/// An escape that starts with `&` is an entity.
proof fn lemma_unescape_shape(c: char, t: Seq<char>)
    requires
        escape_char(c)[0] == '&',
    ensures
        entity_prefix(escape_char(c) + t) is Some,
{
    reveal_strlit("&amp;");
    reveal_strlit("&lt;");
    reveal_strlit("&gt;");
    reveal_strlit("&quot;");
    reveal_strlit("&apos;");
    lemma_unescape_one(c, t);
    if c != '&' && c != '<' && c != '>' && c != '"' && c != '\'' {
        assert(escape_char(c)[0] == c);
    }
}

/// Text with none of `& < > " '` is left exactly as it is.
pub proof fn law_escape_keeps_plain_text(s: Seq<char>)
    requires
        forall|i: int|
            0 <= i < s.len() ==> {
                let c = #[trigger] s[i];
                c != '&' && c != '<' && c != '>' && c != '"' && c != '\''
            },
    ensures
        xml_escape_spec(s) == s,
    decreases s.len(),
{
    if s.len() > 0 {
        let p = s.drop_last();
        assert forall|i: int| 0 <= i < p.len() implies {
            let c = #[trigger] p[i];
            c != '&' && c != '<' && c != '>' && c != '"' && c != '\''
        } by {
            assert(p[i] == s[i]);
        }
        law_escape_keeps_plain_text(p);
        assert(s[s.len() - 1] == s.last());
        assert(p + seq![s.last()] =~= s);
    }
}

/// Applying a background result keeps the unread count equal to the loaded,
/// pending and in-flight entries, as long as the result's own counts agree
/// with the window (a load counts its entries and pending ids, hydrated
/// entries are the batch in flight, a rolled-back batch fits in a `usize`).
pub proof fn law_apply_keeps_unread_count(a: App, msg: Msg, b: App)
    requires
        a.counts_add_up(),
        a.fits_counts(msg),
        a.applied(msg, b),
    ensures
        b.counts_add_up(),
{
    match msg {
        Msg::Write { op: WriteOp::MarkRead, batch, result: Err(_) } => {
            crate::batch::lemma_reinsert_len(a.entries@, batch@);
        },
        Msg::Write { op: WriteOp::Undo, batch, result: Err(_) } => {
            crate::tui::lemma_drop_ids_counts(a.entries@, a.total_unread, batch@);
        },
        Msg::LoadedMore(Ok(more)) => {
            crate::tui::law_sort_newest_first(a.entries@ + more@);
        },
        _ => {},
    }
}

/// Mark a batch read, let its write succeed, then undo: the window holds
/// the same entries in the same order, the unread count and the undo stack
/// are what they were, and the cursor sits on the batch's first entry in
/// the articles column. `m`, `w` and `u` are the states the mark, the
/// write's result and the undo leave, as their contracts describe them.
pub proof fn law_mark_write_undo_round_trips(
    a: App,
    idx: Seq<usize>,
    feed_id: i64,
    hint: int,
    batch: Vec<(crate::feedbin::Entry, usize)>,
    m: App,
    w: App,
    u: App,
)
    requires
        ascending_below(idx, a.entries@.len() as int),
        a.total_unread >= a.entries@.len(),
        batch@ == taken(a.entries@, idx),
        m.entries@ == without(a.entries@, idx),
        m == (App {
            entries: m.entries,
            total_unread: sat_sub(a.total_unread, idx.len()),
            ..a
        }).reselect_after_removal_spec(feed_id, hint),
        m.applied(Msg::Write { op: WriteOp::MarkRead, batch, result: Ok(()) }, w),
        u.undo_stack@ == w.undo_stack@.drop_last(),
        u.entries@ == reinsert(w.entries@, w.undo_stack@.last().batch@),
        u == (App { entries: u.entries, undo_stack: u.undo_stack, ..w }).after_reinsert(
            w.undo_stack@.last().batch@,
        ),
    ensures
        u.entries@ == a.entries@,
        u.total_unread == a.total_unread,
        u.undo_stack@ == a.undo_stack@,
        idx.len() > 0 ==> u.selected_article == Some(a.entries@[idx[0] as int].id) && u.focus
            == crate::tui::Focus::Articles,
{
    crate::batch::lemma_reinsert_restores(a.entries@, idx);
    crate::batch::lemma_without_len(a.entries@, idx);
    assert(w.undo_stack@.last().batch == batch);
    assert(w.undo_stack@.drop_last() =~= a.undo_stack@);
}


/// Lines joined with single spaces.
pub open spec fn join_spaced(lines: Seq<Seq<char>>) -> Seq<char>
    decreases lines.len(),
{
    if lines.len() == 0 {
        seq![]
    } else if lines.len() == 1 {
        lines[0]
    } else {
        join_spaced(lines.drop_last()) + seq![' '] + lines.last()
    }
}

proof fn lemma_words_nonempty(s: Seq<char>)
    ensures
        forall|k: int| 0 <= k < words(s).len() ==> (#[trigger] words(s)[k]).len() > 0,
{
    lemma_words_acc_nonempty(s);
}

proof fn lemma_words_acc_nonempty(s: Seq<char>)
    ensures
        forall|k: int| 0 <= k < words_acc(s).0.len() ==> (#[trigger] words_acc(s).0[k]).len() > 0,
    decreases s.len(),
{
    if s.len() > 0 {
        lemma_words_acc_nonempty(s.drop_last());
        let (ws, cur) = words_acc(s.drop_last());
        if crate::text::is_ws(s.last()) && cur.len() > 0 {
            let r = ws.push(cur);
            assert(words_acc(s).0 == r);
            assert forall|k: int| 0 <= k < r.len() implies (#[trigger] r[k]).len() > 0 by {
                if k < ws.len() {
                    assert(r[k] == ws[k]);
                }
            }
        } else {
            assert(words_acc(s).0 == ws);
        }
    }
}

/// Whether a wrapping state holds exactly the words `ws`: its finished lines
/// are non-empty, the current line is empty exactly when its width is 0,
/// and the lines (with the current one, if any) joined by spaces are the
/// words joined by spaces.
pub open spec fn holds_words(st: (Seq<Seq<char>>, Seq<char>, int), ws: Seq<Seq<char>>, width: int) -> bool {
    &&& 0 <= st.2 <= width
    &&& (st.2 == 0 <==> st.1.len() == 0)
    &&& forall|k: int| 0 <= k < st.0.len() ==> (#[trigger] st.0[k]).len() > 0
    &&& (ws.len() == 0 <==> (st.0.len() == 0 && st.2 == 0))
    &&& join_spaced(if st.2 > 0 { st.0.push(st.1) } else { st.0 }) == join_spaced(ws)
}

proof fn lemma_wrap_words_holds(ws: Seq<Seq<char>>, width: int)
    requires
        width >= 1,
        forall|k: int| 0 <= k < ws.len() ==> 1 <= str_width(#[trigger] ws[k]) <= width,
        forall|k: int| 0 <= k < ws.len() ==> (#[trigger] ws[k]).len() > 0,
    ensures
        holds_words(wrap_words(ws, width), ws, width),
    decreases ws.len(),
{
    if ws.len() > 0 {
        let p = ws.drop_last();
        assert forall|k: int| 0 <= k < p.len() implies 1 <= str_width(#[trigger] p[k]) <= width by {
            assert(p[k] == ws[k]);
        }
        assert forall|k: int| 0 <= k < p.len() implies (#[trigger] p[k]).len() > 0 by {
            assert(p[k] == ws[k]);
        }
        lemma_wrap_words_holds(p, width);
        let st = wrap_words(p, width);
        let w = ws.last();
        assert(1 <= str_width(ws[ws.len() - 1]) <= width);
        assert(ws[ws.len() - 1].len() > 0);
        let ww = str_width(w) as int;
        let r = step_word(st, w, width);
        assert(r == wrap_words(ws, width));
        assert(join_spaced(ws) == if p.len() == 0 { w } else { join_spaced(p) + seq![' '] + w }) by {
            if p.len() == 0 {
                assert(ws =~= seq![w]);
            } else {
                assert(ws.drop_last() == p);
            }
        }
        let (l, cur, n) = st;
        if n == 0 {
            assert(cur =~= Seq::<char>::empty());
            assert(r == (l, cur + w, ww));
            assert(cur + w =~= w);
            assert(l.push(w).drop_last() =~= l);
            assert(join_spaced(l) == join_spaced(p));
            if l.len() == 0 {
                assert(join_spaced(l.push(w)) == w);
            } else {
                assert(join_spaced(l.push(w)) == join_spaced(l) + seq![' '] + w);
            }
            assert(join_spaced(r.0.push(r.1)) == join_spaced(ws));
            assert(holds_words(r, ws, width));
        } else if n + 1 + ww > width {
            let l2 = l.push(cur);
            assert(r == (l2, Seq::<char>::empty() + w, ww));
            assert(Seq::<char>::empty() + w =~= w);
            assert(l2.push(w).drop_last() =~= l2);
            assert(l.push(cur).drop_last() =~= l);
            assert forall|k: int| 0 <= k < l2.len() implies (#[trigger] l2[k]).len() > 0 by {
                if k < l.len() {
                    assert(l2[k] == l[k]);
                }
            }
            assert(join_spaced(l2.push(w)) == join_spaced(l2) + seq![' '] + w);
            assert(join_spaced(l2) == join_spaced(p));
            assert(holds_words(r, ws, width));
        } else {
            let c2 = cur.push(' ') + w;
            assert(r == (l, c2, n + 1 + ww));
            assert(l.push(c2).drop_last() =~= l);
            assert(l.push(cur).drop_last() =~= l);
            if l.len() == 0 {
                assert(join_spaced(l.push(c2)) == c2);
                assert(join_spaced(l.push(cur)) == cur);
                assert(c2 =~= cur + seq![' '] + w);
            } else {
                assert(join_spaced(l.push(c2)) == join_spaced(l) + seq![' '] + c2);
                assert(join_spaced(l.push(cur)) == join_spaced(l) + seq![' '] + cur);
                assert(join_spaced(l) + seq![' '] + c2 =~= join_spaced(l) + seq![' '] + cur + seq![' '] + w);
            }
            assert(join_spaced(l.push(cur)) == join_spaced(p));
            assert(c2.len() > 0);
            assert(holds_words(r, ws, width));
        }
    } else {
        assert(join_spaced(Seq::<Seq<char>>::empty()) =~= Seq::<char>::empty());
    }
}

/// When every word of a title is between one column and the line width
/// wide, wrapping only breaks between words: the lines joined with single
/// spaces are the title's words joined with single spaces, and no line is
/// empty unless the title has no words at all (then the one line is empty).
pub proof fn law_wrap_keeps_the_words(text: Seq<char>, width: u16)
    requires
        forall|k: int|
            0 <= k < words(text).len() ==> 1 <= str_width(#[trigger] words(text)[k]) <= (if width < 1 {
                1
            } else {
                width as int
            }),
    ensures
        join_spaced(wrap_title_spec(text, width)) == join_spaced(words(text)),
        words(text).len() > 0 ==> forall|k: int|
            0 <= k < wrap_title_spec(text, width).len() ==> (#[trigger] wrap_title_spec(text, width)[k]).len() > 0,
        words(text).len() == 0 ==> wrap_title_spec(text, width) == seq![Seq::<char>::empty()],
{
    let w: int = if width < 1 { 1 } else { width as int };
    lemma_words_nonempty(text);
    lemma_wrap_words_holds(words(text), w);
    let st = wrap_words(words(text), w);
    if st.2 > 0 {
        assert(wrap_title_spec(text, width) == st.0.push(st.1));
        let r = st.0.push(st.1);
        assert forall|k: int| 0 <= k < r.len() implies (#[trigger] r[k]).len() > 0 by {
            if k < st.0.len() {
                assert(r[k] == st.0[k]);
            }
        }
    } else if st.0.len() == 0 {
        assert(st.1 =~= Seq::<char>::empty());
        assert(wrap_title_spec(text, width) == seq![st.1]);
        assert(join_spaced(seq![st.1]) == st.1);
        assert(join_spaced(words(text)) =~= Seq::<char>::empty());
    } else {
        assert(wrap_title_spec(text, width) == st.0);
    }
}

/// The columns wrapping counts for one character (none for a control).
pub open spec fn char_cols(c: char) -> int {
    match char_width(c) {
        Some(x) => x as int,
        None => 0,
    }
}

/// A wrapping state that also records, for each finished line, the width
/// the wrapping measured for it.
pub type MeasuredState = (Seq<Seq<char>>, Seq<char>, int, Seq<int>);

/// The plain wrapping state of a measured one.
pub open spec fn unmeasured(st: MeasuredState) -> (Seq<Seq<char>>, Seq<char>, int) {
    (st.0, st.1, st.2)
}

/// `flush_line`, recording the finished line's width.
pub open spec fn flush_measured(st: MeasuredState) -> MeasuredState {
    (st.0.push(st.1), seq![], 0, st.3.push(st.2))
}

/// `step_char`, recording widths.
pub open spec fn step_char_measured(st: MeasuredState, ch: char, width: int) -> MeasuredState {
    let cw = char_cols(ch);
    let st1 = if st.2 + cw > width && st.2 > 0 {
        flush_measured(st)
    } else {
        st
    };
    (st1.0, st1.1.push(ch), st1.2 + cw, st1.3)
}

/// `wrap_chars`, recording widths.
pub open spec fn wrap_chars_measured(st: MeasuredState, cs: Seq<char>, width: int) -> MeasuredState
    decreases cs.len(),
{
    if cs.len() == 0 {
        st
    } else {
        step_char_measured(wrap_chars_measured(st, cs.drop_last(), width), cs.last(), width)
    }
}

/// `step_word`, recording widths.
pub open spec fn step_word_measured(st: MeasuredState, w: Seq<char>, width: int) -> MeasuredState {
    let ww = str_width(w) as int;
    if ww > width {
        wrap_chars_measured(
            if st.2 > 0 {
                flush_measured(st)
            } else {
                st
            },
            w,
            width,
        )
    } else {
        let sep: int = if st.2 > 0 {
            1
        } else {
            0
        };
        let st1 = if st.2 + sep + ww > width {
            flush_measured(st)
        } else {
            st
        };
        let st2 = if st1.2 > 0 {
            (st1.0, st1.1.push(' '), st1.2 + 1, st1.3)
        } else {
            st1
        };
        (st2.0, st2.1 + w, st2.2 + ww, st2.3)
    }
}

/// `wrap_words`, recording widths.
pub open spec fn wrap_words_measured(ws: Seq<Seq<char>>, width: int) -> MeasuredState
    decreases ws.len(),
{
    if ws.len() == 0 {
        (seq![], seq![], 0, seq![])
    } else {
        step_word_measured(wrap_words_measured(ws.drop_last(), width), ws.last(), width)
    }
}

/// The measured width of each line of `wrap_title_spec(text, width)`.
pub open spec fn line_widths(text: Seq<char>, width: u16) -> Seq<int> {
    let w: int = if width < 1 {
        1
    } else {
        width as int
    };
    let st = wrap_words_measured(words(text), w);
    if st.2 > 0 || st.0.len() == 0 {
        st.3.push(st.2)
    } else {
        st.3
    }
}

/// A line fits: it measures at most `width`, or its measure is that of its
/// last character alone (a character wider than the whole line).
pub open spec fn fits_or_lone(line: Seq<char>, n: int, width: int) -> bool {
    n <= width || (line.len() > 0 && n == char_cols(line.last()))
}

/// Every finished line fits, and so does the current one.
pub open spec fn measured_fit(st: MeasuredState, width: int) -> bool {
    &&& st.3.len() == st.0.len()
    &&& forall|k: int| 0 <= k < st.0.len() ==> fits_or_lone(#[trigger] st.0[k], st.3[k], width)
    &&& st.2 >= 0
    &&& fits_or_lone(st.1, st.2, width)
}

proof fn lemma_flush_fit(st: MeasuredState, width: int)
    requires
        width >= 1,
        measured_fit(st, width),
    ensures
        measured_fit(flush_measured(st), width),
        unmeasured(flush_measured(st)) == flush_line(unmeasured(st)),
{
    let f = flush_measured(st);
    assert forall|k: int| 0 <= k < f.0.len() implies fits_or_lone(#[trigger] f.0[k], f.3[k], width) by {
        if k < st.0.len() {
            assert(f.0[k] == st.0[k]);
            assert(f.3[k] == st.3[k]);
        } else {
            assert(f.0[k] == st.1);
            assert(f.3[k] == st.2);
        }
    }
}

proof fn lemma_step_char_fit(st: MeasuredState, ch: char, width: int)
    requires
        width >= 1,
        measured_fit(st, width),
    ensures
        measured_fit(step_char_measured(st, ch, width), width),
        unmeasured(step_char_measured(st, ch, width)) == step_char(unmeasured(st), ch, width),
{
    let cw = char_cols(ch);
    assert(cw == match char_width(ch) {
        Some(x) => x as int,
        None => 0,
    });
    if st.2 + cw > width && st.2 > 0 {
        lemma_flush_fit(st, width);
    }
    let r = step_char_measured(st, ch, width);
    assert(r.1.last() == ch);
}

proof fn lemma_wrap_chars_fit(st: MeasuredState, cs: Seq<char>, width: int)
    requires
        width >= 1,
        measured_fit(st, width),
    ensures
        measured_fit(wrap_chars_measured(st, cs, width), width),
        unmeasured(wrap_chars_measured(st, cs, width)) == wrap_chars(unmeasured(st), cs, width),
    decreases cs.len(),
{
    if cs.len() > 0 {
        lemma_wrap_chars_fit(st, cs.drop_last(), width);
        lemma_step_char_fit(wrap_chars_measured(st, cs.drop_last(), width), cs.last(), width);
    }
}

proof fn lemma_step_word_fit(st: MeasuredState, w: Seq<char>, width: int)
    requires
        width >= 1,
        measured_fit(st, width),
    ensures
        measured_fit(step_word_measured(st, w, width), width),
        unmeasured(step_word_measured(st, w, width)) == step_word(unmeasured(st), w, width),
{
    let ww = str_width(w) as int;
    if ww > width {
        if st.2 > 0 {
            lemma_flush_fit(st, width);
            lemma_wrap_chars_fit(flush_measured(st), w, width);
        } else {
            lemma_wrap_chars_fit(st, w, width);
        }
    } else {
        let sep: int = if st.2 > 0 { 1 } else { 0 };
        if st.2 + sep + ww > width {
            lemma_flush_fit(st, width);
        }
    }
}

proof fn lemma_wrap_words_fit(ws: Seq<Seq<char>>, width: int)
    requires
        width >= 1,
    ensures
        measured_fit(wrap_words_measured(ws, width), width),
        unmeasured(wrap_words_measured(ws, width)) == wrap_words(ws, width),
    decreases ws.len(),
{
    if ws.len() > 0 {
        lemma_wrap_words_fit(ws.drop_last(), width);
        lemma_step_word_fit(wrap_words_measured(ws.drop_last(), width), ws.last(), width);
    }
}

/// No wrapped line overflows: each line of a wrapped title measures (as
/// the wrapping itself counts columns: word widths, one per space, and
/// character widths inside a broken word) at most the line width, taken as
/// 1 when it is 0; the one exception is a line whose measure is that of its
/// last character alone, a character wider than the whole line.
pub proof fn law_wrap_lines_fit(text: Seq<char>, width: u16)
    ensures
        line_widths(text, width).len() == wrap_title_spec(text, width).len(),
        forall|k: int|
            0 <= k < wrap_title_spec(text, width).len() ==> fits_or_lone(
                #[trigger] wrap_title_spec(text, width)[k],
                line_widths(text, width)[k],
                if width < 1 {
                    1
                } else {
                    width as int
                },
            ),
{
    let w: int = if width < 1 { 1 } else { width as int };
    lemma_wrap_words_fit(words(text), w);
    let st = wrap_words_measured(words(text), w);
    let lines = wrap_title_spec(text, width);
    let ns = line_widths(text, width);
    if st.2 > 0 || st.0.len() == 0 {
        assert(lines == st.0.push(st.1));
        assert(ns == st.3.push(st.2));
        assert forall|k: int| 0 <= k < lines.len() implies fits_or_lone(#[trigger] lines[k], ns[k], w) by {
            if k < st.0.len() {
                assert(lines[k] == st.0[k]);
                assert(ns[k] == st.3[k]);
            } else {
                assert(lines[k] == st.1);
                assert(ns[k] == st.2);
            }
        }
    } else {
        assert(lines == st.0);
        assert(ns == st.3);
    }
}

/// Marking the selected article read moves the cursor to the article that
/// took its place in the source's oldest-first list: the one at the marked
/// article's old index, or the new last one when the marked article was
/// last. `b` is the state `begin_mark_read` leaves, as its contract
/// describes it, for a marked article at index `h` of its source's list.
pub proof fn law_mark_read_selects_the_next_article(a: App, b: App, i: int, h: int)
    requires
        a.mark_read_target() == Some(i),
        a.article_index_spec() == Some(h),
        b == (App {
            entries: b.entries,
            total_unread: sat_sub(a.total_unread, 1),
            ..a
        }).reselect_after_removal_spec(a.entries@[i].feed_id, h),
        b.art_view(a.entries@[i].feed_id).len() > 0,
    ensures
        ({
            let f = a.entries@[i].feed_id;
            let rest = b.art_view(f);
            &&& b.selected_source == Some(f)
            &&& 0 <= h < rest.len() ==> b.selected_article == Some(rest[h])
            &&& h >= rest.len() ==> b.selected_article == Some(rest[rest.len() - 1])
            &&& b.focus == a.focus
            &&& b.reader_scroll == 0
        }),
{
    crate::tui::lemma_index_of_bounds(a.art_view(a.selected_source->0), a.selected_article->0);
}

/// The tags rendered as line breaks are exactly `p`, `br`, `div`, `li`,
/// `tr`, `ul`, `ol`, `h1`–`h6`, `blockquote`, `section`, `article`,
/// `header`, `footer`, `hr`, `pre` and `table`.
pub proof fn law_block_tag_names(n: Seq<char>)
    ensures
        crate::html::is_block_name(n) <==> set![
            "p"@, "br"@, "div"@, "li"@, "tr"@, "ul"@, "ol"@, "h1"@, "h2"@, "h3"@, "h4"@, "h5"@, "h6"@,
            "blockquote"@, "section"@, "article"@, "header"@, "footer"@, "hr"@, "pre"@, "table"@
        ].contains(n),
{
}

/// When an entry has content, the reader shows that content: replacing the
/// summary changes nothing in the reader. Without content, the summary is
/// shown as if it were the content.
pub proof fn law_reader_prefers_content(
    e: crate::feedbin::Entry,
    other: Option<String>,
    date: Option<Seq<char>>,
)
    ensures
        e.content is Some ==> crate::reader::reader_lines_spec(e, date) == crate::reader::reader_lines_spec(
            crate::feedbin::Entry { summary: other, ..e },
            date,
        ),
        e.content is None && e.summary is Some ==> crate::reader::reader_lines_spec(e, date)
            == crate::reader::reader_lines_spec(
            crate::feedbin::Entry { content: e.summary, summary: other, ..e },
            date,
        ),
{
}

/// Every `&` of `s` begins one of the five XML entities.
pub open spec fn amps_begin_entities(s: Seq<char>) -> bool {
    forall|i: int| 0 <= i < s.len() && #[trigger] s[i] == '&' ==> entity_prefix(s.skip(i)) is Some
}

proof fn lemma_entity_prefix_extends(x: Seq<char>, y: Seq<char>)
    requires
        entity_prefix(x) is Some,
    ensures
        entity_prefix(x + y) == entity_prefix(x),
{
    let z = x + y;
    assert forall|j: int| 0 <= j < x.len() implies z[j] == x[j] by {}
    if x.len() >= 6 {
        assert(z[0] == x[0] && z[1] == x[1] && z[2] == x[2] && z[3] == x[3] && z[4] == x[4] && z[5] == x[5]);
    } else if x.len() >= 5 {
        assert(z[0] == x[0] && z[1] == x[1] && z[2] == x[2] && z[3] == x[3] && z[4] == x[4]);
    } else {
        assert(z[0] == x[0] && z[1] == x[1] && z[2] == x[2] && z[3] == x[3]);
    }
}

proof fn lemma_amps_concat(a: Seq<char>, b: Seq<char>)
    requires
        amps_begin_entities(a),
        amps_begin_entities(b),
    ensures
        amps_begin_entities(a + b),
{
    let c = a + b;
    assert forall|i: int| 0 <= i < c.len() && #[trigger] c[i] == '&' implies entity_prefix(c.skip(i)) is Some by {
        if i < a.len() {
            assert(a[i] == '&');
            assert(c.skip(i) =~= a.skip(i) + b);
            lemma_entity_prefix_extends(a.skip(i), b);
        } else {
            assert(b[i - a.len()] == '&');
            assert(c.skip(i) =~= b.skip(i - a.len()));
        }
    }
}

proof fn lemma_no_amp(s: Seq<char>)
    requires
        forall|i: int| 0 <= i < s.len() ==> s[i] != '&',
    ensures
        amps_begin_entities(s),
{
}

proof fn lemma_escaped_amps(s: Seq<char>)
    ensures
        amps_begin_entities(xml_escape_spec(s)),
{
    law_escape_ampersands_begin_entities(s);
}

/// An outline line is well-formed XML as far as entities go: every `&` in
/// it begins an entity, whatever the feed's fields hold. And each field
/// appears escaped as its attribute's value: the site URL `h`, when there
/// is one, as ` htmlUrl="` + `xml_escape(h)` + `"`.
pub proof fn law_outline_attributes_are_escaped(f: crate::opml::OpmlFeed)
    ensures
        amps_begin_entities(crate::opml::outline_spec(f)),
        f.html_url matches Some(h) ==> exists|p: Seq<char>, q: Seq<char>|
            crate::opml::outline_spec(f) == p + " htmlUrl=\""@ + #[trigger] xml_escape_spec(h@) + "\""@ + q,
        exists|p: Seq<char>, q: Seq<char>|
            crate::opml::outline_spec(f) == p + " xmlUrl=\""@ + #[trigger] xml_escape_spec(f.xml_url@) + "\""@ + q,
        exists|p: Seq<char>, q: Seq<char>|
            crate::opml::outline_spec(f) == p + " text=\""@ + #[trigger] xml_escape_spec(f.text@) + "\""@ + q,
{
    let l1 = "    <outline type=\"rss\" text=\""@;
    let l2 = "\" xmlUrl=\""@;
    let l3 = "\""@;
    let l4 = " htmlUrl=\""@;
    let l5 = "/>\n"@;
    reveal_strlit("    <outline type=\"rss\" text=\"");
    reveal_strlit("\" xmlUrl=\"");
    reveal_strlit("\"");
    reveal_strlit(" htmlUrl=\"");
    reveal_strlit("/>\n");
    reveal_strlit(" xmlUrl=\"");
    lemma_no_amp(l1);
    lemma_no_amp(l2);
    lemma_no_amp(l3);
    lemma_no_amp(l4);
    lemma_no_amp(l5);
    let et = xml_escape_spec(f.text@);
    let ex = xml_escape_spec(f.xml_url@);
    lemma_escaped_amps(f.text@);
    lemma_escaped_amps(f.xml_url@);
    let tail: Seq<char> = match f.html_url {
        Some(h) => l4 + xml_escape_spec(h@) + l3,
        None => seq![],
    };
    match f.html_url {
        Some(h) => {
            lemma_escaped_amps(h@);
            lemma_amps_concat(l4, xml_escape_spec(h@));
            lemma_amps_concat(l4 + xml_escape_spec(h@), l3);
        },
        None => {
            lemma_no_amp(tail);
        },
    }
    lemma_amps_concat(l1, et);
    lemma_amps_concat(l1 + et, l2);
    lemma_amps_concat(l1 + et + l2, ex);
    lemma_amps_concat(l1 + et + l2 + ex, l3);
    lemma_amps_concat(l1 + et + l2 + ex + l3, tail);
    lemma_amps_concat(l1 + et + l2 + ex + l3 + tail, l5);
    assert(crate::opml::outline_spec(f) == l1 + et + l2 + ex + l3 + tail + l5);
    match f.html_url {
        Some(h) => {
            let p = l1 + et + l2 + ex + l3;
            assert(crate::opml::outline_spec(f) =~= p + l4 + xml_escape_spec(h@) + l3 + l5);
        },
        None => {},
    }
    let p2 = l1 + et + "\""@;
    assert(l2 =~= "\""@ + " xmlUrl=\""@);
    assert(crate::opml::outline_spec(f) =~= p2 + " xmlUrl=\""@ + ex + l3 + (tail + l5));
    reveal_strlit("    <outline type=\"rss\"");
    reveal_strlit(" text=\"");
    let p3 = "    <outline type=\"rss\""@;
    assert(l1 =~= p3 + " text=\""@);
    assert(crate::opml::outline_spec(f) =~= p3 + " text=\""@ + et + "\""@ + (" xmlUrl=\""@ + ex + l3 + tail + l5));
}

/// A bare number of seconds is shown on a clock: `H:MM:SS` from an hour
/// up, else `M:SS`, with the hours, minutes and seconds adding up to the
/// number and the minutes and seconds below 60.
pub proof fn law_duration_is_a_clock(raw: Seq<char>, n: u64)
    requires
        crate::decimal::parse_u64_spec(raw) == Some(n),
    ensures
        n >= 3600 ==> exists|h: nat, m: nat, s: nat|
            #![trigger crate::decimal::dec(h), crate::decimal::dec_pad2(m), crate::decimal::dec_pad2(s)]
            h * 3600 + m * 60 + s == n && m < 60 && s < 60 && crate::reader::format_duration_spec(raw)
                == crate::decimal::dec(h) + ":"@ + crate::decimal::dec_pad2(m) + ":"@
                + crate::decimal::dec_pad2(s),
        n < 3600 ==> exists|m: nat, s: nat|
            #![trigger crate::decimal::dec(m), crate::decimal::dec_pad2(s)]
            m * 60 + s == n && s < 60 && crate::reader::format_duration_spec(raw) == crate::decimal::dec(
                m,
            ) + ":"@ + crate::decimal::dec_pad2(s),
{
    let x = n as nat;
    let h = x / 3600;
    let m = (x % 3600) / 60;
    let s = x % 60;
    assert(h * 3600 + m * 60 + s == x && m < 60 && s < 60) by (nonlinear_arith)
        requires
            h == x / 3600,
            m == (x % 3600) / 60,
            s == x % 60,
    {
        assert(x == h * 3600 + x % 3600);
        assert(x % 3600 == m * 60 + (x % 3600) % 60);
        assert((x % 3600) % 60 == x % 60);
    }
    if n >= 3600 {
        assert(h > 0) by (nonlinear_arith)
            requires
                h == x / 3600,
                x >= 3600,
        ;
        assert(crate::reader::format_duration_spec(raw) == crate::decimal::dec(h) + ":"@ + crate::decimal::dec_pad2(m)
            + ":"@ + crate::decimal::dec_pad2(s));
    } else {
        assert(h == 0) by (nonlinear_arith)
            requires
                h == x / 3600,
                x < 3600,
        ;
        assert(crate::reader::format_duration_spec(raw) == crate::decimal::dec(m) + ":"@ + crate::decimal::dec_pad2(s));
    }
}

} // verus!
