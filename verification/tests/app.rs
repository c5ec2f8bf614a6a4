use std::collections::HashMap;
use std::time::Duration;

use roses::reader::should_auto_refresh;
use roses::feedbin::{Enclosure, Entry, EntryImages, ImageSize, JsonFeed};
use roses::tui::{image_state_of, plan_window, sort_newest_first_exec, Action, App, Focus, ImageState, Key, Loaded, Msg, Status, WriteOp, READER_PAGE, READER_SCROLL_STEP};

fn entry(id: i64, feed_id: i64, title: &str, content: Option<&str>) -> Entry {
    Entry {
        id,
        feed_id,
        title: Some(title.to_string()),
        url: Some(format!("https://example.com/{id}")),
        author: None,
        published: Some("2026-06-29T00:00:00.000000Z".to_string()),
        summary: Some("summary".to_string()),
        content: content.map(str::to_string),
        images: None,
        enclosure: None,
        json_feed: None,
    }
}

fn app_with(feeds: &[(i64, &str, usize)]) -> App {
    let mut feed_titles = HashMap::new();
    let mut entries = Vec::new();
    let mut next_id = 100;
    for &(feed_id, name, count) in feeds {
        feed_titles.insert(feed_id, name.to_string());
        for j in 0..count {
            entries.push(entry(next_id, feed_id, &format!("{name} #{j}"), Some("<p>Body</p>")));
            next_id += 1;
        }
    }
    let total_unread = entries.len();
    let mut app = App::new();
    app.apply(Msg::Loaded(Ok(Loaded { entries, feed_titles, total_unread, pending_ids: Vec::new() })));
    app
}

fn load(app: &mut App, entries: Vec<Entry>, feed_titles: HashMap<i64, String>, total_unread: usize) {
    app.apply(Msg::Loaded(Ok(Loaded { entries, feed_titles, total_unread, pending_ids: Vec::new() })));
}

#[test]
fn sources_group_and_count_ordered_by_name() {
    let app = app_with(&[(7, "Rust Blog", 2), (9, "Hacker News", 3)]);
    assert_eq!(app.sources(), vec![(9, 3), (7, 2)]);
}

#[test]
fn articles_show_oldest_first() {
    let mut feed_titles = HashMap::new();
    feed_titles.insert(9, "Feed".to_string());
    let mk = |id: i64, published: &str| Entry {
        id,
        feed_id: 9,
        title: Some(format!("a{id}")),
        url: None,
        author: None,
        published: Some(published.to_string()),
        summary: None,
        content: None,
        images: None,
        enclosure: None,
        json_feed: None,
    };
    let entries = vec![mk(3, "2026-03-01T00:00:00Z"), mk(2, "2026-02-01T00:00:00Z"), mk(1, "2026-01-01T00:00:00Z")];
    let mut app = App::new();
    load(&mut app, entries, feed_titles, 3);
    assert_eq!(app.article_ids(9), vec![1, 2, 3]);
    assert_eq!(app.selected_article, Some(1));
}

#[test]
fn load_focuses_first_source_and_its_first_article() {
    let app = app_with(&[(7, "Rust Blog", 2), (9, "Hacker News", 3)]);
    assert!(matches!(app.focus, Focus::Sources));
    assert_eq!(app.selected_source, Some(9));
    assert_eq!(app.selected_article, app.article_ids(9).first().copied());
}

#[test]
fn down_in_sources_changes_source_and_resets_article() {
    let mut app = app_with(&[(7, "Rust Blog", 2), (9, "Hacker News", 3)]);
    app.move_cursor(1);
    assert_eq!(app.selected_source, Some(7));
    assert_eq!(app.selected_article, app.article_ids(7).first().copied());
    app.move_cursor(1);
    assert_eq!(app.selected_source, Some(7));
}

#[test]
fn right_and_left_move_focus_across_columns() {
    let mut app = app_with(&[(9, "Hacker News", 3)]);
    assert!(matches!(app.focus, Focus::Sources));
    app.focus_right();
    assert!(matches!(app.focus, Focus::Articles));
    app.focus_right();
    assert!(matches!(app.focus, Focus::Reader));
    app.focus_right();
    assert!(matches!(app.focus, Focus::Reader));
    app.focus_left();
    assert!(matches!(app.focus, Focus::Articles));
    app.focus_left();
    assert!(matches!(app.focus, Focus::Sources));
    app.focus_left();
    assert!(matches!(app.focus, Focus::Sources));
}

#[test]
fn focus_changes_preserve_each_columns_cursor() {
    let mut app = app_with(&[(9, "Hacker News", 3)]);
    app.focus_right();
    app.move_cursor(1);
    let ids = app.article_ids(9);
    assert_eq!(app.selected_article, Some(ids[1]));
    app.focus_left();
    assert!(matches!(app.focus, Focus::Sources));
    app.focus_right();
    assert_eq!(app.selected_article, Some(ids[1]), "article cursor preserved");
}

#[test]
fn down_in_articles_moves_within_the_source() {
    let mut app = app_with(&[(9, "Hacker News", 3)]);
    app.focus_right();
    let ids = app.article_ids(9);
    assert_eq!(app.selected_article, Some(ids[0]));
    app.move_cursor(1);
    assert_eq!(app.selected_article, Some(ids[1]));
}

#[test]
fn arrows_scroll_the_reader_when_focused() {
    let mut app = app_with(&[(9, "Hacker News", 1)]);
    app.focus_right();
    app.focus_right();
    assert_eq!(app.reader_scroll, 0);
    app.move_cursor(1);
    assert_eq!(app.reader_scroll, READER_SCROLL_STEP);
    app.move_cursor(-1);
    assert_eq!(app.reader_scroll, 0);
}

#[test]
fn mark_read_in_sources_focus_is_a_noop() {
    let mut app = app_with(&[(9, "Hacker News", 2)]);
    assert!(app.begin_mark_read().is_none(), "no article target in sources focus");
}

#[test]
fn mark_read_success_then_undo_round_trips() {
    let mut app = app_with(&[(9, "Hacker News", 2)]);
    app.focus_right();
    let batch = app.begin_mark_read().expect("an article is selected");
    assert_eq!(batch.len(), 1, "single mark is a one-element batch");
    assert_eq!(app.article_ids(9).len(), 1);
    assert_eq!(app.total_unread, 1);
    app.apply(Msg::Write { op: WriteOp::MarkRead, batch, result: Ok(()) });
    assert_eq!(app.undo_stack.len(), 1);

    let batch = app.begin_undo().expect("something to undo");
    assert_eq!(app.article_ids(9).len(), 2);
    assert_eq!(app.total_unread, 2);
    app.apply(Msg::Write { op: WriteOp::Undo, batch, result: Ok(()) });
    assert_eq!(app.article_ids(9).len(), 2);
}

#[test]
fn mark_read_failure_rolls_back() {
    let mut app = app_with(&[(9, "Hacker News", 2)]);
    app.focus_right();
    let batch = app.begin_mark_read().unwrap();
    assert_eq!(app.article_ids(9).len(), 1);
    app.apply(Msg::Write { op: WriteOp::MarkRead, batch, result: Err("boom".to_string()) });
    assert_eq!(app.article_ids(9).len(), 2, "rolled back");
    assert_eq!(app.total_unread, 2);
    assert!(app.notice.is_some());
}

#[test]
fn emptying_a_source_drops_focus_back_to_sources() {
    let mut app = app_with(&[(7, "Rust Blog", 1), (9, "Hacker News", 1)]);
    app.focus_right();
    let _ = app.begin_mark_read().unwrap();
    assert_eq!(app.sources(), vec![(7, 1)], "Hacker News is gone");
    assert!(matches!(app.focus, Focus::Sources));
    assert_eq!(app.selected_source, Some(7));
}

#[test]
fn mark_source_read_batches_every_loaded_article_in_the_source() {
    let mut app = app_with(&[(9, "Hacker News", 3), (7, "Rust Blog", 2)]);
    assert_eq!(app.selected_source, Some(9));
    let want: Vec<i64> = app.article_ids(9);
    let batch = app.begin_mark_source_read().expect("a source is selected");
    let got: Vec<i64> = batch.iter().map(|(e, _)| e.id).collect();
    let mut got_sorted = got.clone();
    let mut want_sorted = want.clone();
    got_sorted.sort_unstable();
    want_sorted.sort_unstable();
    assert_eq!(got_sorted, want_sorted, "one batched write covers the source");
    assert!(app.articles(9).is_empty(), "source cleared optimistically");
    assert_eq!(app.sources(), vec![(7, 2)], "only Rust Blog remains");
    assert_eq!(app.total_unread, 2, "3 of 5 removed");
    assert!(matches!(app.focus, Focus::Sources));
}

#[test]
fn mark_source_read_works_from_sources_focus() {
    let mut app = app_with(&[(9, "Hacker News", 2)]);
    assert!(matches!(app.focus, Focus::Sources));
    let batch = app.begin_mark_source_read().expect("source selected");
    assert_eq!(batch.len(), 2);
}

#[test]
fn mark_source_read_undo_restores_the_whole_source_in_order() {
    let mut app = app_with(&[(9, "Hacker News", 3)]);
    let before = app.article_ids(9);
    let batch = app.begin_mark_source_read().unwrap();
    app.apply(Msg::Write { op: WriteOp::MarkRead, batch, result: Ok(()) });
    assert_eq!(app.undo_stack.len(), 1, "one undo entry for the batch");
    assert!(app.articles(9).is_empty());

    let batch = app.begin_undo().expect("the batch is undoable");
    assert_eq!(batch.len(), 3, "undo restores the whole batch at once");
    assert_eq!(app.article_ids(9), before, "order preserved after undo");
    assert_eq!(app.total_unread, 3);
}

#[test]
fn mark_source_read_failure_rolls_back_the_batch() {
    let mut app = app_with(&[(9, "Hacker News", 3), (7, "Rust Blog", 1)]);
    let before = app.article_ids(9);
    let batch = app.begin_mark_source_read().unwrap();
    assert!(app.articles(9).is_empty());
    app.apply(Msg::Write { op: WriteOp::MarkRead, batch, result: Err("boom".to_string()) });
    assert_eq!(app.article_ids(9), before, "whole batch rolled back in order");
    assert_eq!(app.total_unread, 4);
    assert!(app.notice.is_some());
}

#[test]
fn mark_window_read_clears_loaded_only_and_keeps_pending() {
    let mut app = app_with(&[(9, "Hacker News", 2)]);
    app.pending_ids = vec![200, 201];
    app.total_unread = 4;
    let batch = app.begin_mark_window_read().expect("the window has entries");
    assert_eq!(batch.len(), 2, "only the loaded window is marked");
    assert!(app.entries.is_empty(), "window cleared");
    assert_eq!(app.total_unread, 2, "the pending ids stay unread");
    assert_eq!(app.pending_ids, vec![200, 201], "pending ids untouched");
    assert_eq!(app.selected_source, None, "nothing selected once empty");

    app.apply(Msg::Write { op: WriteOp::MarkRead, batch, result: Ok(()) });
    let batch = app.begin_undo().expect("the window is undoable");
    assert_eq!(batch.len(), 2);
    assert_eq!(app.entries.len(), 2, "window restored");
    assert_eq!(app.total_unread, 4);
}

#[test]
fn mark_window_read_is_gated_by_a_confirmation() {
    let mut app = app_with(&[(9, "Hacker News", 2)]);
    assert!(matches!(app.handle_key(Key::Char('A')), Action::Nothing));
    assert!(app.pending_confirm.is_some(), "confirmation armed");
    assert!(app.confirm_prompt().is_some_and(|p| p.contains('2')), "prompt names the loaded count");
    assert!(matches!(app.handle_key(Key::Char('y')), Action::MarkWindowRead));
    assert!(app.pending_confirm.is_none(), "confirmation consumed");
}

#[test]
fn mark_window_confirmation_cancels_on_anything_but_yes() {
    let mut app = app_with(&[(9, "Hacker News", 2)]);
    let _ = app.handle_key(Key::Char('A'));
    assert!(app.pending_confirm.is_some());
    assert!(matches!(app.handle_key(Key::Char('n')), Action::Nothing));
    assert!(app.pending_confirm.is_none(), "cancelled");
    assert_eq!(app.entries.len(), 2, "nothing was marked");
}

#[test]
fn mark_window_read_needs_something_loaded_to_confirm() {
    let mut app = App::new();
    load(&mut app, vec![], HashMap::new(), 0);
    assert!(matches!(app.handle_key(Key::Char('A')), Action::Nothing));
    assert!(app.pending_confirm.is_none());
}

#[test]
fn help_overlay_toggles_with_question_mark_and_any_key_closes() {
    let mut app = app_with(&[(9, "Hacker News", 2)]);
    let (src, art, focus) = (app.selected_source, app.selected_article, app.focus);
    assert!(!app.show_help);
    assert!(matches!(app.handle_key(Key::Char('?')), Action::Nothing));
    assert!(app.show_help, "help opened");
    assert!(matches!(app.handle_key(Key::Char('j')), Action::Nothing));
    assert!(!app.show_help, "help closed by any key");
    assert_eq!(app.selected_source, src);
    assert_eq!(app.selected_article, art);
    assert!(app.focus == focus, "focus unchanged");
}

#[test]
fn help_overlay_esc_and_q_close_without_quitting() {
    let mut app = app_with(&[(9, "Hacker News", 1)]);
    let _ = app.handle_key(Key::Char('?'));
    let _ = app.handle_key(Key::Esc);
    assert!(!app.show_help, "Esc closes the overlay");
    assert!(!app.should_quit, "Esc closes help rather than quitting");
    let _ = app.handle_key(Key::Char('?'));
    let _ = app.handle_key(Key::Char('q'));
    assert!(!app.show_help, "q closes the overlay");
    assert!(!app.should_quit, "q closes help rather than quitting");
}

#[test]
fn help_overlay_does_not_disturb_selection_or_loading() {
    let mut app = app_with(&[(9, "Hacker News", 2)]);
    app.focus_right();
    let sel = app.selected_article;
    let _ = app.handle_key(Key::Char('?'));
    let entries = app.entries.clone();
    let titles = app.feed_titles.clone();
    load(&mut app, entries, titles, 2);
    assert!(app.show_help, "still open across a background load");
    assert_eq!(app.selected_article, sel, "selection preserved");
}

#[test]
fn auto_refresh_predicate_gates_on_interval_and_in_flight() {
    let ms = |d: Duration| d.as_millis() as u64;
    assert!(!should_auto_refresh(None, ms(Duration::from_secs(3600)), false));
    let interval = Some(ms(Duration::from_secs(60)));
    assert!(!should_auto_refresh(interval, ms(Duration::from_secs(30)), false));
    assert!(should_auto_refresh(interval, ms(Duration::from_secs(60)), false));
    assert!(should_auto_refresh(interval, ms(Duration::from_secs(120)), false));
    assert!(!should_auto_refresh(interval, ms(Duration::from_secs(120)), true));
}

#[test]
fn reload_preserves_selection_and_scroll_when_the_article_survives() {
    let mut app = app_with(&[(7, "Rust Blog", 3), (9, "Hacker News", 3)]);
    let ids = app.article_ids(7);
    app.selected_source = Some(7);
    app.selected_article = Some(ids[1]);
    app.focus = Focus::Reader;
    app.reader_scroll = 5;
    let entries = app.entries.clone();
    let titles = app.feed_titles.clone();
    let total = app.total_unread;
    load(&mut app, entries, titles, total);
    assert_eq!(app.selected_source, Some(7));
    assert_eq!(app.selected_article, Some(ids[1]), "selection kept by id");
    assert_eq!(app.reader_scroll, 5, "scroll kept mid-read");
    assert!(matches!(app.focus, Focus::Reader), "focus kept");
}

#[test]
fn reload_reselects_when_the_selected_article_vanished() {
    let mut app = app_with(&[(7, "Rust Blog", 3)]);
    let ids = app.article_ids(7);
    app.selected_source = Some(7);
    app.selected_article = Some(ids[1]);
    app.focus = Focus::Reader;
    app.reader_scroll = 4;
    let entries: Vec<Entry> = app.entries.iter().filter(|e| e.id != ids[1]).cloned().collect();
    let titles = app.feed_titles.clone();
    load(&mut app, entries, titles, 2);
    assert_eq!(app.selected_source, Some(7), "source kept");
    assert_ne!(app.selected_article, Some(ids[1]));
    assert_eq!(app.selected_article, app.article_ids(7).first().copied(), "falls back to the source's first article");
    assert_eq!(app.reader_scroll, 0, "reader reset when the article vanished");
}

#[test]
fn reload_preserves_undo_stack_but_prunes_readded_entries() {
    let mut app = app_with(&[(9, "Hacker News", 2)]);
    app.focus_right();
    let batch = app.begin_mark_read().unwrap();
    let entry = batch[0].0.clone();
    app.apply(Msg::Write { op: WriteOp::MarkRead, batch, result: Ok(()) });
    assert_eq!(app.undo_stack.len(), 1);
    let entries = app.entries.clone();
    let titles = app.feed_titles.clone();
    load(&mut app, entries, titles, 1);
    assert_eq!(app.undo_stack.len(), 1, "undo survived the refresh");
    let mut entries = app.entries.clone();
    entries.push(entry);
    let titles = app.feed_titles.clone();
    load(&mut app, entries, titles, 2);
    assert!(app.undo_stack.is_empty(), "undo pruned once the entry returned");
}

#[test]
fn load_more_hydrates_next_batch_and_preserves_selection() {
    let mut app = App::new();
    app.status = Status::Ready;
    app.entries = vec![entry(5, 7, "E5", None), entry(4, 7, "E4", None), entry(3, 7, "E3", None)];
    app.feed_titles.insert(7, "Feed".to_string());
    app.total_unread = 5;
    app.pending_ids = vec![2, 1];
    app.selected_source = Some(7);
    app.selected_article = Some(3);
    let batch = app.maybe_begin_load_more().expect("nearing the end starts a load");
    assert_eq!(batch, vec![2, 1], "drains the next pending ids in order");
    assert!(app.pending_ids.is_empty(), "pending drained while in flight");
    assert!(app.in_flight_more.is_some(), "guard set");
    app.apply(Msg::LoadedMore(Ok(vec![entry(2, 7, "E2", None), entry(1, 7, "E1", None)])));
    assert_eq!(app.entries.len(), 5, "batch appended");
    assert!(app.in_flight_more.is_none(), "guard cleared");
    assert_eq!(app.selected_article, Some(3), "selection preserved by id");
    assert_eq!(app.total_unread, 5, "load-more leaves the unread total alone");
}

#[test]
fn load_more_guards_and_stops_when_exhausted() {
    let mut app = App::new();
    app.status = Status::Ready;
    app.entries = vec![entry(1, 7, "E1", None)];
    app.total_unread = 1;
    app.selected_source = Some(7);
    app.selected_article = Some(1);
    app.pending_ids = vec![];
    assert!(app.maybe_begin_load_more().is_none(), "exhausted: no load");
    app.pending_ids = vec![9, 8];
    app.in_flight_more = Some(vec![10]);
    assert!(app.maybe_begin_load_more().is_none(), "in-flight guard holds");
}

#[test]
fn load_more_error_restores_the_batch_for_retry() {
    let mut app = App::new();
    app.status = Status::Ready;
    app.entries = vec![entry(3, 7, "E3", None)];
    app.total_unread = 3;
    app.pending_ids = vec![2, 1];
    app.selected_source = Some(7);
    app.selected_article = Some(3);
    let batch = app.maybe_begin_load_more().expect("starts a load");
    assert_eq!(batch, vec![2, 1]);
    app.apply(Msg::LoadedMore(Err("boom".to_string())));
    assert!(app.in_flight_more.is_none(), "guard cleared on error");
    assert_eq!(app.pending_ids, vec![2, 1], "the batch is restored to the front for retry");
    assert!(app.notice.is_some(), "a failure notice is shown");
}

#[test]
fn failed_refresh_keeps_cached_view() {
    let mut app = App::new();
    app.status = Status::Ready;
    app.entries = vec![entry(1, 7, "E1", None)];
    app.selected_source = Some(7);
    app.selected_article = Some(1);
    app.apply(Msg::Loaded(Err("offline".to_string())));
    assert!(matches!(app.status, Status::Ready), "cached view is preserved");
    assert!(app.notice.is_some(), "an offline notice is shown");
    assert_eq!(app.entries.len(), 1, "cached entries kept");
    let mut empty = App::new();
    empty.apply(Msg::Loaded(Err("boom".to_string())));
    assert!(matches!(empty.status, Status::Failed(_)));
}

#[test]
fn not_modified_keeps_the_current_view() {
    let mut app = App::new();
    app.status = Status::Ready;
    app.entries = vec![entry(1, 7, "E1", None)];
    app.selected_source = Some(7);
    app.selected_article = Some(1);
    app.apply(Msg::NotModified);
    assert!(matches!(app.status, Status::Ready));
    assert_eq!(app.entries.len(), 1, "304 keeps cached entries");
    assert_eq!(app.selected_article, Some(1), "304 doesn't reset selection");
    let mut loading = App::new();
    loading.apply(Msg::NotModified);
    assert!(matches!(loading.status, Status::Ready));
}

fn img_entry(id: i64, feed_id: i64, img_url: &str) -> Entry {
    Entry {
        id,
        feed_id,
        title: Some(format!("t{id}")),
        url: None,
        author: None,
        published: None,
        summary: None,
        content: Some(format!("<p>body</p><img src=\"{img_url}\">")),
        images: None,
        enclosure: None,
        json_feed: None,
    }
}

#[test]
fn images_are_prefetched_for_all_articles_on_load() {
    let mut feed_titles = HashMap::new();
    feed_titles.insert(7, "Feed".to_string());
    let no_image = Entry {
        id: 3,
        feed_id: 7,
        title: Some("t3".to_string()),
        url: None,
        author: None,
        published: None,
        summary: None,
        content: Some("<p>no image</p>".to_string()),
        images: None,
        enclosure: None,
        json_feed: None,
    };
    let entries = vec![img_entry(1, 7, "https://x/1.png"), img_entry(2, 7, "https://x/2.png"), no_image];
    let mut app = App::new();
    load(&mut app, entries, feed_titles, 3);
    assert_eq!(app.image_queue.len(), 2);
    assert!(matches!(image_state_of(&app.images, "https://x/1.png"), Some(ImageState::Loading)));
    assert!(matches!(image_state_of(&app.images, "https://x/2.png"), Some(ImageState::Loading)));
}

#[test]
fn next_queued_image_drains_the_queue() {
    let mut feed_titles = HashMap::new();
    feed_titles.insert(7, "Feed".to_string());
    let mut app = App::new();
    load(&mut app, vec![img_entry(1, 7, "https://x/1.png")], feed_titles, 1);
    assert_eq!(app.next_queued_image().as_deref(), Some("https://x/1.png"));
    assert!(app.next_queued_image().is_none());
}

#[test]
fn image_progress_counts_done_of_total_and_hides_when_idle() {
    let mut feed_titles = HashMap::new();
    feed_titles.insert(7, "Feed".to_string());
    let mut app = App::new();
    assert_eq!(app.image_progress(), None);
    load(&mut app, vec![img_entry(1, 7, "https://x/1.png"), img_entry(2, 7, "https://x/2.png")], feed_titles, 2);
    assert_eq!(app.image_progress(), Some((0, 2)));
    app.apply(Msg::Image { url: "https://x/1.png".to_string(), result: Ok(()) });
    assert_eq!(app.image_progress(), Some((1, 2)));
    app.apply(Msg::Image { url: "https://x/2.png".to_string(), result: Err("404".to_string()) });
    assert_eq!(app.image_progress(), None);
    assert_eq!(app.image_generation, 2, "each resolved image bumps the generation");
}

fn lead_images(cdn_url: &str) -> Option<Box<EntryImages>> {
    Some(Box::new(EntryImages { size_1: Some(ImageSize { cdn_url: Some(cdn_url.to_string()) }) }))
}

fn extended_entry(
    content: &str,
    images: Option<Box<EntryImages>>,
    enclosure: Option<Box<Enclosure>>,
    json_feed: Option<Box<JsonFeed>>,
) -> Entry {
    Entry {
        id: 1,
        feed_id: 7,
        title: Some("T".to_string()),
        url: Some("https://permalink".to_string()),
        author: None,
        published: None,
        summary: None,
        content: Some(content.to_string()),
        images,
        enclosure,
        json_feed,
    }
}

#[test]
fn open_precedence_is_enclosure_then_external_then_url() {
    let build = |entry: Entry| {
        let mut feed_titles = HashMap::new();
        feed_titles.insert(7, "Feed".to_string());
        let mut app = App::new();
        load(&mut app, vec![entry], feed_titles, 1);
        app
    };
    let enc = || {
        Some(Box::new(Enclosure {
            enclosure_url: Some("https://media.mp3".to_string()),
            enclosure_type: Some("audio/mpeg".to_string()),
            itunes_duration: None,
        }))
    };
    let ext = || Some(Box::new(JsonFeed { external_url: Some("https://external".to_string()) }));
    assert_eq!(build(extended_entry("<p>b</p>", None, None, None)).selected_url().as_deref(), Some("https://permalink"));
    assert_eq!(build(extended_entry("<p>b</p>", None, None, ext())).selected_url().as_deref(), Some("https://external"));
    assert_eq!(build(extended_entry("<p>b</p>", None, enc(), ext())).selected_url().as_deref(), Some("https://media.mp3"));
}

#[test]
fn lead_image_shown_and_prefetched_only_without_an_inline_image() {
    let mut feed_titles = HashMap::new();
    feed_titles.insert(7, "Feed".to_string());
    let mut app = App::new();
    load(&mut app, vec![extended_entry("<p>text only</p>", lead_images("https://cdn/lead.jpg"), None, None)], feed_titles, 1);
    assert!(app.image_urls.contains(&"https://cdn/lead.jpg".to_string()), "lead image is pre-fetched");

    let mut feed_titles = HashMap::new();
    feed_titles.insert(7, "Feed".to_string());
    let mut app = App::new();
    let with_inline = extended_entry("<p>x</p><img src=\"https://body/img.png\">", lead_images("https://cdn/lead.jpg"), None, None);
    load(&mut app, vec![with_inline], feed_titles, 1);
    assert_eq!(app.image_urls, vec!["https://body/img.png".to_string()], "lead image suppressed by an inline one");
}

#[test]
fn images_are_queued_top_to_bottom() {
    let mut feed_titles = HashMap::new();
    feed_titles.insert(9, "Apple".to_string());
    feed_titles.insert(7, "Banana".to_string());
    let mk = |id: i64, feed: i64, url: &str, published: &str| Entry {
        id,
        feed_id: feed,
        title: Some(format!("t{id}")),
        url: None,
        author: None,
        published: Some(published.to_string()),
        summary: None,
        content: Some(format!("<img src=\"{url}\">")),
        images: None,
        enclosure: None,
        json_feed: None,
    };
    let entries = vec![
        mk(2, 9, "apple-new", "2026-02"),
        mk(1, 9, "apple-old", "2026-01"),
        mk(4, 7, "banana-new", "2026-02"),
        mk(3, 7, "banana-old", "2026-01"),
    ];
    let mut app = App::new();
    load(&mut app, entries, feed_titles, 4);
    let queue: Vec<String> = app.image_queue.iter().cloned().collect();
    assert_eq!(
        queue,
        vec!["apple-old".to_string(), "apple-new".to_string(), "banana-old".to_string(), "banana-new".to_string()]
    );
}

#[test]
fn focusing_an_unfetched_article_bumps_it_to_the_front() {
    let mut feed_titles = HashMap::new();
    feed_titles.insert(7, "Feed".to_string());
    let entries = vec![img_entry(3, 7, "c"), img_entry(2, 7, "b"), img_entry(1, 7, "a")];
    let mut app = App::new();
    load(&mut app, entries, feed_titles, 3);
    assert_eq!(
        app.image_queue.iter().cloned().collect::<Vec<_>>(),
        vec!["a".to_string(), "b".to_string(), "c".to_string()],
        "base order is top-to-bottom"
    );
    app.selected_article = Some(3);
    app.prioritize_selected_images();
    assert_eq!(app.image_queue.iter().cloned().collect::<Vec<_>>(), vec!["c".to_string(), "a".to_string(), "b".to_string()]);
}

#[test]
fn page_keys_scroll_only_the_reader() {
    let mut app = app_with(&[(9, "Hacker News", 1)]);
    let _ = app.handle_key(Key::PageDown);
    assert_eq!(app.reader_scroll, 0, "PageDown does nothing outside the reader");
    app.focus = Focus::Reader;
    let _ = app.handle_key(Key::PageDown);
    assert_eq!(app.reader_scroll, READER_PAGE);
    let _ = app.handle_key(Key::PageUp);
    let _ = app.handle_key(Key::PageUp);
    assert_eq!(app.reader_scroll, 0, "scroll saturates at the top");
    let _ = app.handle_key(Key::End);
    assert_eq!(app.reader_scroll, u16::MAX);
}

#[test]
fn keys_map_to_actions_and_clear_the_notice() {
    let mut app = app_with(&[(9, "Hacker News", 1)]);
    app.notice = Some("old".to_string());
    assert_eq!(app.handle_key(Key::Char('m')), Action::MarkRead);
    assert!(app.notice.is_none(), "a key clears the notice");
    assert_eq!(app.handle_key(Key::Char('M')), Action::MarkSourceRead);
    assert_eq!(app.handle_key(Key::Char('u')), Action::Undo);
    assert_eq!(app.handle_key(Key::Char('o')), Action::OpenInBrowser);
    assert_eq!(app.handle_key(Key::Char('r')), Action::Reload);
    assert_eq!(app.handle_key(Key::Other), Action::Nothing);
    assert!(!app.should_quit);
    assert_eq!(app.handle_key(Key::Char('q')), Action::Nothing);
    assert!(app.should_quit);
}

#[test]
fn undo_failure_keeps_the_batch_read_and_undoable() {
    let mut app = app_with(&[(9, "Hacker News", 2)]);
    app.focus_right();
    let batch = app.begin_mark_read().unwrap();
    app.apply(Msg::Write { op: WriteOp::MarkRead, batch, result: Ok(()) });
    let batch = app.begin_undo().unwrap();
    assert_eq!(app.entries.len(), 2);
    app.apply(Msg::Write { op: WriteOp::Undo, batch, result: Err("offline".to_string()) });
    assert_eq!(app.entries.len(), 1, "the optimistic restore is taken back");
    assert_eq!(app.total_unread, 1);
    assert_eq!(app.undo_stack.len(), 1, "still undoable for a retry");
    assert_eq!(app.notice.as_deref(), Some("Undo failed (kept read): offline"));
}

#[test]
fn failure_notices_name_the_batch_size() {
    let mut app = app_with(&[(9, "Hacker News", 3)]);
    let batch = app.begin_mark_source_read().unwrap();
    app.apply(Msg::Write { op: WriteOp::MarkRead, batch, result: Err("boom".to_string()) });
    assert_eq!(app.notice.as_deref(), Some("Mark 3 read failed (restored): boom"));
    app.focus_right();
    let batch = app.begin_mark_read().unwrap();
    app.apply(Msg::Write { op: WriteOp::MarkRead, batch, result: Err("x".to_string()) });
    assert_eq!(app.notice.as_deref(), Some("Mark read failed (restored): x"));
    app.apply(Msg::Loaded(Err("offline".to_string())));
    assert_eq!(app.notice.as_deref(), Some("Couldn't reach Feedbin — showing cached: offline"));
}

#[test]
fn confirm_prompt_names_the_window() {
    let mut app = app_with(&[(9, "Hacker News", 2), (7, "Rust Blog", 1)]);
    assert_eq!(app.confirm_prompt(), None);
    let _ = app.handle_key(Key::Char('A'));
    assert_eq!(app.confirm_prompt().as_deref(), Some("Mark all 3 loaded articles read?  y / n"));
}

#[test]
fn window_plan_takes_the_newest_ids_first() {
    let unread: Vec<i64> = (1..=60).collect();
    let (window, pending) = plan_window(unread);
    assert_eq!(window.len(), 50);
    assert_eq!(window[0], 60);
    assert_eq!(window[49], 11);
    assert_eq!(pending, (1..=10).rev().collect::<Vec<i64>>());
    let (window, pending) = plan_window(vec![3, 9, 1]);
    assert_eq!(window, vec![9, 3, 1]);
    assert!(pending.is_empty());
}

#[test]
fn newest_first_sort_is_stable_and_puts_undated_last() {
    let mk = |id: i64, published: Option<&str>| Entry {
        id,
        feed_id: 1,
        title: None,
        url: None,
        author: None,
        published: published.map(str::to_string),
        summary: None,
        content: None,
        images: None,
        enclosure: None,
        json_feed: None,
    };
    let sorted = sort_newest_first_exec(vec![
        mk(1, Some("2026-01")),
        mk(2, None),
        mk(3, Some("2026-03")),
        mk(4, Some("2026-01")),
    ]);
    let ids: Vec<i64> = sorted.iter().map(|e| e.id).collect();
    assert_eq!(ids, vec![3, 1, 4, 2]);
}

#[test]
fn remote_images_off_queues_no_fetch() {
    let mut feed_titles = HashMap::new();
    feed_titles.insert(7, "Feed".to_string());
    let mut app = App::new();
    assert!(app.remote_images, "remote images load by default");
    app.remote_images = false;
    load(&mut app, vec![img_entry(1, 7, "https://x/1.png"), img_entry(2, 7, "https://x/2.png")], feed_titles, 2);
    assert!(app.image_queue.is_empty(), "no image request is queued");
    assert!(image_state_of(&app.images, "https://x/1.png").is_none());
    assert_eq!(app.next_queued_image(), None);
    assert_eq!(app.image_progress(), None, "no loading indicator");
}

/// One article whose body may overflow the reader; `focus_steps` moves the
/// cursor right (1 → Articles, 2 → Reader).
fn app_with_long_article(content: &str, focus_steps: usize) -> App {
    let mut feed_titles = HashMap::new();
    feed_titles.insert(9, "Feed".to_string());
    let e = Entry {
        id: 1,
        feed_id: 9,
        title: Some("T".to_string()),
        url: None,
        author: None,
        published: None,
        summary: None,
        content: Some(content.to_string()),
        images: None,
        enclosure: None,
        json_feed: None,
    };
    let mut app = App::new();
    load(&mut app, vec![e], feed_titles, 1);
    for _ in 0..focus_steps {
        app.focus_right();
    }
    app
}

/// Whether the reader of a 120×20 terminal shows a scrollbar: its inner
/// pane is 46 columns by 17 rows, and the selected article's lines are
/// wrapped on words to that width.
fn reader_has_scrollbar(app: &App) -> bool {
    let (inner_width, inner_height) = (46u16, 17u16);
    let entry = app.selected_article_entry().expect("an article is selected").clone();
    let mut wrapped = 0usize;
    for line in roses::reader::reader_lines(&entry, None) {
        let text = match line {
            roses::reader::ReaderLine::Blank => String::new(),
            roses::reader::ReaderLine::Image(u) => u,
            roses::reader::ReaderLine::Title(t)
            | roses::reader::ReaderLine::Meta(t)
            | roses::reader::ReaderLine::Media(t)
            | roses::reader::ReaderLine::Link(t)
            | roses::reader::ReaderLine::Permalink(t)
            | roses::reader::ReaderLine::Text(t) => t,
        };
        wrapped += roses::reader::wrap_title(&text, inner_width).len();
    }
    let wrapped = u16::try_from(wrapped).unwrap_or(u16::MAX);
    roses::tui::shows_scrollbar(matches!(app.focus, Focus::Reader), wrapped, inner_height)
}

#[test]
fn reader_scrollbar_shows_when_focused_and_overflowing() {
    let long = format!("<p>{}</p>", "word ".repeat(300));
    let app = app_with_long_article(&long, 2); // focus Reader
    assert!(matches!(app.focus, Focus::Reader));
    assert!(
        reader_has_scrollbar(&app),
        "a scrollbar thumb rides the reader's right edge when content overflows"
    );
}

#[test]
fn reader_scrollbar_hidden_when_content_fits() {
    let app = app_with_long_article("<p>Short.</p>", 2); // focus Reader
    assert!(matches!(app.focus, Focus::Reader));
    assert!(!reader_has_scrollbar(&app), "no scrollbar when the content fits the viewport");
}

#[test]
fn reader_scrollbar_hidden_when_reader_unfocused() {
    let long = format!("<p>{}</p>", "word ".repeat(300));
    // Focus Articles: the reader shows the (overflowing) article but isn't active.
    let app = app_with_long_article(&long, 1);
    assert!(matches!(app.focus, Focus::Articles));
    assert!(!reader_has_scrollbar(&app), "no scrollbar unless the reader is the focused pane");
}

#[test]
fn unread_count_tracks_loaded_pending_and_in_flight() {
    let mut feed_titles = HashMap::new();
    feed_titles.insert(7, "Feed".to_string());
    let mut app = App::new();
    app.apply(Msg::Loaded(Ok(Loaded {
        entries: vec![entry(3, 7, "c", None), entry(2, 7, "b", None)],
        feed_titles,
        total_unread: 4,
        pending_ids: vec![1, 0],
    })));
    let counted = |a: &App| a.entries.len() + a.pending_ids.len() + a.in_flight_more.as_ref().map_or(0, |b| b.len());
    assert_eq!(app.total_unread, counted(&app));
    app.focus_right();
    let batch = app.begin_mark_read().expect("an article is selected");
    assert_eq!(app.total_unread, counted(&app));
    app.apply(Msg::Write { op: WriteOp::MarkRead, batch: batch.clone(), result: Err("offline".to_string()) });
    assert_eq!(app.total_unread, counted(&app), "a rolled-back mark restores the count");
}
