use tagfeed::feed::{
    attach_tags, count_feed, count_published, list_feed, merge_rows, paginate, preview_of,
    sort_feed, CommentRow, FeedEntry, PostRow,
};

fn post(id: i32, created: i64, published: bool) -> PostRow {
    PostRow {
        id,
        kind: "article".to_string(),
        user_id: 1,
        title: format!("post {}", id),
        created,
        published,
    }
}

fn comment(post_id: i32, created: i64, body: &str) -> CommentRow {
    CommentRow {
        post_id,
        user_id: 2,
        body: body.to_string(),
        post_kind: "article".to_string(),
        post_title: format!("post {}", post_id),
        created,
    }
}

#[test]
fn preview_clips_long_body_to_fifty_scalars() {
    let body: String = "x".repeat(80);
    let p = preview_of(&body);
    assert_eq!(p.chars().count(), 50);
    assert_eq!(p, "x".repeat(50));
}

#[test]
fn preview_keeps_short_body_unchanged() {
    let body: String = "y".repeat(30);
    assert_eq!(preview_of(&body), body);
    assert_eq!(preview_of(""), "".to_string());
}

#[test]
fn preview_counts_scalar_values_not_bytes() {
    // Each 'é' is two bytes but one Unicode scalar value.
    let body: String = "é".repeat(60);
    let p = preview_of(&body);
    assert_eq!(p.chars().count(), 50);
    assert_eq!(p, "é".repeat(50));
}

#[test]
fn preview_exactly_fifty_unchanged() {
    let body: String = "z".repeat(50);
    assert_eq!(preview_of(&body), body);
}

#[test]
fn comment_entry_inherits_parent_post() {
    let feed = merge_rows(Vec::new(), vec![comment(42, 5, "hello")]);
    assert_eq!(feed.len(), 1);
    assert_eq!(feed[0].id, 42);
    assert_eq!(feed[0].kind, "article");
    assert_eq!(feed[0].title, "post 42");
    assert_eq!(feed[0].preview_body, "hello");
    assert_eq!(feed[0].created, 5);
}

#[test]
fn post_entry_has_empty_preview() {
    let feed = merge_rows(vec![post(1, 9, true)], Vec::new());
    assert_eq!(feed.len(), 1);
    assert_eq!(feed[0].preview_body, "");
    assert_eq!(feed[0].id, 1);
}

#[test]
fn drafts_stay_out_of_the_feed() {
    let feed = merge_rows(vec![post(1, 1, true), post(2, 2, false), post(3, 3, true)], Vec::new());
    let ids: Vec<i32> = feed.iter().map(|e| e.id).collect();
    assert_eq!(ids, vec![1, 3]);
}

#[test]
fn feed_orders_comment_after_post_by_time() {
    // A post created at t1 and a comment created at t2 > t1: the comment
    // comes first in any window that holds both.
    let page = list_feed(vec![post(1, 100, true)], vec![comment(1, 200, "late comment")], 0, 10);
    assert_eq!(page.len(), 2);
    assert_eq!(page[0].created, 200);
    assert_eq!(page[0].preview_body, "late comment");
    assert_eq!(page[1].created, 100);
    assert_eq!(page[1].id, 1);
}

#[test]
fn feed_is_reverse_chronological() {
    let posts = vec![post(1, 10, true), post(2, 40, true), post(3, 25, false)];
    let comments = vec![comment(1, 30, "a"), comment(2, 5, "b")];
    let page = list_feed(posts, comments, 0, 10);
    let times: Vec<i64> = page.iter().map(|e| e.created).collect();
    assert_eq!(times, vec![40, 30, 10, 5]);
}

#[test]
fn pagination_windows_the_sorted_feed() {
    let posts =
        vec![post(1, 1, true), post(2, 2, true), post(3, 3, true), post(4, 4, true)];
    let page = list_feed(posts, Vec::new(), 1, 2);
    let ids: Vec<i32> = page.iter().map(|e| e.id).collect();
    assert_eq!(ids, vec![3, 2]);
}

#[test]
fn pagination_beyond_the_end_is_empty() {
    let page = list_feed(vec![post(1, 1, true)], Vec::new(), 5, 10);
    assert!(page.is_empty());
    let none = list_feed(vec![post(1, 1, true)], Vec::new(), 0, 0);
    assert!(none.is_empty());
}

#[test]
fn paginate_takes_the_requested_window() {
    let entries = merge_rows(
        vec![post(1, 1, true), post(2, 2, true), post(3, 3, true)],
        Vec::new(),
    );
    let window = paginate(entries, 1, 1);
    assert_eq!(window.len(), 1);
    assert_eq!(window[0].id, 2);
}

#[test]
fn sort_feed_orders_descending() {
    let entries = merge_rows(
        vec![post(1, 7, true), post(2, 9, true), post(3, 8, true)],
        Vec::new(),
    );
    let sorted = sort_feed(entries);
    let times: Vec<i64> = sorted.iter().map(|e| e.created).collect();
    assert_eq!(times, vec![9, 8, 7]);
}

#[test]
fn count_composition_over_fixture() {
    // 3 published posts, 2 drafts, 5 comments: the feed counts 8 entries,
    // whatever the drafts' comments' parentage.
    let posts = vec![
        post(1, 1, true),
        post(2, 2, true),
        post(3, 3, true),
        post(4, 4, false),
        post(5, 5, false),
    ];
    let comments = vec![
        comment(1, 6, "a"),
        comment(2, 7, "b"),
        comment(4, 8, "on a draft"),
        comment(5, 9, "on a draft too"),
        comment(3, 10, "c"),
    ];
    assert_eq!(count_published(&posts), 3);
    assert_eq!(count_feed(&posts, &comments), 8);
    // The count equals the length of the merged feed itself.
    let page = list_feed(posts, comments, 0, 100);
    assert_eq!(page.len(), 8);
}

#[test]
fn attach_drops_entries_with_failed_lookup() {
    let entries: Vec<FeedEntry> = merge_rows(
        vec![post(1, 1, true), post(2, 2, true), post(3, 3, true)],
        Vec::new(),
    );
    let lookups = vec![Some(vec![10, 11]), None, Some(Vec::new())];
    let items = attach_tags(entries, lookups);
    assert_eq!(items.len(), 2);
    assert_eq!(items[0].entry.id, 1);
    assert_eq!(items[0].tags, vec![10, 11]);
    assert_eq!(items[1].entry.id, 3);
    assert_eq!(items[1].tags, Vec::<i32>::new());
}
