//! Feed aggregation: merge published posts and comments into one
//! reverse-chronological, paginated feed with truncated preview bodies.
//!
//! The post and comment stores are external collaborators.  The service
//! layer fetches the raw rows, hands them to [`list_feed`], and afterwards
//! attaches each entry's tag set with [`attach_tags`], dropping the entries
//! whose tag lookup failed.

use crate::TagId;
use vstd::prelude::*;

verus! {

/// Number of Unicode scalar values kept in a feed entry's preview body.
pub const PREVIEW_LEN: usize = 50;

/// A post row as the store returns it.  `created` is the creation time as
/// seconds since the epoch; `published` tells a published post from a
/// draft.
pub struct PostRow {
    pub id: i32,
    pub kind: String,
    pub user_id: i32,
    pub title: String,
    pub created: i64,
    pub published: bool,
}

/// A comment row as the store returns it, joined with its parent post's
/// kind and title.  `created` is the comment's creation time as seconds
/// since the epoch.
pub struct CommentRow {
    pub post_id: i32,
    pub user_id: i32,
    pub body: String,
    pub post_kind: String,
    pub post_title: String,
    pub created: i64,
}

/// One entry of the merged feed.  For a comment entry, `id` is the parent
/// post's id — the feed links a comment to the post it sits under — and
/// `preview_body` is the truncated comment body; for a post entry the
/// preview is empty.
pub struct FeedEntry {
    pub id: i32,
    pub kind: String,
    pub user_id: i32,
    pub title: String,
    pub preview_body: String,
    pub created: i64,
}

/// Mathematical image of a [`PostRow`].
pub struct PostRowV {
    pub id: i32,
    pub kind: Seq<char>,
    pub user_id: i32,
    pub title: Seq<char>,
    pub created: i64,
    pub published: bool,
}

impl View for PostRow {
    type V = PostRowV;

    open spec fn view(&self) -> PostRowV {
        PostRowV {
            id: self.id,
            kind: self.kind@,
            user_id: self.user_id,
            title: self.title@,
            created: self.created,
            published: self.published,
        }
    }
}

/// Mathematical image of a [`CommentRow`].
pub struct CommentRowV {
    pub post_id: i32,
    pub user_id: i32,
    pub body: Seq<char>,
    pub post_kind: Seq<char>,
    pub post_title: Seq<char>,
    pub created: i64,
}

impl View for CommentRow {
    type V = CommentRowV;

    open spec fn view(&self) -> CommentRowV {
        CommentRowV {
            post_id: self.post_id,
            user_id: self.user_id,
            body: self.body@,
            post_kind: self.post_kind@,
            post_title: self.post_title@,
            created: self.created,
        }
    }
}

/// Mathematical image of a [`FeedEntry`].
pub struct FeedEntryV {
    pub id: i32,
    pub kind: Seq<char>,
    pub user_id: i32,
    pub title: Seq<char>,
    pub preview_body: Seq<char>,
    pub created: i64,
}

impl View for FeedEntry {
    type V = FeedEntryV;

    open spec fn view(&self) -> FeedEntryV {
        FeedEntryV {
            id: self.id,
            kind: self.kind@,
            user_id: self.user_id,
            title: self.title@,
            preview_body: self.preview_body@,
            created: self.created,
        }
    }
}

/// The views of a sequence of post rows.
pub open spec fn posts_view(s: Seq<PostRow>) -> Seq<PostRowV> {
    s.map_values(|p: PostRow| p@)
}

/// The views of a sequence of comment rows.
pub open spec fn comments_view(s: Seq<CommentRow>) -> Seq<CommentRowV> {
    s.map_values(|c: CommentRow| c@)
}

/// The views of a sequence of feed entries.
pub open spec fn entries_view(s: Seq<FeedEntry>) -> Seq<FeedEntryV> {
    s.map_values(|e: FeedEntry| e@)
}

/// The first [`PREVIEW_LEN`] scalar values of a body; a shorter body is
/// kept whole.  No ellipsis is appended.
pub open spec fn preview_spec(body: Seq<char>) -> Seq<char> {
    if body.len() <= PREVIEW_LEN {
        body
    } else {
        body.take(PREVIEW_LEN as int)
    }
}

/// The feed entry of a published post: no preview body.
pub open spec fn post_entry_spec(p: PostRowV) -> FeedEntryV {
    FeedEntryV {
        id: p.id,
        kind: p.kind,
        user_id: p.user_id,
        title: p.title,
        preview_body: Seq::empty(),
        created: p.created,
    }
}

/// The feed entry of a comment: it carries its parent post's id, kind and
/// title, and previews the comment body.
pub open spec fn comment_entry_spec(c: CommentRowV) -> FeedEntryV {
    FeedEntryV {
        id: c.post_id,
        kind: c.post_kind,
        user_id: c.user_id,
        title: c.post_title,
        preview_body: preview_spec(c.body),
        created: c.created,
    }
}

/// The merged feed before ordering: one entry per published post, one per
/// comment.  A comment is listed whatever the status of its parent post.
pub open spec fn merged_spec(posts: Seq<PostRowV>, comments: Seq<CommentRowV>) -> Seq<FeedEntryV> {
    posts.filter(|p: PostRowV| p.published).map_values(|p: PostRowV| post_entry_spec(p))
        + comments.map_values(|c: CommentRowV| comment_entry_spec(c))
}

/// How many of the given posts are published.
pub open spec fn published_count_spec(posts: Seq<PostRowV>) -> nat {
    posts.filter(|p: PostRowV| p.published).len()
}

/// Reverse-chronological order: `created` never increases along the
/// sequence.  Entries with equal timestamps may stand in either order.
pub open spec fn sorted_desc(s: Seq<FeedEntryV>) -> bool {
    forall|i: int, j: int| 0 <= i < j < s.len() ==> s[i].created >= s[j].created
}

/// The body clipped for a feed preview, as [`preview_spec`] describes.
pub fn preview_of(body: &str) -> (p: String)
    ensures
        p@ == preview_spec(body@),
{
    let n = body.unicode_len();
    if n <= PREVIEW_LEN {
        body.to_owned()
    } else {
        proof {
            assert(body@.subrange(0, PREVIEW_LEN as int) =~= body@.take(PREVIEW_LEN as int));
        }
        let clipped = body.substring_char(0, PREVIEW_LEN);
        clipped.to_owned()
    }
}

/// The feed entry of a published post.
pub fn post_entry(p: PostRow) -> (e: FeedEntry)
    ensures
        e@ == post_entry_spec(p@),
{
    let e = FeedEntry {
        id: p.id,
        kind: p.kind,
        user_id: p.user_id,
        title: p.title,
        preview_body: String::new(),
        created: p.created,
    };
    e
}

/// The feed entry of a comment.
pub fn comment_entry(c: CommentRow) -> (e: FeedEntry)
    ensures
        e@ == comment_entry_spec(c@),
{
    let preview = preview_of(c.body.as_str());
    let e = FeedEntry {
        id: c.post_id,
        kind: c.post_kind,
        user_id: c.user_id,
        title: c.post_title,
        preview_body: preview,
        created: c.created,
    };
    e
}

/// Builds the unordered merged feed: one entry per published post, in post
/// order, then one entry per comment, in comment order.
pub fn merge_rows(posts: Vec<PostRow>, comments: Vec<CommentRow>) -> (v: Vec<FeedEntry>)
    ensures
        entries_view(v@) == merged_spec(posts_view(posts@), comments_view(comments@)),
{
    let ghost pv = posts_view(posts@);
    let ghost cv = comments_view(comments@);
    let mut v: Vec<FeedEntry> = Vec::new();
    let mut posts = posts;
    let mut comments = comments;
    let ghost pn = pv.len() as int;
    let ghost mut k: int = 0;
    proof {
        assert(pv.take(0) =~= Seq::<PostRowV>::empty());
        pv.take(0).lemma_filter_len(|p: PostRowV| p.published);
        assert(entries_view(v@) =~= pv.take(0).filter(|p: PostRowV| p.published).map_values(
            |p: PostRowV| post_entry_spec(p),
        ));
    }
    while posts.len() > 0
        invariant
            0 <= k,
            k + posts@.len() == pn,
            pn == pv.len(),
            posts_view(posts@) == pv.subrange(k, pn),
            entries_view(v@) == pv.take(k).filter(|p: PostRowV| p.published).map_values(
                |p: PostRowV| post_entry_spec(p),
            ),
        decreases posts@.len(),
    {
        let ghost posts0 = posts@;
        proof {
            assert(pv.take(k + 1) =~= pv.take(k).push(pv[k]));
            pv.take(k).lemma_filter_push(pv[k], |p: PostRowV| p.published);
            assert(posts_view(posts0)[0] == posts0[0]@);
            assert(pv[k] == posts0[0]@);
        }
        let p = posts.remove(0);
        let ghost v0 = v@;
        if p.published {
            let e = post_entry(p);
            v.push(e);
            proof {
                assert(entries_view(v@) =~= entries_view(v0).push(e@));
                let pub_pred = |p: PostRowV| p.published;
                let mk = |p: PostRowV| post_entry_spec(p);
                assert(pv.take(k).filter(pub_pred).push(pv[k]).map_values(mk) =~= pv.take(k).filter(
                    pub_pred,
                ).map_values(mk).push(mk(pv[k])));
            }
        }
        proof {
            assert(posts@ =~= posts0.subrange(1, posts0.len() as int));
            assert forall|t: int| 0 <= t < posts@.len() implies posts_view(posts@)[t] == pv[k + 1
                + t] by {
                assert(posts@[t] == posts0[t + 1]);
                assert(posts_view(posts0)[t + 1] == posts0[t + 1]@);
                assert(pv.subrange(k, pn)[t + 1] == pv[k + 1 + t]);
            }
            assert(posts_view(posts@) =~= pv.subrange(k + 1, pn));
            k = k + 1;
        }
    }
    proof {
        assert(pv.take(pn) =~= pv);
    }
    let ghost cn = cv.len() as int;
    let ghost mut m: int = 0;
    proof {
        assert(cv.take(0) =~= Seq::<CommentRowV>::empty());
        assert(cv.take(0).map_values(|c: CommentRowV| comment_entry_spec(c))
            =~= Seq::<FeedEntryV>::empty());
        assert(entries_view(v@) =~= merged_spec(pv, cv.take(0)));
    }
    while comments.len() > 0
        invariant
            0 <= m,
            m + comments@.len() == cn,
            cn == cv.len(),
            comments_view(comments@) == cv.subrange(m, cn),
            entries_view(v@) == merged_spec(pv, cv.take(m)),
        decreases comments@.len(),
    {
        let ghost comments0 = comments@;
        proof {
            assert(cv.take(m + 1) =~= cv.take(m).push(cv[m]));
            assert(comments_view(comments0)[0] == comments0[0]@);
            assert(cv[m] == comments0[0]@);
        }
        let c = comments.remove(0);
        let ghost v0 = v@;
        let e = comment_entry(c);
        v.push(e);
        proof {
            assert(entries_view(v@) =~= entries_view(v0).push(e@));
            let mk = |c: CommentRowV| comment_entry_spec(c);
            assert(cv.take(m).push(cv[m]).map_values(mk) =~= cv.take(m).map_values(mk).push(
                mk(cv[m]),
            ));
            assert(entries_view(v@) =~= merged_spec(pv, cv.take(m + 1)));
            assert(comments@ =~= comments0.subrange(1, comments0.len() as int));
            assert forall|t: int| 0 <= t < comments@.len() implies comments_view(comments@)[t]
                == cv[m + 1 + t] by {
                assert(comments@[t] == comments0[t + 1]);
                assert(comments_view(comments0)[t + 1] == comments0[t + 1]@);
                assert(cv.subrange(m, cn)[t + 1] == cv[m + 1 + t]);
            }
            assert(comments_view(comments@) =~= cv.subrange(m + 1, cn));
            m = m + 1;
        }
    }
    proof {
        assert(cv.take(cn) =~= cv);
    }
    v
}

/// How many of the given posts are published.
pub fn count_published(posts: &Vec<PostRow>) -> (n: usize)
    ensures
        n == published_count_spec(posts_view(posts@)),
{
    let ghost pv = posts_view(posts@);
    let mut n: usize = 0;
    let mut i: usize = 0;
    proof {
        assert(pv.take(0) =~= Seq::<PostRowV>::empty());
        pv.take(0).lemma_filter_len(|p: PostRowV| p.published);
    }
    while i < posts.len()
        invariant
            i <= posts@.len(),
            pv == posts_view(posts@),
            pv.len() == posts@.len(),
            n == pv.take(i as int).filter(|p: PostRowV| p.published).len(),
            n <= i,
        decreases posts@.len() - i,
    {
        proof {
            assert(pv.take(i as int + 1) =~= pv.take(i as int).push(pv[i as int]));
            pv.take(i as int).lemma_filter_push(pv[i as int], |p: PostRowV| p.published);
            assert(pv[i as int] == posts@[i as int]@);
        }
        if posts[i].published {
            n = n + 1;
        }
        i = i + 1;
    }
    proof {
        assert(pv.take(posts@.len() as int) =~= pv);
    }
    n
}

/// The feed's total size: published posts plus all comments.  A comment
/// counts even when its parent post is a draft.
pub fn count_feed(posts: &Vec<PostRow>, comments: &Vec<CommentRow>) -> (n: usize)
    requires
        posts@.len() + comments@.len() <= usize::MAX,
    ensures
        n == published_count_spec(posts_view(posts@)) + comments_view(comments@).len(),
{
    let ghost pv = posts_view(posts@);
    proof {
        pv.lemma_filter_len(|p: PostRowV| p.published);
    }
    let published = count_published(posts);
    published + comments.len()
}

/// Count composition: the feed count equals the number of published posts
/// plus the number of all comments — it is exactly the length of the
/// merged feed.
pub proof fn lemma_count_matches_feed(posts: Seq<PostRowV>, comments: Seq<CommentRowV>)
    ensures
        merged_spec(posts, comments).len() == published_count_spec(posts) + comments.len(),
{
}

/// Inserts `e` into a reverse-chronologically ordered vector, keeping the
/// order.  `e` lands after every entry with an equal or later timestamp.
fn insert_sorted(v: Vec<FeedEntry>, e: FeedEntry) -> (res: Vec<FeedEntry>)
    requires
        sorted_desc(entries_view(v@)),
    ensures
        sorted_desc(entries_view(res@)),
        entries_view(res@).to_multiset() == entries_view(v@).to_multiset().insert(e@),
{
    broadcast use vstd::seq_lib::to_multiset_insert;

    let ghost before = entries_view(v@);
    let mut v = v;
    let mut j: usize = 0;
    while j < v.len() && v[j].created >= e.created
        invariant
            j <= v@.len(),
            before == entries_view(v@),
            sorted_desc(before),
            forall|t: int| 0 <= t < j ==> before[t].created >= e@.created,
        decreases v@.len() - j,
    {
        proof {
            assert(before[j as int] == v@[j as int]@);
        }
        j = j + 1;
    }
    proof {
        if (j as int) < before.len() {
            assert(before[j as int] == v@[j as int]@);
            assert(before[j as int].created < e@.created);
        }
    }
    v.insert(j, e);
    proof {
        assert(entries_view(v@) =~= before.insert(j as int, e@));
        let after = before.insert(j as int, e@);
        assert forall|a: int, b: int|
            0 <= a < b < after.len() implies after[a].created >= after[b].created by {
            if a < j && b < j {
            } else if a < j && b == j {
            } else if a < j && b > j {
            } else if a == j && b > j {
                assert(after[b] == before[b - 1]);
                assert(before[j as int].created >= before[b - 1].created);
            } else {
                assert(after[a] == before[a - 1]);
                assert(after[b] == before[b - 1]);
            }
        }
    }
    v
}

/// Orders feed entries reverse-chronologically.  Entries with equal
/// timestamps keep no promised relative order.
pub fn sort_feed(entries: Vec<FeedEntry>) -> (out: Vec<FeedEntry>)
    ensures
        sorted_desc(entries_view(out@)),
        entries_view(out@).to_multiset() == entries_view(entries@).to_multiset(),
{
    broadcast use vstd::seq_lib::group_to_multiset_ensures;

    let ghost orig = entries_view(entries@);
    let mut input = entries;
    let mut out: Vec<FeedEntry> = Vec::new();
    proof {
        assert(entries_view(out@) =~= Seq::<FeedEntryV>::empty());
        assert(entries_view(out@).to_multiset().add(entries_view(input@).to_multiset())
            =~= orig.to_multiset());
    }
    while input.len() > 0
        invariant
            sorted_desc(entries_view(out@)),
            entries_view(out@).to_multiset().add(entries_view(input@).to_multiset())
                == orig.to_multiset(),
        decreases input@.len(),
    {
        let ghost in0 = input@;
        let ghost out0 = entries_view(out@);
        if let Some(e) = input.pop() {
            proof {
                assert(entries_view(in0) =~= entries_view(input@).push(e@));
                vstd::seq_lib::to_multiset_build(entries_view(input@), e@);
                assert(entries_view(in0).to_multiset() == entries_view(input@).to_multiset().insert(
                    e@,
                ));
            }
            out = insert_sorted(out, e);
            proof {
                assert(entries_view(out@).to_multiset().add(entries_view(input@).to_multiset())
                    =~= out0.to_multiset().add(entries_view(in0).to_multiset()));
            }
        }
    }
    proof {
        assert(entries_view(input@) =~= Seq::<FeedEntryV>::empty());
        assert(entries_view(out@).to_multiset().add(Seq::<FeedEntryV>::empty().to_multiset())
            =~= entries_view(out@).to_multiset());
    }
    out
}

/// Where a page starts: `offset` clamped to the feed's length.
pub open spec fn page_start(len: int, offset: int) -> int {
    if offset <= len {
        offset
    } else {
        len
    }
}

/// Where a page ends: `offset + limit` clamped to the feed's length.
pub open spec fn page_end(len: int, offset: int, limit: int) -> int {
    if offset + limit <= len {
        offset + limit
    } else {
        len
    }
}

/// Offset-based pagination: the window of `entries` that starts `offset`
/// entries in and holds at most `limit` entries.
pub fn paginate(entries: Vec<FeedEntry>, offset: usize, limit: usize) -> (page: Vec<FeedEntry>)
    ensures
        page@ == entries@.subrange(
            page_start(entries@.len() as int, offset as int),
            page_end(entries@.len() as int, offset as int, limit as int),
        ),
{
    let ghost orig = entries@;
    let mut v = entries;
    let len = v.len();
    let start = if offset <= len {
        offset
    } else {
        len
    };
    let room = len - start;
    let end = if limit <= room {
        start + limit
    } else {
        len
    };
    v.truncate(end);
    let page = v.split_off(start);
    proof {
        let ps = page_start(orig.len() as int, offset as int);
        let pe = page_end(orig.len() as int, offset as int, limit as int);
        assert(ps == start && pe == end);
        assert(page@ =~= orig.subrange(ps, pe));
    }
    page
}

/// Builds one page of the feed: merges the published posts with the
/// comments, orders the union reverse-chronologically, and returns the
/// `offset`/`limit` window of it.  Some reverse-chronological arrangement
/// of the merged rows exists of which the page is exactly that window;
/// which arrangement is not pinned down, as entries with equal timestamps
/// may come out in either order.
pub fn list_feed(
    posts: Vec<PostRow>,
    comments: Vec<CommentRow>,
    offset: usize,
    limit: usize,
) -> (page: Vec<FeedEntry>)
    ensures
        exists|all: Seq<FeedEntryV>|
            {
                &&& sorted_desc(all)
                &&& all.to_multiset() == merged_spec(
                    posts_view(posts@),
                    comments_view(comments@),
                ).to_multiset()
                &&& entries_view(page@) == all.subrange(
                    page_start(all.len() as int, offset as int),
                    page_end(all.len() as int, offset as int, limit as int),
                )
            },
{
    let ghost pv = posts_view(posts@);
    let ghost cv = comments_view(comments@);
    let merged = merge_rows(posts, comments);
    let sorted = sort_feed(merged);
    let ghost all = entries_view(sorted@);
    let page = paginate(sorted, offset, limit);
    proof {
        assert(entries_view(page@) =~= all.subrange(
            page_start(all.len() as int, offset as int),
            page_end(all.len() as int, offset as int, limit as int),
        ));
        assert({
            &&& sorted_desc(all)
            &&& all.to_multiset() == merged_spec(pv, cv).to_multiset()
            &&& entries_view(page@) == all.subrange(
                page_start(all.len() as int, offset as int),
                page_end(all.len() as int, offset as int, limit as int),
            )
        });
    }
    page
}

/// A feed entry together with its post's tag ids.
pub struct FeedItem {
    pub entry: FeedEntry,
    pub tags: Vec<TagId>,
}

/// Mathematical image of a [`FeedItem`].
pub struct FeedItemV {
    pub entry: FeedEntryV,
    pub tags: Seq<TagId>,
}

impl View for FeedItem {
    type V = FeedItemV;

    open spec fn view(&self) -> FeedItemV {
        FeedItemV { entry: self.entry@, tags: self.tags@ }
    }
}

/// The views of a sequence of feed items.
pub open spec fn items_view(s: Seq<FeedItem>) -> Seq<FeedItemV> {
    s.map_values(|x: FeedItem| x@)
}

/// The view of one tag lookup's outcome.
pub open spec fn lookup_view(o: Option<Vec<TagId>>) -> Option<Seq<TagId>> {
    match o {
        Some(v) => Some(v@),
        None => None,
    }
}

/// The views of a sequence of tag lookup outcomes.
pub open spec fn lookups_view(s: Seq<Option<Vec<TagId>>>) -> Seq<Option<Seq<TagId>>> {
    s.map_values(|o: Option<Vec<TagId>>| lookup_view(o))
}

/// The entries whose tag lookup succeeded, each paired with its tags, in
/// order; an entry whose lookup failed is dropped.
pub open spec fn attach_spec(
    entries: Seq<FeedEntryV>,
    lookups: Seq<Option<Seq<TagId>>>,
) -> Seq<FeedItemV>
    decreases entries.len(),
{
    if entries.len() == 0 {
        Seq::empty()
    } else {
        let prefix = attach_spec(entries.drop_last(), lookups.drop_last());
        match lookups.last() {
            Some(tags) => prefix.push(FeedItemV { entry: entries.last(), tags }),
            None => prefix,
        }
    }
}

/// Pairs each feed entry with the outcome of its tag lookup: an entry whose
/// lookup succeeded carries its tag ids; one whose lookup failed is dropped
/// from the page rather than failing the whole call.
pub fn attach_tags(entries: Vec<FeedEntry>, lookups: Vec<Option<Vec<TagId>>>) -> (items: Vec<
    FeedItem,
>)
    requires
        entries@.len() == lookups@.len(),
    ensures
        items_view(items@) == attach_spec(entries_view(entries@), lookups_view(lookups@)),
{
    let ghost ev = entries_view(entries@);
    let ghost lv = lookups_view(lookups@);
    let ghost n = ev.len() as int;
    let ghost mut i: int = 0;
    let mut entries = entries;
    let mut lookups = lookups;
    let mut items: Vec<FeedItem> = Vec::new();
    proof {
        assert(ev.take(0) =~= Seq::<FeedEntryV>::empty());
        assert(items_view(items@) =~= attach_spec(ev.take(0), lv.take(0)));
    }
    while entries.len() > 0
        invariant
            0 <= i,
            i + entries@.len() == n,
            entries@.len() == lookups@.len(),
            n == ev.len() && n == lv.len(),
            entries_view(entries@) == ev.subrange(i, n),
            lookups_view(lookups@) == lv.subrange(i, n),
            items_view(items@) == attach_spec(ev.take(i), lv.take(i)),
        decreases entries@.len(),
    {
        let ghost entries0 = entries@;
        let ghost lookups0 = lookups@;
        proof {
            assert(ev.take(i + 1).drop_last() =~= ev.take(i));
            assert(lv.take(i + 1).drop_last() =~= lv.take(i));
            assert(entries_view(entries0)[0] == entries0[0]@);
            assert(lookups_view(lookups0)[0] == lookup_view(lookups0[0]));
            assert(ev[i] == entries0[0]@);
            assert(lv[i] == lookup_view(lookups0[0]));
        }
        let e = entries.remove(0);
        let o = lookups.remove(0);
        let ghost items0 = items@;
        match o {
            Some(tags) => {
                items.push(FeedItem { entry: e, tags });
                proof {
                    assert(items_view(items@) =~= items_view(items0).push(items@.last()@));
                }
            },
            None => {},
        }
        proof {
            assert(entries@ =~= entries0.subrange(1, entries0.len() as int));
            assert(lookups@ =~= lookups0.subrange(1, lookups0.len() as int));
            assert forall|t: int| 0 <= t < entries@.len() implies entries_view(entries@)[t] == ev[i
                + 1 + t] by {
                assert(entries@[t] == entries0[t + 1]);
                assert(entries_view(entries0)[t + 1] == entries0[t + 1]@);
                assert(ev.subrange(i, n)[t + 1] == ev[i + 1 + t]);
            }
            assert forall|t: int| 0 <= t < lookups@.len() implies lookups_view(lookups@)[t] == lv[i
                + 1 + t] by {
                assert(lookups@[t] == lookups0[t + 1]);
                assert(lookups_view(lookups0)[t + 1] == lookup_view(lookups0[t + 1]));
                assert(lv.subrange(i, n)[t + 1] == lv[i + 1 + t]);
            }
            assert(entries_view(entries@) =~= ev.subrange(i + 1, n));
            assert(lookups_view(lookups@) =~= lv.subrange(i + 1, n));
            assert(items_view(items@) =~= attach_spec(ev.take(i + 1), lv.take(i + 1)));
            i = i + 1;
        }
    }
    proof {
        assert(ev.take(n) =~= ev);
        assert(lv.take(n) =~= lv);
    }
    items
}

/// Feed ordering: in a reverse-chronological feed, an entry with a strictly
/// later timestamp stands strictly before one with an earlier timestamp —
/// for any page window that holds both.
pub proof fn lemma_feed_ordering(s: Seq<FeedEntryV>, i: int, j: int)
    requires
        sorted_desc(s),
        0 <= i < s.len(),
        0 <= j < s.len(),
        s[i].created > s[j].created,
    ensures
        i < j,
{
    if i > j {
        assert(s[j].created >= s[i].created);
    }
}

} // verus!
