use circular_queue::CircularQueue;
use vstd::prelude::*;
use vstd::utf8::{decode_utf8, encode_utf8, encode_utf8_decode_utf8, is_char_boundary};

use crate::recent::{
    new_queue,
    pair_view,
    pushed_items,
    queue_capacity,
    queue_entries,
    queue_items,
    queue_push,
};

verus! {

/// How many posts of a channel's record are kept, and how many posts of a
/// listing are looked at.
pub const RECENT_LIMIT: usize = 100;

/// A post of a subreddit listing, as the search reads it.
#[derive(Clone, Debug)]
pub struct RedditPost {
    /// The post's full name (`t3_` and its id).
    pub name: String,
    /// The name of the subreddit it was posted in.
    pub subreddit: String,
    /// The URL it links to, if it is a link post.
    pub link_url: Option<String>,
    pub stickied: bool,
    pub nsfw: bool,
}

/// The model of a `RedditPost`.
pub struct PostModel {
    pub name: Seq<char>,
    pub subreddit: Seq<char>,
    pub link_url: Option<Seq<char>>,
    pub stickied: bool,
    pub nsfw: bool,
}

impl View for RedditPost {
    type V = PostModel;

    open spec fn view(&self) -> PostModel {
        PostModel {
            name: self.name@,
            subreddit: self.subreddit@,
            link_url: match self.link_url {
                Some(u) => Some(u@),
                None => None,
            },
            stickied: self.stickied,
            nsfw: self.nsfw,
        }
    }
}

/// The models of a listing.
pub open spec fn posts_view(posts: Seq<RedditPost>) -> Seq<PostModel> {
    posts.map_values(|p: RedditPost| p@)
}

/// A channel and a subreddit name: what a record is kept for.
pub type FeedKey = (u64, Seq<char>);

/// Posts sent, newest first: the subreddit's name and the post's id.
pub type Recent = Seq<(Seq<char>, Seq<char>)>;

/// The posts sent to one channel from one subreddit.
struct KnownFeed {
    channel: u64,
    subreddit: String,
    recent: CircularQueue<(String, String)>,
}

impl KnownFeed {
    spec fn key(&self) -> FeedKey {
        (self.channel, self.subreddit@)
    }
}

spec fn feeds_map(feeds: Seq<KnownFeed>) -> Map<FeedKey, Recent>
    decreases feeds.len(),
{
    if feeds.len() == 0 {
        Map::empty()
    } else {
        feeds_map(feeds.drop_last()).insert(feeds.last().key(), queue_items(feeds.last().recent))
    }
}

/// The record of posts already sent, per channel and subreddit.
pub struct RedditSearch {
    feeds: Vec<KnownFeed>,
}

impl View for RedditSearch {
    type V = Map<FeedKey, Recent>;

    closed spec fn view(&self) -> Map<FeedKey, Recent> {
        feeds_map(self.feeds@)
    }
}

/// The record for a key, empty when there is none.
pub open spec fn recent_of(m: Map<FeedKey, Recent>, k: FeedKey) -> Recent {
    if m.dom().contains(k) {
        m[k]
    } else {
        Seq::empty()
    }
}

/// The records with one for `k`, an empty one if there was none.
pub open spec fn with_feed(m: Map<FeedKey, Recent>, k: FeedKey) -> Map<FeedKey, Recent> {
    if m.dom().contains(k) {
        m
    } else {
        m.insert(k, Seq::empty())
    }
}

/// A record after a post was sent: it comes first, and only the newest
/// `RECENT_LIMIT` are kept.
pub open spec fn remember(items: Recent, entry: (Seq<char>, Seq<char>)) -> Recent {
    let all = seq![entry] + items;
    if all.len() <= RECENT_LIMIT {
        all
    } else {
        all.take(RECENT_LIMIT as int)
    }
}

/// The `count`-th newest post sent for `k` (counting from 0).
pub open spec fn comments_result(m: Map<FeedKey, Recent>, k: FeedKey, count: int) -> Option<
    (Seq<char>, Seq<char>),
> {
    let items = recent_of(m, k);
    if 0 <= count < items.len() {
        Some(items[count])
    } else {
        None
    }
}

/// A post that may be sent: not stickied, not NSFW unless the channel is,
/// and linking somewhere.
pub open spec fn eligible(p: PostModel, nsfw: bool) -> bool {
    !p.stickied && (nsfw || !p.nsfw) && p.link_url is Some
}

/// A full name that can be cut after its first three bytes.
pub open spec fn sliceable(name: Seq<char>) -> bool {
    is_char_boundary(encode_utf8(name), 3)
}

/// A post's id: its full name without the first three bytes.
pub open spec fn post_id(name: Seq<char>) -> Seq<char> {
    decode_utf8(encode_utf8(name).skip(3))
}

/// Whether a post with this id is in the record.
pub open spec fn id_known(items: Recent, id: Seq<char>) -> bool {
    exists|j: int| 0 <= j < items.len() && #[trigger] items[j].1 == id
}

/// How a walk over the listing ends.
pub enum Scan {
    /// At this post, which is sent.
    Picked(int),
    /// At an eligible post whose full name cannot be cut.
    Stuck,
    /// Past the end of the listing or its first `RECENT_LIMIT` posts.
    Exhausted,
}

/// Walking the first `RECENT_LIMIT` posts from `i` on: the first eligible
/// post whose id is not in the record.
pub open spec fn scan_from(posts: Seq<PostModel>, items: Recent, nsfw: bool, i: int) -> Scan
    decreases posts.len() - i,
{
    if i < 0 || i >= posts.len() || i >= RECENT_LIMIT {
        Scan::Exhausted
    } else if !eligible(posts[i], nsfw) {
        scan_from(posts, items, nsfw, i + 1)
    } else if !sliceable(posts[i].name) {
        Scan::Stuck
    } else if id_known(items, post_id(posts[i].name)) {
        scan_from(posts, items, nsfw, i + 1)
    } else {
        Scan::Picked(i)
    }
}

/// The walk over a listing for the record of `k`.
pub open spec fn scan_listing(
    m: Map<FeedKey, Recent>,
    k: FeedKey,
    posts: Seq<PostModel>,
    nsfw: bool,
) -> Scan {
    scan_from(posts, recent_of(m, k), nsfw, 0)
}

/// The record entry for a post: its subreddit's name and its id.
pub open spec fn entry_of(p: PostModel) -> (Seq<char>, Seq<char>) {
    (p.subreddit, post_id(p.name))
}

/// The records after `get_post` walked a listing for `k`.
pub open spec fn state_after_post(
    m: Map<FeedKey, Recent>,
    k: FeedKey,
    posts: Seq<PostModel>,
    nsfw: bool,
) -> Map<FeedKey, Recent> {
    match scan_listing(m, k, posts, nsfw) {
        Scan::Picked(i) => m.insert(k, remember(recent_of(m, k), entry_of(posts[i]))),
        _ => with_feed(m, k),
    }
}

/// How a walk over a listing ended, with the picked post's index and id.
enum Walk {
    Picked(usize, String),
    Stuck,
    Exhausted,
}

/// Whether no two entries of a record have the same id.
pub open spec fn ids_distinct(items: Recent) -> bool {
    forall|a: int, b: int| 0 <= a < b < items.len() ==> #[trigger] items[a].1 != #[trigger] items[b].1
}

/// Every record holds at most `RECENT_LIMIT` entries, no two with the same
/// id.
pub open spec fn records_ok(m: Map<FeedKey, Recent>) -> bool {
    forall|k: FeedKey|
        #[trigger] m.dom().contains(k) ==> m[k].len() <= RECENT_LIMIT && ids_distinct(m[k])
}

/// Why no post was sent.
#[derive(Clone, Copy, PartialEq, Eq, Debug)]
pub enum PostError {
    /// Nothing eligible and new in an NSFW channel.
    NoUrls,
    /// Nothing eligible and new in another channel.
    NoSfwUrls,
}

impl PostError {
    /// The text shown for the error.
    pub fn message(&self) -> (m: String)
        ensures
            m@ == match *self {
                PostError::NoUrls => "Found no URLs in most recent 100 posts"@,
                PostError::NoSfwUrls => "Found no SFW URLs in the most recent 100 posts"@,
            },
    {
        match self {
            PostError::NoUrls => String::from_str("Found no URLs in most recent 100 posts"),
            PostError::NoSfwUrls => String::from_str(
                "Found no SFW URLs in the most recent 100 posts",
            ),
        }
    }
}

proof fn lemma_feeds_map_at(feeds: Seq<KnownFeed>, i: int)
    requires
        0 <= i < feeds.len(),
        forall|a: int, b: int|
            0 <= a < b < feeds.len() ==> #[trigger] feeds[a].key() != #[trigger] feeds[b].key(),
    ensures
        feeds_map(feeds).dom().contains(feeds[i].key()),
        feeds_map(feeds)[feeds[i].key()] == queue_items(feeds[i].recent),
    decreases feeds.len(),
{
    if i < feeds.len() - 1 {
        lemma_feeds_map_at(feeds.drop_last(), i);
        assert(feeds.drop_last()[i] == feeds[i]);
        assert(feeds[i].key() != feeds[feeds.len() - 1].key());
    }
}

proof fn lemma_feeds_map_absent(feeds: Seq<KnownFeed>, k: FeedKey)
    requires
        forall|a: int| 0 <= a < feeds.len() ==> #[trigger] feeds[a].key() != k,
    ensures
        !feeds_map(feeds).dom().contains(k),
    decreases feeds.len(),
{
    if feeds.len() > 0 {
        assert forall|a: int| 0 <= a < feeds.len() - 1 implies #[trigger] feeds.drop_last()[a].key()
            != k by {
            assert(feeds.drop_last()[a] == feeds[a]);
        }
        lemma_feeds_map_absent(feeds.drop_last(), k);
    }
}

proof fn lemma_feeds_map_dom(feeds: Seq<KnownFeed>, k: FeedKey)
    requires
        feeds_map(feeds).dom().contains(k),
    ensures
        exists|a: int| 0 <= a < feeds.len() && #[trigger] feeds[a].key() == k,
    decreases feeds.len(),
{
    if feeds.len() > 0 && feeds.last().key() != k {
        lemma_feeds_map_dom(feeds.drop_last(), k);
        let a = choose|a: int| 0 <= a < feeds.len() - 1 && #[trigger] feeds.drop_last()[a].key() == k;
        assert(feeds[a] == feeds.drop_last()[a]);
    }
}

/// The map of feeds equals the map of another list of feeds when they agree
/// on each key present.
proof fn lemma_feeds_map_update(feeds: Seq<KnownFeed>, i: int, f: KnownFeed)
    requires
        0 <= i < feeds.len(),
        f.key() == feeds[i].key(),
        forall|a: int, b: int|
            0 <= a < b < feeds.len() ==> #[trigger] feeds[a].key() != #[trigger] feeds[b].key(),
    ensures
        feeds_map(feeds.update(i, f)) == feeds_map(feeds).insert(f.key(), queue_items(f.recent)),
    decreases feeds.len(),
{
    let s2 = feeds.update(i, f);
    if i == feeds.len() - 1 {
        assert(s2.drop_last() =~= feeds.drop_last());
        assert(feeds_map(feeds).insert(f.key(), queue_items(f.recent)) =~= feeds_map(
            feeds.drop_last(),
        ).insert(f.key(), queue_items(f.recent)));
    } else {
        assert(s2.drop_last() =~= feeds.drop_last().update(i, f));
        lemma_feeds_map_update(feeds.drop_last(), i, f);
        assert(feeds[i].key() != feeds.last().key());
        assert(feeds_map(s2) =~= feeds_map(feeds).insert(f.key(), queue_items(f.recent)));
    }
}

impl RedditSearch {
    /// Keys are distinct; each record has the fixed capacity and holds no
    /// more than it.
    pub closed spec fn wf(&self) -> bool {
        &&& forall|a: int, b: int|
            0 <= a < b < self.feeds@.len() ==> #[trigger] self.feeds@[a].key()
                != #[trigger] self.feeds@[b].key()
        &&& forall|a: int|
            0 <= a < self.feeds@.len() ==> queue_capacity(#[trigger] self.feeds@[a].recent)
                == RECENT_LIMIT && queue_items(self.feeds@[a].recent).len() <= RECENT_LIMIT
        &&& forall|a: int|
            0 <= a < self.feeds@.len() ==> #[trigger] ids_distinct(
                queue_items(self.feeds@[a].recent),
            )
    }

    /// Every record holds at most `RECENT_LIMIT` posts, no two with the same
    /// id.
    pub proof fn law_records_ok(&self)
        requires
            self.wf(),
        ensures
            records_ok(self@),
    {
        assert forall|k: FeedKey| #[trigger] self@.dom().contains(k) implies self@[k].len()
            <= RECENT_LIMIT && ids_distinct(self@[k]) by {
            lemma_feeds_map_dom(self.feeds@, k);
            let a = choose|a: int| 0 <= a < self.feeds@.len() && #[trigger] self.feeds@[a].key() == k;
            lemma_feeds_map_at(self.feeds@, a);
        }
    }

    /// An empty record.
    pub fn new() -> (s: Self)
        ensures
            s.wf(),
            s@ == Map::<FeedKey, Recent>::empty(),
    {
        RedditSearch { feeds: Vec::new() }
    }

    /// The index of the record for `(channel, sub)`, made empty if missing.
    #[verifier::loop_isolation(false)]
    fn feed_index(&mut self, sub: &String, channel: u64) -> (i: usize)
        requires
            old(self).wf(),
        ensures
            final(self).wf(),
            final(self)@ == with_feed(old(self)@, (channel, sub@)),
            i < final(self).feeds@.len(),
            final(self).feeds@[i as int].key() == (channel, sub@),
            queue_items(final(self).feeds@[i as int].recent) == recent_of(
                old(self)@,
                (channel, sub@),
            ),
    {
        let n = self.feeds.len();
        let mut i: usize = 0;
        while i < n
            invariant
                n == self.feeds@.len(),
                i <= n,
                forall|a: int| 0 <= a < i ==> #[trigger] self.feeds@[a].key() != (channel, sub@),
            decreases n - i,
        {
            if self.feeds[i].channel == channel && self.feeds[i].subreddit == *sub {
                proof {
                    lemma_feeds_map_at(self.feeds@, i as int);
                }
                return i;
            }
            i = i + 1;
        }
        proof {
            lemma_feeds_map_absent(self.feeds@, (channel, sub@));
        }
        let feed = KnownFeed { channel, subreddit: sub.clone(), recent: new_queue(RECENT_LIMIT) };
        let ghost before = self.feeds@;
        self.feeds.push(feed);
        assert(self.feeds@.drop_last() =~= before);
        i
    }

    /// The `count`-th newest post sent to `channel` from `sub` (counting from
    /// 0), as its subreddit's name and its id. An empty record is made for
    /// them if there was none.
    pub fn get_comments(&mut self, sub: String, channel: u64, count: usize) -> (found: Option<
        (String, String),
    >)
        requires
            old(self).wf(),
        ensures
            final(self).wf(),
            final(self)@ == with_feed(old(self)@, (channel, sub@)),
            match found {
                Some(p) => comments_result(old(self)@, (channel, sub@), count as int) == Some(
                    pair_view(p),
                ),
                None => comments_result(old(self)@, (channel, sub@), count as int) is None,
            },
    {
        let i = self.feed_index(&sub, channel);
        let entries = queue_entries(&self.feeds[i].recent);
        if count < entries.len() {
            let e = &entries[count];
            assert(entries@.map_values(|p: (String, String)| pair_view(p))[count as int]
                == pair_view(entries@[count as int]));
            Some((e.0.clone(), e.1.clone()))
        } else {
            None
        }
    }

    /// The index of the record for `(channel, sub)`, if there is one.
    #[verifier::loop_isolation(false)]
    fn find_feed(&self, sub: &String, channel: u64) -> (i: Option<usize>)
        requires
            self.wf(),
        ensures
            match i {
                Some(i) => i < self.feeds@.len() && self.feeds@[i as int].key() == (channel, sub@)
                    && queue_items(self.feeds@[i as int].recent) == recent_of(self@, (channel, sub@)),
                None => !self@.dom().contains((channel, sub@)),
            },
    {
        let n = self.feeds.len();
        let mut i: usize = 0;
        while i < n
            invariant
                n == self.feeds@.len(),
                i <= n,
                forall|a: int| 0 <= a < i ==> #[trigger] self.feeds@[a].key() != (channel, sub@),
            decreases n - i,
        {
            if self.feeds[i].channel == channel && self.feeds[i].subreddit == *sub {
                proof {
                    lemma_feeds_map_at(self.feeds@, i as int);
                }
                return Some(i);
            }
            i = i + 1;
        }
        proof {
            lemma_feeds_map_absent(self.feeds@, (channel, sub@));
        }
        None
    }

    /// Walks the first `RECENT_LIMIT` posts of the listing against the record
    /// for `(channel, sub)`, as `scan_listing` says; a picked post comes with
    /// its id.
    #[verifier::loop_isolation(false)]
    fn walk(&self, sub: &String, channel: u64, nsfw: bool, posts: &Vec<RedditPost>) -> (w: Walk)
        requires
            self.wf(),
        ensures
            match w {
                Walk::Picked(j, id) => scan_listing(self@, (channel, sub@), posts_view(posts@), nsfw)
                    == Scan::Picked(j as int) && id@ == post_id(posts@[j as int].name@),
                Walk::Stuck => scan_listing(self@, (channel, sub@), posts_view(posts@), nsfw)
                    == Scan::Stuck,
                Walk::Exhausted => scan_listing(self@, (channel, sub@), posts_view(posts@), nsfw)
                    == Scan::Exhausted,
            },
    {
        let ghost k = (channel, sub@);
        let ghost pv = posts_view(posts@);
        let ghost items = recent_of(self@, k);
        let entries = match self.find_feed(sub, channel) {
            Some(i) => queue_entries(&self.feeds[i].recent),
            None => Vec::new(),
        };
        assert(entries@.map_values(|p: (String, String)| pair_view(p)) =~= items);
        assert(scan_from(pv, items, nsfw, 0) == scan_listing(self@, k, pv, nsfw));
        let n = posts.len();
        let mut j: usize = 0;
        while j < n && j < RECENT_LIMIT
            invariant
                n == posts@.len(),
                scan_from(pv, items, nsfw, 0) == scan_from(pv, items, nsfw, j as int),
            decreases n - j,
        {
            let p = &posts[j];
            assert(pv[j as int] == p@);
            if !p.stickied && (nsfw || !p.nsfw) && p.link_url.is_some() {
                if !p.name.as_str().is_char_boundary(3) {
                    return Walk::Stuck;
                }
                let id = Self::id_of(&p.name);
                if !Self::known_id(&entries, &id) {
                    return Walk::Picked(j, id);
                }
            }
            j = j + 1;
        }
        Walk::Exhausted
    }

    /// Records the outcome of a walk: a picked post's subreddit name and id
    /// go first into the record for `(channel, sub)`, which is made if
    /// missing; the picked post's URL is returned.
    #[verifier::loop_isolation(false)]
    fn record(
        &mut self,
        sub: String,
        channel: u64,
        nsfw: bool,
        posts: &Vec<RedditPost>,
        w: Walk,
    ) -> (r: Result<String, PostError>)
        requires
            old(self).wf(),
            w !is Stuck,
            match w {
                Walk::Picked(j, id) => scan_listing(
                    old(self)@,
                    (channel, sub@),
                    posts_view(posts@),
                    nsfw,
                ) == Scan::Picked(j as int) && id@ == post_id(posts@[j as int].name@),
                _ => scan_listing(old(self)@, (channel, sub@), posts_view(posts@), nsfw)
                    == Scan::Exhausted,
            },
        ensures
            final(self).wf(),
            final(self)@ == state_after_post(old(self)@, (channel, sub@), posts_view(posts@), nsfw),
            match scan_listing(old(self)@, (channel, sub@), posts_view(posts@), nsfw) {
                Scan::Picked(i) => r matches Ok(url) && posts_view(posts@)[i].link_url == Some(
                    url@,
                ),
                _ => r == Err::<String, PostError>(
                    if nsfw {
                        PostError::NoUrls
                    } else {
                        PostError::NoSfwUrls
                    },
                ),
            },
    {
        let ghost m = self@;
        let ghost k = (channel, sub@);
        let ghost pv = posts_view(posts@);
        let ghost items = recent_of(m, k);
        proof {
            self.law_records_ok();
        }
        let i = self.feed_index(&sub, channel);
        match w {
            Walk::Picked(j, id) => {
                proof {
                    law_post_is_first_unseen(m, k, pv, nsfw);
                }
                let p = &posts[j];
                assert(pv[j as int] == p@);
                let url = match &p.link_url {
                    Some(u) => u.clone(),
                    None => String::new(),
                };
                let entry = (p.subreddit.clone(), id);
                let ghost before = self.feeds@;
                proof {
                    lemma_feeds_map_at(before, i as int);
                }
                queue_push(&mut self.feeds[i].recent, entry);
                proof {
                    let f = self.feeds@[i as int];
                    assert(self.feeds@ =~= before.update(i as int, f));
                    lemma_feeds_map_update(before, i as int, f);
                    assert(remember(items, entry_of(pv[j as int])) =~= pushed_items(
                        items,
                        entry_of(pv[j as int]),
                        RECENT_LIMIT as nat,
                    ));
                    lemma_remember_distinct(items, entry_of(pv[j as int]));
                    assert forall|a: int| 0 <= a < self.feeds@.len() implies #[trigger] ids_distinct(
                        queue_items(self.feeds@[a].recent),
                    ) by {
                        if a != i {
                            assert(self.feeds@[a] == before[a]);
                        }
                    }
                }
                assert(self@ =~= state_after_post(m, k, pv, nsfw));
                Ok(url)
            },
            _ => {
                assert(self@ =~= state_after_post(m, k, pv, nsfw));
                if nsfw {
                    Err(PostError::NoUrls)
                } else {
                    Err(PostError::NoSfwUrls)
                }
            },
        }
    }

    /// `get_post`, unless its walk would reach an eligible post whose full
    /// name cannot be cut after three bytes (where `get_post` cannot go):
    /// then nothing changes and the result is `None`.
    pub fn try_get_post(
        &mut self,
        sub: String,
        channel: u64,
        nsfw: bool,
        posts: &Vec<RedditPost>,
    ) -> (r: Option<Result<String, PostError>>)
        requires
            old(self).wf(),
        ensures
            final(self).wf(),
            scan_listing(old(self)@, (channel, sub@), posts_view(posts@), nsfw) == Scan::Stuck
                ==> r is None && final(self)@ == old(self)@,
            scan_listing(old(self)@, (channel, sub@), posts_view(posts@), nsfw) != Scan::Stuck
                ==> final(self)@ == state_after_post(
                old(self)@,
                (channel, sub@),
                posts_view(posts@),
                nsfw,
            ),
            match scan_listing(old(self)@, (channel, sub@), posts_view(posts@), nsfw) {
                Scan::Picked(i) => r matches Some(Ok(url)) && posts_view(posts@)[i].link_url
                    == Some(url@),
                Scan::Exhausted => r == Some(
                    Err::<String, PostError>(
                        if nsfw {
                            PostError::NoUrls
                        } else {
                            PostError::NoSfwUrls
                        },
                    ),
                ),
                Scan::Stuck => r is None,
            },
    {
        let w = self.walk(&sub, channel, nsfw, posts);
        match w {
            Walk::Stuck => None,
            _ => Some(self.record(sub, channel, nsfw, posts, w)),
        }
    }

    /// The id of a post: its full name without the first three bytes.
    fn id_of(name: &String) -> (id: String)
        requires
            sliceable(name@),
        ensures
            id@ == post_id(name@),
    {
        let (_, rest) = name.as_str().split_at(3);
        proof {
            encode_utf8_decode_utf8(rest@);
        }
        String::from_str(rest)
    }

    /// Whether `id` is the id of a post in `entries`.
    fn known_id(entries: &Vec<(String, String)>, id: &String) -> (known: bool)
        ensures
            known == id_known(entries@.map_values(|p: (String, String)| pair_view(p)), id@),
    {
        let ghost items = entries@.map_values(|p: (String, String)| pair_view(p));
        let mut j: usize = 0;
        while j < entries.len()
            invariant
                items == entries@.map_values(|p: (String, String)| pair_view(p)),
                j <= entries@.len(),
                forall|a: int| 0 <= a < j ==> #[trigger] items[a].1 != id@,
            decreases entries@.len() - j,
        {
            assert(items[j as int] == pair_view(entries@[j as int]));
            if entries[j].1 == *id {
                assert(items[j as int].1 == id@);
                return true;
            }
            j = j + 1;
        }
        assert(!id_known(items, id@));
        false
    }

    /// Sends an unseen post: walks the first `RECENT_LIMIT` posts of the
    /// listing and takes the first one that is not stickied, not NSFW unless
    /// the channel is, links somewhere, and has an id not yet sent to
    /// `channel` from `sub`. Its subreddit's name and id are recorded and its
    /// URL returned.
    pub fn get_post(&mut self, sub: String, channel: u64, nsfw: bool, posts: &Vec<RedditPost>) -> (r:
        Result<String, PostError>)
        requires
            old(self).wf(),
            scan_listing(old(self)@, (channel, sub@), posts_view(posts@), nsfw) != Scan::Stuck,
        ensures
            final(self).wf(),
            final(self)@ == state_after_post(old(self)@, (channel, sub@), posts_view(posts@), nsfw),
            match scan_listing(old(self)@, (channel, sub@), posts_view(posts@), nsfw) {
                Scan::Picked(i) => r matches Ok(url) && posts_view(posts@)[i].link_url == Some(
                    url@,
                ),
                _ => r == Err::<String, PostError>(
                    if nsfw {
                        PostError::NoUrls
                    } else {
                        PostError::NoSfwUrls
                    },
                ),
            },
    {
        let w = self.walk(&sub, channel, nsfw, posts);
        self.record(sub, channel, nsfw, posts, w)
    }
}

/// The link to the comments of a post.
pub open spec fn comments_link(sub: Seq<char>, id: Seq<char>) -> Seq<char> {
    "https://reddit.com/r/"@ + sub + "/comments/"@ + id + "/"@
}

/// The link to the comments of a post.
pub fn comments_url(sub: &str, id: &str) -> (url: String)
    ensures
        url@ == comments_link(sub@, id@),
{
    String::from_str("https://reddit.com/r/").concat(sub).concat("/comments/").concat(id).concat("/")
}

/// The answer to asking for the comments of the `count`-th newest post sent
/// to `channel` from `subreddit` (1 when not given): the link to them, or
/// why there is none.
pub fn reddit_comments(
    search: &mut RedditSearch,
    subreddit: String,
    channel: u64,
    count: Option<usize>,
) -> (r: Result<String, String>)
    requires
        old(search).wf(),
        count != Some(0usize),
    ensures
        final(search).wf(),
        final(search)@ == with_feed(old(search)@, (channel, subreddit@)),
        match comments_result(
            old(search)@,
            (channel, subreddit@),
            (match count {
                Some(c) => c,
                None => 1usize,
            }) - 1,
        ) {
            Some(e) => r matches Ok(url) && url@ == comments_link(e.0, e.1),
            None => r matches Err(m) && m@ == "No post for that subreddit was sent previously"@,
        },
{
    let n = match count {
        Some(c) => c,
        None => 1,
    };
    match search.get_comments(subreddit, channel, n - 1) {
        Some((sub, id)) => Ok(comments_url(sub.as_str(), id.as_str())),
        None => Err(String::from_str("No post for that subreddit was sent previously")),
    }
}

proof fn lemma_remember_distinct(items: Recent, entry: (Seq<char>, Seq<char>))
    requires
        ids_distinct(items),
        !id_known(items, entry.1),
    ensures
        ids_distinct(remember(items, entry)),
        remember(items, entry).len() <= RECENT_LIMIT,
{
    let all = seq![entry] + items;
    assert forall|a: int, b: int| 0 <= a < b < all.len() implies #[trigger] all[a].1 != #[trigger] all[b].1 by {
        if a == 0 {
            assert(all[b] == items[b - 1]);
        } else {
            assert(all[a] == items[a - 1]);
            assert(all[b] == items[b - 1]);
        }
    }
}

proof fn lemma_scan_picked(posts: Seq<PostModel>, items: Recent, nsfw: bool, start: int)
    requires
        0 <= start,
        scan_from(posts, items, nsfw, start) is Picked,
    ensures
        ({
            let i = scan_from(posts, items, nsfw, start)->Picked_0;
            &&& start <= i < posts.len()
            &&& i < RECENT_LIMIT
            &&& eligible(posts[i], nsfw)
            &&& sliceable(posts[i].name)
            &&& !id_known(items, post_id(posts[i].name))
            &&& forall|j: int|
                start <= j < i ==> !eligible(#[trigger] posts[j], nsfw) || id_known(
                    items,
                    post_id(posts[j].name),
                )
        }),
    decreases posts.len() - start,
{
    if start < posts.len() && start < RECENT_LIMIT {
        if !eligible(posts[start], nsfw) || (sliceable(posts[start].name) && id_known(
            items,
            post_id(posts[start].name),
        )) {
            lemma_scan_picked(posts, items, nsfw, start + 1);
        }
    }
}

/// The post that `get_post` sends is among the first `RECENT_LIMIT` of the
/// listing, eligible, and not yet sent for that channel and subreddit; every
/// eligible post before it was sent already.
pub proof fn law_post_is_first_unseen(
    m: Map<FeedKey, Recent>,
    k: FeedKey,
    posts: Seq<PostModel>,
    nsfw: bool,
)
    ensures
        scan_listing(m, k, posts, nsfw) matches Scan::Picked(i) ==> {
            &&& 0 <= i < posts.len()
            &&& i < RECENT_LIMIT
            &&& eligible(posts[i], nsfw)
            &&& !id_known(recent_of(m, k), post_id(posts[i].name))
            &&& forall|j: int|
                0 <= j < i ==> !eligible(#[trigger] posts[j], nsfw) || id_known(
                    recent_of(m, k),
                    post_id(posts[j].name),
                )
        },
{
    if scan_listing(m, k, posts, nsfw) is Picked {
        lemma_scan_picked(posts, recent_of(m, k), nsfw, 0);
    }
}

/// After `get_post` sent a post, asking for the comments of the newest post
/// sent for that channel and subreddit gives that post.
pub proof fn law_comments_follow_post(
    m: Map<FeedKey, Recent>,
    k: FeedKey,
    posts: Seq<PostModel>,
    nsfw: bool,
)
    ensures
        scan_listing(m, k, posts, nsfw) matches Scan::Picked(i) ==> comments_result(
            state_after_post(m, k, posts, nsfw),
            k,
            0,
        ) == Some(entry_of(posts[i])),
{
}

/// Walking the same listing twice for a channel and subreddit never sends
/// the same post twice in a row.
pub proof fn law_no_repeat(m: Map<FeedKey, Recent>, k: FeedKey, posts: Seq<PostModel>, nsfw: bool)
    ensures
        scan_listing(m, k, posts, nsfw) matches Scan::Picked(i) ==> (scan_listing(
            state_after_post(m, k, posts, nsfw),
            k,
            posts,
            nsfw,
        ) matches Scan::Picked(j) ==> post_id(posts[j].name) != post_id(posts[i].name)),
{
    if scan_listing(m, k, posts, nsfw) is Picked {
        let i = scan_listing(m, k, posts, nsfw)->Picked_0;
        let m2 = state_after_post(m, k, posts, nsfw);
        let r2 = recent_of(m2, k);
        assert(r2[0] == entry_of(posts[i]));
        if scan_listing(m2, k, posts, nsfw) is Picked {
            law_post_is_first_unseen(m2, k, posts, nsfw);
            let j = scan_listing(m2, k, posts, nsfw)->Picked_0;
            if post_id(posts[j].name) == post_id(posts[i].name) {
                assert(r2[0].1 == post_id(posts[j].name));
                assert(id_known(r2, post_id(posts[j].name)));
            }
        }
    }
}

/// Asking for comments never changes which posts are recorded as sent.
pub proof fn law_comments_keep_records(m: Map<FeedKey, Recent>, k: FeedKey, k2: FeedKey)
    ensures
        recent_of(with_feed(m, k), k2) == recent_of(m, k2),
{
}

/// Sending a post for one channel and subreddit leaves the records of all
/// others as they were.
pub proof fn law_records_are_separate(
    m: Map<FeedKey, Recent>,
    k: FeedKey,
    k2: FeedKey,
    posts: Seq<PostModel>,
    nsfw: bool,
)
    requires
        k2 != k,
    ensures
        recent_of(state_after_post(m, k, posts, nsfw), k2) == recent_of(m, k2),
{
}

/// After `get_post` sent a post, the older posts of the record move one
/// place down: what `get_comments` gave at position `c` it now gives at
/// `c + 1`, while that stays within `RECENT_LIMIT`.
pub proof fn law_comments_shift_after_post(
    m: Map<FeedKey, Recent>,
    k: FeedKey,
    posts: Seq<PostModel>,
    nsfw: bool,
    c: int,
)
    requires
        0 <= c,
        c + 1 < RECENT_LIMIT,
    ensures
        scan_listing(m, k, posts, nsfw) is Picked ==> comments_result(
            state_after_post(m, k, posts, nsfw),
            k,
            c + 1,
        ) == comments_result(m, k, c),
{
    if scan_listing(m, k, posts, nsfw) is Picked {
        let i = scan_listing(m, k, posts, nsfw)->Picked_0;
        let items = recent_of(m, k);
        let after = recent_of(state_after_post(m, k, posts, nsfw), k);
        let all = seq![entry_of(posts[i])] + items;
        if c < items.len() {
            assert(after[c + 1] == all[c + 1]);
        }
    }
}

/// Walking a listing keeps every record within `RECENT_LIMIT` entries with
/// distinct ids.
pub proof fn law_records_ok_after_post(
    m: Map<FeedKey, Recent>,
    k: FeedKey,
    posts: Seq<PostModel>,
    nsfw: bool,
)
    requires
        records_ok(m),
    ensures
        records_ok(state_after_post(m, k, posts, nsfw)),
{
    let m2 = state_after_post(m, k, posts, nsfw);
    if scan_listing(m, k, posts, nsfw) is Picked {
        let i = scan_listing(m, k, posts, nsfw)->Picked_0;
        law_post_is_first_unseen(m, k, posts, nsfw);
        lemma_remember_distinct(recent_of(m, k), entry_of(posts[i]));
    }
    assert forall|k2: FeedKey| #[trigger] m2.dom().contains(k2) implies m2[k2].len()
        <= RECENT_LIMIT && ids_distinct(m2[k2]) by {
        if k2 != k {
            assert(m.dom().contains(k2));
        }
    }
}

/// A request on the records: a walk of a listing for a key, or a question
/// for the comments of one.
pub enum Request {
    Post { key: FeedKey, posts: Seq<PostModel>, nsfw: bool },
    Comments { key: FeedKey },
}

/// The records after one request.
pub open spec fn apply_request(m: Map<FeedKey, Recent>, r: Request) -> Map<FeedKey, Recent> {
    match r {
        Request::Post { key, posts, nsfw } => state_after_post(m, key, posts, nsfw),
        Request::Comments { key } => with_feed(m, key),
    }
}

/// The records after the requests, in order.
pub open spec fn run_requests(m: Map<FeedKey, Recent>, rs: Seq<Request>) -> Map<FeedKey, Recent>
    decreases rs.len(),
{
    if rs.len() == 0 {
        m
    } else {
        apply_request(run_requests(m, rs.drop_last()), rs.last())
    }
}

/// The ids of the posts sent for key `k` by the requests, in order.
pub open spec fn sent_ids(m: Map<FeedKey, Recent>, rs: Seq<Request>, k: FeedKey) -> Seq<Seq<char>>
    decreases rs.len(),
{
    if rs.len() == 0 {
        Seq::empty()
    } else {
        let prev = sent_ids(m, rs.drop_last(), k);
        let before = run_requests(m, rs.drop_last());
        match rs.last() {
            Request::Post { key, posts, nsfw } => if key == k {
                match scan_listing(before, key, posts, nsfw) {
                    Scan::Picked(i) => prev.push(post_id(posts[i].name)),
                    _ => prev,
                }
            } else {
                prev
            },
            Request::Comments { .. } => prev,
        }
    }
}

proof fn lemma_run_requests(m: Map<FeedKey, Recent>, rs: Seq<Request>, k: FeedKey)
    requires
        records_ok(m),
    ensures
        records_ok(run_requests(m, rs)),
        sent_ids(m, rs, k).len() <= RECENT_LIMIT ==> {
            let sent = sent_ids(m, rs, k);
            let rec = recent_of(run_requests(m, rs), k);
            &&& rec.len() >= sent.len()
            &&& forall|j: int| 0 <= j < sent.len() ==> #[trigger] rec[j].1 == sent[sent.len() - 1 - j]
        },
    decreases rs.len(),
{
    if rs.len() > 0 {
        let prev_rs = rs.drop_last();
        lemma_run_requests(m, prev_rs, k);
        let before = run_requests(m, prev_rs);
        let sent0 = sent_ids(m, prev_rs, k);
        let rec0 = recent_of(before, k);
        match rs.last() {
            Request::Post { key, posts, nsfw } => {
                law_records_ok_after_post(before, key, posts, nsfw);
                if key != k {
                    law_records_are_separate(before, key, k, posts, nsfw);
                } else if scan_listing(before, key, posts, nsfw) is Picked {
                    let i = scan_listing(before, key, posts, nsfw)->Picked_0;
                    let sent = sent_ids(m, rs, k);
                    let rec = recent_of(run_requests(m, rs), k);
                    let all = seq![entry_of(posts[i])] + rec0;
                    if sent.len() <= RECENT_LIMIT {
                        assert forall|j: int| 0 <= j < sent.len() implies #[trigger] rec[j].1
                            == sent[sent.len() - 1 - j] by {
                            assert(rec[j] == all[j]);
                            if j > 0 {
                                assert(all[j] == rec0[j - 1]);
                            }
                        }
                    }
                } else {
                }
            },
            Request::Comments { key } => {
                law_comments_keep_records(before, key, k);
                let m2 = with_feed(before, key);
                assert forall|k2: FeedKey| #[trigger] m2.dom().contains(k2) implies m2[k2].len()
                    <= RECENT_LIMIT && ids_distinct(m2[k2]) by {
                    if k2 != key || before.dom().contains(key) {
                        assert(before.dom().contains(k2));
                    }
                }
            },
        }
    }
}

/// Over any requests, the posts sent for one channel and subreddit are
/// pairwise distinct as long as there are at most `RECENT_LIMIT` of them:
/// a post is never sent twice while it is among that record's newest.
pub proof fn law_sends_are_distinct(m: Map<FeedKey, Recent>, rs: Seq<Request>, k: FeedKey)
    requires
        records_ok(m),
        sent_ids(m, rs, k).len() <= RECENT_LIMIT,
    ensures
        forall|a: int, b: int|
            0 <= a < b < sent_ids(m, rs, k).len() ==> #[trigger] sent_ids(m, rs, k)[a]
                != #[trigger] sent_ids(m, rs, k)[b],
{
    lemma_run_requests(m, rs, k);
    let sent = sent_ids(m, rs, k);
    let fin = run_requests(m, rs);
    let rec = recent_of(fin, k);
    assert forall|a: int, b: int| 0 <= a < b < sent.len() implies #[trigger] sent[a]
        != #[trigger] sent[b] by {
        let ja = sent.len() - 1 - a;
        let jb = sent.len() - 1 - b;
        assert(rec[ja].1 == sent[a]);
        assert(rec[jb].1 == sent[b]);
        assert(fin.dom().contains(k));
        assert(ids_distinct(fin[k]));
    }
}

} // verus!
