//! Reading an RSS channel and picking the episodes to keep.
use vstd::prelude::*;
use crate::config::{MaxEpisodes, RssFeed, spec_feed_limit};
use crate::text::{lemma_trim_idempotent, spec_trim, trim};

verus! {

/// An episode: its title and the URL of its audio file.
pub struct Episode {
    pub title: String,
    pub url: String,
}

impl View for Episode {
    type V = (Seq<char>, Seq<char>);

    open spec fn view(&self) -> (Seq<char>, Seq<char>) {
        (self.title@, self.url@)
    }
}

/// An item of a channel as plain values: its title and its enclosure's URL, where it has them.
pub struct ChannelItem {
    pub title: Option<String>,
    pub enclosure_url: Option<String>,
}

pub open spec fn opt_view(s: Option<String>) -> Option<Seq<char>> {
    match s {
        Some(t) => Some(t@),
        None => None,
    }
}

impl View for ChannelItem {
    type V = (Option<Seq<char>>, Option<Seq<char>>);

    open spec fn view(&self) -> (Option<Seq<char>>, Option<Seq<char>>) {
        (opt_view(self.title), opt_view(self.enclosure_url))
    }
}

/// A channel as plain values: its title and its items, in document order.
pub struct ChannelDoc {
    pub title: String,
    pub items: Vec<ChannelItem>,
}

impl View for ChannelDoc {
    type V = (Seq<char>, Seq<(Option<Seq<char>>, Option<Seq<char>>)>);

    open spec fn view(&self) -> (Seq<char>, Seq<(Option<Seq<char>>, Option<Seq<char>>)>) {
        (self.title@, self.items@.map_values(|i: ChannelItem| i@))
    }
}

#[verifier::external_type_specification]
#[verifier::external_body]
pub struct ExRssError(rss::Error);

/// Why a feed could not be read.
pub enum FeedError {
    /// The fetched bytes are not an RSS channel.
    RssChannelRead(rss::Error),
}

/// The channel that `rss::Channel::read_from` reads from `bytes`, as its title and its
/// items' titles and enclosure URLs; `None` where it fails.
pub uninterp spec fn rss_channel(bytes: Seq<u8>) -> Option<
    (Seq<char>, Seq<(Option<Seq<char>>, Option<Seq<char>>)>),
>;

/// `rss::Channel::read_from` on `bytes`, its result converted to plain values: the
/// channel's title, and for each item its title and its enclosure's URL. The
/// contract names the result and claims nothing else of it.
#[verifier::external_body]
fn read_channel(bytes: &[u8]) -> (r: Result<ChannelDoc, rss::Error>)
    ensures
        match r {
            Ok(doc) => rss_channel(bytes@) == Some(doc@),
            Err(_) => rss_channel(bytes@) is None,
        },
{
    let channel = rss::Channel::read_from(bytes)?;
    let items = channel.items().iter().map(|item| ChannelItem {
        title: item.title().map(|t| t.to_string()),
        enclosure_url: item.enclosure().map(|e| e.url().to_string()),
    }).collect();
    Ok(ChannelDoc { title: channel.title().to_string(), items })
}

/// The feed's title: the channel title trimmed, or `unknown-feed` where that is empty.
pub open spec fn spec_feed_title(channel_title: Seq<char>) -> Seq<char> {
    if spec_trim(channel_title).len() == 0 {
        "unknown-feed"@
    } else {
        spec_trim(channel_title)
    }
}

/// The episode an item gives, if any: items without an enclosure, or whose
/// enclosure URL is blank, give none; an untitled item is titled `untitled`.
pub open spec fn spec_item_episode(item: (Option<Seq<char>>, Option<Seq<char>>)) -> Option<
    (Seq<char>, Seq<char>),
> {
    match item.1 {
        None => None,
        Some(u) => if spec_trim(u).len() == 0 {
            None
        } else {
            Some(
                (
                    match item.0 {
                        Some(t) => t,
                        None => "untitled"@,
                    },
                    spec_trim(u),
                ),
            )
        },
    }
}

/// The episodes that the items give, in order.
pub open spec fn spec_episodes(items: Seq<(Option<Seq<char>>, Option<Seq<char>>)>) -> Seq<
    (Seq<char>, Seq<char>),
>
    decreases items.len(),
{
    if items.len() == 0 {
        Seq::empty()
    } else {
        match spec_item_episode(items.last()) {
            Some(e) => spec_episodes(items.drop_last()).push(e),
            None => spec_episodes(items.drop_last()),
        }
    }
}

/// The first `limit` elements of `s`, or all of them where there is no limit or
/// `s` is shorter.
pub open spec fn spec_limited<A>(s: Seq<A>, limit: Option<usize>) -> Seq<A> {
    match limit {
        Some(l) => if l < s.len() {
            s.subrange(0, l as int)
        } else {
            s
        },
        None => s,
    }
}

/// What `feed_from_channel` returns for a channel `doc`, a feed entry and the
/// top-level episode setting.
pub open spec fn spec_feed_from_channel(
    doc: (Seq<char>, Seq<(Option<Seq<char>>, Option<Seq<char>>)>),
    feed: RssFeed,
    default_max: Option<MaxEpisodes>,
) -> (Seq<char>, Seq<(Seq<char>, Seq<char>)>, Option<usize>) {
    let limit: Option<usize> = spec_feed_limit(feed, default_max);
    (spec_feed_title(doc.0), spec_limited(spec_episodes(doc.1), limit), limit)
}

/// The view of what `parse_rss` and `feed_from_channel` return.
pub open spec fn parsed_view(p: (String, Vec<Episode>, Option<usize>)) -> (
    Seq<char>,
    Seq<(Seq<char>, Seq<char>)>,
    Option<usize>,
) {
    (p.0@, p.1@.map_values(|e: Episode| e@), p.2)
}

/// The episode an item gives, if any.
fn item_episode(item: &ChannelItem) -> (r: Option<Episode>)
    ensures
        match r {
            Some(e) => spec_item_episode(item@) == Some(e@),
            None => spec_item_episode(item@) is None,
        },
{
    match &item.enclosure_url {
        None => None,
        Some(u) => {
            let url: String = trim(u.as_str());
            if url.as_str().is_empty() {
                None
            } else {
                let title: String = match &item.title {
                    Some(t) => t.clone(),
                    None => {
                        let t: String = String::from_str("untitled");
                        proof {
                            reveal_strlit("untitled");
                        }
                        t
                    },
                };
                Some(Episode { title, url })
            }
        },
    }
}

/// The feed title, the episodes to keep (those of the channel's items that have an
/// enclosure URL, at most as many as the feed's limit) and that limit.
pub fn feed_from_channel(doc: &ChannelDoc, feed: &RssFeed, default_max_episodes: &Option<MaxEpisodes>) -> (r: (
    String,
    Vec<Episode>,
    Option<usize>,
))
    ensures
        parsed_view(r) == spec_feed_from_channel(doc@, *feed, *default_max_episodes),
{
    let t: String = trim(doc.title.as_str());
    let title: String = if t.as_str().is_empty() {
        let u: String = String::from_str("unknown-feed");
        proof {
            reveal_strlit("unknown-feed");
        }
        u
    } else {
        t
    };
    let ghost items: Seq<(Option<Seq<char>>, Option<Seq<char>>)> = doc@.1;
    let mut episodes: Vec<Episode> = Vec::new();
    let mut i: usize = 0;
    while i < doc.items.len()
        invariant
            i <= doc.items@.len(),
            items == doc@.1,
            items.len() == doc.items@.len(),
            episodes@.map_values(|e: Episode| e@) == spec_episodes(items.subrange(0, i as int)),
        decreases doc.items.len() - i,
    {
        let ghost before: Seq<Episode> = episodes@;
        match item_episode(&doc.items[i]) {
            Some(e) => {
                episodes.push(e);
                assert(episodes@.map_values(|e: Episode| e@) =~= before.map_values(
                    |e: Episode| e@,
                ).push(e@));
            },
            None => {},
        }
        proof {
            let p = items.subrange(0, i + 1);
            assert(p.drop_last() == items.subrange(0, i as int));
            assert(p.last() == doc.items@[i as int]@);
        }
        i = i + 1;
    }
    assert(items.subrange(0, items.len() as int) == items);
    let max_episodes: Option<usize> = feed.max_episodes(default_max_episodes);
    let ghost all: Seq<Episode> = episodes@;
    if let Some(limit) = max_episodes {
        episodes.truncate(limit);
        assert(episodes@.map_values(|e: Episode| e@) =~= spec_limited(
            all.map_values(|e: Episode| e@),
            max_episodes,
        ));
    }
    (title, episodes, max_episodes)
}

/// Reads the channel in the fetched `bytes` and picks its episodes for `feed`
/// (see `feed_from_channel`); fails where the bytes are not an RSS channel.
pub fn parse_rss(bytes: &[u8], feed: &RssFeed, default_max_episodes: &Option<MaxEpisodes>) -> (r: Result<
    (String, Vec<Episode>, Option<usize>),
    FeedError,
>)
    ensures
        match r {
            Ok(p) => rss_channel(bytes@) is Some && parsed_view(p) == spec_feed_from_channel(
                rss_channel(bytes@)->0,
                *feed,
                *default_max_episodes,
            ),
            Err(FeedError::RssChannelRead(_)) => rss_channel(bytes@) is None,
        },
{
    match read_channel(bytes) {
        Ok(doc) => Ok(feed_from_channel(&doc, feed, default_max_episodes)),
        Err(source) => Err(FeedError::RssChannelRead(source)),
    }
}

proof fn lemma_episodes_have_urls(items: Seq<(Option<Seq<char>>, Option<Seq<char>>)>)
    ensures
        forall|i: int|
            0 <= i < spec_episodes(items).len() ==> (#[trigger] spec_episodes(items)[i]).1.len() > 0
                && spec_trim(spec_episodes(items)[i].1) == spec_episodes(items)[i].1,
    decreases items.len(),
{
    if items.len() > 0 {
        let prev = items.drop_last();
        lemma_episodes_have_urls(prev);
        let item = items.last();
        if let Some(u) = item.1 {
            lemma_trim_idempotent(u);
        }
        let eps = spec_episodes(items);
        assert forall|i: int| 0 <= i < eps.len() implies (#[trigger] eps[i]).1.len() > 0
            && spec_trim(eps[i].1) == eps[i].1 by {
            if i < spec_episodes(prev).len() {
                assert(eps[i] == spec_episodes(prev)[i]);
            }
        }
    }
}

/// Law: a read feed has a non-empty title, keeps no more episodes than its limit,
/// and every kept episode has a non-blank URL with no whitespace at either end.
pub proof fn lemma_feed_from_channel_shape(
    doc: (Seq<char>, Seq<(Option<Seq<char>>, Option<Seq<char>>)>),
    feed: RssFeed,
    default_max: Option<MaxEpisodes>,
)
    ensures
        ({
            let (title, episodes, limit) = spec_feed_from_channel(doc, feed, default_max);
            &&& title.len() > 0
            &&& limit matches Some(l) ==> episodes.len() <= l
            &&& forall|i: int|
                0 <= i < episodes.len() ==> (#[trigger] episodes[i]).1.len() > 0 && spec_trim(
                    episodes[i].1,
                ) == episodes[i].1
        }),
{
    reveal_strlit("unknown-feed");
    lemma_episodes_have_urls(doc.1);
    let all = spec_episodes(doc.1);
    let (title, episodes, limit) = spec_feed_from_channel(doc, feed, default_max);
    assert forall|i: int| 0 <= i < episodes.len() implies (#[trigger] episodes[i]).1.len() > 0
        && spec_trim(episodes[i].1) == episodes[i].1 by {
        assert(episodes[i] == all[i]);
    }
}

/// The item has an enclosure whose URL is not blank.
pub open spec fn has_enclosure_url(item: (Option<Seq<char>>, Option<Seq<char>>)) -> bool {
    item.1 matches Some(u) && spec_trim(u).len() > 0
}

/// `e` is the episode for `item`: the item's title (or `untitled`) and the item's
/// enclosure URL with only the surrounding whitespace removed.
pub open spec fn is_episode_of(
    item: (Option<Seq<char>>, Option<Seq<char>>),
    e: (Seq<char>, Seq<char>),
) -> bool {
    &&& has_enclosure_url(item)
    &&& e.1 == spec_trim(item.1->0)
    &&& e.0 == (match item.0 {
        Some(t) => t,
        None => "untitled"@,
    })
}

/// Which items give the episodes `eps`: one increasing index per episode.
pub open spec fn indexes_items(
    items: Seq<(Option<Seq<char>>, Option<Seq<char>>)>,
    eps: Seq<(Seq<char>, Seq<char>)>,
    idx: Seq<int>,
) -> bool {
    &&& idx.len() == eps.len()
    &&& forall|i: int, j: int| 0 <= i < j < idx.len() ==> #[trigger] idx[i] < #[trigger] idx[j]
    &&& forall|i: int|
        0 <= i < idx.len() ==> 0 <= #[trigger] idx[i] < items.len() && is_episode_of(
            items[idx[i]],
            eps[i],
        )
}

proof fn episodes_index(items: Seq<(Option<Seq<char>>, Option<Seq<char>>)>) -> (idx: Seq<int>)
    ensures
        indexes_items(items, spec_episodes(items), idx),
        forall|k: int| 0 <= k < items.len() && has_enclosure_url(#[trigger] items[k]) ==> idx.contains(k),
    decreases items.len(),
{
    if items.len() == 0 {
        Seq::empty()
    } else {
        let prev = items.drop_last();
        let pidx: Seq<int> = episodes_index(prev);
        let last = items.last();
        let n: int = items.len() - 1;
        assert forall|k: int| 0 <= k < prev.len() implies #[trigger] prev[k] == items[k] by {}
        if has_enclosure_url(last) {
            let idx: Seq<int> = pidx.push(n);
            let eps = spec_episodes(items);
            assert(eps == spec_episodes(prev).push(spec_item_episode(last)->0));
            assert forall|i: int| 0 <= i < idx.len() implies 0 <= #[trigger] idx[i] < items.len()
                && is_episode_of(items[idx[i]], eps[i]) by {
                if i < pidx.len() {
                    assert(idx[i] == pidx[i]);
                    assert(prev[pidx[i]] == items[pidx[i]]);
                }
            }
            assert forall|k: int| 0 <= k < items.len() && has_enclosure_url(
                #[trigger] items[k],
            ) implies idx.contains(k) by {
                if k < n {
                    assert(prev[k] == items[k]);
                    let p: int = choose|p: int| 0 <= p < pidx.len() && pidx[p] == k;
                    assert(idx[p] == k);
                } else {
                    assert(idx[idx.len() - 1] == k);
                }
            }
            idx
        } else {
            assert(spec_episodes(items) == spec_episodes(prev));
            assert forall|i: int| 0 <= i < pidx.len() implies 0 <= #[trigger] pidx[i] < items.len()
                && is_episode_of(items[pidx[i]], spec_episodes(items)[i]) by {
                assert(prev[pidx[i]] == items[pidx[i]]);
            }
            assert forall|k: int| 0 <= k < items.len() && has_enclosure_url(
                #[trigger] items[k],
            ) implies pidx.contains(k) by {
                assert(prev[k] == items[k]);
            }
            pidx
        }
    }
}

/// Law: the feed's title is the channel title trimmed, or `unknown-feed` where that
/// is blank; each kept episode comes from an item, in item order, and carries the
/// item's title (or `untitled`) and its enclosure URL with only surrounding
/// whitespace removed; every item with a non-blank enclosure URL gives an episode,
/// except those after the first `limit` such items.
pub proof fn lemma_feed_episodes_from_items(
    doc: (Seq<char>, Seq<(Option<Seq<char>>, Option<Seq<char>>)>),
    feed: RssFeed,
    default_max: Option<MaxEpisodes>,
)
    ensures
        ({
            let (title, episodes, limit) = spec_feed_from_channel(doc, feed, default_max);
            &&& spec_trim(doc.0).len() > 0 ==> title == spec_trim(doc.0)
            &&& spec_trim(doc.0).len() == 0 ==> title == "unknown-feed"@
            &&& exists|idx: Seq<int>|
                {
                    &&& #[trigger] indexes_items(doc.1, episodes, idx)
                    &&& forall|k: int|
                        0 <= k < doc.1.len() && has_enclosure_url(#[trigger] doc.1[k])
                            && !idx.contains(k) ==> (limit matches Some(l) && episodes.len() == l
                            && forall|i: int| 0 <= i < idx.len() ==> idx[i] < k)
                }
        }),
{
    let items = doc.1;
    let all = spec_episodes(items);
    let aidx: Seq<int> = episodes_index(items);
    let (title, episodes, limit) = spec_feed_from_channel(doc, feed, default_max);
    let m: int = episodes.len() as int;
    assert(episodes == all.subrange(0, m));
    let idx: Seq<int> = aidx.subrange(0, m);
    assert forall|i: int| 0 <= i < idx.len() implies 0 <= #[trigger] idx[i] < items.len()
        && is_episode_of(items[idx[i]], episodes[i]) by {
        assert(idx[i] == aidx[i]);
        assert(episodes[i] == all[i]);
    }
    assert forall|i: int, j: int| 0 <= i < j < idx.len() implies #[trigger] idx[i] < #[trigger] idx[j] by {
        assert(idx[i] == aidx[i] && idx[j] == aidx[j]);
    }
    assert(indexes_items(items, episodes, idx));
    assert forall|k: int|
        0 <= k < items.len() && has_enclosure_url(#[trigger] items[k]) && !idx.contains(k) implies (
        limit matches Some(l) && episodes.len() == l && forall|i: int|
            0 <= i < idx.len() ==> idx[i] < k) by {
        let p: int = choose|p: int| 0 <= p < aidx.len() && aidx[p] == k;
        if p < m {
            assert(idx[p] == k);
        }
        assert(p >= m);
        assert forall|i: int| 0 <= i < idx.len() implies idx[i] < k by {
            assert(idx[i] == aidx[i]);
        }
    }
}

} // verus!
