//! The configuration: feeds, the episodes directory and episode limits.
use vstd::prelude::*;

verus! {

/// The number of episodes kept per feed when the configuration names none.
pub const DEFAULT_MAX_EPISODES: usize = 20;

/// A `max-episodes` setting: a count, or a word (`"all"` lifts the limit).
pub enum MaxEpisodes {
    Number(usize),
    Text(String),
}

/// What `MaxEpisodes::max_episodes` returns: `None` means no limit.
pub open spec fn spec_setting_limit(setting: MaxEpisodes, default: usize) -> Option<usize> {
    match setting {
        MaxEpisodes::Number(n) => Some(n),
        MaxEpisodes::Text(t) => if t@ == "all"@ {
            None
        } else {
            Some(default)
        },
    }
}

impl MaxEpisodes {
    /// The episode limit this setting asks for: the number itself, no limit for
    /// `"all"`, and `default` for any other word.
    pub fn max_episodes(&self, default: usize) -> (r: Option<usize>)
        ensures
            r == spec_setting_limit(*self, default),
    {
        match self {
            MaxEpisodes::Number(max) => Some(*max),
            MaxEpisodes::Text(text) => {
                let all: String = String::from_str("all");
                proof {
                    reveal_strlit("all");
                }
                if *text == all {
                    None
                } else {
                    Some(default)
                }
            },
        }
    }
}

/// A feed entry: a bare URL, or a URL with its own episode limit.
pub enum RssFeed {
    Url(String),
    Feed { url: String, max_episodes: Option<MaxEpisodes> },
}

/// The URL of a feed entry.
pub open spec fn spec_feed_url(feed: RssFeed) -> Seq<char> {
    match feed {
        RssFeed::Url(url) => url@,
        RssFeed::Feed { url, .. } => url@,
    }
}

/// The limit set at the top of the configuration: `DEFAULT_MAX_EPISODES` where
/// there is no setting, else what the setting asks for with that default.
pub open spec fn spec_top_limit(user_default: Option<MaxEpisodes>) -> Option<usize> {
    match user_default {
        Some(setting) => spec_setting_limit(setting, DEFAULT_MAX_EPISODES),
        None => Some(DEFAULT_MAX_EPISODES),
    }
}

/// What `RssFeed::max_episodes` returns: the feed's own setting where it has one
/// (a number, or `all` for no limit; any other word falls back), else the
/// top-level limit.
pub open spec fn spec_feed_limit(feed: RssFeed, user_default: Option<MaxEpisodes>) -> Option<
    usize,
> {
    let top: Option<usize> = spec_top_limit(user_default);
    match feed {
        RssFeed::Url(_) => top,
        RssFeed::Feed { max_episodes, .. } => match max_episodes {
            Some(MaxEpisodes::Number(n)) => Some(n),
            Some(MaxEpisodes::Text(t)) => if t@ == "all"@ {
                None
            } else {
                top
            },
            None => top,
        },
    }
}

/// Whether a setting's word is `all`.
fn is_all(text: &String) -> (r: bool)
    ensures
        r == (text@ == "all"@),
{
    let all: String = String::from_str("all");
    proof {
        reveal_strlit("all");
    }
    *text == all
}

impl RssFeed {
    /// The URL of this feed entry.
    pub fn get_url(&self) -> (r: &str)
        ensures
            r@ == spec_feed_url(*self),
    {
        match self {
            RssFeed::Url(url) => url.as_str(),
            RssFeed::Feed { url, max_episodes: _ } => url.as_str(),
        }
    }

    /// The maximum number of episodes to keep for this feed; `None` means all of them.
    pub fn max_episodes(&self, user_specified_default: &Option<MaxEpisodes>) -> (r: Option<usize>)
        ensures
            r == spec_feed_limit(*self, *user_specified_default),
    {
        let top: Option<usize> = match user_specified_default {
            Some(setting) => setting.max_episodes(DEFAULT_MAX_EPISODES),
            None => Some(DEFAULT_MAX_EPISODES),
        };
        match self {
            RssFeed::Url(_) => top,
            RssFeed::Feed { url: _, max_episodes } => match max_episodes {
                Some(MaxEpisodes::Number(n)) => Some(*n),
                Some(MaxEpisodes::Text(text)) => if is_all(text) {
                    None
                } else {
                    top
                },
                None => top,
            },
        }
    }
}

/// The whole configuration.
pub struct SteveConfig {
    pub rss_urls: Vec<RssFeed>,
    pub episodes_dir: String,
    pub max_episodes: Option<MaxEpisodes>,
}

impl Default for SteveConfig {
    /// No feeds, an empty episodes directory and no top-level episode setting.
    fn default() -> (r: Self)
        ensures
            r.rss_urls@.len() == 0,
            r.episodes_dir@.len() == 0,
            r.max_episodes is None,
    {
        SteveConfig { rss_urls: Vec::new(), episodes_dir: String::new(), max_episodes: None }
    }
}

/// Law: a bare URL, or a feed without its own setting, gets the top-level limit
/// (20 where none is configured, none where it is `all`); the limit is lifted
/// exactly where the feed's own setting is `all`, or where the feed has no numeric
/// setting of its own and the top-level setting is `all`.
pub proof fn lemma_feed_limit(feed: RssFeed, user_default: Option<MaxEpisodes>)
    ensures
        (match feed {
            RssFeed::Url(_) => true,
            RssFeed::Feed { max_episodes, .. } => max_episodes is None,
        }) ==> spec_feed_limit(feed, user_default) == spec_top_limit(user_default),
        user_default is None ==> spec_top_limit(user_default) == Some(20usize),
        spec_top_limit(user_default) is None <==> (match user_default {
            Some(MaxEpisodes::Text(t)) => t@ == "all"@,
            _ => false,
        }),
        spec_feed_limit(feed, user_default) is None <==> (match feed {
            RssFeed::Feed { max_episodes: Some(MaxEpisodes::Text(t)), .. } => t@ == "all"@
                || spec_top_limit(user_default) is None,
            RssFeed::Feed { max_episodes: Some(MaxEpisodes::Number(_)), .. } => false,
            _ => spec_top_limit(user_default) is None,
        }),
{
}

/// Law: how a feed's limit follows from its own setting and the top-level setting.
/// A feed's own number is its limit and its own `all` lifts the limit, whatever the
/// top-level setting. Otherwise (a bare URL, no own setting, or another word) the
/// top-level setting decides: none gives 20, a number gives that number, `all`
/// lifts the limit, and another word gives 20.
pub proof fn lemma_feed_limit_cases(feed: RssFeed, user_default: Option<MaxEpisodes>)
    ensures
        feed matches RssFeed::Feed { max_episodes: Some(MaxEpisodes::Number(n)), .. } ==> spec_feed_limit(
            feed,
            user_default,
        ) == Some(n),
        feed matches RssFeed::Feed { max_episodes: Some(MaxEpisodes::Text(t)), .. } && t@ == "all"@
            ==> spec_feed_limit(feed, user_default) is None,
        !(feed matches RssFeed::Feed { max_episodes: Some(MaxEpisodes::Number(_)), .. }) && !(
        feed matches RssFeed::Feed { max_episodes: Some(MaxEpisodes::Text(t)), .. } && t@
            == "all"@) ==> spec_feed_limit(feed, user_default) == match user_default {
            None => Some(20usize),
            Some(MaxEpisodes::Number(m)) => Some(m),
            Some(MaxEpisodes::Text(w)) => if w@ == "all"@ {
                None
            } else {
                Some(20usize)
            },
        },
{
}

} // verus!
