use steve::cli::{Cli, Commands, Routine, run};
use steve::config::{DEFAULT_MAX_EPISODES, MaxEpisodes, RssFeed, SteveConfig};

#[test]
fn max_episodes_settings() {
    assert_eq!(MaxEpisodes::Number(3).max_episodes(7), Some(3));
    assert_eq!(MaxEpisodes::Text("all".to_string()).max_episodes(7), None);
    assert_eq!(MaxEpisodes::Text("ALL".to_string()).max_episodes(7), Some(7));
}

#[test]
fn feed_limits_and_urls() {
    let bare = RssFeed::Url("https://a".to_string());
    assert_eq!(bare.get_url(), "https://a");
    assert_eq!(bare.max_episodes(&None), Some(DEFAULT_MAX_EPISODES));
    assert_eq!(bare.max_episodes(&Some(MaxEpisodes::Number(5))), Some(5));
    let own = RssFeed::Feed { url: "https://b".to_string(), max_episodes: Some(MaxEpisodes::Number(2)) };
    assert_eq!(own.get_url(), "https://b");
    assert_eq!(own.max_episodes(&Some(MaxEpisodes::Number(5))), Some(2));
    let none = RssFeed::Feed { url: "https://c".to_string(), max_episodes: None };
    assert_eq!(none.max_episodes(&None), Some(20));
}

#[test]
fn default_config_is_empty() {
    let c = SteveConfig::default();
    assert!(c.rss_urls.is_empty());
    assert_eq!(c.episodes_dir, "");
    assert!(c.max_episodes.is_none());
}

#[test]
fn run_picks_routine() {
    assert_eq!(run(&Cli { command: Commands::Prepare { dry_run: true } }), (Routine::Prepare, true));
    assert_eq!(run(&Cli { command: Commands::Sync { dry_run: false } }), (Routine::Sync, false));
}

#[test]
fn top_level_all_lifts_default_limit() {
    let all = Some(MaxEpisodes::Text("all".to_string()));
    let bare = RssFeed::Url("https://a".to_string());
    assert_eq!(bare.max_episodes(&all), None);
    let own = RssFeed::Feed { url: "https://b".to_string(), max_episodes: Some(MaxEpisodes::Number(3)) };
    assert_eq!(own.max_episodes(&all), Some(3));
    let none = RssFeed::Feed { url: "https://c".to_string(), max_episodes: None };
    assert_eq!(none.max_episodes(&all), None);
    let odd = RssFeed::Feed {
        url: "https://d".to_string(),
        max_episodes: Some(MaxEpisodes::Text("some".to_string())),
    };
    assert_eq!(odd.max_episodes(&Some(MaxEpisodes::Number(4))), Some(4));
    assert_eq!(odd.max_episodes(&None), Some(20));
    assert_eq!(bare.max_episodes(&Some(MaxEpisodes::Text("many".to_string()))), Some(20));
}
