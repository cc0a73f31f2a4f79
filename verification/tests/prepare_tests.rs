use steve::feed::{Episode, FeedError, parse_rss};
use steve::config::{MaxEpisodes, RssFeed};
use steve::prepare::{
    available_workers, clean_title, config_path, download_candidates, env_nonblank,
    episode_filenames, extension_from_url, filename_from, has_supported_audio_extension,
    podcast_dir, sanitize_filename, stale_episode_files,
};

fn episode(title: &str, url: &str) -> Episode {
    Episode { title: title.to_string(), url: url.to_string() }
}

#[test]
fn sanitize_filename_test() {
    assert_eq!("hello world.mp3", sanitize_filename("hello world.mp3"));
    assert_eq!("A B C", sanitize_filename("A/B/C"));
    assert_eq!(
        "Episode 531 Epstein The Movies",
        sanitize_filename("Episode 531: Epstein: The Movies")
    );
    assert_eq!("Se\u{301}amus", sanitize_filename("Séamus"));
    assert_eq!("untitled", sanitize_filename(" \n\t "));
}

#[test]
fn filename_from_test() {
    assert_eq!(
        "Episode 1.mp3",
        filename_from("Episode 1", "https://cdn.example.com/ep1.mp3")
    );
    assert_eq!(
        "Episode 2.aac",
        filename_from("Episode 2", "https://cdn.example.com/ep2.aac")
    );
}

#[test]
fn sanitize_collapses_and_replaces() {
    assert_eq!("a b c", sanitize_filename("  a<>b\u{7}\u{2003}c  "));
    assert_eq!("x y", sanitize_filename("x*?|\"\\y"));
    assert_eq!("untitled", sanitize_filename(""));
    assert_eq!("untitled", sanitize_filename("::://"));
}

#[test]
fn clean_title_is_idempotent_on_examples() {
    for s in ["  a  b ", "Q: what?", "\u{a0}tab\there\u{3000}", ""] {
        let once = clean_title(s);
        let twice = clean_title(&once);
        assert_eq!(once, twice);
        assert!(!once.starts_with(' ') && !once.ends_with(' '));
        assert!(!once.contains("  "));
    }
}

#[test]
fn extension_from_url_picks_first_match() {
    assert_eq!("mp3", extension_from_url("https://x/y"));
    assert_eq!("m4a", extension_from_url("https://x/ep.M4A?x=1"));
    assert_eq!("mp3", extension_from_url("https://x/ep.mp4.mp3"));
    assert_eq!("mp4", extension_from_url("https://x/a.MP4"));
}

#[test]
fn audio_extension_detection() {
    assert!(has_supported_audio_extension("ep.MP3"));
    assert!(has_supported_audio_extension("x.aac"));
    assert!(!has_supported_audio_extension("notes.txt"));
    assert!(!has_supported_audio_extension("mp3"));
    assert!(has_supported_audio_extension(&filename_from("Q?", "https://x/file.m4a")));
}

#[test]
fn episode_filenames_are_distinct() {
    let eps = vec![
        episode("A", "https://x/a.mp3"),
        episode("A", "https://x/b.mp3"),
        episode("B", "https://x/b.aac"),
    ];
    let names = episode_filenames(&eps);
    assert_eq!(names, vec!["A.mp3".to_string(), "B.aac".to_string()]);
}

#[test]
fn stale_files_spare_kept_episodes() {
    let eps = vec![episode("A", "https://x/a.mp3")];
    let names = vec![
        "A.mp3".to_string(),
        "Old.mp3".to_string(),
        "cover.jpg".to_string(),
        "Older.AAC".to_string(),
    ];
    assert_eq!(
        stale_episode_files(&names, &eps, Some(5)),
        vec!["Old.mp3".to_string(), "Older.AAC".to_string()]
    );
    assert!(stale_episode_files(&names, &eps, None).is_empty());
}

#[test]
fn config_path_choices() {
    assert_eq!(
        "/x/steve/config.toml",
        config_path(Some("/x".to_string()), Some("/home/u".to_string()))
    );
    assert_eq!(
        "/home/u/.config/steve/config.toml",
        config_path(Some("  ".to_string()), Some("/home/u/".to_string()))
    );
    assert_eq!("config.toml", config_path(None, Some("\t".to_string())));
    assert_eq!(None, env_nonblank(Some(" ".to_string())));
    assert_eq!(Some("a".to_string()), env_nonblank(Some("a".to_string())));
}

#[test]
fn download_jobs_and_dirs() {
    let dir = podcast_dir("/eps", "My: Show");
    assert_eq!("/eps/My Show", dir);
    let jobs = download_candidates(&dir, &[episode("E 1", "https://x/e1.aac")]);
    assert_eq!(jobs.len(), 1);
    assert_eq!(jobs[0].url, "https://x/e1.aac");
    assert_eq!(jobs[0].filename, "E 1.aac");
    assert_eq!(jobs[0].filepath, "/eps/My Show/E 1.aac");
    assert_eq!(available_workers(Some(4)), 8);
    assert_eq!(available_workers(None), 2);
}

const FEED: &str = r#"<?xml version="1.0"?>
<rss version="2.0"><channel>
<title>  Show Title </title>
<link>https://example.com</link>
<description>d</description>
<item><title>One</title><enclosure url=" https://cdn/1.mp3 " length="1" type="audio/mpeg"/></item>
<item><title>No audio</title></item>
<item><enclosure url="https://cdn/3.m4a" length="1" type="audio/mp4"/></item>
<item><title>Blank</title><enclosure url="  " length="1" type="audio/mpeg"/></item>
<item><title>Four</title><enclosure url="https://cdn/4.mp3" length="1" type="audio/mpeg"/></item>
</channel></rss>"#;

#[test]
fn parse_rss_picks_episodes() {
    let feed = RssFeed::Url("https://example.com/feed".to_string());
    let (title, eps, limit) = match parse_rss(FEED.as_bytes(), &feed, &Some(MaxEpisodes::Number(2))) {
        Ok(r) => r,
        Err(_) => panic!("feed should parse"),
    };
    assert_eq!(title, "Show Title");
    assert_eq!(limit, Some(2));
    assert_eq!(eps.len(), 2);
    assert_eq!(eps[0].title, "One");
    assert_eq!(eps[0].url, "https://cdn/1.mp3");
    assert_eq!(eps[1].title, "untitled");
    assert_eq!(eps[1].url, "https://cdn/3.m4a");

    let all = RssFeed::Feed {
        url: "u".to_string(),
        max_episodes: Some(MaxEpisodes::Text("all".to_string())),
    };
    let (_, eps, limit) = match parse_rss(FEED.as_bytes(), &all, &None) {
        Ok(r) => r,
        Err(_) => panic!("feed should parse"),
    };
    assert_eq!(limit, None);
    assert_eq!(eps.len(), 3);
}

#[test]
fn parse_rss_rejects_non_rss() {
    let feed = RssFeed::Url("u".to_string());
    match parse_rss(b"<html></html>", &feed, &None) {
        Err(FeedError::RssChannelRead(_)) => {}
        Ok(_) => panic!("not an RSS channel"),
    }
}

#[test]
fn untitled_channel_is_unknown_feed() {
    let xml = "<rss><channel><title> </title></channel></rss>";
    let feed = RssFeed::Url("u".to_string());
    let (title, eps, _) = match parse_rss(xml.as_bytes(), &feed, &None) {
        Ok(r) => r,
        Err(_) => panic!("feed should parse"),
    };
    assert_eq!(title, "unknown-feed");
    assert!(eps.is_empty());
}

#[test]
fn parse_rss_top_level_all_keeps_every_episode() {
    let feed = RssFeed::Url("u".to_string());
    let (_, eps, limit) = match parse_rss(FEED.as_bytes(), &feed, &Some(MaxEpisodes::Text("all".to_string()))) {
        Ok(r) => r,
        Err(_) => panic!("feed should parse"),
    };
    assert_eq!(limit, None);
    assert_eq!(eps.len(), 3);
}
