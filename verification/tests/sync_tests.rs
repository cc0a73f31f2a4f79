use steve::paths::{join_path, path_with_trailing_slash, same_path};
use steve::summary::{Tone, decimal, sorted_strings, summary_lines};
use steve::sync::{DirEntry, Plan, rsync_jobs, sync_music, sync_podcasts};

fn entry(path: &str, name: &str) -> DirEntry {
    DirEntry { path: path.to_string(), name: Some(name.to_string()) }
}

#[test]
fn trailing_slash() {
    assert_eq!(path_with_trailing_slash("/a/b".to_string()), "/a/b/");
    assert_eq!(path_with_trailing_slash("/a/b/".to_string()), "/a/b/");
    assert_eq!(path_with_trailing_slash("".to_string()), "/");
}

#[test]
fn joins() {
    assert_eq!(join_path("/a", "b"), "/a/b");
    assert_eq!(join_path("/a/", "b"), "/a/b");
    assert_eq!(join_path("", "b"), "b");
    assert_eq!(join_path("/a", "/b"), "/b");
}

#[test]
fn music_plan_removes_missing_artists() {
    let local = vec![entry("/l/Music/A", "A"), entry("/l/Music/B", "B")];
    let ipod = vec![entry("/i/Music/A", "A"), entry("/i/Music/C", "C")];
    let plan = sync_music(&local, &ipod);
    let removed: Vec<&str> = plan.to_remove().iter().map(|e| e.path.as_str()).collect();
    assert_eq!(removed, vec!["/i/Music/C"]);
    assert_eq!(plan.to_update().len(), 2);
    assert!(plan.to_skip().is_empty());
    let jobs = rsync_jobs(&plan, "/i/Music");
    assert_eq!(jobs.len(), 2);
    assert_eq!(jobs[0].source, "/l/Music/A/");
    assert_eq!(jobs[0].dest, "/i/Music/A/");
}

#[test]
fn podcast_plan_skips_fixed_podcast() {
    let skipped = "/Users/ben/iPod Content/Podcasts/Podcast About List Premium";
    let local = vec![entry(skipped, "Podcast About List Premium"), entry("/l/P/X", "X")];
    let ipod: Vec<DirEntry> = vec![];
    let plan = sync_podcasts(&local, &ipod);
    assert_eq!(plan.to_skip(), &vec![skipped.to_string()]);
    let jobs = rsync_jobs(&plan, "/i/P");
    assert_eq!(jobs.len(), 1);
    assert_eq!(jobs[0].source, "/l/P/X/");
    assert_eq!(jobs[0].dest, "/i/P/X/");
}

#[test]
fn sorting_and_numbers() {
    let v = vec!["b".to_string(), "a".to_string(), "B".to_string(), "ab".to_string()];
    assert_eq!(sorted_strings(v), vec!["B", "a", "ab", "b"]);
    assert_eq!(decimal(0), "0");
    assert_eq!(decimal(1203), "1203");
}

#[test]
fn summary_lists_sorted_paths() {
    let lines = summary_lines(vec!["/z".to_string(), "/a".to_string()], vec![]);
    let texts: Vec<&str> = lines.iter().map(|l| l.text.as_str()).collect();
    assert_eq!(
        texts,
        vec!["Prepare summary", "  Downloaded (2):", "    - /a", "    - /z", "  Deleted (0):", "    (none)"]
    );
    assert_eq!(lines[0].tone, Tone::Blue);
    assert_eq!(lines[1].tone, Tone::Green);
    assert_eq!(lines[4].tone, Tone::Yellow);
    assert_eq!(lines[5].tone, Tone::Plain);
}

#[test]
fn skip_compares_path_components() {
    let spelled = "/Users//ben/iPod Content/./Podcasts/Podcast About List Premium/";
    let local = vec![entry(spelled, "Podcast About List Premium"), entry("/l/P/Y", "Y")];
    let plan = sync_podcasts(&local, &vec![]);
    let jobs = rsync_jobs(&plan, "/i/P");
    assert_eq!(jobs.len(), 1);
    assert_eq!(jobs[0].source, "/l/P/Y/");
}

#[test]
fn path_equality_by_components() {
    assert!(same_path("/a//b/", "/a/b"));
    assert!(same_path("/a/./b", "/a/b"));
    assert!(same_path("./a", "./a/"));
    assert!(!same_path("./a", "a"));
    assert!(!same_path("/a", "a"));
    assert!(!same_path("/a/../b", "/b"));
}
