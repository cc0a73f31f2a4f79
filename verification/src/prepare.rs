//! Episode naming, feed reading and pruning decisions.
use vstd::prelude::*;
use crate::feed::Episode;
use crate::paths::{join_path, spec_join};
use crate::text::{trim,
    is_control, is_whitespace, lemma_trim_empty, lemma_trim_shape, lemma_trim_unchanged,
    spec_is_control,
    spec_is_whitespace, spec_trim, to_chars, trim_chars, spec_lower, spec_contains,
    spec_ends_with, to_ascii_lowercase, contains_chars, ends_with_chars,
};

verus! {

/// The characters that file systems refuse in names.
pub open spec fn spec_is_forbidden(c: char) -> bool {
    c == '<' || c == '>' || c == ':' || c == '"' || c == '/' || c == '\\' || c == '|' || c == '?'
        || c == '*'
}

/// Control and forbidden characters become spaces.
pub open spec fn spec_map_char(c: char) -> char {
    if spec_is_control(c) || spec_is_forbidden(c) {
        ' '
    } else {
        c
    }
}

/// Reading `s` left to right, each mapped character is kept, except that a run of
/// whitespace becomes one space. The flag tells whether the last character read
/// was whitespace.
pub open spec fn spec_collapse(s: Seq<char>) -> (Seq<char>, bool)
    decreases s.len(),
{
    if s.len() == 0 {
        (Seq::empty(), false)
    } else {
        let (out, prev_space) = spec_collapse(s.drop_last());
        let m: char = spec_map_char(s.last());
        if spec_is_whitespace(m) {
            if prev_space {
                (out, true)
            } else {
                (out.push(' '), true)
            }
        } else {
            (out.push(m), false)
        }
    }
}

/// The title with forbidden and control characters replaced, whitespace runs
/// collapsed to one space, and the ends trimmed.
pub open spec fn spec_clean(s: Seq<char>) -> Seq<char> {
    spec_trim(spec_collapse(s).0)
}

/// The NFD (canonical decomposition) normal form of `s`, as `icu_normalizer` computes it.
pub uninterp spec fn nfd(s: Seq<char>) -> Seq<char>;

/// What `sanitize_filename` returns.
pub open spec fn spec_sanitize(s: Seq<char>) -> Seq<char> {
    if spec_clean(s).len() == 0 {
        "untitled"@
    } else {
        nfd(spec_clean(s))
    }
}

/// A name fit for a file: no forbidden or control characters, no whitespace but
/// single spaces, and no space at either end.
pub open spec fn is_clean_name(t: Seq<char>) -> bool {
    &&& forall|i: int|
        0 <= i < t.len() ==> !spec_is_forbidden(#[trigger] t[i]) && !spec_is_control(t[i]) && (
        spec_is_whitespace(t[i]) ==> t[i] == ' ')
    &&& forall|i: int| 0 <= i < t.len() - 1 ==> !(#[trigger] t[i] == ' ' && t[i + 1] == ' ')
    &&& t.len() > 0 ==> t[0] != ' ' && t.last() != ' '
}

/// `icu_normalizer::DecomposingNormalizerBorrowed::new_nfd().normalize`: the NFD form
/// of `input`. The contract names the result and claims nothing else of it.
#[verifier::external_body]
fn normalize_nfd(input: &str) -> (r: String)
    ensures
        r@ == nfd(input@),
{
    icu_normalizer::DecomposingNormalizerBorrowed::new_nfd().normalize(input).into_owned()
}

fn is_forbidden(c: char) -> (r: bool)
    ensures
        r == spec_is_forbidden(c),
{
    c == '<' || c == '>' || c == ':' || c == '"' || c == '/' || c == '\\' || c == '|' || c == '?'
        || c == '*'
}

/// Forbidden and control characters replaced, whitespace runs collapsed, ends trimmed.
pub fn clean_title(input: &str) -> (r: String)
    ensures
        r@ == spec_clean(input@),
{
    let v: Vec<char> = to_chars(input);
    let mut out: Vec<char> = Vec::new();
    let mut prev_space: bool = false;
    let mut i: usize = 0;
    while i < v.len()
        invariant
            i <= v@.len(),
            v@ == input@,
            (out@, prev_space) == spec_collapse(v@.subrange(0, i as int)),
        decreases v.len() - i,
    {
        let ch: char = v[i];
        let mapped: char = if is_control(ch) || is_forbidden(ch) {
            ' '
        } else {
            ch
        };
        if is_whitespace(mapped) {
            if !prev_space {
                out.push(' ');
                prev_space = true;
            }
        } else {
            out.push(mapped);
            prev_space = false;
        }
        proof {
            let p: Seq<char> = v@.subrange(0, i + 1);
            assert(p.drop_last() == v@.subrange(0, i as int));
            assert(p.last() == ch);
        }
        i = i + 1;
    }
    assert(v@.subrange(0, v@.len() as int) == v@);
    trim_chars(out.as_slice())
}

/// A file name for an episode titled `input`: see `spec_sanitize`.
pub fn sanitize_filename(input: &str) -> (r: String)
    ensures
        r@ == spec_sanitize(input@),
{
    let cleaned: String = clean_title(input);
    if cleaned.as_str().is_empty() {
        let r: String = String::from_str("untitled");
        proof {
            reveal_strlit("untitled");
        }
        r
    } else {
        normalize_nfd(cleaned.as_str())
    }
}

/// What `spec_collapse` yields holds no forbidden or control character, no
/// whitespace but single spaces, and its flag tells whether it ends with a space.
proof fn lemma_collapse_shape(s: Seq<char>)
    ensures
        ({
            let (out, prev_space) = spec_collapse(s);
            &&& forall|i: int|
                0 <= i < out.len() ==> !spec_is_forbidden(#[trigger] out[i]) && !spec_is_control(
                    out[i],
                ) && (spec_is_whitespace(out[i]) ==> out[i] == ' ')
            &&& forall|i: int|
                0 <= i < out.len() - 1 ==> !(#[trigger] out[i] == ' ' && out[i + 1] == ' ')
            &&& prev_space == (out.len() > 0 && out.last() == ' ')
        }),
    decreases s.len(),
{
    if s.len() > 0 {
        lemma_collapse_shape(s.drop_last());
    }
}

/// Law: the cleaned title is always a clean name.
pub proof fn lemma_clean_is_clean_name(s: Seq<char>)
    ensures
        is_clean_name(spec_clean(s)),
{
    lemma_collapse_shape(s);
    let out: Seq<char> = spec_collapse(s).0;
    let (a, b) = lemma_trim_shape(out);
    let t: Seq<char> = spec_clean(s);
    assert(t == out.subrange(a, b));
    assert forall|i: int| 0 <= i < t.len() implies !spec_is_forbidden(#[trigger] t[i])
        && !spec_is_control(t[i]) && (spec_is_whitespace(t[i]) ==> t[i] == ' ') by {
        assert(t[i] == out[a + i]);
    }
    assert forall|i: int| 0 <= i < t.len() - 1 implies !(#[trigger] t[i] == ' ' && t[i + 1]
        == ' ') by {
        assert(t[i] == out[a + i]);
        assert(t[i + 1] == out[a + i + 1]);
    }
    if t.len() > 0 {
        assert(t[0] == out[a]);
        assert(t.last() == out[b - 1]);
    }
}

/// A clean name passes through `spec_collapse` unchanged.
proof fn lemma_collapse_of_clean(t: Seq<char>)
    requires
        forall|i: int|
            0 <= i < t.len() ==> !spec_is_forbidden(#[trigger] t[i]) && !spec_is_control(t[i]) && (
            spec_is_whitespace(t[i]) ==> t[i] == ' '),
        forall|i: int| 0 <= i < t.len() - 1 ==> !(#[trigger] t[i] == ' ' && t[i + 1] == ' '),
    ensures
        spec_collapse(t) == (t, t.len() > 0 && t.last() == ' '),
    decreases t.len(),
{
    if t.len() > 0 {
        let u: Seq<char> = t.drop_last();
        assert forall|i: int| 0 <= i < u.len() implies !spec_is_forbidden(#[trigger] u[i])
            && !spec_is_control(u[i]) && (spec_is_whitespace(u[i]) ==> u[i] == ' ') by {
            assert(u[i] == t[i]);
        }
        assert forall|i: int| 0 <= i < u.len() - 1 implies !(#[trigger] u[i] == ' ' && u[i + 1]
            == ' ') by {
            assert(u[i] == t[i]);
            assert(u[i + 1] == t[i + 1]);
        }
        lemma_collapse_of_clean(u);
        if u.len() > 0 {
            assert(u.last() == t[t.len() - 2]);
        }
        assert(u.push(t.last()) == t);
    }
}

/// Law: cleaning a cleaned title changes nothing.
pub proof fn lemma_clean_idempotent(s: Seq<char>)
    ensures
        spec_clean(spec_clean(s)) == spec_clean(s),
{
    let t: Seq<char> = spec_clean(s);
    lemma_clean_is_clean_name(s);
    lemma_collapse_of_clean(t);
    lemma_trim_unchanged(t);
}

/// The audio file extensions that episodes are saved under, in order of preference.
pub open spec fn spec_audio_extensions() -> Seq<Seq<char>> {
    seq!["mp3"@, "m4a"@, "mp4"@, "aac"@]
}

/// `.` followed by the `i`-th audio extension.
pub open spec fn spec_dot_ext(i: int) -> Seq<char> {
    seq!['.'] + spec_audio_extensions()[i]
}

/// The first audio extension from index `i` on whose dotted form occurs in the
/// lower-cased URL `lower_url`; `mp3` when there is none.
pub open spec fn spec_extension_from(lower_url: Seq<char>, i: nat) -> Seq<char>
    decreases 4 - i,
{
    if i >= 4 {
        "mp3"@
    } else if spec_contains(lower_url, spec_dot_ext(i as int)) {
        spec_audio_extensions()[i as int]
    } else {
        spec_extension_from(lower_url, i + 1)
    }
}

/// What `extension_from_url` returns.
pub open spec fn spec_extension(url: Seq<char>) -> Seq<char> {
    spec_extension_from(spec_lower(url), 0)
}

/// What `has_supported_audio_extension` returns: the lower-cased name ends with a
/// dot and one of the audio extensions.
pub open spec fn spec_has_audio_extension(name: Seq<char>) -> bool {
    exists|i: int| 0 <= i < 4 && spec_ends_with(spec_lower(name), #[trigger] spec_dot_ext(i))
}

/// What `filename_from` returns.
pub open spec fn spec_filename(title: Seq<char>, url: Seq<char>) -> Seq<char> {
    spec_sanitize(title) + seq!['.'] + spec_extension(url)
}

/// The `i`-th audio extension.
pub fn audio_extension(i: usize) -> (r: &'static str)
    requires
        i < 4,
    ensures
        r@ == spec_audio_extensions()[i as int],
{
    if i == 0 {
        "mp3"
    } else if i == 1 {
        "m4a"
    } else if i == 2 {
        "mp4"
    } else {
        "aac"
    }
}

/// `.` followed by the `i`-th audio extension, as characters.
fn dot_ext(i: usize) -> (r: Vec<char>)
    requires
        i < 4,
    ensures
        r@ == spec_dot_ext(i as int),
{
    let ext: Vec<char> = to_chars(audio_extension(i));
    let mut r: Vec<char> = Vec::new();
    r.push('.');
    let mut k: usize = 0;
    while k < ext.len()
        invariant
            k <= ext@.len(),
            ext@ == spec_audio_extensions()[i as int],
            r@ == seq!['.'] + ext@.subrange(0, k as int),
        decreases ext.len() - k,
    {
        r.push(ext[k]);
        assert(ext@.subrange(0, k + 1) == ext@.subrange(0, k as int).push(ext@[k as int]));
        k = k + 1;
    }
    assert(ext@.subrange(0, ext@.len() as int) == ext@);
    r
}

/// The audio extension that the episode at `url` is saved under: the first of the
/// audio extensions whose dotted form occurs in the lower-cased URL, else `mp3`.
pub fn extension_from_url(url: &str) -> (r: &'static str)
    ensures
        r@ == spec_extension(url@),
{
    let lower: String = to_ascii_lowercase(url);
    let lower_chars: Vec<char> = to_chars(lower.as_str());
    let mut i: usize = 0;
    while i < 4
        invariant
            i <= 4,
            lower_chars@ == spec_lower(url@),
            spec_extension(url@) == spec_extension_from(lower_chars@, i as nat),
        decreases 4 - i,
    {
        let needle: Vec<char> = dot_ext(i);
        if contains_chars(lower_chars.as_slice(), needle.as_slice()) {
            return audio_extension(i);
        }
        i = i + 1;
    }
    let r: &'static str = "mp3";
    proof {
        reveal_strlit("mp3");
    }
    r
}

/// Whether `name` ends, in any ASCII case, with a dot and one of the audio extensions.
pub fn has_supported_audio_extension(name: &str) -> (r: bool)
    ensures
        r == spec_has_audio_extension(name@),
{
    let lower: String = to_ascii_lowercase(name);
    let lower_chars: Vec<char> = to_chars(lower.as_str());
    let mut i: usize = 0;
    while i < 4
        invariant
            i <= 4,
            lower_chars@ == spec_lower(name@),
            forall|k: int| 0 <= k < i ==> !spec_ends_with(lower_chars@, #[trigger] spec_dot_ext(k)),
        decreases 4 - i,
    {
        let needle: Vec<char> = dot_ext(i);
        if ends_with_chars(lower_chars.as_slice(), needle.as_slice()) {
            return true;
        }
        i = i + 1;
    }
    false
}

/// The file name of an episode titled `title` and served at `url`.
pub fn filename_from(title: &str, url: &str) -> (r: String)
    ensures
        r@ == spec_filename(title@, url@),
{
    let mut r: String = sanitize_filename(title);
    let dot: &str = ".";
    proof {
        reveal_strlit(".");
    }
    r.append(dot);
    r.append(extension_from_url(url));
    assert(dot@ == seq!['.']);
    r
}

proof fn lemma_lower_concat(a: Seq<char>, b: Seq<char>)
    ensures
        spec_lower(a + b) == spec_lower(a) + spec_lower(b),
{
    assert(spec_lower(a + b) =~= spec_lower(a) + spec_lower(b));
}

proof fn lemma_extension_from_is_audio(lower_url: Seq<char>, i: nat)
    requires
        i <= 4,
    ensures
        exists|k: int| 0 <= k < 4 && spec_extension_from(lower_url, i) == #[trigger] spec_audio_extensions()[k],
    decreases 4 - i,
{
    if i >= 4 {
        assert(spec_extension_from(lower_url, i) == spec_audio_extensions()[0]);
    } else if spec_contains(lower_url, spec_dot_ext(i as int)) {
        assert(spec_extension_from(lower_url, i) == spec_audio_extensions()[i as int]);
    } else {
        lemma_extension_from_is_audio(lower_url, i + 1);
    }
}

/// Law: the extension chosen for a URL is always one of the audio extensions.
pub proof fn lemma_extension_is_audio(url: Seq<char>)
    ensures
        exists|k: int| 0 <= k < 4 && spec_extension(url) == #[trigger] spec_audio_extensions()[k],
{
    lemma_extension_from_is_audio(spec_lower(url), 0);
}

/// Law: every episode file name counts as an audio file, so pruning looks at it.
pub proof fn lemma_filename_has_audio_extension(title: Seq<char>, url: Seq<char>)
    ensures
        spec_has_audio_extension(spec_filename(title, url)),
{
    lemma_extension_is_audio(url);
    let k: int = choose|k: int| 0 <= k < 4 && spec_extension(url) == #[trigger] spec_audio_extensions()[k];
    let ext: Seq<char> = spec_extension(url);
    let head: Seq<char> = spec_sanitize(title);
    let name: Seq<char> = spec_filename(title, url);
    let tail: Seq<char> = seq!['.'] + ext;
    assert(name == head + tail);
    lemma_lower_concat(head, tail);
    reveal_strlit("mp3");
    reveal_strlit("m4a");
    reveal_strlit("mp4");
    reveal_strlit("aac");
    assert(spec_lower(tail) =~= tail);
    assert(tail == spec_dot_ext(k));
    let lname: Seq<char> = spec_lower(name);
    assert(lname.subrange(lname.len() - tail.len(), lname.len() as int) =~= tail);
    assert(spec_ends_with(lname, spec_dot_ext(k)));
}

/// An environment value counts only where it is set and not blank.
pub open spec fn spec_nonblank(value: Option<Seq<char>>) -> Option<Seq<char>> {
    match value {
        Some(v) => if spec_trim(v).len() == 0 {
            None
        } else {
            Some(v)
        },
        None => None,
    }
}

/// What `config_path` returns for the values of `XDG_CONFIG_HOME` and `HOME`.
pub open spec fn spec_config_path(xdg_config_home: Option<Seq<char>>, home: Option<Seq<char>>) -> Seq<
    char,
> {
    match spec_nonblank(xdg_config_home) {
        Some(x) => spec_join(spec_join(x, "steve"@), "config.toml"@),
        None => match spec_nonblank(home) {
            Some(h) => spec_join(spec_join(spec_join(h, ".config"@), "steve"@), "config.toml"@),
            None => "config.toml"@,
        },
    }
}

/// The value of an environment variable, where it is set and not blank.
pub fn env_nonblank(value: Option<String>) -> (r: Option<String>)
    ensures
        opt_string_view(r) == spec_nonblank(opt_string_view(value)),
{
    match value {
        Some(v) => {
            let t: String = trim(v.as_str());
            if t.as_str().is_empty() {
                None
            } else {
                Some(v)
            }
        },
        None => None,
    }
}

pub open spec fn opt_string_view(s: Option<String>) -> Option<Seq<char>> {
    match s {
        Some(t) => Some(t@),
        None => None,
    }
}

/// Where the configuration file is, given the values of `XDG_CONFIG_HOME` and
/// `HOME`: `$XDG_CONFIG_HOME/steve/config.toml`, else `$HOME/.config/steve/config.toml`,
/// else `config.toml`.
pub fn config_path(xdg_config_home: Option<String>, home: Option<String>) -> (r: String)
    ensures
        r@ == spec_config_path(opt_string_view(xdg_config_home), opt_string_view(home)),
{
    let steve: &str = "steve";
    let config_toml: &str = "config.toml";
    let dot_config: &str = ".config";
    proof {
        reveal_strlit("steve");
        reveal_strlit("config.toml");
        reveal_strlit(".config");
    }
    match env_nonblank(xdg_config_home) {
        Some(xdg) => {
            let dir: String = join_path(xdg.as_str(), steve);
            join_path(dir.as_str(), config_toml)
        },
        None => match env_nonblank(home) {
            Some(h) => {
                let c: String = join_path(h.as_str(), dot_config);
                let dir: String = join_path(c.as_str(), steve);
                join_path(dir.as_str(), config_toml)
            },
            None => String::from_str(config_toml),
        },
    }
}

/// The file names of the given episodes.
pub open spec fn spec_filenames(episodes: Seq<(Seq<char>, Seq<char>)>) -> Seq<Seq<char>> {
    episodes.map_values(|e: (Seq<char>, Seq<char>)| spec_filename(e.0, e.1))
}

pub open spec fn episodes_view(episodes: Seq<Episode>) -> Seq<(Seq<char>, Seq<char>)> {
    episodes.map_values(|e: Episode| e@)
}

pub open spec fn strings_view(v: Seq<String>) -> Seq<Seq<char>> {
    v.map_values(|s: String| s@)
}

/// The set of file names of `episodes`: each once, and no other.
pub fn episode_filenames(episodes: &[Episode]) -> (r: Vec<String>)
    ensures
        strings_view(r@).no_duplicates(),
        forall|n: Seq<char>|
            strings_view(r@).contains(n) <==> spec_filenames(episodes_view(episodes@)).contains(n),
{
    let ghost eps: Seq<(Seq<char>, Seq<char>)> = episodes_view(episodes@);
    let mut r: Vec<String> = Vec::new();
    let mut i: usize = 0;
    while i < episodes.len()
        invariant
            i <= episodes@.len(),
            eps == episodes_view(episodes@),
            strings_view(r@).no_duplicates(),
            forall|n: Seq<char>|
                strings_view(r@).contains(n) <==> spec_filenames(eps.subrange(0, i as int)).contains(
                    n,
                ),
        decreases episodes.len() - i,
    {
        let name: String = filename_from(episodes[i].title.as_str(), episodes[i].url.as_str());
        let ghost before: Seq<String> = r@;
        proof {
            assert(spec_filenames(eps.subrange(0, i + 1)) =~= spec_filenames(
                eps.subrange(0, i as int),
            ).push(name@));
        }
        let ghost fresh: Seq<Seq<char>> = spec_filenames(eps.subrange(0, i + 1));
        proof {
            lemma_push_contains(spec_filenames(eps.subrange(0, i as int)), name@);
        }
        if !contains_string(&r, &name) {
            r.push(name);
            proof {
                assert(strings_view(r@) =~= strings_view(before).push(name@));
                lemma_push_contains(strings_view(before), name@);
            }
        }
        proof {
            let old_names: Seq<Seq<char>> = spec_filenames(eps.subrange(0, i as int));
            assert(fresh == old_names.push(name@));
            assert(strings_view(r@).contains(name@));
            assert forall|n: Seq<char>| strings_view(r@).contains(n) <==> fresh.contains(n) by {
                assert(fresh.contains(n) <==> (old_names.contains(n) || n == name@));
                if strings_view(r@).len() == strings_view(before).len() {
                    assert(strings_view(r@) == strings_view(before));
                } else {
                    assert(strings_view(r@).contains(n) <==> (strings_view(before).contains(n) || n == name@));
                }
            }
        }
        i = i + 1;
    }
    assert(eps.subrange(0, eps.len() as int) == eps);
    r
}

proof fn lemma_push_contains(s: Seq<Seq<char>>, x: Seq<char>)
    ensures
        forall|n: Seq<char>| s.push(x).contains(n) <==> (s.contains(n) || n == x),
{
    assert forall|n: Seq<char>| s.push(x).contains(n) <==> (s.contains(n) || n == x) by {
        if s.contains(n) {
            let k: int = choose|k: int| 0 <= k < s.len() && s[k] == n;
            assert(s.push(x)[k] == n);
        }
        if n == x {
            assert(s.push(x)[s.len() as int] == n);
        }
        if s.push(x).contains(n) {
            let k: int = choose|k: int| 0 <= k < s.push(x).len() && s.push(x)[k] == n;
            if k < s.len() {
                assert(s[k] == n);
            }
        }
    }
}

/// Whether `v` holds a string equal to `s`.
pub fn contains_string(v: &Vec<String>, s: &String) -> (r: bool)
    ensures
        r == strings_view(v@).contains(s@),
{
    let mut i: usize = 0;
    while i < v.len()
        invariant
            i <= v@.len(),
            forall|k: int| 0 <= k < i ==> v@[k]@ != s@,
        decreases v.len() - i,
    {
        if v[i] == *s {
            assert(strings_view(v@)[i as int] == s@);
            return true;
        }
        i = i + 1;
    }
    assert forall|k: int| 0 <= k < strings_view(v@).len() implies strings_view(v@)[k] != s@ by {
        assert(strings_view(v@)[k] == v@[k]@);
    }
    false
}

/// Of the file names `names`, in order, those of audio files that are not among `kept`.
pub open spec fn spec_stale(names: Seq<Seq<char>>, kept: Seq<Seq<char>>) -> Seq<Seq<char>>
    decreases names.len(),
{
    if names.len() == 0 {
        Seq::empty()
    } else {
        let n: Seq<char> = names.last();
        if spec_has_audio_extension(n) && !kept.contains(n) {
            spec_stale(names.drop_last(), kept).push(n)
        } else {
            spec_stale(names.drop_last(), kept)
        }
    }
}

/// What `stale_episode_files` returns: nothing where no limit applies, else the
/// audio files that are not among the episodes' files.
pub open spec fn spec_stale_episode_files(
    names: Seq<Seq<char>>,
    episodes: Seq<(Seq<char>, Seq<char>)>,
    max_episodes: Option<usize>,
) -> Seq<Seq<char>> {
    if max_episodes is None {
        Seq::empty()
    } else {
        spec_stale(names, spec_filenames(episodes))
    }
}

/// Of the files named `names` in a podcast's directory, those to delete as old
/// episodes: where a limit applies, every audio file that is not the file of one of
/// `episodes`.
pub fn stale_episode_files(names: &[String], episodes: &[Episode], max_episodes: Option<usize>) -> (r:
    Vec<String>)
    ensures
        strings_view(r@) == spec_stale_episode_files(
            strings_view(names@),
            episodes_view(episodes@),
            max_episodes,
        ),
{
    let mut r: Vec<String> = Vec::new();
    if max_episodes.is_none() {
        return r;
    }
    let keep: Vec<String> = episode_filenames(episodes);
    let ghost kept: Seq<Seq<char>> = spec_filenames(episodes_view(episodes@));
    let ghost ns: Seq<Seq<char>> = strings_view(names@);
    let mut i: usize = 0;
    while i < names.len()
        invariant
            i <= names@.len(),
            ns == strings_view(names@),
            forall|n: Seq<char>| strings_view(keep@).contains(n) <==> kept.contains(n),
            strings_view(r@) == spec_stale(ns.subrange(0, i as int), kept),
        decreases names.len() - i,
    {
        let name: &String = &names[i];
        let ghost before: Seq<String> = r@;
        proof {
            let p: Seq<Seq<char>> = ns.subrange(0, i + 1);
            assert(p.drop_last() == ns.subrange(0, i as int));
            assert(p.last() == name@);
        }
        if has_supported_audio_extension(name.as_str()) && !contains_string(&keep, name) {
            r.push(name.clone());
            proof {
                assert(strings_view(r@) =~= strings_view(before).push(name@));
            }
        }
        i = i + 1;
    }
    assert(ns.subrange(0, ns.len() as int) == ns);
    r
}

/// A download to make: the episode's URL, its file name, and the path it is saved at.
pub struct DownloadJob {
    pub url: String,
    pub filename: String,
    pub filepath: String,
}

impl View for DownloadJob {
    type V = (Seq<char>, Seq<char>, Seq<char>);

    open spec fn view(&self) -> (Seq<char>, Seq<char>, Seq<char>) {
        (self.url@, self.filename@, self.filepath@)
    }
}

/// The directory that a feed's episodes go to.
pub open spec fn spec_podcast_dir(episodes_dir: Seq<char>, feed_title: Seq<char>) -> Seq<char> {
    spec_join(episodes_dir, spec_sanitize(feed_title))
}

/// The download for one episode, into `podcast_dir`.
pub open spec fn spec_download_job(podcast_dir: Seq<char>, e: (Seq<char>, Seq<char>)) -> (
    Seq<char>,
    Seq<char>,
    Seq<char>,
) {
    (e.1, spec_filename(e.0, e.1), spec_join(podcast_dir, spec_filename(e.0, e.1)))
}

/// The directory that the episodes of the feed titled `feed_title` go to: a
/// subdirectory of `episodes_dir` named after the sanitized title.
pub fn podcast_dir(episodes_dir: &str, feed_title: &str) -> (r: String)
    ensures
        r@ == spec_podcast_dir(episodes_dir@, feed_title@),
{
    let name: String = sanitize_filename(feed_title);
    join_path(episodes_dir, name.as_str())
}

/// For each episode in order, the download that would save it in `podcast_dir`
/// under its file name; those whose file already exists are skipped by the caller.
pub fn download_candidates(podcast_dir: &str, episodes: &[Episode]) -> (r: Vec<DownloadJob>)
    ensures
        r@.len() == episodes@.len(),
        forall|i: int|
            0 <= i < r@.len() ==> #[trigger] r@[i]@ == spec_download_job(
                podcast_dir@,
                episodes@[i]@,
            ),
{
    let mut r: Vec<DownloadJob> = Vec::new();
    let mut i: usize = 0;
    while i < episodes.len()
        invariant
            i <= episodes@.len(),
            r@.len() == i,
            forall|k: int|
                0 <= k < i ==> #[trigger] r@[k]@ == spec_download_job(podcast_dir@, episodes@[k]@),
        decreases episodes.len() - i,
    {
        let filename: String = filename_from(episodes[i].title.as_str(), episodes[i].url.as_str());
        let filepath: String = join_path(podcast_dir, filename.as_str());
        r.push(DownloadJob { url: episodes[i].url.clone(), filename, filepath });
        i = i + 1;
    }
    r
}

/// How many downloads run at once: two per available CPU, one CPU where the
/// machine does not say.
pub fn available_workers(parallelism: Option<usize>) -> (r: usize)
    requires
        parallelism matches Some(n) ==> n <= usize::MAX / 2,
    ensures
        r == 2 * match parallelism {
            Some(n) => n,
            None => 1,
        },
{
    let n: usize = match parallelism {
        Some(n) => n,
        None => 1,
    };
    n * 2
}

proof fn lemma_stale_members(names: Seq<Seq<char>>, kept: Seq<Seq<char>>)
    ensures
        forall|n: Seq<char>|
            #[trigger] spec_stale(names, kept).contains(n) <==> (names.contains(n)
                && spec_has_audio_extension(n) && !kept.contains(n)),
    decreases names.len(),
{
    if names.len() > 0 {
        let prev: Seq<Seq<char>> = names.drop_last();
        lemma_stale_members(prev, kept);
        let last: Seq<char> = names.last();
        assert(names == prev.push(last));
        lemma_push_contains(prev, last);
        lemma_push_contains(spec_stale(prev, kept), last);
        let cond: bool = spec_has_audio_extension(last) && !kept.contains(last);
        if cond {
            assert(spec_stale(names, kept) == spec_stale(prev, kept).push(last));
        } else {
            assert(spec_stale(names, kept) == spec_stale(prev, kept));
        }
        assert forall|n: Seq<char>|
            #[trigger] spec_stale(names, kept).contains(n) <==> (names.contains(n)
                && spec_has_audio_extension(n) && !kept.contains(n)) by {
            assert(names.contains(n) <==> (prev.contains(n) || n == last));
            assert(spec_stale(prev, kept).contains(n) <==> (prev.contains(n)
                && spec_has_audio_extension(n) && !kept.contains(n)));
        }
    } else {
        assert forall|n: Seq<char>|
            #[trigger] spec_stale(names, kept).contains(n) <==> (names.contains(n)
                && spec_has_audio_extension(n) && !kept.contains(n)) by {
            assert(!names.contains(n));
            assert(spec_stale(names, kept).len() == 0);
        }
    }
}

/// Law: pruning deletes nothing where no limit applies; where one does, it deletes
/// exactly the listed audio files that are not the file of a kept episode, so the
/// file of a kept episode is never deleted.
pub proof fn lemma_pruning(
    names: Seq<Seq<char>>,
    episodes: Seq<(Seq<char>, Seq<char>)>,
    max_episodes: Option<usize>,
)
    ensures
        max_episodes is None ==> spec_stale_episode_files(names, episodes, max_episodes).len() == 0,
        max_episodes is Some ==> forall|n: Seq<char>|
            #[trigger] spec_stale_episode_files(names, episodes, max_episodes).contains(n) <==> (names.contains(
                n,
            ) && spec_has_audio_extension(n) && !spec_filenames(episodes).contains(n)),
        forall|i: int|
            0 <= i < episodes.len() ==> !spec_stale_episode_files(names, episodes, max_episodes).contains(
                spec_filename(#[trigger] episodes[i].0, episodes[i].1),
            ),
{
    lemma_stale_members(names, spec_filenames(episodes));
    assert forall|i: int| 0 <= i < episodes.len() implies !spec_stale_episode_files(
        names,
        episodes,
        max_episodes,
    ).contains(spec_filename(#[trigger] episodes[i].0, episodes[i].1)) by {
        assert(spec_filenames(episodes)[i] == spec_filename(episodes[i].0, episodes[i].1));
    }
}

/// Law: the configuration file is always a file named `config.toml`.
pub proof fn lemma_config_path_file(xdg_config_home: Option<Seq<char>>, home: Option<Seq<char>>)
    ensures
        spec_ends_with(spec_config_path(xdg_config_home, home), "config.toml"@),
{
    reveal_strlit("config.toml");
    let c: Seq<char> = "config.toml"@;
    let p: Seq<char> = spec_config_path(xdg_config_home, home);
    assert(p.subrange(p.len() - c.len(), p.len() as int) =~= c);
}

/// A character that titles keep as it is: not a control character, not whitespace,
/// and none of `<` `>` `:` `"` `/` `\\` `|` `?` `*`.
pub open spec fn is_kept_char(c: char) -> bool {
    &&& !spec_is_control(c)
    &&& !spec_is_whitespace(c)
    &&& c != '<' && c != '>' && c != ':' && c != '"' && c != '/'
    &&& c != '\\' && c != '|' && c != '?' && c != '*'
}

proof fn lemma_collapse_keeps(s: Seq<char>)
    requires
        forall|i: int| 0 <= i < s.len() ==> is_kept_char(#[trigger] s[i]),
    ensures
        spec_collapse(s) == (s, false),
    decreases s.len(),
{
    if s.len() > 0 {
        let p = s.drop_last();
        assert forall|i: int| 0 <= i < p.len() implies is_kept_char(#[trigger] p[i]) by {
            assert(p[i] == s[i]);
        }
        lemma_collapse_keeps(p);
        assert(is_kept_char(s[s.len() - 1]));
        assert(p.push(s.last()) == s);
    }
}

/// Law: a title made only of kept characters is its own cleaned form, so titles
/// lose no character outside control characters, whitespace and `<>:"/\\|?*`.
pub proof fn lemma_clean_keeps_plain_titles(s: Seq<char>)
    requires
        forall|i: int| 0 <= i < s.len() ==> is_kept_char(#[trigger] s[i]),
    ensures
        spec_clean(s) == s,
        s.len() > 0 ==> spec_sanitize(s) == nfd(s),
{
    lemma_collapse_keeps(s);
    if s.len() > 0 {
        assert(is_kept_char(s[0]));
        assert(is_kept_char(s[s.len() - 1]));
    }
    lemma_trim_unchanged(s);
}

/// Law: each of `<` `>` `:` `"` `/` `\\` `|` `?` `*`, each control character and each
/// whitespace character between two letters becomes a single space.
pub proof fn lemma_clean_replaces_special(c: char)
    requires
        spec_is_control(c) || spec_is_whitespace(c) || c == '<' || c == '>' || c == ':' || c == '"'
            || c == '/' || c == '\\' || c == '|' || c == '?' || c == '*',
    ensures
        spec_clean(seq!['a', c, 'b']) == seq!['a', ' ', 'b'],
{
    let s: Seq<char> = seq!['a', c, 'b'];
    assert(s.drop_last() == seq!['a', c]);
    assert(s.drop_last().drop_last() == seq!['a']);
    assert(seq!['a'].drop_last() == Seq::<char>::empty());
    let out: Seq<char> = seq!['a', ' ', 'b'];
    assert(spec_is_whitespace(spec_map_char(c)));
    assert(spec_collapse(Seq::<char>::empty()) == (Seq::<char>::empty(), false));
    assert(spec_collapse(seq!['a']) == (Seq::<char>::empty().push('a'), false));
    assert(Seq::<char>::empty().push('a') =~= seq!['a']);
    assert(spec_collapse(seq!['a', c]) == (seq!['a'].push(' '), true));
    assert(seq!['a'].push(' ') =~= seq!['a', ' ']);
    assert(spec_collapse(s) == (seq!['a', ' '].push('b'), false));
    assert(seq!['a', ' '].push('b') =~= out);
    assert(out[0] == 'a' && out[out.len() - 1] == 'b');
    lemma_trim_unchanged(out);
}

/// `dir` followed by `rest`, with one `/` between them unless `dir` already ends with one.
pub open spec fn under_dir(dir: Seq<char>, rest: Seq<char>) -> Seq<char> {
    if dir.last() == '/' {
        dir + rest
    } else {
        dir + seq!['/'] + rest
    }
}

/// The variable is set and its value is not blank (not only whitespace).
pub open spec fn is_set_nonblank(v: Option<Seq<char>>) -> bool {
    v is Some && spec_trim(v->0).len() > 0
}

/// Law: where the configuration file is. With `XDG_CONFIG_HOME` set and not blank it
/// is `$XDG_CONFIG_HOME/steve/config.toml`; else, with `HOME` set and not blank, it is
/// `$HOME/.config/steve/config.toml`; else it is `config.toml`.
pub proof fn lemma_config_path_locations(xdg: Option<Seq<char>>, home: Option<Seq<char>>)
    ensures
        is_set_nonblank(xdg) ==> spec_config_path(xdg, home) == under_dir(
            xdg->0,
            "steve/config.toml"@,
        ),
        !is_set_nonblank(xdg) && is_set_nonblank(home) ==> spec_config_path(xdg, home)
            == under_dir(home->0, ".config/steve/config.toml"@),
        !is_set_nonblank(xdg) && !is_set_nonblank(home) ==> spec_config_path(xdg, home)
            == "config.toml"@,
{
    reveal_strlit("steve");
    reveal_strlit("config.toml");
    reveal_strlit(".config");
    reveal_strlit("steve/config.toml");
    reveal_strlit(".config/steve/config.toml");
    let st: Seq<char> = "steve"@;
    let ct: Seq<char> = "config.toml"@;
    let dc: Seq<char> = ".config"@;
    assert(st[0] != '/' && ct[0] != '/' && dc[0] != '/');
    if is_set_nonblank(xdg) {
        let x: Seq<char> = xdg->0;
        assert(x.len() > 0);
        let d: Seq<char> = spec_join(x, st);
        assert(d.last() == 'e');
        assert(spec_join(d, ct) =~= under_dir(x, "steve/config.toml"@));
    } else if is_set_nonblank(home) {
        let h: Seq<char> = home->0;
        assert(h.len() > 0);
        let c: Seq<char> = spec_join(h, dc);
        assert(c.last() == 'g');
        let d: Seq<char> = spec_join(c, st);
        assert(d.last() == 'e');
        assert(spec_join(d, ct) =~= under_dir(h, ".config/steve/config.toml"@));
    }
}

proof fn lemma_dot_exts()
    ensures
        spec_dot_ext(0) == ".mp3"@,
        spec_dot_ext(1) == ".m4a"@,
        spec_dot_ext(2) == ".mp4"@,
        spec_dot_ext(3) == ".aac"@,
        spec_audio_extensions()[0] == "mp3"@,
        spec_audio_extensions()[1] == "m4a"@,
        spec_audio_extensions()[2] == "mp4"@,
        spec_audio_extensions()[3] == "aac"@,
{
    reveal_strlit("mp3");
    reveal_strlit("m4a");
    reveal_strlit("mp4");
    reveal_strlit("aac");
    reveal_strlit(".mp3");
    reveal_strlit(".m4a");
    reveal_strlit(".mp4");
    reveal_strlit(".aac");
    assert(spec_dot_ext(0) =~= ".mp3"@);
    assert(spec_dot_ext(1) =~= ".m4a"@);
    assert(spec_dot_ext(2) =~= ".mp4"@);
    assert(spec_dot_ext(3) =~= ".aac"@);
}

/// Law: the extension is chosen from the URL, compared in lower case: `mp3` where
/// `.mp3` occurs in it, else `m4a` where `.m4a` does, else `mp4` where `.mp4` does,
/// else `aac` where `.aac` does, else `mp3`.
pub proof fn lemma_extension_choice(url: Seq<char>)
    ensures
        ({
            let l: Seq<char> = spec_lower(url);
            &&& spec_contains(l, ".mp3"@) ==> spec_extension(url) == "mp3"@
            &&& !spec_contains(l, ".mp3"@) && spec_contains(l, ".m4a"@) ==> spec_extension(url)
                == "m4a"@
            &&& !spec_contains(l, ".mp3"@) && !spec_contains(l, ".m4a"@) && spec_contains(
                l,
                ".mp4"@,
            ) ==> spec_extension(url) == "mp4"@
            &&& !spec_contains(l, ".mp3"@) && !spec_contains(l, ".m4a"@) && !spec_contains(
                l,
                ".mp4"@,
            ) && spec_contains(l, ".aac"@) ==> spec_extension(url) == "aac"@
            &&& !spec_contains(l, ".mp3"@) && !spec_contains(l, ".m4a"@) && !spec_contains(
                l,
                ".mp4"@,
            ) && !spec_contains(l, ".aac"@) ==> spec_extension(url) == "mp3"@
        }),
{
    lemma_dot_exts();
    reveal_with_fuel(spec_extension_from, 5);
}

/// Law: a name counts as an audio file exactly where, in lower case, it ends with
/// `.mp3`, `.m4a`, `.mp4` or `.aac`.
pub proof fn lemma_audio_extension_suffixes(name: Seq<char>)
    ensures
        spec_has_audio_extension(name) <==> ({
            let l: Seq<char> = spec_lower(name);
            ||| spec_ends_with(l, ".mp3"@)
            ||| spec_ends_with(l, ".m4a"@)
            ||| spec_ends_with(l, ".mp4"@)
            ||| spec_ends_with(l, ".aac"@)
        }),
{
    lemma_dot_exts();
    let l: Seq<char> = spec_lower(name);
    if spec_ends_with(l, ".mp3"@) {
        assert(spec_ends_with(l, spec_dot_ext(0)));
    }
    if spec_ends_with(l, ".m4a"@) {
        assert(spec_ends_with(l, spec_dot_ext(1)));
    }
    if spec_ends_with(l, ".mp4"@) {
        assert(spec_ends_with(l, spec_dot_ext(2)));
    }
    if spec_ends_with(l, ".aac"@) {
        assert(spec_ends_with(l, spec_dot_ext(3)));
    }
    if spec_has_audio_extension(name) {
        let i: int = choose|i: int| 0 <= i < 4 && spec_ends_with(l, #[trigger] spec_dot_ext(i));
        assert(i == 0 || i == 1 || i == 2 || i == 3);
    }
}

/// The listed file is an old episode: an audio file that is the file of none of `episodes`.
pub open spec fn is_old_episode_file(n: Seq<char>, episodes: Seq<(Seq<char>, Seq<char>)>) -> bool {
    spec_has_audio_extension(n) && forall|i: int|
        0 <= i < episodes.len() ==> n != spec_filename(#[trigger] episodes[i].0, episodes[i].1)
}

/// The files to delete are the listed names at the increasing positions `idx`, which
/// are all the old episode files.
pub open spec fn stale_follows_names(
    names: Seq<Seq<char>>,
    episodes: Seq<(Seq<char>, Seq<char>)>,
    idx: Seq<int>,
) -> bool {
    let r = spec_stale(names, spec_filenames(episodes));
    &&& idx.len() == r.len()
    &&& forall|i: int, j: int| 0 <= i < j < idx.len() ==> #[trigger] idx[i] < #[trigger] idx[j]
    &&& forall|i: int|
        0 <= i < idx.len() ==> 0 <= #[trigger] idx[i] < names.len() && r[i] == names[idx[i]]
            && is_old_episode_file(names[idx[i]], episodes)
    &&& forall|k: int|
        0 <= k < names.len() && is_old_episode_file(#[trigger] names[k], episodes) ==> idx.contains(k)
}

proof fn stale_index(names: Seq<Seq<char>>, episodes: Seq<(Seq<char>, Seq<char>)>) -> (idx: Seq<
    int,
>)
    ensures
        stale_follows_names(names, episodes, idx),
    decreases names.len(),
{
    let kept = spec_filenames(episodes);
    assert forall|n: Seq<char>| is_old_episode_file(n, episodes) <==> (spec_has_audio_extension(n)
        && !kept.contains(n)) by {
        if kept.contains(n) {
            let i: int = choose|i: int| 0 <= i < kept.len() && kept[i] == n;
            assert(n == spec_filename(episodes[i].0, episodes[i].1));
        }
        if spec_has_audio_extension(n) && !is_old_episode_file(n, episodes) {
            let i: int = choose|i: int|
                0 <= i < episodes.len() && n == spec_filename(#[trigger] episodes[i].0, episodes[i].1);
            assert(kept[i] == n);
        }
    }
    if names.len() == 0 {
        Seq::empty()
    } else {
        let prev = names.drop_last();
        let pidx: Seq<int> = stale_index(prev, episodes);
        let n: int = names.len() - 1;
        let r = spec_stale(names, kept);
        let pr = spec_stale(prev, kept);
        assert forall|k: int| 0 <= k < prev.len() implies #[trigger] prev[k] == names[k] by {}
        if is_old_episode_file(names.last(), episodes) {
            let idx: Seq<int> = pidx.push(n);
            assert(r == pr.push(names.last()));
            assert forall|i: int| 0 <= i < idx.len() implies 0 <= #[trigger] idx[i] < names.len()
                && r[i] == names[idx[i]] && is_old_episode_file(names[idx[i]], episodes) by {
                if i < pidx.len() {
                    assert(idx[i] == pidx[i]);
                    assert(prev[pidx[i]] == names[pidx[i]]);
                    assert(r[i] == pr[i]);
                }
            }
            assert forall|k: int| 0 <= k < names.len() && is_old_episode_file(
                #[trigger] names[k],
                episodes,
            ) implies idx.contains(k) by {
                if k < n {
                    assert(prev[k] == names[k]);
                    let p: int = choose|p: int| 0 <= p < pidx.len() && pidx[p] == k;
                    assert(idx[p] == k);
                } else {
                    assert(idx[idx.len() - 1] == k);
                }
            }
            idx
        } else {
            assert(r == pr);
            assert forall|i: int| 0 <= i < pidx.len() implies 0 <= #[trigger] pidx[i] < names.len()
                && r[i] == names[pidx[i]] && is_old_episode_file(names[pidx[i]], episodes) by {
                assert(prev[pidx[i]] == names[pidx[i]]);
            }
            assert forall|k: int| 0 <= k < names.len() && is_old_episode_file(
                #[trigger] names[k],
                episodes,
            ) implies pidx.contains(k) by {
                assert(prev[k] == names[k]);
            }
            pidx
        }
    }
}

/// Law: with a limit, the files to delete are, in listing order, every listed audio
/// file that is the file of no kept episode, and no other; without one, none.
pub proof fn lemma_stale_in_order(
    names: Seq<Seq<char>>,
    episodes: Seq<(Seq<char>, Seq<char>)>,
    max_episodes: Option<usize>,
)
    ensures
        max_episodes is None ==> spec_stale_episode_files(names, episodes, max_episodes).len() == 0,
        max_episodes is Some ==> spec_stale_episode_files(names, episodes, max_episodes) == spec_stale(
            names,
            spec_filenames(episodes),
        ) && exists|idx: Seq<int>| #[trigger] stale_follows_names(names, episodes, idx),
{
    let idx: Seq<int> = stale_index(names, episodes);
}

/// Law: a run of two characters that each become a space, between two letters,
/// becomes one space.
pub proof fn lemma_clean_collapses_runs(c: char, d: char)
    requires
        spec_is_control(c) || spec_is_whitespace(c) || spec_is_forbidden(c),
        spec_is_control(d) || spec_is_whitespace(d) || spec_is_forbidden(d),
    ensures
        spec_clean(seq!['a', c, d, 'b']) == seq!['a', ' ', 'b'],
{
    let s: Seq<char> = seq!['a', c, d, 'b'];
    assert(spec_is_whitespace(spec_map_char(c)) && spec_is_whitespace(spec_map_char(d)));
    assert(s.drop_last() == seq!['a', c, d]);
    assert(seq!['a', c, d].drop_last() == seq!['a', c]);
    assert(seq!['a', c].drop_last() == seq!['a']);
    assert(seq!['a'].drop_last() == Seq::<char>::empty());
    assert(spec_collapse(Seq::<char>::empty()) == (Seq::<char>::empty(), false));
    assert(spec_collapse(seq!['a']) == (Seq::<char>::empty().push('a'), false));
    assert(Seq::<char>::empty().push('a') =~= seq!['a']);
    assert(spec_collapse(seq!['a', c]) == (seq!['a'].push(' '), true));
    assert(seq!['a'].push(' ') =~= seq!['a', ' ']);
    assert(spec_collapse(seq!['a', c, d]) == (seq!['a', ' '], true));
    let out: Seq<char> = seq!['a', ' ', 'b'];
    assert(spec_collapse(s) == (seq!['a', ' '].push('b'), false));
    assert(seq!['a', ' '].push('b') =~= out);
    lemma_trim_unchanged(out);
}

/// The character becomes a space, or is one: control, whitespace, or one of
/// `<` `>` `:` `"` `/` `\\` `|` `?` `*`.
pub open spec fn is_blanked_char(c: char) -> bool {
    spec_is_control(c) || spec_is_whitespace(c) || c == '<' || c == '>' || c == ':' || c == '"'
        || c == '/' || c == '\\' || c == '|' || c == '?' || c == '*'
}

proof fn lemma_collapse_all_blank(s: Seq<char>)
    ensures
        (forall|i: int| 0 <= i < s.len() ==> is_blanked_char(#[trigger] s[i])) <==> (forall|j: int|
            0 <= j < spec_collapse(s).0.len() ==> spec_is_whitespace(#[trigger] spec_collapse(s).0[j])),
    decreases s.len(),
{
    lemma_collapse_shape(s);
    if s.len() > 0 {
        let p: Seq<char> = s.drop_last();
        lemma_collapse_all_blank(p);
        lemma_collapse_shape(p);
        let po: Seq<char> = spec_collapse(p).0;
        let o: Seq<char> = spec_collapse(s).0;
        let c: char = s.last();
        assert(spec_is_whitespace(spec_map_char(c)) <==> is_blanked_char(c));
        if o.len() == po.len() + 1 {
            assert forall|j: int| 0 <= j < po.len() implies #[trigger] o[j] == po[j] by {}
        } else {
            assert(o == po);
        }
        if forall|i: int| 0 <= i < s.len() ==> is_blanked_char(#[trigger] s[i]) {
            assert forall|i: int| 0 <= i < p.len() implies is_blanked_char(#[trigger] p[i]) by {
                assert(p[i] == s[i]);
            }
            assert(is_blanked_char(s[s.len() - 1]));
        }
        if (forall|i: int| 0 <= i < p.len() ==> is_blanked_char(#[trigger] p[i])) && is_blanked_char(c) {
            assert forall|i: int| 0 <= i < s.len() implies is_blanked_char(#[trigger] s[i]) by {
                if i < p.len() {
                    assert(s[i] == p[i]);
                }
            }
        }
        if forall|j: int| 0 <= j < o.len() ==> spec_is_whitespace(#[trigger] o[j]) {
            if o.len() == po.len() + 1 {
                assert forall|j: int| 0 <= j < po.len() implies spec_is_whitespace(#[trigger] po[j]) by {
                    assert(o[j] == po[j]);
                }
                assert(spec_is_whitespace(o[o.len() - 1]));
            }
        }
    }
}

/// Law: a title is saved as `untitled` exactly where every character of it is a
/// control character, whitespace, or one of `<` `>` `:` `"` `/` `\\` `|` `?` `*`;
/// otherwise it is saved under the NFD form of its non-empty cleaned form.
pub proof fn lemma_sanitize_untitled(s: Seq<char>)
    ensures
        (forall|i: int| 0 <= i < s.len() ==> is_blanked_char(#[trigger] s[i])) ==> spec_sanitize(s)
            == "untitled"@,
        !(forall|i: int| 0 <= i < s.len() ==> is_blanked_char(#[trigger] s[i])) ==> (spec_clean(
            s,
        ).len() > 0 && spec_sanitize(s) == nfd(spec_clean(s))),
{
    lemma_collapse_all_blank(s);
    lemma_trim_empty(spec_collapse(s).0);
}

} // verus!
