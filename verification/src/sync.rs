//! Mirroring plans: which directories on the iPod to remove, which to update.
use vstd::prelude::*;
use crate::paths::{
    contains_path, join_path, path_with_trailing_slash, spec_join, spec_path_in,
    spec_with_trailing_slash,
};
use crate::prepare::{contains_string, strings_view};

verus! {

/// A directory found by listing a parent directory: its path, and its file name
/// where it has one.
pub struct DirEntry {
    pub path: String,
    pub name: Option<String>,
}

impl View for DirEntry {
    type V = (Seq<char>, Option<Seq<char>>);

    open spec fn view(&self) -> (Seq<char>, Option<Seq<char>>) {
        (
            self.path@,
            match self.name {
                Some(n) => Some(n@),
                None => None,
            },
        )
    }
}

pub open spec fn entries_view(v: Seq<DirEntry>) -> Seq<(Seq<char>, Option<Seq<char>>)> {
    v.map_values(|e: DirEntry| e@)
}

/// The file names of the entries that have one, in order.
pub open spec fn spec_names(entries: Seq<(Seq<char>, Option<Seq<char>>)>) -> Seq<Seq<char>>
    decreases entries.len(),
{
    if entries.len() == 0 {
        Seq::empty()
    } else {
        match entries.last().1 {
            Some(n) => spec_names(entries.drop_last()).push(n),
            None => spec_names(entries.drop_last()),
        }
    }
}

/// The entries on the iPod that have a file name found nowhere among `local_names`, in order.
pub open spec fn spec_removals(
    ipod: Seq<(Seq<char>, Option<Seq<char>>)>,
    local_names: Seq<Seq<char>>,
) -> Seq<(Seq<char>, Option<Seq<char>>)>
    decreases ipod.len(),
{
    if ipod.len() == 0 {
        Seq::empty()
    } else {
        let e = ipod.last();
        match e.1 {
            Some(n) => if local_names.contains(n) {
                spec_removals(ipod.drop_last(), local_names)
            } else {
                spec_removals(ipod.drop_last(), local_names).push(e)
            },
            None => spec_removals(ipod.drop_last(), local_names),
        }
    }
}

/// A plan for mirroring a content directory onto the iPod.
pub trait Plan {
    spec fn removals(&self) -> Seq<(Seq<char>, Option<Seq<char>>)>;

    spec fn updates(&self) -> Seq<(Seq<char>, Option<Seq<char>>)>;

    spec fn skips(&self) -> Seq<Seq<char>>;

    /// The directories on the iPod to delete.
    fn to_remove(&self) -> (r: &Vec<DirEntry>)
        ensures
            entries_view(r@) == self.removals(),
    ;

    /// The local directories to copy onto the iPod.
    fn to_update(&self) -> (r: &Vec<DirEntry>)
        ensures
            entries_view(r@) == self.updates(),
    ;

    /// The local directories to leave alone.
    fn to_skip(&self) -> (r: &Vec<String>)
        ensures
            strings_view(r@) == self.skips(),
    ;
}

/// The podcasts plan.
pub struct PodcastSyncPlan {
    pub podcasts_to_remove: Vec<DirEntry>,
    pub podcasts_to_update: Vec<DirEntry>,
    pub podcasts_to_skip: Vec<String>,
}

/// The music plan.
pub struct MusicSyncPlan {
    pub music_to_remove: Vec<DirEntry>,
    pub music_to_update: Vec<DirEntry>,
    pub music_to_skip: Vec<String>,
}

impl Plan for PodcastSyncPlan {
    open spec fn removals(&self) -> Seq<(Seq<char>, Option<Seq<char>>)> {
        entries_view(self.podcasts_to_remove@)
    }

    open spec fn updates(&self) -> Seq<(Seq<char>, Option<Seq<char>>)> {
        entries_view(self.podcasts_to_update@)
    }

    open spec fn skips(&self) -> Seq<Seq<char>> {
        strings_view(self.podcasts_to_skip@)
    }

    fn to_remove(&self) -> (r: &Vec<DirEntry>) {
        &self.podcasts_to_remove
    }

    fn to_update(&self) -> (r: &Vec<DirEntry>) {
        &self.podcasts_to_update
    }

    fn to_skip(&self) -> (r: &Vec<String>) {
        &self.podcasts_to_skip
    }
}

impl Plan for MusicSyncPlan {
    open spec fn removals(&self) -> Seq<(Seq<char>, Option<Seq<char>>)> {
        entries_view(self.music_to_remove@)
    }

    open spec fn updates(&self) -> Seq<(Seq<char>, Option<Seq<char>>)> {
        entries_view(self.music_to_update@)
    }

    open spec fn skips(&self) -> Seq<Seq<char>> {
        strings_view(self.music_to_skip@)
    }

    fn to_remove(&self) -> (r: &Vec<DirEntry>) {
        &self.music_to_remove
    }

    fn to_update(&self) -> (r: &Vec<DirEntry>) {
        &self.music_to_update
    }

    fn to_skip(&self) -> (r: &Vec<String>) {
        &self.music_to_skip
    }
}

/// The file names of the entries that have one.
fn entry_names(entries: &Vec<DirEntry>) -> (r: Vec<String>)
    ensures
        strings_view(r@) == spec_names(entries_view(entries@)),
{
    let ghost es: Seq<(Seq<char>, Option<Seq<char>>)> = entries_view(entries@);
    let mut r: Vec<String> = Vec::new();
    let mut i: usize = 0;
    while i < entries.len()
        invariant
            i <= entries@.len(),
            es == entries_view(entries@),
            strings_view(r@) == spec_names(es.subrange(0, i as int)),
        decreases entries.len() - i,
    {
        let ghost before: Seq<String> = r@;
        proof {
            let p = es.subrange(0, i + 1);
            assert(p.drop_last() == es.subrange(0, i as int));
            assert(p.last() == entries@[i as int]@);
        }
        match &entries[i].name {
            Some(n) => {
                r.push(n.clone());
                assert(strings_view(r@) =~= strings_view(before).push(n@));
            },
            None => {},
        }
        i = i + 1;
    }
    assert(es.subrange(0, es.len() as int) == es);
    r
}

fn clone_entry(e: &DirEntry) -> (r: DirEntry)
    ensures
        r@ == e@,
{
    DirEntry {
        path: e.path.clone(),
        name: match &e.name {
            Some(n) => Some(n.clone()),
            None => None,
        },
    }
}

fn clone_entries(v: &Vec<DirEntry>) -> (r: Vec<DirEntry>)
    ensures
        entries_view(r@) == entries_view(v@),
{
    let mut r: Vec<DirEntry> = Vec::new();
    let mut i: usize = 0;
    while i < v.len()
        invariant
            i <= v@.len(),
            entries_view(r@) == entries_view(v@.subrange(0, i as int)),
        decreases v.len() - i,
    {
        let e: DirEntry = clone_entry(&v[i]);
        let ghost before: Seq<DirEntry> = r@;
        r.push(e);
        assert(v@.subrange(0, i + 1) == v@.subrange(0, i as int).push(v@[i as int]));
        assert(entries_view(r@) =~= entries_view(before).push(v@[i as int]@));
        assert(entries_view(v@.subrange(0, i + 1)) =~= entries_view(v@.subrange(0, i as int)).push(
            v@[i as int]@,
        ));
        i = i + 1;
    }
    assert(v@.subrange(0, v@.len() as int) == v@);
    r
}

/// The entries on the iPod whose name is not among the local directories' names.
fn removals(local: &Vec<DirEntry>, ipod: &Vec<DirEntry>) -> (r: Vec<DirEntry>)
    ensures
        entries_view(r@) == spec_removals(entries_view(ipod@), spec_names(entries_view(local@))),
{
    let names: Vec<String> = entry_names(local);
    let ghost ns: Seq<Seq<char>> = strings_view(names@);
    let ghost es: Seq<(Seq<char>, Option<Seq<char>>)> = entries_view(ipod@);
    let mut r: Vec<DirEntry> = Vec::new();
    let mut i: usize = 0;
    while i < ipod.len()
        invariant
            i <= ipod@.len(),
            es == entries_view(ipod@),
            ns == strings_view(names@),
            ns == spec_names(entries_view(local@)),
            entries_view(r@) == spec_removals(es.subrange(0, i as int), ns),
        decreases ipod.len() - i,
    {
        let ghost before: Seq<DirEntry> = r@;
        proof {
            let p = es.subrange(0, i + 1);
            assert(p.drop_last() == es.subrange(0, i as int));
            assert(p.last() == ipod@[i as int]@);
        }
        match &ipod[i].name {
            Some(n) => {
                if !contains_string(&names, n) {
                    r.push(clone_entry(&ipod[i]));
                    assert(entries_view(r@) =~= entries_view(before).push(ipod@[i as int]@));
                }
            },
            None => {},
        }
        i = i + 1;
    }
    assert(es.subrange(0, es.len() as int) == es);
    r
}

/// The music plan: remove the artist directories on the iPod that have no local
/// counterpart of the same name, and update every local artist directory.
pub fn sync_music(local_artists: &Vec<DirEntry>, ipod_artists: &Vec<DirEntry>) -> (r: MusicSyncPlan)
    ensures
        r.removals() == spec_removals(
            entries_view(ipod_artists@),
            spec_names(entries_view(local_artists@)),
        ),
        r.updates() == entries_view(local_artists@),
        r.skips().len() == 0,
{
    MusicSyncPlan {
        music_to_remove: removals(local_artists, ipod_artists),
        music_to_update: clone_entries(local_artists),
        music_to_skip: Vec::new(),
    }
}

/// The podcast that is never mirrored.
pub open spec fn spec_skipped_podcast() -> Seq<char> {
    "/Users/ben/iPod Content/Podcasts/Podcast About List Premium"@
}

/// The podcasts plan: remove the podcast directories on the iPod that have no local
/// counterpart of the same name, update every local podcast directory, and skip
/// the one podcast that is never mirrored.
pub fn sync_podcasts(local_podcasts: &Vec<DirEntry>, ipod_podcasts: &Vec<DirEntry>) -> (r:
    PodcastSyncPlan)
    ensures
        r.removals() == spec_removals(
            entries_view(ipod_podcasts@),
            spec_names(entries_view(local_podcasts@)),
        ),
        r.updates() == entries_view(local_podcasts@),
        r.skips() == seq![spec_skipped_podcast()],
{
    let mut skip: Vec<String> = Vec::new();
    skip.push(String::from_str("/Users/ben/iPod Content/Podcasts/Podcast About List Premium"));
    assert(strings_view(skip@) =~= seq![spec_skipped_podcast()]);
    PodcastSyncPlan {
        podcasts_to_remove: removals(local_podcasts, ipod_podcasts),
        podcasts_to_update: clone_entries(local_podcasts),
        podcasts_to_skip: skip,
    }
}

/// An `rsync` run: mirror `source` into `dest`, both ending with `/`.
pub struct RsyncJob {
    pub source: String,
    pub dest: String,
}

impl View for RsyncJob {
    type V = (Seq<char>, Seq<char>);

    open spec fn view(&self) -> (Seq<char>, Seq<char>) {
        (self.source@, self.dest@)
    }
}

/// The `rsync` runs for the directories to update, in order: each that has a name
/// and is not skipped (no skip path is the same `Path`, component by component) is mirrored into the directory of that name under `content_dir`.
pub open spec fn spec_rsync_jobs(
    updates: Seq<(Seq<char>, Option<Seq<char>>)>,
    skips: Seq<Seq<char>>,
    content_dir: Seq<char>,
) -> Seq<(Seq<char>, Seq<char>)>
    decreases updates.len(),
{
    if updates.len() == 0 {
        Seq::empty()
    } else {
        let e = updates.last();
        let rest = spec_rsync_jobs(updates.drop_last(), skips, content_dir);
        match e.1 {
            Some(n) => if spec_path_in(skips, e.0) {
                rest
            } else {
                rest.push(
                    (spec_with_trailing_slash(e.0), spec_with_trailing_slash(spec_join(content_dir, n))),
                )
            },
            None => rest,
        }
    }
}

/// The `rsync` runs that carry out `plan`'s updates into `content_dir` on the iPod.
pub fn rsync_jobs<P: Plan>(plan: &P, content_dir: &str) -> (r: Vec<RsyncJob>)
    ensures
        r@.map_values(|j: RsyncJob| j@) == spec_rsync_jobs(plan.updates(), plan.skips(), content_dir@),
{
    let updates: &Vec<DirEntry> = plan.to_update();
    let skips: &Vec<String> = plan.to_skip();
    let ghost us: Seq<(Seq<char>, Option<Seq<char>>)> = plan.updates();
    let mut r: Vec<RsyncJob> = Vec::new();
    let mut i: usize = 0;
    while i < updates.len()
        invariant
            i <= updates@.len(),
            us == entries_view(updates@),
            strings_view(skips@) == plan.skips(),
            r@.map_values(|j: RsyncJob| j@) == spec_rsync_jobs(
                us.subrange(0, i as int),
                plan.skips(),
                content_dir@,
            ),
        decreases updates.len() - i,
    {
        let ghost before: Seq<RsyncJob> = r@;
        proof {
            let p = us.subrange(0, i + 1);
            assert(p.drop_last() == us.subrange(0, i as int));
            assert(p.last() == updates@[i as int]@);
        }
        let entry: &DirEntry = &updates[i];
        match &entry.name {
            Some(name) => {
                if !contains_path(skips, &entry.path) {
                    let dest_dir: String = join_path(content_dir, name.as_str());
                    let job: RsyncJob = RsyncJob {
                        source: path_with_trailing_slash(entry.path.clone()),
                        dest: path_with_trailing_slash(dest_dir),
                    };
                    r.push(job);
                    assert(r@.map_values(|j: RsyncJob| j@) =~= before.map_values(
                        |j: RsyncJob| j@,
                    ).push(job@));
                }
            },
            None => {},
        }
        i = i + 1;
    }
    assert(us.subrange(0, us.len() as int) == us);
    r
}

/// Law: the plan removes exactly the listed iPod directories whose name is not the
/// name of a local directory; a directory that exists locally is never removed.
pub proof fn lemma_removals(
    ipod: Seq<(Seq<char>, Option<Seq<char>>)>,
    local_names: Seq<Seq<char>>,
)
    ensures
        forall|e: (Seq<char>, Option<Seq<char>>)|
            #[trigger] spec_removals(ipod, local_names).contains(e) <==> (ipod.contains(e)
                && e.1 is Some && !local_names.contains(e.1->0)),
    decreases ipod.len(),
{
    if ipod.len() > 0 {
        let prev = ipod.drop_last();
        let last = ipod.last();
        lemma_removals(prev, local_names);
        assert(ipod == prev.push(last));
        let r = spec_removals(prev, local_names);
        let keep_last: bool = last.1 is Some && !local_names.contains(last.1->0);
        if keep_last {
            assert(spec_removals(ipod, local_names) == r.push(last));
        } else {
            assert(spec_removals(ipod, local_names) == r);
        }
        assert forall|e: (Seq<char>, Option<Seq<char>>)|
            #[trigger] spec_removals(ipod, local_names).contains(e) <==> (ipod.contains(e)
                && e.1 is Some && !local_names.contains(e.1->0)) by {
            assert(ipod.contains(e) <==> (prev.contains(e) || e == last)) by {
                if prev.contains(e) {
                    let k: int = choose|k: int| 0 <= k < prev.len() && prev[k] == e;
                    assert(ipod[k] == e);
                }
                if ipod.contains(e) {
                    let k: int = choose|k: int| 0 <= k < ipod.len() && ipod[k] == e;
                    if k < prev.len() {
                        assert(prev[k] == e);
                    }
                }
                if e == last {
                    assert(ipod[ipod.len() - 1] == e);
                }
            }
            assert(r.contains(e) <==> (prev.contains(e) && e.1 is Some && !local_names.contains(
                e.1->0,
            )));
            if keep_last {
                assert(r.push(last).contains(e) <==> (r.contains(e) || e == last)) by {
                    if r.contains(e) {
                        let k: int = choose|k: int| 0 <= k < r.len() && r[k] == e;
                        assert(r.push(last)[k] == e);
                    }
                    if r.push(last).contains(e) {
                        let k: int = choose|k: int| 0 <= k < r.push(last).len() && r.push(last)[k] == e;
                        if k < r.len() {
                            assert(r[k] == e);
                        }
                    }
                    if e == last {
                        assert(r.push(last)[r.len() as int] == e);
                    }
                }
            }
        }
    } else {
        assert forall|e: (Seq<char>, Option<Seq<char>>)|
            #[trigger] spec_removals(ipod, local_names).contains(e) <==> (ipod.contains(e)
                && e.1 is Some && !local_names.contains(e.1->0)) by {
            assert(!ipod.contains(e));
            assert(spec_removals(ipod, local_names).len() == 0);
        }
    }
}

/// Law: every `rsync` run mirrors a directory to update that has a name and is not
/// skipped, into the directory of that name under `content_dir`, and both its ends
/// end with `/`.
pub proof fn lemma_rsync_jobs(
    updates: Seq<(Seq<char>, Option<Seq<char>>)>,
    skips: Seq<Seq<char>>,
    content_dir: Seq<char>,
)
    ensures
        spec_rsync_jobs(updates, skips, content_dir).len() <= updates.len(),
        forall|i: int|
            0 <= i < spec_rsync_jobs(updates, skips, content_dir).len() ==> exists|k: int|
                0 <= k < updates.len() && (#[trigger] updates[k]).1 is Some && !spec_path_in(
                    skips,
                    updates[k].0,
                ) && #[trigger] spec_rsync_jobs(updates, skips, content_dir)[i] == (
                    spec_with_trailing_slash(updates[k].0),
                    spec_with_trailing_slash(spec_join(content_dir, updates[k].1->0)),
                ),
    decreases updates.len(),
{
    if updates.len() > 0 {
        let prev = updates.drop_last();
        lemma_rsync_jobs(prev, skips, content_dir);
        let jobs = spec_rsync_jobs(updates, skips, content_dir);
        let pj = spec_rsync_jobs(prev, skips, content_dir);
        assert forall|i: int| 0 <= i < jobs.len() implies exists|k: int|
            0 <= k < updates.len() && (#[trigger] updates[k]).1 is Some && !spec_path_in(
                skips,
                updates[k].0,
            ) && #[trigger] jobs[i] == (
                spec_with_trailing_slash(updates[k].0),
                spec_with_trailing_slash(spec_join(content_dir, updates[k].1->0)),
            ) by {
            if i < pj.len() {
                assert(jobs[i] == pj[i]);
                let k: int = choose|k: int|
                    0 <= k < prev.len() && (#[trigger] prev[k]).1 is Some && !spec_path_in(
                        skips,
                        prev[k].0,
                    ) && #[trigger] pj[i] == (
                        spec_with_trailing_slash(prev[k].0),
                        spec_with_trailing_slash(spec_join(content_dir, prev[k].1->0)),
                    );
                assert(updates[k] == prev[k]);
            } else {
                assert(updates[updates.len() - 1] == updates.last());
            }
        }
    }
}

proof fn lemma_names_members(entries: Seq<(Seq<char>, Option<Seq<char>>)>)
    ensures
        forall|n: Seq<char>|
            #[trigger] spec_names(entries).contains(n) <==> exists|j: int|
                0 <= j < entries.len() && #[trigger] entries[j].1 == Some(n),
    decreases entries.len(),
{
    if entries.len() > 0 {
        let prev = entries.drop_last();
        lemma_names_members(prev);
        let last = entries.last();
        let names = spec_names(entries);
        let pn = spec_names(prev);
        assert forall|n: Seq<char>|
            #[trigger] spec_names(entries).contains(n) <==> exists|j: int|
                0 <= j < entries.len() && #[trigger] entries[j].1 == Some(n) by {
            if names.contains(n) {
                let p: int = choose|p: int| 0 <= p < names.len() && names[p] == n;
                if p < pn.len() {
                    assert(names[p] == pn[p]);
                    assert(pn.contains(n));
                    let j: int = choose|j: int| 0 <= j < prev.len() && #[trigger] prev[j].1 == Some(n);
                    assert(entries[j] == prev[j]);
                } else {
                    assert(entries[entries.len() - 1].1 == Some(n));
                }
            }
            if exists|j: int| 0 <= j < entries.len() && #[trigger] entries[j].1 == Some(n) {
                let j: int = choose|j: int| 0 <= j < entries.len() && #[trigger] entries[j].1 == Some(n);
                if j < prev.len() {
                    assert(prev[j] == entries[j]);
                    assert(pn.contains(n));
                    let p: int = choose|p: int| 0 <= p < pn.len() && pn[p] == n;
                    assert(names[p] == n);
                } else {
                    assert(names[names.len() - 1] == n);
                }
            }
        }
    }
}

/// Law: the music and podcast plans remove exactly the iPod directories that have a
/// name and whose name is the name of no local directory; an iPod directory named
/// like any local directory is never removed.
pub proof fn lemma_plan_removes_unmatched(
    local: Seq<(Seq<char>, Option<Seq<char>>)>,
    ipod: Seq<(Seq<char>, Option<Seq<char>>)>,
)
    ensures
        forall|e: (Seq<char>, Option<Seq<char>>)|
            #[trigger] spec_removals(ipod, spec_names(local)).contains(e) <==> (ipod.contains(e)
                && e.1 is Some && forall|j: int| 0 <= j < local.len() ==> #[trigger] local[j].1
                != e.1),
{
    lemma_names_members(local);
    lemma_removals(ipod, spec_names(local));
    assert forall|e: (Seq<char>, Option<Seq<char>>)|
        #[trigger] spec_removals(ipod, spec_names(local)).contains(e) <==> (ipod.contains(e)
            && e.1 is Some && forall|j: int| 0 <= j < local.len() ==> #[trigger] local[j].1 != e.1) by {
        if e.1 is Some {
            let n: Seq<char> = e.1->0;
            assert(spec_names(local).contains(n) <==> exists|j: int|
                0 <= j < local.len() && #[trigger] local[j].1 == Some(n));
            assert(e.1 == Some(n));
        }
    }
}

/// The directory to update is mirrored: it has a name and no skip path is the same path.
pub open spec fn is_mirrored(e: (Seq<char>, Option<Seq<char>>), skips: Seq<Seq<char>>) -> bool {
    e.1 is Some && !spec_path_in(skips, e.0)
}

proof fn rsync_index(
    updates: Seq<(Seq<char>, Option<Seq<char>>)>,
    skips: Seq<Seq<char>>,
    content_dir: Seq<char>,
) -> (idx: Seq<int>)
    ensures
        idx.len() == spec_rsync_jobs(updates, skips, content_dir).len(),
        forall|i: int, j: int| 0 <= i < j < idx.len() ==> #[trigger] idx[i] < #[trigger] idx[j],
        forall|i: int|
            0 <= i < idx.len() ==> 0 <= #[trigger] idx[i] < updates.len() && is_mirrored(
                updates[idx[i]],
                skips,
            ) && spec_rsync_jobs(updates, skips, content_dir)[i] == (
                spec_with_trailing_slash(updates[idx[i]].0),
                spec_with_trailing_slash(spec_join(content_dir, updates[idx[i]].1->0)),
            ),
        forall|k: int|
            0 <= k < updates.len() && is_mirrored(#[trigger] updates[k], skips) ==> idx.contains(k),
    decreases updates.len(),
{
    if updates.len() == 0 {
        Seq::empty()
    } else {
        let prev = updates.drop_last();
        let pidx: Seq<int> = rsync_index(prev, skips, content_dir);
        let n: int = updates.len() - 1;
        let jobs = spec_rsync_jobs(updates, skips, content_dir);
        let pj = spec_rsync_jobs(prev, skips, content_dir);
        assert forall|k: int| 0 <= k < prev.len() implies #[trigger] prev[k] == updates[k] by {}
        if is_mirrored(updates.last(), skips) {
            let idx: Seq<int> = pidx.push(n);
            assert(jobs.len() == pj.len() + 1);
            assert forall|i: int| 0 <= i < idx.len() implies 0 <= #[trigger] idx[i] < updates.len()
                && is_mirrored(updates[idx[i]], skips) && jobs[i] == (
                spec_with_trailing_slash(updates[idx[i]].0),
                spec_with_trailing_slash(spec_join(content_dir, updates[idx[i]].1->0)),
            ) by {
                if i < pidx.len() {
                    assert(idx[i] == pidx[i]);
                    assert(prev[pidx[i]] == updates[pidx[i]]);
                    assert(jobs[i] == pj[i]);
                }
            }
            assert forall|k: int| 0 <= k < updates.len() && is_mirrored(
                #[trigger] updates[k],
                skips,
            ) implies idx.contains(k) by {
                if k < n {
                    assert(prev[k] == updates[k]);
                    let p: int = choose|p: int| 0 <= p < pidx.len() && pidx[p] == k;
                    assert(idx[p] == k);
                } else {
                    assert(idx[idx.len() - 1] == k);
                }
            }
            idx
        } else {
            assert(jobs == pj);
            assert forall|i: int| 0 <= i < pidx.len() implies 0 <= #[trigger] pidx[i] < updates.len()
                && is_mirrored(updates[pidx[i]], skips) && jobs[i] == (
                spec_with_trailing_slash(updates[pidx[i]].0),
                spec_with_trailing_slash(spec_join(content_dir, updates[pidx[i]].1->0)),
            ) by {
                assert(prev[pidx[i]] == updates[pidx[i]]);
            }
            assert forall|k: int| 0 <= k < updates.len() && is_mirrored(
                #[trigger] updates[k],
                skips,
            ) implies pidx.contains(k) by {
                assert(prev[k] == updates[k]);
            }
            pidx
        }
    }
}

/// The `rsync` runs follow the directories to update at the increasing positions
/// `idx`, which are all the mirrored ones.
pub open spec fn jobs_follow_updates(
    updates: Seq<(Seq<char>, Option<Seq<char>>)>,
    skips: Seq<Seq<char>>,
    content_dir: Seq<char>,
    idx: Seq<int>,
) -> bool {
    &&& idx.len() == spec_rsync_jobs(updates, skips, content_dir).len()
    &&& forall|i: int, j: int| 0 <= i < j < idx.len() ==> #[trigger] idx[i] < #[trigger] idx[j]
    &&& forall|i: int|
        0 <= i < idx.len() ==> 0 <= #[trigger] idx[i] < updates.len() && is_mirrored(
            updates[idx[i]],
            skips,
        ) && spec_rsync_jobs(updates, skips, content_dir)[i] == (
            spec_with_trailing_slash(updates[idx[i]].0),
            spec_with_trailing_slash(spec_join(content_dir, updates[idx[i]].1->0)),
        )
    &&& forall|k: int|
        0 <= k < updates.len() && is_mirrored(#[trigger] updates[k], skips) ==> idx.contains(k)
}

/// Law: the `rsync` runs are, in order, one for each directory to update that has a
/// name and is not skipped (no skip path is the same path), and no other; each
/// mirrors that directory into the directory of that name under `content_dir`, both
/// ends given with a trailing `/`.
pub proof fn lemma_rsync_jobs_complete(
    updates: Seq<(Seq<char>, Option<Seq<char>>)>,
    skips: Seq<Seq<char>>,
    content_dir: Seq<char>,
)
    ensures
        exists|idx: Seq<int>| #[trigger] jobs_follow_updates(updates, skips, content_dir, idx),
{
    let idx: Seq<int> = rsync_index(updates, skips, content_dir);
    assert(jobs_follow_updates(updates, skips, content_dir, idx));
}

/// The iPod directory is to be removed: it has a name, and no local directory has that name.
pub open spec fn is_unmatched(
    e: (Seq<char>, Option<Seq<char>>),
    local: Seq<(Seq<char>, Option<Seq<char>>)>,
) -> bool {
    e.1 is Some && forall|j: int| 0 <= j < local.len() ==> #[trigger] local[j].1 != e.1
}

/// The removals are the iPod directories at the increasing positions `idx`, which
/// are all the unmatched ones.
pub open spec fn removals_follow_ipod(
    local: Seq<(Seq<char>, Option<Seq<char>>)>,
    ipod: Seq<(Seq<char>, Option<Seq<char>>)>,
    idx: Seq<int>,
) -> bool {
    let r = spec_removals(ipod, spec_names(local));
    &&& idx.len() == r.len()
    &&& forall|i: int, j: int| 0 <= i < j < idx.len() ==> #[trigger] idx[i] < #[trigger] idx[j]
    &&& forall|i: int|
        0 <= i < idx.len() ==> 0 <= #[trigger] idx[i] < ipod.len() && r[i] == ipod[idx[i]]
            && is_unmatched(ipod[idx[i]], local)
    &&& forall|k: int| 0 <= k < ipod.len() && is_unmatched(#[trigger] ipod[k], local) ==> idx.contains(k)
}

proof fn removal_index(
    local: Seq<(Seq<char>, Option<Seq<char>>)>,
    ipod: Seq<(Seq<char>, Option<Seq<char>>)>,
) -> (idx: Seq<int>)
    ensures
        removals_follow_ipod(local, ipod, idx),
    decreases ipod.len(),
{
    lemma_names_members(local);
    let names = spec_names(local);
    assert forall|e: (Seq<char>, Option<Seq<char>>)| e.1 is Some implies (is_unmatched(e, local)
        <==> !names.contains(e.1->0)) by {
        let n: Seq<char> = e.1->0;
        assert(names.contains(n) <==> exists|j: int|
            0 <= j < local.len() && #[trigger] local[j].1 == Some(n));
        assert(e.1 == Some(n));
    }
    if ipod.len() == 0 {
        Seq::empty()
    } else {
        let prev = ipod.drop_last();
        let pidx: Seq<int> = removal_index(local, prev);
        let n: int = ipod.len() - 1;
        let r = spec_removals(ipod, names);
        let pr = spec_removals(prev, names);
        assert forall|k: int| 0 <= k < prev.len() implies #[trigger] prev[k] == ipod[k] by {}
        if is_unmatched(ipod.last(), local) {
            let idx: Seq<int> = pidx.push(n);
            assert(r == pr.push(ipod.last()));
            assert forall|i: int| 0 <= i < idx.len() implies 0 <= #[trigger] idx[i] < ipod.len()
                && r[i] == ipod[idx[i]] && is_unmatched(ipod[idx[i]], local) by {
                if i < pidx.len() {
                    assert(idx[i] == pidx[i]);
                    assert(prev[pidx[i]] == ipod[pidx[i]]);
                    assert(r[i] == pr[i]);
                }
            }
            assert forall|k: int| 0 <= k < ipod.len() && is_unmatched(#[trigger] ipod[k], local)
                implies idx.contains(k) by {
                if k < n {
                    assert(prev[k] == ipod[k]);
                    let p: int = choose|p: int| 0 <= p < pidx.len() && pidx[p] == k;
                    assert(idx[p] == k);
                } else {
                    assert(idx[idx.len() - 1] == k);
                }
            }
            idx
        } else {
            assert(r == pr);
            assert forall|i: int| 0 <= i < pidx.len() implies 0 <= #[trigger] pidx[i] < ipod.len()
                && r[i] == ipod[pidx[i]] && is_unmatched(ipod[pidx[i]], local) by {
                assert(prev[pidx[i]] == ipod[pidx[i]]);
            }
            assert forall|k: int| 0 <= k < ipod.len() && is_unmatched(#[trigger] ipod[k], local)
                implies pidx.contains(k) by {
                assert(prev[k] == ipod[k]);
            }
            pidx
        }
    }
}

/// Law: the plans remove, in iPod order, every iPod directory that has a name no
/// local directory has, and no other.
pub proof fn lemma_plan_removals_in_order(
    local: Seq<(Seq<char>, Option<Seq<char>>)>,
    ipod: Seq<(Seq<char>, Option<Seq<char>>)>,
)
    ensures
        exists|idx: Seq<int>| #[trigger] removals_follow_ipod(local, ipod, idx),
{
    let idx: Seq<int> = removal_index(local, ipod);
}

} // verus!
