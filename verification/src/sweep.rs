//! Reconciling the cache directory with what the library wants in it.

use vstd::prelude::*;
use vstd::string::*;
use crate::config::{Config, Properties, PropsView};
use crate::ids::{OriginalWallpaperID, WallpaperID};
use crate::monitors::{res_text, Monitor};
use crate::paths::{below, joined, last_slash, leaf, lemma_last_slash, parent, parent_of, starts_with};
use crate::text::{contains_text, has_text};
use crate::wallpaper::{all_valid, target_for, Wallpaper};

verus! {

/// `p` is the final file of some wallpaper of the list on some display of the list.
pub open spec fn is_wanted(
    ids: Seq<OriginalWallpaperID>,
    monitors: Seq<Monitor>,
    cache: Seq<char>,
    store: Map<Seq<char>, PropsView>,
    p: Seq<char>,
) -> bool {
    exists|i: int, j: int|
        0 <= i < ids.len() && 0 <= j < monitors.len() && (#[trigger] target_for(
            &ids[i],
            cache,
            store,
            monitors[j],
        )).final_file == p
}

/// `f` lies in the directory of some display of the list.
pub open spec fn under_some(f: Seq<char>, dirs: Seq<String>) -> bool {
    exists|j: int| 0 <= j < dirs.len() && below(f, (#[trigger] dirs[j])@)
}

/// Whether the sweep deletes the file `f`: it is not wanted, and it lies
/// in the directory of a current display or all directories are swept.
pub open spec fn to_delete(f: Seq<char>, clean_monitors: bool, dirs: Seq<String>, valid: Seq<String>) -> bool {
    (clean_monitors || under_some(f, dirs)) && !has_text(valid, f)
}

/// The indices of the files among the first `n` that the sweep deletes.
pub open spec fn doomed(
    files: Seq<String>,
    clean_monitors: bool,
    dirs: Seq<String>,
    valid: Seq<String>,
    n: int,
) -> Seq<usize>
    decreases n,
{
    if n <= 0 {
        Seq::empty()
    } else if to_delete(files[n - 1]@, clean_monitors, dirs, valid) {
        doomed(files, clean_monitors, dirs, valid, n - 1).push((n - 1) as usize)
    } else {
        doomed(files, clean_monitors, dirs, valid, n - 1)
    }
}

/// The directories above `f` that lie below `root`, nearest first: the
/// ones to remove, if they are empty, after `f` was deleted.
pub open spec fn dirs_above(f: Seq<char>, root: Seq<char>) -> Seq<Seq<char>>
    decreases f.len(),
{
    match parent_of(f) {
        Some(p) => if p.len() < f.len() && below(p, root) && p != root {
            seq![p] + dirs_above(p, root)
        } else {
            Seq::empty()
        },
        None => Seq::empty(),
    }
}

/// The directory that holds a file is a shorter text than the file's path.
pub proof fn lemma_parent_shorter(f: Seq<char>)
    ensures
        parent_of(f) matches Some(p) ==> p.len() < f.len(),
{
    lemma_last_slash(f);
}

/// Every final file that the library wants for the displays.
pub fn valid_files(
    config: &Config,
    store: &Properties,
    ids: &Vec<OriginalWallpaperID>,
    monitors: &Vec<Monitor>,
) -> (r: Vec<String>)
    requires
        all_valid(monitors@),
    ensures
        forall|p: Seq<char>|
            has_text(r@, p) <==> is_wanted(ids@, monitors@, config.cache_directory@, store@, p),
{
    let ghost cache = config.cache_directory@;
    let mut r: Vec<String> = Vec::new();
    let mut i: usize = 0;
    while i < ids.len()
        invariant
            i <= ids@.len(),
            all_valid(monitors@),
            cache == config.cache_directory@,
            forall|p: Seq<char>|
                has_text(r@, p) <==> is_wanted(ids@.take(i as int), monitors@, cache, store@, p),
        decreases ids@.len() - i,
    {
        let w = Wallpaper::new(&ids[i], monitors);
        let paths = w.final_paths(config, store);
        let ghost before = r@;
        let mut j: usize = 0;
        while j < paths.len()
            invariant
                j <= paths@.len(),
                r@.len() == before.len() + j,
                forall|k: int| 0 <= k < before.len() ==> r@[k] == before[k],
                forall|k: int| 0 <= k < j ==> r@[before.len() + k] == paths@[k],
            decreases paths@.len() - j,
        {
            r.push(paths[j].clone());
            j = j + 1;
        }
        proof {
            let now = ids@.take(i + 1);
            let was = ids@.take(i as int);
            assert forall|p: Seq<char>|
                has_text(r@, p) <==> is_wanted(now, monitors@, cache, store@, p) by {
                if has_text(r@, p) {
                    let k = choose|k: int| 0 <= k < r@.len() && (#[trigger] r@[k])@ == p;
                    if k < before.len() {
                        assert(before[k] == r@[k]);
                        assert(has_text(before, p));
                        let (a, b) = choose|a: int, b: int|
                            0 <= a < was.len() && 0 <= b < monitors@.len() && (#[trigger] target_for(
                                &was[a],
                                cache,
                                store@,
                                monitors@[b],
                            )).final_file == p;
                        assert(now[a] == was[a]);
                        assert(target_for(&now[a], cache, store@, monitors@[b]).final_file == p);
                    } else {
                        let b = k - before.len();
                        assert(r@[before.len() + b] == paths@[b]);
                        assert(now[i as int] == ids@[i as int]);
                        assert(target_for(&now[i as int], cache, store@, monitors@[b]).final_file
                            == p);
                    }
                }
                if is_wanted(now, monitors@, cache, store@, p) {
                    let (a, b) = choose|a: int, b: int|
                        0 <= a < now.len() && 0 <= b < monitors@.len() && (#[trigger] target_for(
                            &now[a],
                            cache,
                            store@,
                            monitors@[b],
                        )).final_file == p;
                    if a < i {
                        assert(was[a] == now[a]);
                        assert(target_for(&was[a], cache, store@, monitors@[b]).final_file == p);
                        assert(has_text(before, p));
                        let k = choose|k: int| 0 <= k < before.len() && (#[trigger] before[k])@ == p;
                        assert(r@[k] == before[k]);
                    } else {
                        assert(r@[before.len() + b] == paths@[b]);
                        assert(r@[before.len() + b]@ == p);
                    }
                }
            }
        }
        i = i + 1;
    }
    proof {
        assert(ids@.take(ids@.len() as int) =~= ids@);
    }
    r
}

/// The directory of each display below the cache root, in the order of the displays.
pub fn monitor_dirs(config: &Config, monitors: &Vec<Monitor>) -> (r: Vec<String>)
    ensures
        r@.len() == monitors@.len(),
        forall|j: int|
            0 <= j < r@.len() ==> (#[trigger] r@[j])@ == joined(
                config.cache_directory@,
                res_text(monitors@[j]),
            ),
{
    let mut r: Vec<String> = Vec::new();
    let mut j: usize = 0;
    while j < monitors.len()
        invariant
            j <= monitors@.len(),
            r@.len() == j,
            forall|k: int|
                0 <= k < j ==> (#[trigger] r@[k])@ == joined(
                    config.cache_directory@,
                    res_text(monitors@[k]),
                ),
        decreases monitors@.len() - j,
    {
        r.push(monitors[j].cache_dir(config));
        j = j + 1;
    }
    r
}

fn lies_under(f: &str, dirs: &Vec<String>) -> (r: bool)
    ensures
        r == under_some(f@, dirs@),
{
    let mut j: usize = 0;
    while j < dirs.len()
        invariant
            j <= dirs@.len(),
            forall|k: int| 0 <= k < j ==> !below(f@, (#[trigger] dirs@[k])@),
        decreases dirs@.len() - j,
    {
        if starts_with(f, dirs[j].as_str()) {
            return true;
        }
        j = j + 1;
    }
    false
}

/// The files of the cache that are to be deleted, by their indices in
/// `files`. With `clean_monitors` every file that is not wanted goes;
/// without it, only those in the directory of a current display.
pub fn sweep(files: &Vec<String>, clean_monitors: bool, dirs: &Vec<String>, valid: &Vec<String>) -> (r:
    Vec<usize>)
    ensures
        r@ == doomed(files@, clean_monitors, dirs@, valid@, files@.len() as int),
{
    let mut r: Vec<usize> = Vec::new();
    let mut i: usize = 0;
    while i < files.len()
        invariant
            i <= files@.len(),
            r@ == doomed(files@, clean_monitors, dirs@, valid@, i as int),
        decreases files@.len() - i,
    {
        let f = files[i].as_str();
        if (clean_monitors || lies_under(f, dirs)) && !contains_text(valid, f) {
            r.push(i);
        }
        i = i + 1;
    }
    r
}

/// The directories to try to remove after `f` was deleted, nearest
/// first: each one only if the one before it could be removed.
pub fn ancestors(f: &str, root: &str) -> (r: Vec<String>)
    ensures
        r@.len() == dirs_above(f@, root@).len(),
        forall|k: int| 0 <= k < r@.len() ==> (#[trigger] r@[k])@ == dirs_above(f@, root@)[k],
{
    let mut r: Vec<String> = Vec::new();
    let mut cur = String::from_str(f);
    let root_text = String::from_str(root);
    let mut size: usize = cur.as_str().unicode_len();
    loop
        invariant
            size == cur@.len(),
            root_text@ == root@,
            dirs_above(f@, root@).len() == r@.len() + dirs_above(cur@, root@).len(),
            forall|k: int| 0 <= k < r@.len() ==> (#[trigger] r@[k])@ == dirs_above(f@, root@)[k],
            forall|k: int|
                0 <= k < dirs_above(cur@, root@).len() ==> dirs_above(f@, root@)[r@.len() + k]
                    == #[trigger] dirs_above(cur@, root@)[k],
        ensures
            dirs_above(cur@, root@).len() == 0,
        decreases size,
    {
        proof {
            lemma_parent_shorter(cur@);
        }
        let p = match parent(cur.as_str()) {
            Some(p) => p,
            None => {
                break ;
            },
        };
        if !starts_with(p.as_str(), root) || p == root_text {
            break ;
        }
        proof {
            let rest = dirs_above(p@, root@);
            assert(dirs_above(cur@, root@) =~= seq![p@] + rest);
            assert(dirs_above(cur@, root@)[0] == p@);
            assert forall|k: int| 0 <= k < rest.len() implies dirs_above(f@, root@)[r@.len() + 1
                + k] == #[trigger] rest[k] by {
                assert(dirs_above(cur@, root@)[k + 1] == rest[k]);
            }
        }
        size = p.as_str().unicode_len();
        r.push(p.clone());
        cur = p;
    }
    r
}

/// With all directories swept, every file that is not deleted is wanted.
pub proof fn lemma_sweep_closure(files: Seq<String>, dirs: Seq<String>, valid: Seq<String>, i: int)
    requires
        0 <= i < files.len(),
        files.len() <= usize::MAX,
    ensures
        doomed(files, true, dirs, valid, files.len() as int).contains(i as usize) || has_text(
            valid,
            files[i]@,
        ),
        doomed(files, true, dirs, valid, files.len() as int).contains(i as usize) ==> !has_text(
            valid,
            files[i]@,
        ),
{
    lemma_doomed(files, true, dirs, valid, files.len() as int);
}

/// The sweep deletes exactly the files that are to be deleted.
pub proof fn lemma_doomed(
    files: Seq<String>,
    clean_monitors: bool,
    dirs: Seq<String>,
    valid: Seq<String>,
    n: int,
)
    requires
        0 <= n <= files.len(),
        n <= usize::MAX,
    ensures
        forall|i: int|
            0 <= i < n ==> (doomed(files, clean_monitors, dirs, valid, n).contains(i as usize)
                <==> to_delete(#[trigger] files[i]@, clean_monitors, dirs, valid)),
        forall|k: int|
            0 <= k < doomed(files, clean_monitors, dirs, valid, n).len() ==> #[trigger] doomed(
                files,
                clean_monitors,
                dirs,
                valid,
                n,
            )[k] < n,
    decreases n,
{
    if n > 0 {
        lemma_doomed(files, clean_monitors, dirs, valid, n - 1);
        let d0 = doomed(files, clean_monitors, dirs, valid, n - 1);
        let d1 = doomed(files, clean_monitors, dirs, valid, n);
        assert forall|k: int| 0 <= k < d1.len() implies #[trigger] d1[k] < n by {
            if k < d0.len() {
                assert(d1[k] == d0[k]);
            }
        }
        assert forall|i: int| 0 <= i < n implies (d1.contains(i as usize) <==> to_delete(
            #[trigger] files[i]@,
            clean_monitors,
            dirs,
            valid,
        )) by {
            if d1.contains(i as usize) {
                let k = choose|k: int| 0 <= k < d1.len() && d1[k] == i as usize;
                if k < d0.len() {
                    assert(d0[k] == d1[k]);
                    assert(d0.contains(i as usize));
                }
            }
            if to_delete(files[i]@, clean_monitors, dirs, valid) {
                if i < n - 1 {
                    let k = choose|k: int| 0 <= k < d0.len() && d0[k] == i as usize;
                    assert(d1[k] == i as usize);
                } else {
                    assert(d1[d1.len() - 1] == i as usize);
                }
            }
        }
    }
}

/// Whether some wallpaper of the list has the path `p`.
pub open spec fn is_known(ids: Seq<OriginalWallpaperID>, p: Seq<char>) -> bool {
    exists|i: int| 0 <= i < ids.len() && (#[trigger] ids[i])@ == p
}

fn knows(ids: &Vec<OriginalWallpaperID>, p: &String) -> (r: bool)
    ensures
        r == is_known(ids@, p@),
{
    let mut i: usize = 0;
    while i < ids.len()
        invariant
            i <= ids@.len(),
            forall|j: int| 0 <= j < i ==> (#[trigger] ids@[j])@ != p@,
        decreases ids@.len() - i,
    {
        let id = String::from_str(ids[i].slash_path());
        if id == *p {
            return true;
        }
        i = i + 1;
    }
    false
}

/// The paths that have settings but no image: they are reported, and
/// nothing else is done about them.
pub fn unmatched_properties(store: &Properties, ids: &Vec<OriginalWallpaperID>) -> (r: Vec<String>)
    ensures
        forall|p: Seq<char>| has_text(r@, p) <==> store@.contains_key(p) && !is_known(ids@, p),
{
    let keys = store.keys();
    let mut r: Vec<String> = Vec::new();
    let mut i: usize = 0;
    while i < keys.len()
        invariant
            i <= keys@.len(),
            forall|p: Seq<char>|
                has_text(r@, p) <==> has_text(keys@.take(i as int), p) && !is_known(ids@, p),
        decreases keys@.len() - i,
    {
        let ghost before = r@;
        let ghost seen = keys@.take(i as int);
        let ghost next = keys@.take(i + 1);
        let unknown = !knows(ids, &keys[i]);
        if unknown {
            r.push(keys[i].clone());
        }
        proof {
            assert(next[i as int] == keys@[i as int]);
            assert forall|p: Seq<char>|
                has_text(r@, p) <==> has_text(next, p) && !is_known(ids@, p) by {
                if has_text(r@, p) {
                    let w = choose|w: int| 0 <= w < r@.len() && (#[trigger] r@[w])@ == p;
                    if w < before.len() {
                        assert(before[w] == r@[w]);
                        assert(has_text(before, p));
                        let j = choose|j: int| 0 <= j < seen.len() && (#[trigger] seen[j])@ == p;
                        assert(next[j] == seen[j]);
                    } else {
                        assert(next[i as int]@ == p);
                    }
                }
                if has_text(next, p) && !is_known(ids@, p) {
                    let j = choose|j: int| 0 <= j < next.len() && (#[trigger] next[j])@ == p;
                    if j < i {
                        assert(seen[j] == next[j]);
                        assert(has_text(seen, p));
                        let w = choose|w: int| 0 <= w < before.len() && (#[trigger] before[w])@ == p;
                        assert(r@[w] == before[w]);
                    } else {
                        assert(r@[before.len() as int]@ == p);
                    }
                }
            }
        }
        i = i + 1;
    }
    proof {
        assert(keys@.take(keys@.len() as int) =~= keys@);
    }
    r
}

/// The directories to remove lie below the root, and the root is not
/// among them: the sweep never removes the cache directory itself.
pub proof fn lemma_dirs_above(f: Seq<char>, root: Seq<char>, k: int)
    requires
        0 <= k < dirs_above(f, root).len(),
    ensures
        below(dirs_above(f, root)[k], root),
        dirs_above(f, root)[k] != root,
    decreases f.len(),
{
    match parent_of(f) {
        Some(p) => {
            if k > 0 {
                lemma_dirs_above(p, root, k - 1);
                assert(dirs_above(f, root)[k] == dirs_above(p, root)[k - 1]);
            }
        },
        None => {},
    }
}

/// The parts of a sync, in their order.
#[derive(Debug, Clone, Copy, PartialEq, Eq, Structural)]
pub enum SyncPhase {
    /// The shuffler forgets what is no longer in the library.
    Compact,
    /// Every wallpaper is built for every display.
    Build,
    /// The cache directory is swept, and settings without an image are reported.
    Sweep,
}

/// The part of a sync that follows. A sync that was told to wind down
/// enters no further part: it does not sweep after builds that were cut short.
pub open spec fn phase_after(done: Option<SyncPhase>, closed: bool) -> Option<SyncPhase> {
    match done {
        None => Some(SyncPhase::Compact),
        Some(SyncPhase::Compact) => if closed {
            None
        } else {
            Some(SyncPhase::Build)
        },
        Some(SyncPhase::Build) => if closed {
            None
        } else {
            Some(SyncPhase::Sweep)
        },
        Some(SyncPhase::Sweep) => None,
    }
}

/// The next part of a sync, or `None` when it is over. `done` is the
/// part that has just ended, if any.
pub fn next_phase(done: Option<SyncPhase>, closed: bool) -> (r: Option<SyncPhase>)
    ensures
        r == phase_after(done, closed),
{
    match done {
        None => Some(SyncPhase::Compact),
        Some(SyncPhase::Compact) => if closed {
            None
        } else {
            Some(SyncPhase::Build)
        },
        Some(SyncPhase::Build) => if closed {
            None
        } else {
            Some(SyncPhase::Sweep)
        },
        Some(SyncPhase::Sweep) => None,
    }
}

/// The wallpaper that a worker of a sync builds next, given the index it
/// drew: none once the sync was told to wind down, and none beyond the
/// end of the library.
pub fn next_wallpaper(drawn: usize, count: usize, closed: bool) -> (r: Option<usize>)
    ensures
        r == (if !closed && drawn < count {
            Some(drawn)
        } else {
            None
        }),
{
    if !closed && drawn < count {
        Some(drawn)
    } else {
        None
    }
}

} // verus!
