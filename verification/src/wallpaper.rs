//! The build of one wallpaper for a set of displays.

use vstd::prelude::*;
use vstd::string::*;
use crate::cache::{after_put, key_index, promoted, FrameCache};
use crate::config::{or_zero, Config, ImageProperties, Properties, PropsView};
use crate::frame::{
    bgra_pixel, crop_pixel, lemma_remapped, remapped, Frame, FrameView,
};
use crate::ids::{
    cropped_name_of, final_under, png, props_opt, upscaled_name_of, OriginalWallpaperID,
    TempWallpaperID, WallpaperID,
};
use crate::monitors::{res_text, Monitor};
use crate::paths::{
    is_rel_path, join, joined, last_slash, leaf, lemma_last_slash, lemma_last_slash_concat,
    lemma_leaf_joined, lemma_leaf_of_name,
};
use crate::text::{
    contains_text, has_text, lacks, lemma_lacks_concat, lemma_nat_text, nat_text,
};

verus! {

/// A resolution in pixels. Either side may be zero, which makes it empty.
#[derive(Debug, Clone, Copy, PartialEq, Eq, Structural)]
pub struct Res {
    pub w: u32,
    pub h: u32,
}

/// One side after cropping or padding: the difference where it is a
/// possible side length, and 0 where it is negative or too large.
pub open spec fn side_after(side: u32, near: Option<i32>, far: Option<i32>) -> u32 {
    let d = side as int - or_zero(near) - or_zero(far);
    if 0 <= d <= u32::MAX {
        d as u32
    } else {
        0
    }
}

/// Whether an image of resolution `r`, enlarged `p` times, covers the display.
pub open spec fn covers(r: Res, m: Monitor, p: int) -> bool {
    p * r.w >= m.width && p * r.h >= m.height
}

/// The smallest power of two that makes `r` cover the display, but no more
/// than 32; 1 for an empty resolution.
pub open spec fn scale_for(r: Res, m: Monitor) -> int {
    if r.spec_is_empty() || covers(r, m, 1) {
        1
    } else if covers(r, m, 2) {
        2
    } else if covers(r, m, 4) {
        4
    } else if covers(r, m, 8) {
        8
    } else if covers(r, m, 16) {
        16
    } else {
        32
    }
}

/// A power of two between 1 and 32.
pub open spec fn is_scale(s: int) -> bool {
    s == 1 || s == 2 || s == 4 || s == 8 || s == 16 || s == 32
}

impl Res {
    /// Either side is zero.
    pub open spec fn spec_is_empty(self) -> bool {
        self.w == 0 || self.h == 0
    }

    /// True when the resolution holds no pixel.
    #[verifier::when_used_as_spec(spec_is_empty)]
    pub fn is_empty(self) -> (r: bool)
        ensures
            r == self.spec_is_empty(),
    {
        self.w == 0 || self.h == 0
    }

    /// The resolution after the insets of `props` are taken off each side.
    pub open spec fn cropped(self, props: PropsView) -> Res {
        Res {
            w: side_after(self.w, props.left, props.right),
            h: side_after(self.h, props.top, props.bottom),
        }
    }

    /// The resolution that is scaled: cropped where there are settings.
    pub open spec fn effective(self, props: Option<PropsView>) -> Res {
        match props {
            Some(p) => self.cropped(p),
            None => self,
        }
    }

    /// Applies the insets: positive ones crop, negative ones pad.
    pub fn apply_crop_pad(self, props: &ImageProperties) -> (r: Res)
        ensures
            r == self.cropped(props@),
    {
        Res {
            w: side_of(self.w, props.left, props.right),
            h: side_of(self.h, props.top, props.bottom),
        }
    }

    /// The factor by which the upscaler enlarges the image for a display.
    pub fn get_scale(self, props: &Option<ImageProperties>, m: &Monitor) -> (s: u8)
        ensures
            s as int == scale_for(
                self.effective(
                    match *props {
                        Some(p) => Some(p@),
                        None => None,
                    },
                ),
                *m,
            ),
            is_scale(s as int),
    {
        let r = match props {
            Some(p) => self.apply_crop_pad(p),
            None => self,
        };
        if r.is_empty() {
            return 1;
        }
        let mut p: u8 = 1;
        while p < 32 && !fits(r, m, p)
            invariant
                is_scale(p as int),
                !r.spec_is_empty(),
                forall|q: int| is_scale(q) && q < p ==> !#[trigger] covers(r, *m, q),
            decreases 32 - p,
        {
            p = p * 2;
        }
        p
    }
}

impl From<(u32, u32)> for Res {
    fn from(res: (u32, u32)) -> (r: Self) {
        Res { w: res.0, h: res.1 }
    }
}

impl vstd::std_specs::convert::FromSpecImpl<(u32, u32)> for Res {
    open spec fn obeys_from_spec() -> bool {
        true
    }

    open spec fn from_spec(res: (u32, u32)) -> Res {
        Res { w: res.0, h: res.1 }
    }
}

fn side_of(side: u32, near: Option<i32>, far: Option<i32>) -> (r: u32)
    ensures
        r == side_after(side, near, far),
{
    let a: i64 = match near {
        Some(x) => x as i64,
        None => 0,
    };
    let b: i64 = match far {
        Some(x) => x as i64,
        None => 0,
    };
    let d: i64 = side as i64 - a - b;
    if 0 <= d && d <= 0xffff_ffff {
        d as u32
    } else {
        0
    }
}

fn fits(r: Res, m: &Monitor, p: u8) -> (b: bool)
    requires
        p <= 32,
    ensures
        b == covers(r, *m, p as int),
{
    assert(p as int * r.w as int <= 32 * 0xffff_ffff) by (nonlinear_arith)
        requires
            0 <= p <= 32,
            0 <= r.w <= 0xffff_ffff,
    ;
    assert(p as int * r.h as int <= 32 * 0xffff_ffff) by (nonlinear_arith)
        requires
            0 <= p <= 32,
            0 <= r.h <= 0xffff_ffff,
    ;
    (p as u64) * (r.w as u64) >= m.width as u64 && (p as u64) * (r.h as u64) >= m.height as u64
}

/// The scale is a power of two between 1 and 32. It makes the image cover
/// the display whenever 32 does, and no smaller power of two covers it.
pub proof fn lemma_scale_bound(r: Res, m: Monitor)
    ensures
        1 <= scale_for(r, m) <= 32,
        is_scale(scale_for(r, m)),
        !r.spec_is_empty() && covers(r, m, 32) ==> covers(r, m, scale_for(r, m)),
        forall|q: int| is_scale(q) && q < scale_for(r, m) ==> !#[trigger] covers(r, m, q),
{
}

/// A file of the temporary workspace, and whether the build has to write it.
#[derive(Debug)]
pub enum IntermediateFile {
    AlreadyExists(String),
    MustBeWritten(String),
}

/// An intermediate file as plain values.
pub struct FileView {
    pub path: Seq<char>,
    pub write: bool,
}

impl View for IntermediateFile {
    type V = FileView;

    open spec fn view(&self) -> FileView {
        match self {
            IntermediateFile::AlreadyExists(p) => FileView { path: p@, write: false },
            IntermediateFile::MustBeWritten(p) => FileView { path: p@, write: true },
        }
    }
}

impl IntermediateFile {
    /// The path of the file, whichever way it is tagged.
    pub fn path(&self) -> (r: &str)
        ensures
            r@ == self@.path,
    {
        match self {
            IntermediateFile::AlreadyExists(p) => p.as_str(),
            IntermediateFile::MustBeWritten(p) => p.as_str(),
        }
    }

    /// Whether the build has to write the file.
    pub fn must_be_written(&self) -> (r: bool)
        ensures
            r == self@.write,
    {
        match self {
            IntermediateFile::AlreadyExists(_) => false,
            IntermediateFile::MustBeWritten(_) => true,
        }
    }
}

/// What has to be built for one display whose final file is missing or stale.
#[derive(Debug)]
pub struct UncachedFiles {
    pub m: Monitor,
    pub props: Option<ImageProperties>,
    pub cropped: Option<IntermediateFile>,
    pub scale: u8,
    pub scaled: IntermediateFile,
    pub final_file: String,
}

/// A build record as plain values.
pub struct UncachedView {
    pub m: Monitor,
    pub props: Option<PropsView>,
    pub cropped: Option<FileView>,
    pub scale: int,
    pub scaled: FileView,
    pub final_file: Seq<char>,
}

/// An optional intermediate file as plain values.
pub open spec fn file_opt(f: Option<IntermediateFile>) -> Option<FileView> {
    match f {
        Some(f) => Some(f@),
        None => None,
    }
}

impl View for UncachedFiles {
    type V = UncachedView;

    open spec fn view(&self) -> UncachedView {
        UncachedView {
            m: self.m,
            props: props_opt(self.props),
            cropped: file_opt(self.cropped),
            scale: self.scale as int,
            scaled: self.scaled@,
            final_file: self.final_file@,
        }
    }
}

/// The final artifact wanted for one display.
pub struct TargetView {
    pub m: Monitor,
    pub props: Option<PropsView>,
    pub final_file: Seq<char>,
}

/// The final artifact that a wallpaper needs for a display.
pub open spec fn target_for<T: WallpaperID>(
    id: &T,
    cache: Seq<char>,
    store: Map<Seq<char>, PropsView>,
    m: Monitor,
) -> TargetView {
    TargetView {
        m,
        props: id.resolved(store, m),
        final_file: id.final_path(cache, m, id.resolved(store, m)),
    }
}

/// The targets of a wallpaper, one for each display and in their order.
pub open spec fn targets_for<T: WallpaperID>(
    id: &T,
    cache: Seq<char>,
    store: Map<Seq<char>, PropsView>,
    monitors: Seq<Monitor>,
) -> Seq<TargetView> {
    Seq::new(monitors.len(), |i: int| target_for(id, cache, store, monitors[i]))
}

/// The target at `i` has to be built: its final file is not fresh, and no
/// earlier target that has to be built names the same file.
pub open spec fn first_stale(targets: Seq<TargetView>, fresh: Seq<bool>, i: int) -> bool {
    &&& 0 <= i < targets.len()
    &&& !fresh[i]
    &&& forall|j: int|
        0 <= j < i && !fresh[j] ==> (#[trigger] targets[j]).final_file != targets[i].final_file
}

/// The targets among the first `n` that have to be built, in their order.
pub open spec fn stale_targets(targets: Seq<TargetView>, fresh: Seq<bool>, n: int) -> Seq<
    TargetView,
>
    decreases n,
{
    if n <= 0 {
        Seq::empty()
    } else if first_stale(targets, fresh, n - 1) {
        stale_targets(targets, fresh, n - 1).push(targets[n - 1])
    } else {
        stale_targets(targets, fresh, n - 1)
    }
}

/// The path of the cropped file of a target in the workspace, if it needs one.
pub open spec fn cropped_path<T: WallpaperID>(id: &T, tdir: Seq<char>, t: TargetView) -> Option<
    Seq<char>,
> {
    match id.cropped_name(t.props) {
        Some(name) => Some(joined(tdir, name)),
        None => None,
    }
}

/// The scale at which a target is built from a source of resolution `res`.
pub open spec fn target_scale(res: Res, t: TargetView) -> int {
    scale_for(res.effective(t.props), t.m)
}

/// The path of the upscaled file of a target in the workspace.
pub open spec fn scaled_path<T: WallpaperID>(id: &T, tdir: Seq<char>, res: Res, t: TargetView) -> Seq<
    char,
> {
    joined(tdir, id.upscaled_name(target_scale(res, t), t.props))
}

/// The path `p` is spoken for when the record `k` is made: it is a final
/// file of the build, or an intermediate file of an earlier record.
pub open spec fn spoken_for<T: WallpaperID>(
    id: &T,
    tdir: Seq<char>,
    res: Res,
    survivors: Seq<TargetView>,
    k: int,
    p: Seq<char>,
) -> bool {
    ||| exists|j: int| 0 <= j < survivors.len() && (#[trigger] survivors[j]).final_file == p
    ||| exists|j: int|
        0 <= j < k && (cropped_path(id, tdir, #[trigger] survivors[j]) == Some(p) || scaled_path(
            id,
            tdir,
            res,
            survivors[j],
        ) == p)
}

/// The record for the survivor `k`. An intermediate file has to be written
/// iff nothing before it in the build speaks for its path and it is not on disk.
pub open spec fn record_for<T: WallpaperID>(
    id: &T,
    tdir: Seq<char>,
    res: Res,
    on_disk: Seq<String>,
    survivors: Seq<TargetView>,
    k: int,
) -> UncachedView {
    let t = survivors[k];
    let scaled = scaled_path(id, tdir, res, t);
    UncachedView {
        m: t.m,
        props: t.props,
        cropped: match cropped_path(id, tdir, t) {
            Some(c) => Some(
                FileView {
                    path: c,
                    write: !spoken_for(id, tdir, res, survivors, k, c) && !has_text(on_disk, c),
                },
            ),
            None => None,
        },
        scale: target_scale(res, t),
        scaled: FileView {
            path: scaled,
            write: !spoken_for(id, tdir, res, survivors, k, scaled) && cropped_path(id, tdir, t)
                != Some(scaled) && !has_text(on_disk, scaled),
        },
        final_file: t.final_file,
    }
}

/// The whole plan: one record for each target that has to be built.
pub open spec fn plan_for<T: WallpaperID>(
    id: &T,
    tdir: Seq<char>,
    res: Res,
    on_disk: Seq<String>,
    survivors: Seq<TargetView>,
) -> Seq<UncachedView> {
    Seq::new(survivors.len(), |k: int| record_for(id, tdir, res, on_disk, survivors, k))
}

/// The views of a list of records.
pub open spec fn plan_view(plan: Seq<UncachedFiles>) -> Seq<UncachedView> {
    Seq::new(plan.len(), |k: int| plan[k]@)
}

/// One wallpaper and the displays it is built for.
pub struct Wallpaper<'a, T: WallpaperID> {
    pub id: &'a T,
    pub monitors: &'a Vec<Monitor>,
}

/// Every display of the list has at least one pixel in each direction.
pub open spec fn all_valid(monitors: Seq<Monitor>) -> bool {
    forall|i: int| 0 <= i < monitors.len() ==> (#[trigger] monitors[i]).wf()
}

impl<'a, T: WallpaperID> Wallpaper<'a, T> {
    /// A wallpaper to build for the given displays.
    pub fn new(id: &'a T, monitors: &'a Vec<Monitor>) -> (r: Self)
        ensures
            r.id == id,
            r.monitors == monitors,
    {
        Wallpaper { id, monitors }
    }

    /// The final file of each display, in the order of the displays. The
    /// caller finds out which of them are fresh.
    pub fn final_paths(&self, config: &Config, store: &Properties) -> (r: Vec<String>)
        requires
            all_valid(self.monitors@),
        ensures
            r@.len() == self.monitors@.len(),
            forall|i: int|
                0 <= i < r@.len() ==> (#[trigger] r@[i])@ == targets_for(
                    self.id,
                    config.cache_directory@,
                    store@,
                    self.monitors@,
                )[i].final_file,
    {
        let mut r: Vec<String> = Vec::new();
        let mut i: usize = 0;
        while i < self.monitors.len()
            invariant
                i <= self.monitors@.len(),
                all_valid(self.monitors@),
                r@.len() == i,
                forall|k: int|
                    0 <= k < i ==> (#[trigger] r@[k])@ == targets_for(
                        self.id,
                        config.cache_directory@,
                        store@,
                        self.monitors@,
                    )[k].final_file,
            decreases self.monitors@.len() - i,
        {
            let m = &self.monitors[i];
            assert(self.monitors@[i as int].wf());
            let props = self.id.get_props(store, m);
            let path = self.id.cached_abs_path(config, m, &props);
            r.push(path);
            i = i + 1;
        }
        r
    }

    /// The targets that have to be built: for each, the index of its
    /// display and its final file.
    fn stale(&self, config: &Config, store: &Properties, fresh: &Vec<bool>) -> (r: (
        Vec<usize>,
        Vec<String>,
    ))
        requires
            all_valid(self.monitors@),
            fresh@.len() == self.monitors@.len(),
        ensures
            r.0@.len() == r.1@.len(),
            r.0@.len() == stale_targets(
                targets_for(self.id, config.cache_directory@, store@, self.monitors@),
                fresh@,
                self.monitors@.len() as int,
            ).len(),
            forall|k: int|
                0 <= k < r.0@.len() ==> #[trigger] r.0@[k] < self.monitors@.len() && stale_targets(
                    targets_for(self.id, config.cache_directory@, store@, self.monitors@),
                    fresh@,
                    self.monitors@.len() as int,
                )[k] == target_for(
                    self.id,
                    config.cache_directory@,
                    store@,
                    self.monitors@[r.0@[k] as int],
                ) && r.1@[k]@ == target_for(
                    self.id,
                    config.cache_directory@,
                    store@,
                    self.monitors@[r.0@[k] as int],
                ).final_file,
    {
        let ghost targets = targets_for(self.id, config.cache_directory@, store@, self.monitors@);
        let mut kept: Vec<usize> = Vec::new();
        let mut finals: Vec<String> = Vec::new();
        let mut i: usize = 0;
        while i < self.monitors.len()
            invariant
                i <= self.monitors@.len(),
                all_valid(self.monitors@),
                fresh@.len() == self.monitors@.len(),
                targets == targets_for(self.id, config.cache_directory@, store@, self.monitors@),
                kept@.len() == finals@.len(),
                kept@.len() == stale_targets(targets, fresh@, i as int).len(),
                forall|k: int|
                    0 <= k < kept@.len() ==> #[trigger] kept@[k] < i && stale_targets(
                        targets,
                        fresh@,
                        i as int,
                    )[k] == targets[kept@[k] as int] && finals@[k]@ == targets[kept@[k] as int].final_file,
                forall|p: Seq<char>|
                    has_text(finals@, p) <==> exists|j: int|
                        0 <= j < i && !fresh@[j] && (#[trigger] targets[j]).final_file == p,
            decreases self.monitors@.len() - i,
        {
            let m = &self.monitors[i];
            assert(self.monitors@[i as int].wf());
            let props = self.id.get_props(store, m);
            let path = self.id.cached_abs_path(config, m, &props);
            assert(path@ == targets[i as int].final_file);
            let ghost before = finals@;
            let ghost prior = stale_targets(targets, fresh@, i as int);
            if !fresh[i] && !contains_text(&finals, path.as_str()) {
                proof {
                    assert forall|j: int| 0 <= j < i && !fresh@[j] implies (#[trigger] targets[j]).final_file
                        != targets[i as int].final_file by {
                        if targets[j].final_file == path@ {
                            assert(has_text(before, path@));
                        }
                    }
                    assert(first_stale(targets, fresh@, i as int));
                }
                kept.push(i);
                finals.push(path);
                proof {
                    assert(finals@[before.len() as int]@ == path@);
                    assert forall|p: Seq<char>|
                        has_text(finals@, p) <==> exists|j: int|
                            0 <= j < i + 1 && !fresh@[j] && (#[trigger] targets[j]).final_file
                                == p by {
                        if has_text(finals@, p) {
                            let w = choose|w: int| 0 <= w < finals@.len() && (#[trigger] finals@[w])@ == p;
                            if w < before.len() {
                                assert(before[w] == finals@[w]);
                                assert(has_text(before, p));
                                let j = choose|j: int|
                                    0 <= j < i && !fresh@[j] && (#[trigger] targets[j]).final_file == p;
                                assert(0 <= j < i + 1 && !fresh@[j] && targets[j].final_file == p);
                            } else {
                                assert(!fresh@[i as int] && targets[i as int].final_file == p);
                            }
                        }
                        if exists|j: int|
                            0 <= j < i + 1 && !fresh@[j] && (#[trigger] targets[j]).final_file == p {
                            let j = choose|j: int|
                                0 <= j < i + 1 && !fresh@[j] && (#[trigger] targets[j]).final_file == p;
                            if j < i {
                                assert(has_text(before, p));
                                let w = choose|w: int| 0 <= w < before.len() && (#[trigger] before[w])@ == p;
                                assert(finals@[w] == before[w]);
                            } else {
                                assert(finals@[before.len() as int]@ == p);
                            }
                        }
                    }
                }
            } else {
                proof {
                    if !fresh@[i as int] {
                        assert(has_text(before, path@));
                        let j = choose|j: int|
                            0 <= j < i && !fresh@[j] && (#[trigger] targets[j]).final_file == path@;
                        assert(!first_stale(targets, fresh@, i as int));
                    }
                    assert forall|p: Seq<char>|
                        has_text(finals@, p) <==> exists|j: int|
                            0 <= j < i + 1 && !fresh@[j] && (#[trigger] targets[j]).final_file
                                == p by {
                        if has_text(finals@, p) {
                            let j = choose|j: int|
                                0 <= j < i && !fresh@[j] && (#[trigger] targets[j]).final_file == p;
                            assert(0 <= j < i + 1 && !fresh@[j] && targets[j].final_file == p);
                        }
                        if exists|j: int|
                            0 <= j < i + 1 && !fresh@[j] && (#[trigger] targets[j]).final_file == p {
                            let j = choose|j: int|
                                0 <= j < i + 1 && !fresh@[j] && (#[trigger] targets[j]).final_file == p;
                            if j == i {
                                assert(has_text(before, path@));
                            } else {
                                assert(0 <= j < i && !fresh@[j] && targets[j].final_file == p);
                            }
                        }
                    }
                }
            }
            i = i + 1;
        }
        (kept, finals)
    }

    /// What has to be built, given which final files are fresh, the
    /// resolution of the source image, the directory for intermediate files,
    /// and the files that this directory holds.
    pub fn get_uncached_files(
        &self,
        config: &Config,
        store: &Properties,
        fresh: &Vec<bool>,
        resolution: Res,
        tdir: &str,
        on_disk: &Vec<String>,
    ) -> (r: Vec<UncachedFiles>)
        requires
            all_valid(self.monitors@),
            fresh@.len() == self.monitors@.len(),
        ensures
            plan_view(r@) == plan_for(
                self.id,
                tdir@,
                resolution,
                on_disk@,
                stale_targets(
                    targets_for(self.id, config.cache_directory@, store@, self.monitors@),
                    fresh@,
                    self.monitors@.len() as int,
                ),
            ),
    {
        let ghost survivors = stale_targets(
            targets_for(self.id, config.cache_directory@, store@, self.monitors@),
            fresh@,
            self.monitors@.len() as int,
        );
        let (kept, finals) = self.stale(config, store, fresh);
        let mut seen: Vec<String> = Vec::new();
        let mut k: usize = 0;
        while k < finals.len()
            invariant
                k <= finals@.len(),
                seen@.len() == k,
                forall|j: int| 0 <= j < k ==> (#[trigger] seen@[j])@ == finals@[j]@,
            decreases finals@.len() - k,
        {
            seen.push(finals[k].clone());
            k = k + 1;
        }
        proof {
            assert forall|p: Seq<char>|
                has_text(seen@, p) <==> spoken_for(self.id, tdir@, resolution, survivors, 0, p) by {
                if has_text(seen@, p) {
                    let w = choose|w: int| 0 <= w < seen@.len() && (#[trigger] seen@[w])@ == p;
                    assert(kept@[w] < self.monitors@.len());
                    assert(survivors[w].final_file == p);
                }
                if spoken_for(self.id, tdir@, resolution, survivors, 0, p) {
                    let j = choose|j: int|
                        0 <= j < survivors.len() && (#[trigger] survivors[j]).final_file == p;
                    assert(kept@[j] < self.monitors@.len());
                    assert(seen@[j]@ == p);
                }
            }
        }
        let mut r: Vec<UncachedFiles> = Vec::new();
        let mut k: usize = 0;
        while k < kept.len()
            invariant
                k <= kept@.len(),
                all_valid(self.monitors@),
                kept@.len() == finals@.len(),
                kept@.len() == survivors.len(),
                forall|j: int|
                    0 <= j < kept@.len() ==> #[trigger] kept@[j] < self.monitors@.len()
                        && survivors[j] == target_for(
                        self.id,
                        config.cache_directory@,
                        store@,
                        self.monitors@[kept@[j] as int],
                    ) && finals@[j]@ == survivors[j].final_file,
                r@.len() == k,
                forall|j: int|
                    0 <= j < k ==> (#[trigger] r@[j])@ == record_for(
                        self.id,
                        tdir@,
                        resolution,
                        on_disk@,
                        survivors,
                        j,
                    ),
                forall|p: Seq<char>|
                    has_text(seen@, p) <==> spoken_for(
                        self.id,
                        tdir@,
                        resolution,
                        survivors,
                        k as int,
                        p,
                    ),
            decreases kept@.len() - k,
        {
            let index = kept[k];
            let m = self.monitors[index];
            assert(self.monitors@[index as int].wf());
            let ghost t = survivors[k as int];
            let props = self.id.get_props(store, &m);
            let ghost seen0 = seen@;
            let cropped = match self.id.cropped_rel_path(&props) {
                Some(name) => {
                    let c = join(tdir, name.as_str());
                    if !contains_text(&seen, c.as_str()) {
                        seen.push(c.clone());
                        if contains_text(on_disk, c.as_str()) {
                            Some(IntermediateFile::AlreadyExists(c))
                        } else {
                            Some(IntermediateFile::MustBeWritten(c))
                        }
                    } else {
                        Some(IntermediateFile::AlreadyExists(c))
                    }
                },
                None => None,
            };
            let ghost seen1 = seen@;
            proof {
                assert forall|p: Seq<char>|
                    has_text(seen1, p) <==> (has_text(seen0, p) || cropped_path(self.id, tdir@, t)
                        == Some(p)) by {
                    if has_text(seen1, p) {
                        let w = choose|w: int| 0 <= w < seen1.len() && (#[trigger] seen1[w])@ == p;
                        if w < seen0.len() {
                            assert(seen0[w] == seen1[w]);
                        }
                    }
                    if has_text(seen0, p) {
                        let w = choose|w: int| 0 <= w < seen0.len() && (#[trigger] seen0[w])@ == p;
                        assert(seen1[w] == seen0[w]);
                    }
                    if cropped_path(self.id, tdir@, t) == Some(p) && !has_text(seen0, p) {
                        assert(seen1[seen0.len() as int]@ == p);
                    }
                }
            }
            let scale = resolution.get_scale(&props, &m);
            let name = self.id.upscaled_rel_path(scale, &props);
            let s = join(tdir, name.as_str());
            assert(s@ == scaled_path(self.id, tdir@, resolution, t));
            let scaled = if !contains_text(&seen, s.as_str()) {
                seen.push(s.clone());
                if contains_text(on_disk, s.as_str()) {
                    IntermediateFile::AlreadyExists(s)
                } else {
                    IntermediateFile::MustBeWritten(s)
                }
            } else {
                IntermediateFile::AlreadyExists(s)
            };
            proof {
                let seen2 = seen@;
                assert forall|p: Seq<char>|
                    has_text(seen2, p) <==> (has_text(seen1, p) || scaled_path(
                        self.id,
                        tdir@,
                        resolution,
                        t,
                    ) == p) by {
                    if has_text(seen2, p) {
                        let w = choose|w: int| 0 <= w < seen2.len() && (#[trigger] seen2[w])@ == p;
                        if w < seen1.len() {
                            assert(seen1[w] == seen2[w]);
                        }
                    }
                    if has_text(seen1, p) {
                        let w = choose|w: int| 0 <= w < seen1.len() && (#[trigger] seen1[w])@ == p;
                        assert(seen2[w] == seen1[w]);
                    }
                    if scaled_path(self.id, tdir@, resolution, t) == p && !has_text(seen1, p) {
                        assert(seen2[seen1.len() as int]@ == p);
                    }
                }
                assert forall|p: Seq<char>|
                    has_text(seen2, p) <==> spoken_for(
                        self.id,
                        tdir@,
                        resolution,
                        survivors,
                        k + 1,
                        p,
                    ) by {
                    lemma_spoken_step(self.id, tdir@, resolution, survivors, k as int, p);
                }
            }
            let record = UncachedFiles {
                m,
                props,
                cropped,
                scale,
                scaled,
                final_file: finals[k].clone(),
            };
            assert(record@ == record_for(self.id, tdir@, resolution, on_disk@, survivors, k as int));
            r.push(record);
            k = k + 1;
        }
        proof {
            assert(plan_view(r@) =~= plan_for(self.id, tdir@, resolution, on_disk@, survivors));
        }
        r
    }
}

/// What is spoken for after the record `k` is what was spoken for before
/// it, and the two intermediate files of that record.
pub proof fn lemma_spoken_step<T: WallpaperID>(
    id: &T,
    tdir: Seq<char>,
    res: Res,
    survivors: Seq<TargetView>,
    k: int,
    p: Seq<char>,
)
    requires
        0 <= k < survivors.len(),
    ensures
        spoken_for(id, tdir, res, survivors, k + 1, p) <==> (spoken_for(
            id,
            tdir,
            res,
            survivors,
            k,
            p,
        ) || cropped_path(id, tdir, survivors[k]) == Some(p) || scaled_path(
            id,
            tdir,
            res,
            survivors[k],
        ) == p),
{
    if spoken_for(id, tdir, res, survivors, k + 1, p) && !spoken_for(id, tdir, res, survivors, k, p) {
        let j = choose|j: int|
            0 <= j < k + 1 && (cropped_path(id, tdir, #[trigger] survivors[j]) == Some(p)
                || scaled_path(id, tdir, res, survivors[j]) == p);
        if j < k {
            assert(spoken_for(id, tdir, res, survivors, k, p));
        }
    }
    if spoken_for(id, tdir, res, survivors, k, p) {
        if exists|j: int|
            0 <= j < k && (cropped_path(id, tdir, #[trigger] survivors[j]) == Some(p) || scaled_path(
                id,
                tdir,
                res,
                survivors[j],
            ) == p) {
            let j = choose|j: int|
                0 <= j < k && (cropped_path(id, tdir, #[trigger] survivors[j]) == Some(p)
                    || scaled_path(id, tdir, res, survivors[j]) == p);
            assert(0 <= j < k + 1);
        }
    }
    if cropped_path(id, tdir, survivors[k]) == Some(p) || scaled_path(id, tdir, res, survivors[k])
        == p {
        assert(0 <= k < k + 1);
    }
}

/// The three stages of a build. Each one ends before the next begins.
#[derive(Debug, Clone, Copy, PartialEq, Eq, Structural)]
pub enum Stage {
    Crop,
    Upscale,
    Finish,
}

/// Whether the record takes part in a stage: the crop and upscale stages
/// run for the files that have to be written, the finish stage for every record.
pub open spec fn in_stage(u: UncachedView, stage: Stage) -> bool {
    match stage {
        Stage::Crop => u.cropped matches Some(f) && f.write,
        Stage::Upscale => u.scaled.write,
        Stage::Finish => true,
    }
}

/// The indices of the records among the first `n` that take part in a
/// stage, in their order.
pub open spec fn stage_tasks(plan: Seq<UncachedView>, stage: Stage, n: int) -> Seq<usize>
    decreases n,
{
    if n <= 0 {
        Seq::empty()
    } else if in_stage(plan[n - 1], stage) {
        stage_tasks(plan, stage, n - 1).push((n - 1) as usize)
    } else {
        stage_tasks(plan, stage, n - 1)
    }
}

/// Whether a piece of work is done when its turn has come: every stage
/// and every task of a stage asks this on entry, and does nothing once
/// the build was told to wind down.
pub open spec fn task_runs(closed: bool) -> bool {
    !closed
}

/// The stage that follows. A build starts with the crop stage, unless
/// there is nothing to build or the source image is empty. No stage is
/// entered once the build was told to wind down.
pub open spec fn stage_after(plan_len: int, res: Res, done: Option<Stage>, closed: bool) -> Option<
    Stage,
> {
    match done {
        None => if plan_len == 0 || res.spec_is_empty() || closed {
            None
        } else {
            Some(Stage::Crop)
        },
        Some(Stage::Crop) => if closed {
            None
        } else {
            Some(Stage::Upscale)
        },
        Some(Stage::Upscale) => if closed {
            None
        } else {
            Some(Stage::Finish)
        },
        Some(Stage::Finish) => None,
    }
}

/// A stage to run, with the records that take part in it.
#[derive(Debug)]
pub struct Step {
    pub stage: Stage,
    pub tasks: Vec<usize>,
}

/// What an upscaler is asked to do.
#[derive(Debug)]
pub struct UpscaleJob {
    pub input: String,
    pub output: String,
    pub scale: u8,
    pub denoise: i32,
}

/// What a crop or finish task reads and what it writes.
#[derive(Debug)]
pub struct FileJob {
    pub input: String,
    pub output: String,
}

/// The denoise level of a record: that of its settings, and 1 without one.
pub open spec fn denoise_of(props: Option<PropsView>) -> i32 {
    match props {
        Some(p) => match p.denoise {
            Some(d) => d,
            None => 1,
        },
        None => 1,
    }
}

/// The pixels by which a translation moves an image that is `side` long
/// are never more than the side itself.
pub open spec fn clamped_shift(shift: int, side: int) -> int {
    if shift > side {
        side
    } else if shift < -side {
        -side
    } else {
        shift
    }
}

/// The image moved by `horizontal` columns and `vertical` rows: a positive
/// `horizontal` takes columns off the left edge, a positive `vertical`
/// adds rows at the top. What is uncovered is white.
pub open spec fn translated(img: FrameView, horizontal: int, vertical: int) -> FrameView {
    remapped(img, img.width, img.height, horizontal, -vertical, 0xff)
}

/// The size to which an image is resized so that it covers a display: the
/// image times the larger of the two ratios, each side rounded to the
/// nearest pixel. `None` for an image that has the size of the display
/// already, and for one without pixels.
pub open spec fn resize_target(img: Res, m: Monitor) -> Option<(int, int)> {
    if (img.w == m.width && img.h == m.height) || img.spec_is_empty() {
        None
    } else if m.width as int * img.h as int >= m.height as int * img.w as int {
        Some((m.width as int, rounded_div(img.h as int * m.width as int, img.w as int)))
    } else {
        Some((rounded_div(img.w as int * m.height as int, img.h as int), m.height as int))
    }
}

/// The quotient rounded to the nearest integer, halves upwards.
pub open spec fn rounded_div(num: int, den: int) -> int {
    (2 * num + den) / (2 * den)
}

/// How far in from an edge the middle part of length `want` begins.
pub open spec fn centre_start(side: int, want: int) -> int {
    if side > want {
        (side - want) / 2
    } else {
        0
    }
}

/// How long the middle part is: `want`, or all that there is.
pub open spec fn centre_len(side: int, want: int) -> int {
    if side - centre_start(side, want) < want {
        side - centre_start(side, want)
    } else {
        want
    }
}

/// The middle of an image, as large as the display where the image is
/// large enough. An image as wide as the display is wide and high is
/// left as it is.
pub open spec fn centred(img: FrameView, m: Monitor) -> FrameView {
    if img.width != m.width || img.width != m.height {
        remapped(
            img,
            centre_len(img.width, m.width as int),
            centre_len(img.height, m.height as int),
            centre_start(img.width, m.width as int),
            centre_start(img.height, m.height as int),
            0,
        )
    } else {
        img
    }
}

/// How hard a PNG file is compressed.
#[derive(Debug, Clone, Copy, PartialEq, Eq, Structural)]
pub enum Compression {
    Fast,
    Best,
}

/// How the rows of a PNG file are filtered before they are compressed.
#[derive(Debug, Clone, Copy, PartialEq, Eq, Structural)]
pub enum Filter {
    NoFilter,
    Sub,
}

/// How a PNG file is written.
#[derive(Debug, Clone, Copy, PartialEq, Eq, Structural)]
pub struct Encoding {
    pub compression: Compression,
    pub filter: Filter,
}

/// Whether and how the final file is written: always when the build is
/// for keeping, and otherwise only if there is no cache of final frames.
/// A file that is kept is compressed as well as can be.
pub open spec fn png_wanted(compress: bool, has_cache: bool) -> Option<Encoding> {
    if compress {
        Some(Encoding { compression: Compression::Best, filter: Filter::NoFilter })
    } else if !has_cache {
        Some(Encoding { compression: Compression::Fast, filter: Filter::NoFilter })
    } else {
        None
    }
}

/// How a cropped file is written: quickly, since it is read once and thrown away.
pub fn crop_encoding() -> (e: Encoding)
    ensures
        e == (Encoding { compression: Compression::Fast, filter: Filter::Sub }),
{
    Encoding { compression: Compression::Fast, filter: Filter::Sub }
}

/// What the finish stage leaves of one record.
pub struct Finished {
    /// The final image, in the size of the display.
    pub image: Frame,
    /// How to write the final file, if it is to be written.
    pub png: Option<Encoding>,
}

fn clamp_shift(shift: i64, side: u32) -> (r: i64)
    ensures
        r == clamped_shift(shift as int, side as int),
{
    if shift > side as i64 {
        side as i64
    } else if shift < -(side as i64) {
        -(side as i64)
    } else {
        shift
    }
}

/// Moving an image further than it is long leaves as little of it as
/// moving it by its length.
proof fn lemma_clamped_remap(img: FrameView, dx: int, dy: int, fill: u8)
    requires
        img.wf(),
    ensures
        remapped(img, img.width, img.height, dx, dy, fill) == remapped(
            img,
            img.width,
            img.height,
            clamped_shift(dx, img.width),
            clamped_shift(dy, img.height),
            fill,
        ),
{
    let a = remapped(img, img.width, img.height, dx, dy, fill);
    let b = remapped(
        img,
        img.width,
        img.height,
        clamped_shift(dx, img.width),
        clamped_shift(dy, img.height),
        fill,
    );
    assert(img.width * img.height * img.channels >= 0) by (nonlinear_arith)
        requires
            0 <= img.width,
            0 <= img.height,
            0 < img.channels,
    ;
    assert forall|i: int| 0 <= i < a.data.len() implies a.data[i] == b.data[i] by {
        crate::frame::lemma_index_decodes(img.width, img.height, img.channels, i);
    }
    assert(a.data =~= b.data);
}

/// Whether the source can be cropped as the settings say: what is left
/// holds at least one pixel, and its bytes can be held in memory.
pub open spec fn can_crop(source: Res, props: PropsView) -> bool {
    !source.cropped(props).spec_is_empty() && source.cropped(props).w as int * source.cropped(
        props,
    ).h as int * 4 <= usize::MAX
}

/// Runtime form of `can_crop`.
pub fn check_crop(source: Res, props: &ImageProperties) -> (r: bool)
    ensures
        r == can_crop(source, props@),
{
    let after = source.apply_crop_pad(props);
    if after.is_empty() {
        return false;
    }
    assert(0 <= after.w as int * after.h as int <= 0xffff_ffff * 0xffff_ffff) by (nonlinear_arith)
        requires
            0 <= after.w <= 0xffff_ffff,
            0 <= after.h <= 0xffff_ffff,
    ;
    (after.w as u128) * (after.h as u128) * 4 <= usize::MAX as u128
}

impl<'a, T: WallpaperID> Wallpaper<'a, T> {
    /// The next stage of a build and the records it runs for, or `None` when
    /// the build is over. `done` is the stage that has just ended, if any, and
    /// `closed` says whether the build was told to wind down.
    pub fn process(
        &self,
        plan: &Vec<UncachedFiles>,
        resolution: Res,
        done: Option<Stage>,
        closed: bool,
    ) -> (r: Option<Step>)
        ensures
            match r {
                Some(step) => stage_after(plan@.len() as int, resolution, done, closed) == Some(
                    step.stage,
                ) && step.tasks@ == stage_tasks(plan_view(plan@), step.stage, plan@.len() as int),
                None => stage_after(plan@.len() as int, resolution, done, closed) is None,
            },
    {
        let stage = match done {
            None => {
                if plan.len() == 0 || resolution.is_empty() || closed {
                    return None;
                }
                Stage::Crop
            },
            Some(Stage::Crop) => {
                if closed {
                    return None;
                }
                Stage::Upscale
            },
            Some(Stage::Upscale) => {
                if closed {
                    return None;
                }
                Stage::Finish
            },
            Some(Stage::Finish) => {
                return None;
            },
        };
        let mut tasks: Vec<usize> = Vec::new();
        let mut i: usize = 0;
        while i < plan.len()
            invariant
                i <= plan@.len(),
                tasks@ == stage_tasks(plan_view(plan@), stage, i as int),
            decreases plan@.len() - i,
        {
            let u = &plan[i];
            let takes_part = match stage {
                Stage::Crop => match &u.cropped {
                    Some(f) => f.must_be_written(),
                    None => false,
                },
                Stage::Upscale => u.scaled.must_be_written(),
                Stage::Finish => true,
            };
            assert(takes_part == in_stage(plan_view(plan@)[i as int], stage));
            if takes_part {
                tasks.push(i);
            }
            i = i + 1;
        }
        Some(Step { stage, tasks })
    }

    /// The crop stage for one record: the source image with the insets of the
    /// record's settings taken off or added, in the background colour where it
    /// was padded.
    pub fn crop(&self, source: &Frame, uf: &UncachedFiles) -> (r: Frame)
        requires
            source@.channels == 4,
            uf@.props is Some,
            uf@.cropped is Some,
            can_crop(
                Res { w: source@.width as u32, h: source@.height as u32 },
                uf@.props->Some_0,
            ),
        ensures
            r@.wf(),
            r@.channels == 4,
            (Res { w: r@.width as u32, h: r@.height as u32 }) == (Res {
                w: source@.width as u32,
                h: source@.height as u32,
            }).cropped(uf@.props->Some_0),
            forall|x: int, y: int|
                0 <= x < r@.width && 0 <= y < r@.height ==> #[trigger] r@.colour(x, y) == crop_pixel(
                    source@,
                    uf@.props->Some_0,
                    x,
                    y,
                ),
    {
        let res = Res { w: source.width(), h: source.height() };
        match &uf.props {
            Some(props) => {
                let after = res.apply_crop_pad(props);
                source.crop_pad(props, after.w, after.h)
            },
            None => vstd::pervasive::unreached(),
        }
    }

    /// The upscale stage for one record: what to hand to the upscaler. It
    /// reads the cropped file where there is one and the source image otherwise.
    pub fn upscale(&self, config: &Config, uf: &UncachedFiles) -> (job: UpscaleJob)
        ensures
            job.input@ == (match uf@.cropped {
                Some(f) => f.path,
                None => self.id.original_path(config.originals_directory@),
            }),
            job.output@ == uf@.scaled.path,
            job.scale == uf.scale,
            job.denoise == denoise_of(uf@.props),
    {
        let input = match &uf.cropped {
            Some(f) => String::from_str(f.path()),
            None => self.id.original_abs_path(config),
        };
        let denoise = match &uf.props {
            Some(p) => match p.denoise {
                Some(d) => d,
                None => 1,
            },
            None => 1,
        };
        UpscaleJob { input, output: String::from_str(uf.scaled.path()), scale: uf.scale, denoise }
    }

    /// The crop task of one record as it is entered: nothing once the
    /// build was told to wind down, and else the source image to read and
    /// the cropped file to write.
    pub fn crop_task(&self, config: &Config, uf: &UncachedFiles, closed: bool) -> (r: Option<
        FileJob,
    >)
        ensures
            r is Some <==> task_runs(closed) && uf@.cropped is Some,
            r matches Some(job) ==> job.input@ == self.id.original_path(
                config.originals_directory@,
            ) && job.output@ == uf@.cropped->Some_0.path,
    {
        if closed {
            return None;
        }
        match &uf.cropped {
            Some(f) => Some(
                FileJob {
                    input: self.id.original_abs_path(config),
                    output: String::from_str(f.path()),
                },
            ),
            None => None,
        }
    }

    /// The upscale task of one record as it is entered: nothing once the
    /// build was told to wind down, so that no upscaler is started then,
    /// and else the job to hand to the upscaler.
    pub fn upscale_task(&self, config: &Config, uf: &UncachedFiles, closed: bool) -> (r: Option<
        UpscaleJob,
    >)
        ensures
            r is Some <==> task_runs(closed),
            r matches Some(job) ==> {
                &&& job.input@ == (match uf@.cropped {
                    Some(f) => f.path,
                    None => self.id.original_path(config.originals_directory@),
                })
                &&& job.output@ == uf@.scaled.path
                &&& job.scale == uf.scale
                &&& job.denoise == denoise_of(uf@.props)
            },
    {
        if closed {
            None
        } else {
            Some(self.upscale(config, uf))
        }
    }

    /// The finish task of one record as it is entered: nothing once the
    /// build was told to wind down, and else the upscaled file to read and
    /// the final file to make.
    pub fn finish_task(uf: &UncachedFiles, closed: bool) -> (r: Option<FileJob>)
        ensures
            r is Some <==> task_runs(closed),
            r matches Some(job) ==> job.input@ == uf@.scaled.path && job.output@
                == uf@.final_file,
    {
        if closed {
            None
        } else {
            Some(
                FileJob {
                    input: String::from_str(uf.scaled.path()),
                    output: uf.final_file.clone(),
                },
            )
        }
    }

    /// The end of the finish stage for one record: the middle of the image in
    /// the size of the display, and whether and how to write the final file.
    pub fn finish(img: Frame, uf: &UncachedFiles, compress: bool, has_cache: bool) -> (r: Finished)
        ensures
            r.image@.wf(),
            r.image@ == centred(img@, uf.m),
            r.png == png_wanted(compress, has_cache),
    {
        let png = if compress {
            Some(Encoding { compression: Compression::Best, filter: Filter::NoFilter })
        } else if !has_cache {
            Some(Encoding { compression: Compression::Fast, filter: Filter::NoFilter })
        } else {
            None
        };
        let w = img.width();
        let h = img.height();
        let len = img.as_raw().len();
        if w != uf.m.width || w != uf.m.height {
            let x0: u32 = if w > uf.m.width {
                (w - uf.m.width) / 2
            } else {
                0
            };
            let y0: u32 = if h > uf.m.height {
                (h - uf.m.height) / 2
            } else {
                0
            };
            let cw: u32 = if w - x0 < uf.m.width {
                w - x0
            } else {
                uf.m.width
            };
            let ch: u32 = if h - y0 < uf.m.height {
                h - y0
            } else {
                uf.m.height
            };
            proof {
                assert(cw as int * ch as int * img@.channels <= w as int * h as int * img@.channels)
                    by (nonlinear_arith)
                    requires
                        0 <= cw <= w,
                        0 <= ch <= h,
                        0 < img@.channels,
                ;
                lemma_remapped(img@, cw as int, ch as int, x0 as int, y0 as int, 0);
            }
            let image = img.remap(cw, ch, x0 as i64, y0 as i64, 0);
            Finished { image, png }
        } else {
            Finished { image: img, png }
        }
    }
}

/// Whether work that is about to begin is done: it is, unless the build
/// was told to wind down.
pub fn runs(closed: bool) -> (r: bool)
    ensures
        r == task_runs(closed),
{
    !closed
}

/// Once a build was told to wind down it enters no stage and starts no
/// task: nothing is cropped, upscaled or finished from then on.
pub proof fn lemma_closed_stops(plan_len: int, res: Res, done: Option<Stage>)
    ensures
        stage_after(plan_len, res, done, true) is None,
        !task_runs(true),
{
}

/// Whether a failed upscale ends the program: it does, unless the build
/// was already told to wind down.
pub fn upscale_failure_is_fatal(closed: bool) -> (r: bool)
    ensures
        r == !closed,
{
    !closed
}

/// Whether the finish stage has to move the image of a record.
pub fn needs_translation(uf: &UncachedFiles) -> (r: bool)
    ensures
        r == (uf@.props matches Some(p) && (p.vertical is Some || p.horizontal is Some)),
{
    match &uf.props {
        Some(p) => p.vertical.is_some() || p.horizontal.is_some(),
        None => false,
    }
}

/// Moves an image by whole pixels and fills what is uncovered with white.
pub fn translate_image(img: Frame, horizontal: i64, vertical: i64) -> (r: Frame)
    ensures
        r@.wf(),
        r@ == translated(img@, horizontal as int, vertical as int),
{
    let len = img.as_raw().len();
    let w = img.width();
    let h = img.height();
    let dx = clamp_shift(horizontal, w);
    let dy = clamp_shift(if vertical == i64::MIN {
        i64::MAX
    } else {
        -vertical
    }, h);
    proof {
        lemma_clamped_remap(img@, horizontal as int, -(vertical as int), 0xff);
        lemma_clamped_remap(img@, dx as int, dy as int, 0xff);
        lemma_remapped(img@, w as int, h as int, horizontal as int, -(vertical as int), 0xff);
    }
    img.remap(w, h, dx, dy, 0xff)
}

/// The smaller of a number and the largest side that a resolution can have.
pub open spec fn capped_side(v: int) -> int {
    if v > u32::MAX {
        u32::MAX as int
    } else {
        v
    }
}

fn rounded_side(a: u32, b: u32, den: u32) -> (r: u32)
    requires
        den > 0,
    ensures
        r == capped_side(rounded_div(a as int * b as int, den as int)),
{
    assert(0 <= a as int * b as int <= 0xffff_ffff * 0xffff_ffff) by (nonlinear_arith)
        requires
            0 <= a <= 0xffff_ffff,
            0 <= b <= 0xffff_ffff,
    ;
    let num: u128 = (a as u128) * (b as u128);
    let q: u128 = (2 * num + den as u128) / (2 * (den as u128));
    if q > 0xffff_ffff {
        0xffff_ffff
    } else {
        q as u32
    }
}

/// The size to which the finish stage resizes an image before it takes
/// the middle of it, if it resizes at all. A side that a resolution
/// cannot hold is capped.
pub fn resize_for(img: Res, m: &Monitor) -> (r: Option<Res>)
    ensures
        match r {
            Some(to) => resize_target(img, *m) matches Some(t) && to.w == capped_side(t.0) && to.h
                == capped_side(t.1),
            None => resize_target(img, *m) is None,
        },
{
    if (img.w == m.width && img.h == m.height) || img.is_empty() {
        return None;
    }
    assert(0 <= m.width as int * img.h as int <= 0xffff_ffff * 0xffff_ffff) by (nonlinear_arith)
        requires
            0 <= m.width <= 0xffff_ffff,
            0 <= img.h <= 0xffff_ffff,
    ;
    assert(0 <= m.height as int * img.w as int <= 0xffff_ffff * 0xffff_ffff) by (nonlinear_arith)
        requires
            0 <= m.height <= 0xffff_ffff,
            0 <= img.w <= 0xffff_ffff,
    ;
    if (m.width as u128) * (img.h as u128) >= (m.height as u128) * (img.w as u128) {
        Some(Res { w: m.width, h: rounded_side(img.h, m.width, img.w) })
    } else {
        Some(Res { w: rounded_side(img.w, m.height, img.h), h: m.height })
    }
}

/// Whether the cache of final frames already holds the frame of a
/// record, so that the finish stage has nothing to do for it. A frame
/// that is found counts as used.
pub fn finish_cached(cache: &mut FrameCache, uf: &UncachedFiles) -> (found: bool)
    requires
        old(cache).wf(),
    ensures
        final(cache).wf(),
        final(cache).limit() == old(cache).limit(),
        found == (key_index(old(cache)@, uf@.final_file) >= 0),
        final(cache)@ == (if found {
            promoted(old(cache)@, key_index(old(cache)@, uf@.final_file))
        } else {
            old(cache)@
        }),
{
    cache.touch(uf.final_file.as_str())
}

/// Puts the final image of a record into the cache of final frames, in
/// the channel order that the displays want.
pub fn cache_final(cache: &mut FrameCache, uf: &UncachedFiles, image: &Frame)
    requires
        old(cache).wf(),
        image@.width * image@.height * 4 <= usize::MAX,
    ensures
        final(cache).wf(),
        final(cache).limit() == old(cache).limit(),
        final(cache)@.len() > 0,
        final(cache)@[0].0 == uf@.final_file,
        final(cache)@[0].1.wf(),
        final(cache)@[0].1.width == image@.width,
        final(cache)@[0].1.height == image@.height,
        final(cache)@[0].1.channels == 4,
        forall|x: int, y: int|
            0 <= x < image@.width && 0 <= y < image@.height ==> #[trigger] final(cache)@[0].1.colour(
                x,
                y,
            ) == bgra_pixel(image@, x, y),
        exists|frame: FrameView|
            final(cache)@ == after_put(old(cache)@, old(cache).limit(), uf@.final_file, frame),
{
    let swizzled = image.to_bgra();
    let ghost frame = swizzled@;
    cache.put(uf.final_file.clone(), swizzled);
    proof {
        assert(cache@ == after_put(old(cache)@, old(cache).limit(), uf@.final_file, frame));
    }
}

/// The indices of the targets among the first `n` that have to be built,
/// in their order.
pub open spec fn stale_indices(targets: Seq<TargetView>, fresh: Seq<bool>, n: int) -> Seq<int>
    decreases n,
{
    if n <= 0 {
        Seq::empty()
    } else if first_stale(targets, fresh, n - 1) {
        stale_indices(targets, fresh, n - 1).push(n - 1)
    } else {
        stale_indices(targets, fresh, n - 1)
    }
}

/// There is one survivor for each stale index, and no more than targets.
pub proof fn lemma_stale_len(targets: Seq<TargetView>, fresh: Seq<bool>, n: int)
    requires
        0 <= n <= targets.len(),
    ensures
        stale_targets(targets, fresh, n).len() == stale_indices(targets, fresh, n).len(),
        stale_targets(targets, fresh, n).len() <= n,
    decreases n,
{
    if n > 0 {
        lemma_stale_len(targets, fresh, n - 1);
    }
}

/// The survivor `k` is the target at the stale index `k`, which is a
/// first stale target.
pub proof fn lemma_stale_index(targets: Seq<TargetView>, fresh: Seq<bool>, n: int, k: int)
    requires
        0 <= n <= targets.len(),
        0 <= k < stale_targets(targets, fresh, n).len(),
    ensures
        k < stale_indices(targets, fresh, n).len(),
        0 <= stale_indices(targets, fresh, n)[k] < n,
        first_stale(targets, fresh, stale_indices(targets, fresh, n)[k]),
        stale_targets(targets, fresh, n)[k] == targets[stale_indices(targets, fresh, n)[k]],
    decreases n,
{
    lemma_stale_len(targets, fresh, n);
    if n > 0 {
        lemma_stale_len(targets, fresh, n - 1);
        let before = stale_targets(targets, fresh, n - 1);
        if k < before.len() {
            lemma_stale_index(targets, fresh, n - 1, k);
            assert(stale_targets(targets, fresh, n)[k] == before[k]);
            assert(stale_indices(targets, fresh, n)[k] == stale_indices(targets, fresh, n - 1)[k]);
        } else {
            assert(first_stale(targets, fresh, n - 1));
            assert(k == before.len());
            assert(stale_targets(targets, fresh, n)[k] == targets[n - 1]);
            assert(stale_indices(targets, fresh, n)[k] == n - 1);
        }
    }
}

/// No two survivors name the same final file.
pub proof fn lemma_stale_distinct(
    targets: Seq<TargetView>,
    fresh: Seq<bool>,
    n: int,
    a: int,
    b: int,
)
    requires
        0 <= n <= targets.len(),
        0 <= a < b < stale_targets(targets, fresh, n).len(),
    ensures
        stale_targets(targets, fresh, n)[a].final_file != stale_targets(
            targets,
            fresh,
            n,
        )[b].final_file,
    decreases n,
{
    if n > 0 {
        let before = stale_targets(targets, fresh, n - 1);
        let now = stale_targets(targets, fresh, n);
        if b < before.len() {
            lemma_stale_distinct(targets, fresh, n - 1, a, b);
            assert(now[a] == before[a]);
            assert(now[b] == before[b]);
        } else {
            assert(first_stale(targets, fresh, n - 1));
            assert(now[b] == targets[n - 1]);
            assert(now[a] == before[a]);
            lemma_stale_index(targets, fresh, n - 1, a);
            let i = stale_indices(targets, fresh, n - 1)[a];
            assert(0 <= i < n - 1 && !fresh[i]);
            assert(targets[i].final_file != targets[n - 1].final_file);
        }
    }
}

/// The final file of every stale target is that of a survivor, whose
/// number is returned.
pub proof fn lemma_stale_covers(targets: Seq<TargetView>, fresh: Seq<bool>, n: int, i: int) -> (k:
    int)
    requires
        0 <= n <= targets.len(),
        0 <= i < n,
        !fresh[i],
    ensures
        0 <= k < stale_targets(targets, fresh, n).len(),
        stale_targets(targets, fresh, n)[k].final_file == targets[i].final_file,
    decreases n,
{
    let before = stale_targets(targets, fresh, n - 1);
    let now = stale_targets(targets, fresh, n);
    if i < n - 1 {
        let k = lemma_stale_covers(targets, fresh, n - 1, i);
        assert(now[k] == before[k]);
        k
    } else if first_stale(targets, fresh, n - 1) {
        assert(now[before.len() as int] == targets[n - 1]);
        before.len() as int
    } else {
        let j = choose|j: int|
            0 <= j < n - 1 && !fresh[j] && (#[trigger] targets[j]).final_file == targets[n
                - 1].final_file;
        let k = lemma_stale_covers(targets, fresh, n - 1, j);
        assert(now[k] == before[k]);
        k
    }
}

/// Once every final file is fresh, nothing is planned, and a build with
/// nothing planned runs no stage: nothing is decoded, upscaled or written.
pub proof fn lemma_fresh_means_no_work<T: WallpaperID>(
    id: &T,
    tdir: Seq<char>,
    res: Res,
    on_disk: Seq<String>,
    targets: Seq<TargetView>,
    fresh: Seq<bool>,
    closed: bool,
)
    requires
        fresh.len() == targets.len(),
        forall|i: int| 0 <= i < fresh.len() ==> fresh[i],
    ensures
        stale_targets(targets, fresh, targets.len() as int).len() == 0,
        plan_for(id, tdir, res, on_disk, stale_targets(targets, fresh, targets.len() as int)).len()
            == 0,
        stage_after(0, res, None, closed) is None,
{
    let n = targets.len() as int;
    if stale_targets(targets, fresh, n).len() > 0 {
        lemma_stale_index(targets, fresh, n, 0);
        let i = stale_indices(targets, fresh, n)[0];
        assert(fresh[i]);
    }
}

/// The final files that are not fresh.
pub open spec fn stale_finals(targets: Seq<TargetView>, fresh: Seq<bool>) -> Set<Seq<char>> {
    Set::new(
        |p: Seq<char>|
            exists|i: int| 0 <= i < targets.len() && !fresh[i] && (#[trigger] targets[i]).final_file == p,
    )
}

/// The final files of a plan, in the order of its records.
pub open spec fn plan_finals(plan: Seq<UncachedView>) -> Seq<Seq<char>> {
    Seq::new(plan.len(), |k: int| plan[k].final_file)
}

/// A build has exactly one record, and so one finish task, for each
/// distinct final file that is not fresh. No upscaled file is written
/// twice, and none is written that is on disk: there are at most as many
/// upscales as records.
pub proof fn lemma_dedup_exact<T: WallpaperID>(
    id: &T,
    tdir: Seq<char>,
    res: Res,
    on_disk: Seq<String>,
    targets: Seq<TargetView>,
    fresh: Seq<bool>,
)
    requires
        fresh.len() == targets.len(),
    ensures
        ({
            let plan = plan_for(
                id,
                tdir,
                res,
                on_disk,
                stale_targets(targets, fresh, targets.len() as int),
            );
            &&& plan_finals(plan).no_duplicates()
            &&& plan_finals(plan).to_set() == stale_finals(targets, fresh)
            &&& stale_finals(targets, fresh).finite()
            &&& plan.len() == stale_finals(targets, fresh).len()
            &&& stage_tasks(plan, Stage::Finish, plan.len() as int).len() == plan.len()
            &&& forall|a: int, b: int|
                0 <= a < b < plan.len() && (#[trigger] plan[a]).scaled.write && (
                #[trigger] plan[b]).scaled.write ==> plan[a].scaled.path != plan[b].scaled.path
            &&& forall|k: int|
                0 <= k < plan.len() && (#[trigger] plan[k]).scaled.write ==> !has_text(
                    on_disk,
                    plan[k].scaled.path,
                )
        }),
{
    let n = targets.len() as int;
    let s = stale_targets(targets, fresh, n);
    let plan = plan_for(id, tdir, res, on_disk, s);
    let finals = plan_finals(plan);
    assert forall|a: int, b: int| 0 <= a < finals.len() && 0 <= b < finals.len() && a != b implies finals[a]
        != finals[b] by {
        if a < b {
            lemma_stale_distinct(targets, fresh, n, a, b);
        } else {
            lemma_stale_distinct(targets, fresh, n, b, a);
        }
    }
    assert forall|p: Seq<char>| finals.to_set().contains(p) <==> stale_finals(targets, fresh).contains(
        p,
    ) by {
        if finals.to_set().contains(p) {
            let k = choose|k: int| 0 <= k < finals.len() && finals[k] == p;
            lemma_stale_index(targets, fresh, n, k);
            let i = stale_indices(targets, fresh, n)[k];
            assert(0 <= i < targets.len() && !fresh[i] && targets[i].final_file == p);
        }
        if stale_finals(targets, fresh).contains(p) {
            let i = choose|i: int|
                0 <= i < targets.len() && !fresh[i] && (#[trigger] targets[i]).final_file == p;
            let k = lemma_stale_covers(targets, fresh, n, i);
            assert(finals[k] == p);
        }
    }
    assert(finals.to_set() =~= stale_finals(targets, fresh));
    vstd::seq_lib::seq_to_set_is_finite(finals);
    finals.unique_seq_to_set();
    lemma_finish_runs_for_all(plan, plan.len() as int);
    assert forall|a: int, b: int|
        0 <= a < b < plan.len() && (#[trigger] plan[a]).scaled.write && (
        #[trigger] plan[b]).scaled.write implies plan[a].scaled.path != plan[b].scaled.path by {
        if plan[a].scaled.path == plan[b].scaled.path {
            assert(scaled_path(id, tdir, res, s[a]) == plan[b].scaled.path);
            assert(spoken_for(id, tdir, res, s, b, plan[b].scaled.path));
        }
    }
}

/// The finish stage runs for every record of a plan.
pub proof fn lemma_finish_runs_for_all(plan: Seq<UncachedView>, n: int)
    requires
        0 <= n <= plan.len(),
    ensures
        stage_tasks(plan, Stage::Finish, n).len() == n,
    decreases n,
{
    if n > 0 {
        lemma_finish_runs_for_all(plan, n - 1);
    }
}

/// Moving an image and moving it back leaves every pixel in place that
/// did not leave the canvas on the way; the others are white.
pub proof fn lemma_translate_round_trip(
    img: FrameView,
    horizontal: int,
    vertical: int,
    x: int,
    y: int,
    c: int,
)
    requires
        img.wf(),
        img.holds(x, y),
        0 <= c < img.channels,
    ensures
        translated(translated(img, horizontal, vertical), -horizontal, -vertical).pixel(x, y, c)
            == (if img.holds(x - horizontal, y + vertical) {
            img.pixel(x, y, c)
        } else {
            0xff
        }),
{
    let there = translated(img, horizontal, vertical);
    lemma_remapped(img, img.width, img.height, horizontal, -vertical, 0xff);
    lemma_remapped(there, img.width, img.height, -horizontal, -(-vertical), 0xff);
    if img.holds(x - horizontal, y + vertical) {
        assert(there.pixel(x - horizontal, y + vertical, c) == img.pixel(x, y, c));
    }
}

/// An image that is not moved stays as it is.
pub proof fn lemma_translate_nothing(img: FrameView)
    requires
        img.wf(),
    ensures
        translated(img, 0, 0) == img,
{
    let r = translated(img, 0, 0);
    assert(img.width * img.height * img.channels >= 0) by (nonlinear_arith)
        requires
            0 <= img.width,
            0 <= img.height,
            0 < img.channels,
    ;
    assert forall|i: int| 0 <= i < r.data.len() implies r.data[i] == img.data[i] by {
        crate::frame::lemma_index_decodes(img.width, img.height, img.channels, i);
    }
    assert(r.data =~= img.data);
}

/// A modification time: seconds since the epoch, and nanoseconds.
#[derive(Debug, Clone, Copy, PartialEq, Eq, Structural)]
pub struct Mtime {
    pub secs: u64,
    pub nanos: u32,
}

/// `a` is not earlier than `b`.
pub open spec fn not_before(a: Mtime, b: Mtime) -> bool {
    a.secs > b.secs || (a.secs == b.secs && a.nanos >= b.nanos)
}

/// A final file is fresh iff it exists and is no older than the source image.
pub open spec fn fresh(final_file: Option<Mtime>, source: Mtime) -> bool {
    final_file matches Some(t) && not_before(t, source)
}

/// Whether a final file need not be built again. `final_file` is its
/// modification time, if it is a file.
pub fn is_fresh(final_file: Option<Mtime>, source: Mtime) -> (r: bool)
    ensures
        r == fresh(final_file, source),
{
    match final_file {
        Some(t) => t.secs > source.secs || (t.secs == source.secs && t.nanos >= source.nanos),
        None => false,
    }
}

/// Whether every final file is fresh, so that nothing has to be looked
/// at or built for the wallpaper.
pub fn nothing_to_build(fresh: &Vec<bool>) -> (r: bool)
    ensures
        r == forall|i: int| 0 <= i < fresh@.len() ==> fresh@[i],
{
    let mut i: usize = 0;
    while i < fresh.len()
        invariant
            i <= fresh@.len(),
            forall|j: int| 0 <= j < i ==> fresh@[j],
        decreases fresh@.len() - i,
    {
        if !fresh[i] {
            return false;
        }
        i = i + 1;
    }
    true
}

/// The settings ask for nothing: there are none, or none of their fields is set.
pub open spec fn asks_nothing(ip: Option<PropsView>) -> bool {
    ip matches Some(p) ==> p.unset()
}

/// An upscaled file of an image without settings is never a final file
/// of that image: the name of the one goes on after the name of the
/// image with a dash, that of the other with `.png`.
pub proof fn lemma_scaled_is_no_final(
    rel: Seq<char>,
    dir: Seq<char>,
    tdir: Seq<char>,
    m: Monitor,
    scale: int,
    ip: Option<PropsView>,
    dash: bool,
)
    requires
        is_rel_path(rel),
        asks_nothing(ip),
        scale >= 1,
    ensures
        joined(tdir, upscaled_name_of(leaf(rel), scale, ip, dash)) != final_under(dir, m, rel, ip),
        cropped_name_of(leaf(rel), ip) is None,
{
    let file = leaf(rel);
    let digits = nat_text(scale as nat);
    let tail = if dash {
        seq!['-']
    } else {
        Seq::<char>::empty()
    };
    let name = upscaled_name_of(file, scale, ip, dash);
    let scaled = joined(tdir, name);
    let within = joined(joined(dir, res_text(m)), rel);
    let last = final_under(dir, m, rel, ip);
    lemma_last_slash(rel);
    lemma_nat_text(scale as nat);
    match ip {
        Some(p) => {
            crate::config::lemma_empty_fingerprint(p);
            assert(p.crop_pad_text() =~= Seq::<char>::empty());
            assert(p.full_text() =~= Seq::<char>::empty());
        },
        None => {},
    }
    assert(name =~= file + seq!['-'] + digits + tail + png());
    assert(last =~= within + png());
    // The file name of the final file.
    assert(lacks(png(), '/'));
    assert(last_slash(png()) < 0) by {
        lemma_leaf_of_name(png());
    }
    lemma_last_slash_concat(within, png());
    lemma_leaf_joined(joined(dir, res_text(m)), rel);
    assert(leaf(last) == file + png());
    // The file name of the upscaled file.
    assert(lacks(file, '/')) by {
        assert forall|i: int| 0 <= i < file.len() implies #[trigger] file[i] != '/' by {
            assert(file[i] == rel[last_slash(rel) + 1 + i]);
        }
    }
    assert(lacks(digits, '/'));
    assert(lacks(seq!['-'], '/'));
    assert(lacks(tail, '/'));
    lemma_lacks_concat(file, seq!['-'], '/');
    lemma_lacks_concat(file + seq!['-'], digits, '/');
    lemma_lacks_concat(file + seq!['-'] + digits, tail, '/');
    lemma_lacks_concat(file + seq!['-'] + digits + tail, png(), '/');
    lemma_leaf_of_name(name);
    assert(name[0] == file[0] || file.len() == 0);
    lemma_leaf_joined(tdir, name);
    assert(leaf(scaled) == name);
    assert(name.len() > (file + png()).len());
}

/// What follows for two displays that want the same final file, where
/// that file is missing, no cropped file is needed, the upscaled file is
/// not the final file, and the workspace is empty.
pub open spec fn one_build<T: WallpaperID>(
    id: &T,
    cache: Seq<char>,
    store: Map<Seq<char>, PropsView>,
    tdir: Seq<char>,
    res: Res,
    on_disk: Seq<String>,
    a: Monitor,
    b: Monitor,
) -> bool {
    let plan = plan_for(
        id,
        tdir,
        res,
        on_disk,
        stale_targets(targets_for(id, cache, store, seq![a, b]), seq![false, false], 2),
    );
    &&& plan.len() == 1
    &&& plan[0].m == a
    &&& plan[0].cropped is None
    &&& plan[0].scaled.write
    &&& plan[0].final_file == target_for(id, cache, store, a).final_file
    &&& plan[0].final_file == target_for(id, cache, store, b).final_file
    &&& stage_tasks(plan, Stage::Crop, 1) == Seq::<usize>::empty()
    &&& stage_tasks(plan, Stage::Upscale, 1) == seq![0usize]
    &&& stage_tasks(plan, Stage::Finish, 1) == seq![0usize]
    &&& !res.spec_is_empty() ==> {
        &&& stage_after(1, res, None, false) == Some(Stage::Crop)
        &&& stage_after(1, res, Some(Stage::Crop), false) == Some(Stage::Upscale)
        &&& stage_after(1, res, Some(Stage::Upscale), false) == Some(Stage::Finish)
        &&& stage_after(1, res, Some(Stage::Finish), false) is None
    }
    &&& forall|has_cache: bool| (#[trigger] png_wanted(true, has_cache)) is Some
}

/// Two displays that want the same final file share one build: there is
/// one record, and where it needs no cropped file and its upscaled file
/// is not spoken for, a build that is not told to wind down runs no crop
/// task, one upscale task and one finish task, and a build for keeping
/// writes the one final file.
pub proof fn lemma_shared_build<T: WallpaperID>(
    id: &T,
    cache: Seq<char>,
    store: Map<Seq<char>, PropsView>,
    tdir: Seq<char>,
    res: Res,
    on_disk: Seq<String>,
    a: Monitor,
    b: Monitor,
)
    requires
        target_for(id, cache, store, a).final_file == target_for(id, cache, store, b).final_file,
        cropped_path(id, tdir, target_for(id, cache, store, a)) is None,
        scaled_path(id, tdir, res, target_for(id, cache, store, a)) != target_for(
            id,
            cache,
            store,
            a,
        ).final_file,
        on_disk.len() == 0,
    ensures
        one_build(id, cache, store, tdir, res, on_disk, a, b),
{
    let targets = targets_for(id, cache, store, seq![a, b]);
    let fresh = seq![false, false];
    let first = target_for(id, cache, store, a);
    assert(targets[0] == first);
    assert(targets[1] == target_for(id, cache, store, b));
    assert(first_stale(targets, fresh, 0));
    assert(!first_stale(targets, fresh, 1)) by {
        assert(!fresh[0] && targets[0].final_file == targets[1].final_file);
    }
    assert(stale_targets(targets, fresh, 0) =~= Seq::<TargetView>::empty());
    assert(stale_targets(targets, fresh, 1) =~= seq![first]);
    assert(stale_targets(targets, fresh, 2) =~= seq![first]);
    let survivors = stale_targets(targets, fresh, 2);
    let plan = plan_for(id, tdir, res, on_disk, survivors);
    let scaled = scaled_path(id, tdir, res, first);
    assert(!spoken_for(id, tdir, res, survivors, 0, scaled)) by {
        assert(survivors.len() == 1);
        assert(survivors[0].final_file != scaled);
    }
    assert(!has_text(on_disk, scaled));
    assert(plan[0] == record_for(id, tdir, res, on_disk, survivors, 0));
    assert(stage_tasks(plan, Stage::Crop, 0) =~= Seq::<usize>::empty());
    assert(stage_tasks(plan, Stage::Crop, 1) =~= Seq::<usize>::empty());
    assert(stage_tasks(plan, Stage::Upscale, 0) =~= Seq::<usize>::empty());
    assert(stage_tasks(plan, Stage::Upscale, 1) =~= seq![0usize]);
    assert(stage_tasks(plan, Stage::Finish, 0) =~= Seq::<usize>::empty());
    assert(stage_tasks(plan, Stage::Finish, 1) =~= seq![0usize]);
}

/// Two displays of one size that show a wallpaper of the library without
/// settings share one build, where the final file is missing and the
/// workspace is empty.
pub proof fn lemma_equal_displays_share_a_build(
    id: OriginalWallpaperID,
    cache: Seq<char>,
    store: Map<Seq<char>, PropsView>,
    tdir: Seq<char>,
    res: Res,
    on_disk: Seq<String>,
    a: Monitor,
    b: Monitor,
)
    requires
        is_rel_path(id@),
        a.width == b.width,
        a.height == b.height,
        asks_nothing(id.resolved(store, a)),
        on_disk.len() == 0,
    ensures
        one_build(&id, cache, store, tdir, res, on_disk, a, b),
{
    let first = target_for(&id, cache, store, a);
    assert(res_text(a) == res_text(b));
    assert(id.resolved(store, a) == id.resolved(store, b));
    lemma_scale_bound(res.effective(first.props), a);
    lemma_scaled_is_no_final(id@, cache, tdir, a, target_scale(res, first), first.props, true);
    lemma_shared_build(&id, cache, store, tdir, res, on_disk, a, b);
}

/// The same for a preview without settings.
pub proof fn lemma_equal_displays_share_a_preview(
    id: TempWallpaperID,
    cache: Seq<char>,
    store: Map<Seq<char>, PropsView>,
    tdir: Seq<char>,
    res: Res,
    on_disk: Seq<String>,
    a: Monitor,
    b: Monitor,
)
    requires
        is_rel_path(id.fname()),
        last_slash(id.fname()) < 0,
        a.width == b.width,
        a.height == b.height,
        id.settings().unset(),
        on_disk.len() == 0,
    ensures
        one_build(&id, cache, store, tdir, res, on_disk, a, b),
{
    let first = target_for(&id, cache, store, a);
    assert(res_text(a) == res_text(b));
    lemma_last_slash(id.fname());
    assert(leaf(id.fname()) =~= id.fname());
    lemma_scale_bound(res.effective(first.props), a);
    lemma_scaled_is_no_final(
        id.fname(),
        id.tdir(),
        tdir,
        a,
        target_scale(res, first),
        first.props,
        false,
    );
    lemma_shared_build(&id, cache, store, tdir, res, on_disk, a, b);
}

} // verus!
