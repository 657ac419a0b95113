//! The identities of wallpapers and the artifact paths derived from them.

use vstd::prelude::*;
use vstd::string::*;
use crate::config::{Config, ImageProperties, OverrideView, Properties, PropsView};
use crate::monitors::{res_text, Monitor};
use crate::paths::{
    below, ends_component, file_name, has_leaf, is_rel_path, join, joined, last_slash, leaf,
    lemma_last_slash, rest_below, starts_component, strip_prefix,
};
use crate::text::{chars_of, decimal, int_text, nat_text, push_char, push_int, push_nat, push_str};

verus! {

/// The settings of an optional value, as plain values.
pub open spec fn props_opt(ip: Option<ImageProperties>) -> Option<PropsView> {
    match ip {
        Some(p) => Some(p@),
        None => None,
    }
}

/// The fingerprint that is appended to a final path: nothing without settings.
pub open spec fn full_or_empty(ip: Option<PropsView>) -> Seq<char> {
    match ip {
        Some(p) => p.full_text(),
        None => Seq::empty(),
    }
}

/// The extension of every artifact.
pub open spec fn png() -> Seq<char> {
    seq!['.', 'p', 'n', 'g']
}

/// `<dir>/<w>x<h>/<name><fingerprint>.png`
pub open spec fn final_under(dir: Seq<char>, m: Monitor, name: Seq<char>, ip: Option<PropsView>) -> Seq<
    char,
> {
    joined(joined(dir, res_text(m)), name) + full_or_empty(ip) + png()
}

/// `<file><crop-pad>.png`, or nothing where the settings neither crop nor pad.
pub open spec fn cropped_name_of(file: Seq<char>, ip: Option<PropsView>) -> Option<Seq<char>> {
    match ip {
        Some(p) => if p.crop_pad_text().len() == 0 {
            None
        } else {
            Some(file + p.crop_pad_text() + png())
        },
        None => None,
    }
}

/// The part of a fingerprint that tells crops and pads apart: nothing
/// without settings.
pub open spec fn crop_pad_or_empty(ip: Option<PropsView>) -> Seq<char> {
    match ip {
        Some(p) => p.crop_pad_text(),
        None => Seq::empty(),
    }
}

/// `<denoise>-` where the settings set a denoise level, and else nothing.
pub open spec fn denoise_part(ip: Option<PropsView>) -> Seq<char> {
    match ip {
        Some(p) => match p.denoise {
            Some(d) => int_text(d as int) + seq!['-'],
            None => Seq::empty(),
        },
        None => Seq::empty(),
    }
}

/// `<file><crop-pad>-[<denoise>-]`, with or without settings.
pub open spec fn upscaled_head(file: Seq<char>, ip: Option<PropsView>) -> Seq<char> {
    file + crop_pad_or_empty(ip) + seq!['-'] + denoise_part(ip)
}

/// The head, the scale, a dash for wallpapers of the library, and `.png`.
pub open spec fn upscaled_name_of(
    file: Seq<char>,
    scale: int,
    ip: Option<PropsView>,
    dash: bool,
) -> Seq<char> {
    upscaled_head(file, ip) + nat_text(scale as nat) + (if dash {
        seq!['-']
    } else {
        Seq::empty()
    }) + png()
}

/// The settings of the first override for the aspect ratio `x:y`.
pub open spec fn find_override(nested: Seq<OverrideView>, x: Seq<char>, y: Seq<char>) -> Option<
    PropsView,
>
    decreases nested.len(),
{
    if nested.len() == 0 {
        None
    } else if nested[0].x == x && nested[0].y == y {
        Some(nested[0].props)
    } else {
        find_override(nested.skip(1), x, y)
    }
}

/// The settings in force for an image on a display: those of the override
/// for the display's aspect ratio if there is one, else those of the image
/// itself; in both cases without overrides. Nothing for an image without settings.
pub open spec fn resolve(store: Map<Seq<char>, PropsView>, key: Seq<char>, m: Monitor) -> Option<
    PropsView,
> {
    if !store.contains_key(key) {
        None
    } else {
        match find_override(
            store[key].nested,
            nat_text(m.aspect_x()),
            nat_text(m.aspect_y()),
        ) {
            Some(o) => Some(o.flat()),
            None => Some(store[key].flat()),
        }
    }
}

/// Where there is an override for the aspect ratio `x:y`, the first one is
/// found; where there is none, nothing is.
pub proof fn lemma_find_override(nested: Seq<OverrideView>, x: Seq<char>, y: Seq<char>)
    ensures
        match find_override(nested, x, y) {
            Some(p) => exists|i: int|
                0 <= i < nested.len() && (#[trigger] nested[i]).x == x && nested[i].y == y
                    && nested[i].props == p && forall|j: int|
                    0 <= j < i ==> !((#[trigger] nested[j]).x == x && nested[j].y == y),
            None => forall|i: int|
                0 <= i < nested.len() ==> !((#[trigger] nested[i]).x == x && nested[i].y == y),
        },
    decreases nested.len(),
{
    if nested.len() > 0 && !(nested[0].x == x && nested[0].y == y) {
        let rest = nested.skip(1);
        lemma_find_override(rest, x, y);
        match find_override(rest, x, y) {
            Some(p) => {
                let i = choose|i: int|
                    0 <= i < rest.len() && (#[trigger] rest[i]).x == x && rest[i].y == y
                        && rest[i].props == p && forall|j: int|
                        0 <= j < i ==> !((#[trigger] rest[j]).x == x && rest[j].y == y);
                assert(nested[i + 1] == rest[i]);
                assert forall|j: int| 0 <= j < i + 1 implies !((#[trigger] nested[j]).x == x
                    && nested[j].y == y) by {
                    if j > 0 {
                        assert(nested[j] == rest[j - 1]);
                    }
                }
            },
            None => {
                assert forall|i: int| 0 <= i < nested.len() implies !((#[trigger] nested[i]).x == x
                    && nested[i].y == y) by {
                    if i > 0 {
                        assert(nested[i] == rest[i - 1]);
                    }
                }
            },
        }
    } else if nested.len() > 0 {
        assert(nested[0].x == x && nested[0].y == y);
    }
}

/// An override for the aspect ratio of the display wins over the settings
/// of the image, and what is resolved never holds overrides itself.
pub proof fn lemma_override_wins(store: Map<Seq<char>, PropsView>, key: Seq<char>, m: Monitor, i: int)
    requires
        store.contains_key(key),
        store[key].wf(),
    ensures
        store[key].has_override(nat_text(m.aspect_x()), nat_text(m.aspect_y()), i) ==> resolve(
            store,
            key,
            m,
        ) == Some(store[key].nested[i].props.flat()),
        (forall|j: int|
            !store[key].has_override(nat_text(m.aspect_x()), nat_text(m.aspect_y()), j))
            ==> resolve(store, key, m) == Some(store[key].flat()),
        resolve(store, key, m) matches Some(p) && p.nested.len() == 0,
{
    let nested = store[key].nested;
    let x = nat_text(m.aspect_x());
    let y = nat_text(m.aspect_y());
    lemma_find_override(nested, x, y);
    if store[key].has_override(x, y, i) {
        match find_override(nested, x, y) {
            Some(p) => {
                let k = choose|k: int|
                    0 <= k < nested.len() && (#[trigger] nested[k]).x == x && nested[k].y == y
                        && nested[k].props == p && forall|j: int|
                        0 <= j < k ==> !((#[trigger] nested[j]).x == x && nested[j].y == y);
                if k < i {
                    assert(!(nested[k].x == nested[i].x && nested[k].y == nested[i].y));
                } else if i < k {
                    assert(!(nested[i].x == x && nested[i].y == y));
                }
            },
            None => {
                assert(!(nested[i].x == x && nested[i].y == y));
            },
        }
    }
    if forall|j: int| !store[key].has_override(x, y, j) {
        match find_override(nested, x, y) {
            Some(p) => {
                let k = choose|k: int|
                    0 <= k < nested.len() && (#[trigger] nested[k]).x == x && nested[k].y == y
                        && nested[k].props == p;
                assert(store[key].has_override(x, y, k));
            },
            None => {},
        }
    }
}

/// What identifies a wallpaper, and the paths of what is made from it.
pub trait WallpaperID {
    /// The path of the source image.
    spec fn original_path(&self, originals: Seq<char>) -> Seq<char>;

    /// The path of the final artifact for a display.
    spec fn final_path(&self, cache: Seq<char>, m: Monitor, ip: Option<PropsView>) -> Seq<char>;

    /// The settings in force on a display.
    spec fn resolved(&self, store: Map<Seq<char>, PropsView>, m: Monitor) -> Option<PropsView>;

    /// The name of the cropped intermediate file, if one is needed.
    spec fn cropped_name(&self, ip: Option<PropsView>) -> Option<Seq<char>>;

    /// The name of the upscaled intermediate file.
    spec fn upscaled_name(&self, scale: int, ip: Option<PropsView>) -> Seq<char>;

    fn original_abs_path(&self, config: &Config) -> (r: String)
        ensures
            r@ == self.original_path(config.originals_directory@),
    ;

    fn cached_abs_path(&self, config: &Config, m: &Monitor, ip: &Option<ImageProperties>) -> (r:
        String)
        ensures
            r@ == self.final_path(config.cache_directory@, *m, props_opt(*ip)),
    ;

    fn get_props(&self, store: &Properties, m: &Monitor) -> (r: Option<ImageProperties>)
        requires
            m.wf(),
        ensures
            props_opt(r) == self.resolved(store@, *m),
    ;

    fn cropped_rel_path(&self, ip: &Option<ImageProperties>) -> (r: Option<String>)
        ensures
            r is Some <==> self.cropped_name(props_opt(*ip)) is Some,
            r matches Some(name) ==> Some(name@) == self.cropped_name(props_opt(*ip)),
    ;

    fn upscaled_rel_path(&self, scale: u8, ip: &Option<ImageProperties>) -> (r: String)
        ensures
            r@ == self.upscaled_name(scale as int, props_opt(*ip)),
    ;
}

fn append_png(s: &mut String)
    ensures
        final(s)@ == old(s)@ + png(),
{
    push_char(s, '.');
    push_char(s, 'p');
    push_char(s, 'n');
    push_char(s, 'g');
    assert(s@ =~= old(s)@ + png());
}

fn final_in(dir: &str, m: &Monitor, name: &str, ip: &Option<ImageProperties>) -> (r: String)
    ensures
        r@ == final_under(dir@, *m, name@, props_opt(*ip)),
{
    let res = m.res_string();
    let sized = join(dir, res.as_str());
    let mut p = join(sized.as_str(), name);
    match ip {
        Some(ip) => {
            let full = ip.full_string();
            push_str(&mut p, full.as_str());
        },
        None => {
            assert(p@ + Seq::<char>::empty() =~= p@);
        },
    }
    append_png(&mut p);
    p
}

fn cropped_for(file: &str, ip: &Option<ImageProperties>) -> (r: Option<String>)
    ensures
        r is Some <==> cropped_name_of(file@, props_opt(*ip)) is Some,
        r matches Some(name) ==> Some(name@) == cropped_name_of(file@, props_opt(*ip)),
{
    match ip {
        Some(ip) => {
            let s = ip.crop_pad_string();
            if s.as_str().unicode_len() == 0 {
                return None;
            }
            let mut p = String::from_str(file);
            push_str(&mut p, s.as_str());
            append_png(&mut p);
            Some(p)
        },
        None => None,
    }
}

fn upscaled_for(file: &str, scale: u8, ip: &Option<ImageProperties>, dash: bool) -> (r: String)
    ensures
        r@ == upscaled_name_of(file@, scale as int, props_opt(*ip), dash),
{
    let mut p = String::from_str(file);
    match ip {
        Some(ip) => {
            let s = ip.crop_pad_string();
            push_str(&mut p, s.as_str());
        },
        None => {},
    }
    push_char(&mut p, '-');
    match ip {
        Some(ip) => match ip.denoise {
            Some(d) => {
                push_int(&mut p, d as i64);
                push_char(&mut p, '-');
            },
            None => {},
        },
        None => {},
    }
    assert(p@ =~= upscaled_head(file@, props_opt(*ip)));
    push_nat(&mut p, scale as u64);
    if dash {
        push_char(&mut p, '-');
    }
    append_png(&mut p);
    assert(p@ =~= upscaled_name_of(file@, scale as int, props_opt(*ip), dash));
    p
}

/// Looks the settings of `key` up and picks the override for the display.
fn resolve_in(store: &Properties, key: &str, m: &Monitor) -> (r: Option<ImageProperties>)
    requires
        m.wf(),
    ensures
        props_opt(r) == resolve(store@, key@, *m),
{
    let (ax, ay) = m.aspect();
    let a_x = decimal(ax as i64);
    let a_y = decimal(ay as i64);
    let props = match store.get(key) {
        Some(p) => p,
        None => {
            return None;
        },
    };
    proof {
        props.lemma_nested_view();
        assert(props@.nested.skip(0) =~= props@.nested);
    }
    let mut i: usize = 0;
    while i < props.nested.len()
        invariant
            i <= props.nested@.len(),
            store@.contains_key(key@),
            store@[key@] == props@,
            a_x@ == nat_text(m.aspect_x()),
            a_y@ == nat_text(m.aspect_y()),
            props@.nested.len() == props.nested@.len(),
            forall|k: int|
                0 <= k < props.nested@.len() ==> #[trigger] props@.nested[k] == props.nested@[k]@,
            find_override(props@.nested, a_x@, a_y@) == find_override(
                props@.nested.skip(i as int),
                a_x@,
                a_y@,
            ),
        decreases props.nested@.len() - i,
    {
        let ghost rest = props@.nested.skip(i as int);
        assert(rest[0] == props@.nested[i as int]);
        assert(rest.skip(1) =~= props@.nested.skip(i + 1));
        if props.nested[i].x == a_x && props.nested[i].y == a_y {
            return Some(props.nested[i].props.clone());
        }
        i = i + 1;
    }
    assert(props@.nested.skip(i as int).len() == 0);
    Some(props.clone())
}

/// A wallpaper of the library: the path of its source image relative to
/// the originals directory, with `/` between the components.
#[derive(Debug)]
pub struct OriginalWallpaperID(String);

impl View for OriginalWallpaperID {
    type V = Seq<char>;

    closed spec fn view(&self) -> Seq<char> {
        self.0@
    }
}

impl OriginalWallpaperID {
    #[verifier::type_invariant]
    spec fn inv(&self) -> bool {
        is_rel_path(self.0@)
    }

    /// The identity of the image at a relative path.
    pub fn from_rel_path(p: &str) -> (r: Self)
        requires
            is_rel_path(p@),
        ensures
            r@ == p@,
    {
        OriginalWallpaperID(String::from_str(p))
    }

    /// The relative path, components separated by `/`.
    pub fn slash_path(&self) -> (r: &str)
        ensures
            r@ == self@,
            is_rel_path(r@),
    {
        proof {
            use_type_invariant(self);
        }
        self.0.as_str()
    }

    fn file(&self) -> (r: String)
        ensures
            r@ == leaf(self@),
    {
        proof {
            use_type_invariant(self);
            lemma_rel_path_has_leaf(self.0@);
        }
        match file_name(self.0.as_str()) {
            Some(name) => name,
            None => String::new(),
        }
    }
}

/// A relative path of ordinary names ends in a file name.
pub proof fn lemma_rel_path_has_leaf(s: Seq<char>)
    requires
        is_rel_path(s),
    ensures
        has_leaf(s),
{
    lemma_last_slash(s);
    let k = last_slash(s);
    assert(starts_component(s, k + 1));
    let l = leaf(s);
    assert(l.len() > 0);
    assert(l[0] == s[k + 1]);
    if l == seq!['.'] {
        assert(l.len() == 1 && l[0] == '.');
        assert(ends_component(s, k + 2));
    }
    if l == seq!['.', '.'] {
        assert(l.len() == 2 && l[0] == '.' && l[1] == '.');
        assert(l[1] == s[k + 2]);
        assert(ends_component(s, k + 3));
    }
}

impl Clone for OriginalWallpaperID {
    fn clone(&self) -> (r: Self)
        ensures
            r@ == self@,
    {
        proof {
            use_type_invariant(self);
        }
        OriginalWallpaperID(self.0.clone())
    }
}

impl WallpaperID for OriginalWallpaperID {
    open spec fn original_path(&self, originals: Seq<char>) -> Seq<char> {
        joined(originals, self@)
    }

    open spec fn final_path(&self, cache: Seq<char>, m: Monitor, ip: Option<PropsView>) -> Seq<
        char,
    > {
        final_under(cache, m, self@, ip)
    }

    open spec fn resolved(&self, store: Map<Seq<char>, PropsView>, m: Monitor) -> Option<
        PropsView,
    > {
        resolve(store, self@, m)
    }

    open spec fn cropped_name(&self, ip: Option<PropsView>) -> Option<Seq<char>> {
        cropped_name_of(leaf(self@), ip)
    }

    open spec fn upscaled_name(&self, scale: int, ip: Option<PropsView>) -> Seq<char> {
        upscaled_name_of(leaf(self@), scale, ip, true)
    }

    fn original_abs_path(&self, config: &Config) -> (r: String) {
        join(config.originals_directory.as_str(), self.0.as_str())
    }

    fn cached_abs_path(&self, config: &Config, m: &Monitor, ip: &Option<ImageProperties>) -> (r:
        String) {
        final_in(config.cache_directory.as_str(), m, self.0.as_str(), ip)
    }

    fn get_props(&self, store: &Properties, m: &Monitor) -> (r: Option<ImageProperties>) {
        resolve_in(store, self.0.as_str(), m)
    }

    fn cropped_rel_path(&self, ip: &Option<ImageProperties>) -> (r: Option<String>) {
        let file = self.file();
        cropped_for(file.as_str(), ip)
    }

    fn upscaled_rel_path(&self, scale: u8, ip: &Option<ImageProperties>) -> (r: String) {
        let file = self.file();
        upscaled_for(file.as_str(), scale, ip, true)
    }
}

/// A wallpaper outside the library, for previews: an absolute path, and
/// settings of its own. All that is made from it lies in a temporary directory.
#[derive(Debug)]
pub struct TempWallpaperID {
    path: String,
    /// The file name the wallpaper had when the identity was made, so that
    /// what was built stays valid when the file is moved into the library.
    fname: String,
    props: ImageProperties,
    tdir: String,
}

impl TempWallpaperID {
    /// The path of the image as it is now.
    pub closed spec fn path(&self) -> Seq<char> {
        self.path@
    }

    /// The file name captured at creation.
    pub closed spec fn fname(&self) -> Seq<char> {
        self.fname@
    }

    /// The temporary directory that holds the final artifacts.
    pub closed spec fn tdir(&self) -> Seq<char> {
        self.tdir@
    }

    /// The settings of the preview.
    pub closed spec fn settings(&self) -> PropsView {
        self.props@
    }

    /// The settings of the preview.
    pub fn props(&self) -> (r: &ImageProperties)
        ensures
            r@ == self.settings(),
    {
        &self.props
    }

    /// Replaces the settings of the preview.
    pub fn set_props(&mut self, props: ImageProperties)
        ensures
            final(self).settings() == props@,
            final(self).path() == old(self).path(),
            final(self).fname() == old(self).fname(),
            final(self).tdir() == old(self).tdir(),
    {
        self.props = props;
    }

    /// The identity of the image at `p`, which has to end in a file name.
    pub fn new(p: &str, props: ImageProperties, tdir: &str) -> (r: Self)
        requires
            has_leaf(p@),
        ensures
            r.path() == p@,
            r.fname() == leaf(p@),
            r.tdir() == tdir@,
            r.settings() == props@,
    {
        let fname = match file_name(p) {
            Some(name) => name,
            None => String::new(),
        };
        TempWallpaperID { path: String::from_str(p), fname, props, tdir: String::from_str(tdir) }
    }

    /// Records that the image now lies at `p`, inside the originals
    /// directory. The captured file name and the settings stay.
    pub fn set_original_path(&mut self, config: &Config, p: String)
        requires
            p@.len() > 0 && p@[0] == '/',
            below(p@, config.originals_directory@),
        ensures
            final(self).path() == p@,
            final(self).fname() == old(self).fname(),
            final(self).tdir() == old(self).tdir(),
            final(self).settings() == old(self).settings(),
    {
        self.path = p;
    }

    /// The path relative to the originals directory, for an image inside it.
    pub fn slash_path(&self, config: &Config) -> (r: Option<String>)
        ensures
            r is Some <==> below(self.path(), config.originals_directory@),
            r matches Some(rel) ==> rel@ == rest_below(self.path(), config.originals_directory@),
    {
        strip_prefix(self.path.as_str(), config.originals_directory.as_str())
    }
}

impl WallpaperID for TempWallpaperID {
    open spec fn original_path(&self, originals: Seq<char>) -> Seq<char> {
        self.path()
    }

    open spec fn final_path(&self, cache: Seq<char>, m: Monitor, ip: Option<PropsView>) -> Seq<
        char,
    > {
        final_under(self.tdir(), m, self.fname(), ip)
    }

    open spec fn resolved(&self, store: Map<Seq<char>, PropsView>, m: Monitor) -> Option<
        PropsView,
    > {
        Some(self.settings().flat())
    }

    open spec fn cropped_name(&self, ip: Option<PropsView>) -> Option<Seq<char>> {
        cropped_name_of(self.fname(), ip)
    }

    open spec fn upscaled_name(&self, scale: int, ip: Option<PropsView>) -> Seq<char> {
        upscaled_name_of(self.fname(), scale, ip, false)
    }

    fn original_abs_path(&self, config: &Config) -> (r: String) {
        self.path.clone()
    }

    fn cached_abs_path(&self, config: &Config, m: &Monitor, ip: &Option<ImageProperties>) -> (r:
        String) {
        final_in(self.tdir.as_str(), m, self.fname.as_str(), ip)
    }

    fn get_props(&self, store: &Properties, m: &Monitor) -> (r: Option<ImageProperties>) {
        Some(self.props.clone())
    }

    fn cropped_rel_path(&self, ip: &Option<ImageProperties>) -> (r: Option<String>) {
        cropped_for(self.fname.as_str(), ip)
    }

    fn upscaled_rel_path(&self, scale: u8, ip: &Option<ImageProperties>) -> (r: String) {
        upscaled_for(self.fname.as_str(), scale, ip, false)
    }
}

/// A text with every `from` replaced by `to`.
pub open spec fn replaced(s: Seq<char>, from: char, to: char) -> Seq<char> {
    Seq::new(
        s.len(),
        |i: int|
            if s[i] == from {
                to
            } else {
                s[i]
            },
    )
}

fn replace_char(p: &str, from: char, to: char) -> (r: String)
    ensures
        r@ == replaced(p@, from, to),
{
    let v = chars_of(p);
    let mut r = String::new();
    let mut i: usize = 0;
    while i < v.len()
        invariant
            i <= v@.len(),
            r@ == replaced(v@, from, to).take(i as int),
        decreases v@.len() - i,
    {
        let c = if v[i] == from {
            to
        } else {
            v[i]
        };
        push_char(&mut r, c);
        proof {
            let all = replaced(v@, from, to);
            assert(all.take(i + 1) =~= all.take(i as int).push(all[i as int]));
        }
        i = i + 1;
    }
    proof {
        assert(replaced(v@, from, to).take(v@.len() as int) =~= replaced(v@, from, to));
    }
    r
}

/// The native form of a relative path: the platform's separator in place of `/`.
pub fn relative_from_slash(p: &str, separator: char) -> (r: String)
    ensures
        r@ == replaced(p@, '/', separator),
{
    replace_char(p, '/', separator)
}

/// The library's form of a native relative path: `/` in place of the
/// platform's separator.
pub fn slash_from_relative(p: &str, separator: char) -> (r: String)
    ensures
        r@ == replaced(p@, separator, '/'),
{
    replace_char(p, separator, '/')
}

/// A path whose names do not hold the platform's separator comes back
/// unchanged from the native form.
pub proof fn lemma_slash_round_trip(p: Seq<char>, separator: char)
    requires
        forall|i: int| 0 <= i < p.len() ==> #[trigger] p[i] != separator || separator == '/',
    ensures
        replaced(replaced(p, '/', separator), separator, '/') == p,
{
    assert(replaced(replaced(p, '/', separator), separator, '/') =~= p);
}

/// The paths of what is built are determined by the identity of the
/// image, the display and the settings: two wallpapers of the library
/// with the same path have the same artifacts.
pub proof fn lemma_paths_determined(
    a: OriginalWallpaperID,
    b: OriginalWallpaperID,
    cache: Seq<char>,
    m: Monitor,
    ip: Option<PropsView>,
    scale: int,
)
    requires
        a@ == b@,
    ensures
        a.final_path(cache, m, ip) == b.final_path(cache, m, ip),
        a.cropped_name(ip) == b.cropped_name(ip),
        a.upscaled_name(scale, ip) == b.upscaled_name(scale, ip),
        a.final_path(cache, m, ip) == final_under(cache, m, a@, ip),
        a.cropped_name(ip) == cropped_name_of(leaf(a@), ip),
        a.upscaled_name(scale, ip) == upscaled_name_of(leaf(a@), scale, ip, true),
{
}

/// Settings that ask for nothing need no cropped file, and add nothing
/// to the name of the final file.
pub proof fn lemma_empty_settings(file: Seq<char>, dir: Seq<char>, m: Monitor, p: PropsView)
    requires
        p.is_empty(),
    ensures
        cropped_name_of(file, Some(p)) is None,
        final_under(dir, m, file, Some(p)) == joined(joined(dir, res_text(m)), file) + png(),
{
    crate::config::lemma_empty_fingerprint(p);
    assert(joined(joined(dir, res_text(m)), file) + Seq::<char>::empty() =~= joined(
        joined(dir, res_text(m)),
        file,
    ));
}

} // verus!
