//! Per-image settings, their fingerprints, and the store that holds them.

use vstd::prelude::*;
use vstd::string::*;
use crate::colour::{colour_text, colour_to_string, Colour};
use crate::text::{
    all_digits, chars_of, has_text, int_text, is_digit, lacks, lemma_int_text_chars,
    lemma_int_text_injective, lemma_nat_text, lemma_split_unique, nat_text, push_char, push_int,
    push_nat, push_str,
};

verus! {

/// The grammar of a percentage: an optional minus sign, digits, and
/// optionally a point followed by more digits.
pub open spec fn is_percent_text(s: Seq<char>) -> bool {
    &&& s.len() > 0
    &&& forall|i: int|
        0 <= i < s.len() ==> {
            ||| is_digit(#[trigger] s[i])
            ||| (s[i] == '-' && i == 0 && s.len() > 1 && is_digit(s[1]))
            ||| (s[i] == '.' && 0 < i < s.len() - 1 && is_digit(s[i - 1]) && is_digit(s[i + 1]))
        }
    &&& forall|i: int, j: int|
        0 <= i < s.len() && 0 <= j < s.len() && #[trigger] s[i] == '.' && #[trigger] s[j] == '.'
            ==> i == j
}

/// A text that denotes zero: no digit other than `0` occurs in it.
pub open spec fn is_zero_text(s: Seq<char>) -> bool {
    forall|i: int| 0 <= i < s.len() && is_digit(#[trigger] s[i]) ==> s[i] == '0'
}

/// A signed percentage, held as the decimal text that denotes it, so that
/// fingerprints repeat the digits exactly.
#[derive(Debug)]
pub struct Percent {
    text: String,
}

impl View for Percent {
    type V = Seq<char>;

    closed spec fn view(&self) -> Seq<char> {
        self.text@
    }
}

impl Percent {
    /// Every percentage made by `new` is well formed.
    pub open spec fn wf(&self) -> bool {
        is_percent_text(self@)
    }

    /// Accepts a text iff it follows the grammar of a percentage.
    #[verifier::loop_isolation(false)]
    pub fn new(text: &str) -> (r: Option<Percent>)
        ensures
            r is Some <==> is_percent_text(text@),
            r matches Some(p) ==> p@ == text@,
    {
        let v = chars_of(text);
        let n = v.len();
        if n == 0 {
            return None;
        }
        let mut dot: Option<usize> = None;
        let mut i: usize = 0;
        while i < n
            invariant
                i <= n,
                forall|k: int|
                    0 <= k < i ==> {
                        ||| is_digit(#[trigger] v@[k])
                        ||| (v@[k] == '-' && k == 0 && n > 1 && is_digit(v@[1]))
                        ||| (v@[k] == '.' && 0 < k < n - 1 && is_digit(v@[k - 1]) && is_digit(
                            v@[k + 1],
                        ))
                    },
                match dot {
                    Some(d) => d < i && v@[d as int] == '.' && forall|k: int|
                        0 <= k < i && #[trigger] v@[k] == '.' ==> k == d,
                    None => forall|k: int| 0 <= k < i ==> #[trigger] v@[k] != '.',
                },
            decreases n - i,
        {
            let c = v[i];
            if is_digit_char(c) {
            } else if c == '-' {
                if !(i == 0 && n > 1 && is_digit_char(v[1])) {
                    assert(!is_digit(v@[i as int]));
                    return None;
                }
            } else if c == '.' {
                if !(0 < i && i < n - 1 && is_digit_char(v[i - 1]) && is_digit_char(v[i + 1])) {
                    assert(!is_digit(v@[i as int]));
                    return None;
                }
                if dot.is_some() {
                    assert(v@[dot.unwrap() as int] == '.' && v@[i as int] == '.');
                    return None;
                }
                dot = Some(i);
            } else {
                assert(!is_digit(v@[i as int]));
                return None;
            }
            i = i + 1;
        }
        Some(Percent { text: String::from_str(text) })
    }

    /// The decimal text of the percentage.
    pub fn as_str(&self) -> (s: &str)
        ensures
            s@ == self@,
    {
        self.text.as_str()
    }

    /// True iff the percentage denotes zero.
    pub fn is_zero(&self) -> (r: bool)
        ensures
            r == is_zero_text(self@),
    {
        let v = chars_of(self.text.as_str());
        let mut i: usize = 0;
        while i < v.len()
            invariant
                i <= v@.len(),
                v@ == self@,
                forall|k: int| 0 <= k < i && is_digit(#[trigger] v@[k]) ==> v@[k] == '0',
            decreases v@.len() - i,
        {
            if is_digit_char(v[i]) && v[i] != '0' {
                assert(is_digit(self@[i as int]) && self@[i as int] != '0');
                return false;
            }
            i = i + 1;
        }
        true
    }
}

impl Clone for Percent {
    fn clone(&self) -> (r: Self)
        ensures
            r@ == self@,
    {
        Percent { text: self.text.clone() }
    }
}

fn is_digit_char(c: char) -> (r: bool)
    ensures
        r == is_digit(c),
{
    c == '0' || c == '1' || c == '2' || c == '3' || c == '4' || c == '5' || c == '6' || c == '7'
        || c == '8' || c == '9'
}

/// The settings of one image, as plain values.
pub struct PropsView {
    pub vertical: Option<Seq<char>>,
    pub horizontal: Option<Seq<char>>,
    pub top: Option<i32>,
    pub bottom: Option<i32>,
    pub left: Option<i32>,
    pub right: Option<i32>,
    pub background: Option<Colour>,
    pub denoise: Option<i32>,
    pub nested: Seq<OverrideView>,
}

/// One override: the reduced aspect ratio it is for, and the settings.
pub struct OverrideView {
    pub x: Seq<char>,
    pub y: Seq<char>,
    pub props: PropsView,
}

/// A number as it is written in a fingerprint: 0 when unset.
pub open spec fn or_zero(v: Option<i32>) -> int {
    match v {
        Some(x) => x as int,
        None => 0,
    }
}

/// A percentage as it is written in a fingerprint: `0` when unset.
pub open spec fn percent_or_zero(v: Option<Seq<char>>) -> Seq<char> {
    match v {
        Some(t) => t,
        None => seq!['0'],
    }
}

/// The four channels of the background in decimal, one after the other
/// with nothing between them; empty when there is no background.
pub open spec fn background_text(c: Option<Colour>) -> Seq<char> {
    match c {
        Some(c) => nat_text(c.r as nat) + nat_text(c.g as nat) + nat_text(c.b as nat) + nat_text(
            c.a as nat,
        ),
        None => Seq::empty(),
    }
}

/// The four insets with a comma after each, and then `rest`.
pub open spec fn insets_then(p: PropsView, rest: Seq<char>) -> Seq<char> {
    int_text(or_zero(p.top)) + seq![','] + (int_text(or_zero(p.bottom)) + seq![','] + (int_text(
        or_zero(p.left),
    ) + seq![','] + (int_text(or_zero(p.right)) + seq![','] + rest)))
}

/// `<denoise>,<vertical>,<horizontal>`
pub open spec fn tail_text(p: PropsView) -> Seq<char> {
    int_text(or_zero(p.denoise)) + seq![','] + (percent_or_zero(p.vertical) + seq![',']
        + percent_or_zero(p.horizontal))
}

impl PropsView {
    /// The same settings without overrides.
    pub open spec fn flat(self) -> PropsView {
        PropsView { nested: Seq::empty(), ..self }
    }

    /// An inset or the background is set.
    pub open spec fn has_crop_pad(self) -> bool {
        self.top is Some || self.bottom is Some || self.left is Some || self.right is Some
            || self.background is Some
    }

    /// A translation or the denoise level is set.
    pub open spec fn has_tail(self) -> bool {
        self.vertical is Some || self.horizontal is Some || self.denoise is Some
    }

    /// `<top>,<bottom>,<left>,<right>,<background>` with unset insets
    /// written as `0`, or nothing at all when none of the five is set.
    pub open spec fn crop_pad_text(self) -> Seq<char> {
        if !self.has_crop_pad() {
            Seq::empty()
        } else {
            insets_then(self, background_text(self.background))
        }
    }

    /// The crop-and-pad text, followed by `-<denoise>,<vertical>,<horizontal>`
    /// when any of these three is set.
    pub open spec fn full_text(self) -> Seq<char> {
        if !self.has_tail() {
            self.crop_pad_text()
        } else {
            self.crop_pad_text() + seq!['-'] + tail_text(self)
        }
    }

    /// No field of these settings is set; overrides are not looked at.
    pub open spec fn unset(self) -> bool {
        !self.has_crop_pad() && !self.has_tail()
    }

    /// Nothing here asks for any transformation: no field is set, and
    /// every override is itself empty.
    pub open spec fn is_empty(self) -> bool
        decreases self,
    {
        self.unset() && forall|i: int|
            0 <= i < self.nested.len() ==> (#[trigger] self.nested[i]).props.is_empty()
    }

    /// The index of the override for the aspect ratio `x:y`, if there is one.
    pub open spec fn has_override(self, x: Seq<char>, y: Seq<char>, i: int) -> bool {
        0 <= i < self.nested.len() && self.nested[i].x == x && self.nested[i].y == y
    }

    /// Percentages follow their grammar and no aspect ratio has two overrides.
    pub open spec fn wf(self) -> bool
        decreases self,
    {
        &&& self.vertical matches Some(t) ==> is_percent_text(t)
        &&& self.horizontal matches Some(t) ==> is_percent_text(t)
        &&& forall|i: int|
            0 <= i < self.nested.len() ==> (#[trigger] self.nested[i]).props.wf()
        &&& forall|i: int, j: int|
            0 <= i < j < self.nested.len() ==> !((#[trigger] self.nested[i]).x == (
            #[trigger] self.nested[j]).x && self.nested[i].y == self.nested[j].y)
    }
}

/// The settings of one image. `None` in a field means that it is unset.
#[derive(Debug)]
pub struct ImageProperties {
    /// Vertical translation of the final image, in percent.
    pub vertical: Option<Percent>,
    /// Horizontal translation of the final image, in percent.
    pub horizontal: Option<Percent>,
    /// Rows to crop off the top; negative values pad.
    pub top: Option<i32>,
    pub bottom: Option<i32>,
    pub left: Option<i32>,
    pub right: Option<i32>,
    /// The colour of the padding; opaque black where unset.
    pub background: Option<Colour>,
    /// The denoise level handed to the upscaler; 1 where unset.
    pub denoise: Option<i32>,
    /// Overrides for displays of one aspect ratio.
    pub nested: Vec<AspectOverride>,
}

/// The settings to use instead on displays whose reduced aspect ratio is `x:y`.
#[derive(Debug)]
pub struct AspectOverride {
    pub x: String,
    pub y: String,
    pub props: ImageProperties,
}

/// The text of an optional percentage.
pub open spec fn percent_view(p: Option<Percent>) -> Option<Seq<char>> {
    match p {
        Some(p) => Some(p@),
        None => None,
    }
}

/// The settings as plain values, overrides included.
pub open spec fn props_view(p: ImageProperties) -> PropsView
    decreases p,
{
    PropsView {
        vertical: percent_view(p.vertical),
        horizontal: percent_view(p.horizontal),
        top: p.top,
        bottom: p.bottom,
        left: p.left,
        right: p.right,
        background: p.background,
        denoise: p.denoise,
        nested: Seq::new(
            p.nested@.len(),
            |i: int|
                if 0 <= i < p.nested@.len() {
                    OverrideView {
                        x: p.nested@[i].x@,
                        y: p.nested@[i].y@,
                        props: props_view(p.nested@[i].props),
                    }
                } else {
                    arbitrary()
                },
        ),
    }
}

impl View for ImageProperties {
    type V = PropsView;

    open spec fn view(&self) -> PropsView {
        props_view(*self)
    }
}

impl View for AspectOverride {
    type V = OverrideView;

    open spec fn view(&self) -> OverrideView {
        OverrideView { x: self.x@, y: self.y@, props: self.props@ }
    }
}

fn clone_percent(p: &Option<Percent>) -> (r: Option<Percent>)
    ensures
        percent_view(r) == percent_view(*p),
{
    match p {
        Some(p) => Some(p.clone()),
        None => None,
    }
}

impl Clone for ImageProperties {
    /// A copy of the settings themselves: the overrides are left behind.
    fn clone(&self) -> (r: Self)
        ensures
            r@ == self@.flat(),
    {
        let r = ImageProperties {
            vertical: clone_percent(&self.vertical),
            horizontal: clone_percent(&self.horizontal),
            top: self.top,
            bottom: self.bottom,
            left: self.left,
            right: self.right,
            background: self.background,
            denoise: self.denoise,
            nested: Vec::new(),
        };
        proof {
            assert(r@.nested =~= Seq::empty());
        }
        r
    }
}

impl Default for ImageProperties {
    /// Settings with every field unset.
    fn default() -> (r: Self)
        ensures
            r@.unset(),
            r@.nested.len() == 0,
            r@.is_empty(),
    {
        ImageProperties {
            vertical: None,
            horizontal: None,
            top: None,
            bottom: None,
            left: None,
            right: None,
            background: None,
            denoise: None,
            nested: Vec::new(),
        }
    }
}

impl ImageProperties {
    /// The part of a fingerprint that tells crops and pads apart.
    pub fn crop_pad_string(&self) -> (s: String)
        ensures
            s@ == self@.crop_pad_text(),
    {
        let mut s = String::new();
        if self.top.is_none() && self.bottom.is_none() && self.left.is_none()
            && self.right.is_none() && self.background.is_none() {
            return s;
        }
        push_int(&mut s, value_or_zero(self.top));
        push_char(&mut s, ',');
        push_int(&mut s, value_or_zero(self.bottom));
        push_char(&mut s, ',');
        push_int(&mut s, value_or_zero(self.left));
        push_char(&mut s, ',');
        push_int(&mut s, value_or_zero(self.right));
        push_char(&mut s, ',');
        match self.background {
            Some(c) => {
                push_nat(&mut s, c.r as u64);
                push_nat(&mut s, c.g as u64);
                push_nat(&mut s, c.b as u64);
                push_nat(&mut s, c.a as u64);
            },
            None => {},
        }
        proof {
            assert(s@ =~= self@.crop_pad_text());
        }
        s
    }

    /// The whole fingerprint of the settings.
    pub fn full_string(&self) -> (s: String)
        ensures
            s@ == self@.full_text(),
    {
        let mut s = self.crop_pad_string();
        if self.vertical.is_none() && self.horizontal.is_none() && self.denoise.is_none() {
            return s;
        }
        push_char(&mut s, '-');
        push_int(&mut s, value_or_zero(self.denoise));
        push_char(&mut s, ',');
        match &self.vertical {
            Some(p) => push_str(&mut s, p.as_str()),
            None => push_char(&mut s, '0'),
        }
        push_char(&mut s, ',');
        match &self.horizontal {
            Some(p) => push_str(&mut s, p.as_str()),
            None => push_char(&mut s, '0'),
        }
        proof {
            assert(s@ =~= self@.full_text());
        }
        s
    }

    /// The overrides of the view are the views of the overrides.
    pub proof fn lemma_nested_view(&self)
        ensures
            self@.nested.len() == self.nested@.len(),
            forall|i: int|
                0 <= i < self.nested@.len() ==> #[trigger] self@.nested[i] == self.nested@[i]@,
    {
    }

    /// True iff no field is set here or in any override.
    pub fn is_empty(&self) -> (r: bool)
        ensures
            r == self@.is_empty(),
        decreases self,
    {
        proof {
            self.lemma_nested_view();
        }
        let mut i: usize = 0;
        while i < self.nested.len()
            invariant
                i <= self.nested@.len(),
                self@.nested.len() == self.nested@.len(),
                forall|i: int|
                    0 <= i < self.nested@.len() ==> #[trigger] self@.nested[i] == self.nested@[i]@,
                forall|j: int| 0 <= j < i ==> (#[trigger] self@.nested[j]).props.is_empty(),
            decreases self.nested@.len() - i,
        {
            if !self.nested[i].props.is_empty() {
                assert(!self@.nested[i as int].props.is_empty());
                return false;
            }
            i = i + 1;
        }
        self.vertical.is_none() && self.horizontal.is_none() && self.top.is_none()
            && self.bottom.is_none() && self.left.is_none() && self.right.is_none()
            && self.background.is_none() && self.denoise.is_none()
    }

    /// Takes every field but the overrides from `other`.
    pub fn copy_from(&mut self, other: &Self)
        ensures
            final(self)@ == (PropsView { nested: old(self)@.nested, ..other@ }),
    {
        self.vertical = clone_percent(&other.vertical);
        self.horizontal = clone_percent(&other.horizontal);
        self.top = other.top;
        self.bottom = other.bottom;
        self.left = other.left;
        self.right = other.right;
        self.background = other.background;
        self.denoise = other.denoise;
        proof {
            assert(self@.nested =~= old(self)@.nested);
        }
    }
}

fn value_or_zero(v: Option<i32>) -> (r: i64)
    ensures
        r as int == or_zero(v),
{
    match v {
        Some(x) => x as i64,
        None => 0,
    }
}

/// Where the program finds and keeps its files, and how it upscales.
#[derive(Debug)]
pub struct Config {
    /// The file in which the shuffler keeps what it has shown.
    pub database: String,
    /// The root of the tree of source images.
    pub originals_directory: String,
    /// The root of the tree of finished artifacts.
    pub cache_directory: String,
    /// Where to make temporary directories; the system's default if unset.
    pub temp_dir: Option<String>,
    /// An upscaler to run in place of the default one.
    pub alternate_upscaler: Option<String>,
    /// How many upscalers may run at once.
    pub upscaling_jobs: usize,
    pub gpu_prefix: String,
}

impl Config {
    /// At least one upscaling job is allowed.
    pub open spec fn wf(&self) -> bool {
        self.upscaling_jobs >= 1
    }

    /// Runtime form of `wf`.
    pub fn is_valid(&self) -> (r: bool)
        ensures
            r == self.wf(),
    {
        self.upscaling_jobs >= 1
    }
}

/// The number of upscaling jobs where the configuration names none.
pub fn one() -> (n: usize)
    ensures
        n == 1,
{
    1
}

/// An empty path in the configuration means that the path is unset.
pub fn empty_path_is_none(s: String) -> (r: Option<String>)
    ensures
        s@.len() == 0 ==> r is None,
        s@.len() != 0 ==> r == Some(s),
{
    if s.as_str().unicode_len() == 0 {
        None
    } else {
        Some(s)
    }
}

/// A zero inset or denoise level in the properties file means that it is unset.
pub fn zero_is_none(i: i32) -> (r: Option<i32>)
    ensures
        r == (if i != 0 {
            Some(i)
        } else {
            None
        }),
{
    if i != 0 {
        Some(i)
    } else {
        None
    }
}

/// The settings of one image in the store, under the image's path.
#[derive(Debug)]
pub struct PropertyEntry {
    pub key: String,
    pub props: ImageProperties,
}

/// The settings of all images, keyed by the path of the image relative to
/// the originals directory, with `/` between its components.
#[derive(Debug)]
pub struct Properties {
    props: Vec<PropertyEntry>,
}

impl View for Properties {
    type V = Map<Seq<char>, PropsView>;

    closed spec fn view(&self) -> Map<Seq<char>, PropsView> {
        Map::new(
            |k: Seq<char>| self.position(k) >= 0,
            |k: Seq<char>| self.props@[self.position(k)].props@,
        )
    }
}

/// The first index at which `key` stands among the entries, or -1.
pub closed spec fn first_key(entries: Seq<PropertyEntry>, key: Seq<char>) -> int
    decreases entries.len(),
{
    if entries.len() == 0 {
        -1
    } else if first_key(entries.drop_last(), key) >= 0 {
        first_key(entries.drop_last(), key)
    } else if entries.last().key@ == key {
        entries.len() - 1
    } else {
        -1
    }
}

proof fn lemma_first_key(entries: Seq<PropertyEntry>, key: Seq<char>)
    ensures
        -1 <= first_key(entries, key) < entries.len(),
        first_key(entries, key) >= 0 ==> entries[first_key(entries, key)].key@ == key,
        forall|i: int|
            0 <= i < entries.len() && (first_key(entries, key) < 0 || i < first_key(entries, key))
                ==> (#[trigger] entries[i]).key@ != key,
    decreases entries.len(),
{
    if entries.len() > 0 {
        lemma_first_key(entries.drop_last(), key);
        assert forall|i: int|
            0 <= i < entries.len() && (first_key(entries, key) < 0 || i < first_key(
                entries,
                key,
            )) implies (#[trigger] entries[i]).key@ != key by {
            if i < entries.len() - 1 {
                assert(entries.drop_last()[i] == entries[i]);
            }
        }
    }
}

proof fn lemma_first_key_is(entries: Seq<PropertyEntry>, key: Seq<char>, k: int)
    requires
        -1 <= k < entries.len(),
        k >= 0 ==> entries[k].key@ == key,
        forall|i: int|
            0 <= i < entries.len() && (k < 0 || i < k) ==> (#[trigger] entries[i]).key@ != key,
    ensures
        first_key(entries, key) == k,
{
    lemma_first_key(entries, key);
}

impl Properties {
    spec fn position(&self, key: Seq<char>) -> int {
        first_key(self.props@, key)
    }

    /// No path has two entries.
    pub closed spec fn wf(&self) -> bool {
        forall|i: int, j: int|
            0 <= i < j < self.props@.len() ==> (#[trigger] self.props@[i]).key@ != (
            #[trigger] self.props@[j]).key@
    }

    /// A store without entries.
    pub fn new() -> (r: Properties)
        ensures
            r.wf(),
            r@ == Map::<Seq<char>, PropsView>::empty(),
    {
        let r = Properties { props: Vec::new() };
        proof {
            assert(r@ =~= Map::<Seq<char>, PropsView>::empty());
        }
        r
    }

    fn find(&self, key: &str) -> (r: Option<usize>)
        ensures
            match r {
                Some(i) => i as int == self.position(key@) && i < self.props@.len(),
                None => self.position(key@) == -1,
            },
    {
        let wanted = String::from_str(key);
        let mut i: usize = 0;
        while i < self.props.len()
            invariant
                i <= self.props@.len(),
                wanted@ == key@,
                forall|j: int| 0 <= j < i ==> (#[trigger] self.props@[j]).key@ != key@,
            decreases self.props@.len() - i,
        {
            if self.props[i].key == wanted {
                proof {
                    lemma_first_key_is(self.props@, key@, i as int);
                }
                return Some(i);
            }
            i = i + 1;
        }
        proof {
            lemma_first_key_is(self.props@, key@, -1);
        }
        None
    }

    /// The settings stored under `key`, overrides included.
    pub fn get(&self, key: &str) -> (r: Option<&ImageProperties>)
        ensures
            r is Some <==> self@.contains_key(key@),
            r matches Some(p) ==> p@ == self@[key@],
    {
        match self.find(key) {
            Some(i) => Some(&self.props[i].props),
            None => None,
        }
    }

    /// Whether there are settings under `key`.
    pub fn contains_key(&self, key: &str) -> (r: bool)
        ensures
            r == self@.contains_key(key@),
    {
        self.find(key).is_some()
    }

    /// Stores `props` under `key`, in place of what was there.
    pub fn insert(&mut self, key: &str, props: ImageProperties)
        requires
            old(self).wf(),
        ensures
            final(self).wf(),
            final(self)@ == old(self)@.insert(key@, props@),
    {
        let found = self.find(key);
        match found {
            Some(i) => {
                let entry = PropertyEntry { key: String::from_str(key), props };
                self.props.set(i, entry);
                proof {
                    let before = old(self).props@;
                    let after = self.props@;
                    let target = old(self)@.insert(key@, props@);
                    lemma_first_key(before, key@);
                    assert forall|j: int| 0 <= j < after.len() implies (#[trigger] after[j]).key@
                        == before[j].key@ by {}
                    assert forall|k: Seq<char>| first_key(after, k) == first_key(before, k) by {
                        lemma_first_key(before, k);
                        lemma_first_key_is(after, k, first_key(before, k));
                    }
                    assert forall|k: Seq<char>| #[trigger]
                        self@.contains_key(k) == target.contains_key(k) && (self@.contains_key(k)
                            ==> self@[k] == target[k]) by {
                        lemma_first_key(before, k);
                    }
                    assert(self@ =~= target);
                }
            },
            None => {
                let entry = PropertyEntry { key: String::from_str(key), props };
                self.props.push(entry);
                proof {
                    let before = old(self).props@;
                    let after = self.props@;
                    let target = old(self)@.insert(key@, props@);
                    assert(after.drop_last() =~= before);
                    lemma_first_key(before, key@);
                    assert forall|k: Seq<char>| #[trigger]
                        self@.contains_key(k) == target.contains_key(k) && (self@.contains_key(k)
                            ==> self@[k] == target[k]) by {
                        lemma_first_key(before, k);
                        lemma_first_key(after, k);
                        if first_key(before, k) >= 0 {
                            assert(after[first_key(before, k)] == before[first_key(before, k)]);
                        }
                    }
                    assert(self@ =~= target);
                    assert forall|a: int, b: int| 0 <= a < b < after.len() implies (
                    #[trigger] after[a]).key@ != (#[trigger] after[b]).key@ by {
                        assert(after[a] == before[a]);
                        if b < before.len() {
                            assert(after[b] == before[b]);
                        }
                    }
                }
            },
        }
    }

    /// Takes the settings under `key` out of the store.
    pub fn remove(&mut self, key: &str) -> (r: Option<ImageProperties>)
        requires
            old(self).wf(),
        ensures
            final(self).wf(),
            final(self)@ == old(self)@.remove(key@),
            r is Some <==> old(self)@.contains_key(key@),
            r matches Some(p) ==> p@ == old(self)@[key@],
    {
        let found = self.find(key);
        match found {
            Some(i) => {
                let entry = self.props.remove(i);
                proof {
                    let before = old(self).props@;
                    let after = self.props@;
                    let target = old(self)@.remove(key@);
                    assert(after =~= before.remove(i as int));
                    lemma_first_key(before, key@);
                    assert forall|j: int| 0 <= j < after.len() implies #[trigger] after[j] == (
                    if j < i {
                        before[j]
                    } else {
                        before[j + 1]
                    }) by {}
                    assert forall|a: int, b: int| 0 <= a < b < after.len() implies (
                    #[trigger] after[a]).key@ != (#[trigger] after[b]).key@ by {
                        let a0 = if a < i { a } else { a + 1 };
                        let b0 = if b < i { b } else { b + 1 };
                        assert(before[a0].key@ != before[b0].key@);
                    }
                    assert forall|k: Seq<char>| #[trigger]
                        self@.contains_key(k) == target.contains_key(k) && (self@.contains_key(k)
                            ==> self@[k] == target[k]) by {
                        lemma_first_key(before, k);
                        lemma_first_key(after, k);
                        let fb = first_key(before, k);
                        let fa = first_key(after, k);
                        if k == key@ {
                            if fa >= 0 {
                                let a0 = if fa < i { fa } else { fa + 1 };
                                assert(before[a0].key@ == key@);
                                if a0 < i {
                                    assert(before[a0].key@ != before[i as int].key@);
                                } else {
                                    assert(before[i as int].key@ != before[a0].key@);
                                }
                            }
                        } else {
                            if fb >= 0 {
                                let want = if fb > i { fb - 1 } else { fb };
                                assert(after[want] == before[fb]);
                                assert(fa >= 0);
                                let a0 = if fa < i { fa } else { fa + 1 };
                                assert(before[a0].key@ == k);
                                if a0 < fb {
                                    assert(before[a0].key@ != before[fb].key@);
                                } else if fb < a0 {
                                    assert(before[fb].key@ != before[a0].key@);
                                }
                            } else {
                                if fa >= 0 {
                                    let a0 = if fa < i { fa } else { fa + 1 };
                                    assert(before[a0].key@ == k);
                                }
                            }
                        }
                    }
                    assert(self@ =~= target);
                }
                Some(entry.props)
            },
            None => {
                proof {
                    assert(self@ =~= old(self)@.remove(key@));
                }
                None
            },
        }
    }

    /// The paths that have settings, in no particular order.
    pub fn keys(&self) -> (r: Vec<String>)
        ensures
            forall|k: Seq<char>| has_text(r@, k) <==> self@.contains_key(k),
    {
        let mut r: Vec<String> = Vec::new();
        let mut i: usize = 0;
        while i < self.props.len()
            invariant
                i <= self.props@.len(),
                r@.len() == i,
                forall|j: int| 0 <= j < i ==> (#[trigger] r@[j])@ == self.props@[j].key@,
            decreases self.props@.len() - i,
        {
            r.push(self.props[i].key.clone());
            i = i + 1;
        }
        proof {
            assert forall|k: Seq<char>| has_text(r@, k) <==> self@.contains_key(k) by {
                lemma_first_key(self.props@, k);
                if has_text(r@, k) {
                    let j = choose|j: int| 0 <= j < r@.len() && (#[trigger] r@[j])@ == k;
                    assert(self.props@[j].key@ == k);
                }
                if self@.contains_key(k) {
                    assert(r@[first_key(self.props@, k)]@ == k);
                }
            }
        }
        r
    }

    /// The paths whose settings are worth writing down: those that are
    /// not empty.
    pub fn skip_empties(&self) -> (r: Vec<String>)
        requires
            self.wf(),
        ensures
            forall|k: Seq<char>|
                has_text(r@, k) <==> self@.contains_key(k) && !self@[k].is_empty(),
    {
        let mut r: Vec<String> = Vec::new();
        let mut i: usize = 0;
        while i < self.props.len()
            invariant
                i <= self.props@.len(),
                forall|k: Seq<char>|
                    has_text(r@, k) <==> exists|j: int|
                        0 <= j < i && (#[trigger] self.props@[j]).key@ == k
                            && !self.props@[j].props@.is_empty(),
            decreases self.props@.len() - i,
        {
            let ghost before = r@;
            if !self.props[i].props.is_empty() {
                r.push(self.props[i].key.clone());
                proof {
                    assert forall|k: Seq<char>|
                        has_text(r@, k) <==> exists|j: int|
                            0 <= j < i + 1 && (#[trigger] self.props@[j]).key@ == k
                                && !self.props@[j].props@.is_empty() by {
                        if has_text(r@, k) {
                            let w = choose|w: int| 0 <= w < r@.len() && (#[trigger] r@[w])@ == k;
                            if w < before.len() {
                                assert(before[w] == r@[w]);
                                assert(has_text(before, k));
                                let j = choose|j: int|
                                    0 <= j < i && (#[trigger] self.props@[j]).key@ == k
                                        && !self.props@[j].props@.is_empty();
                                assert(0 <= j < i + 1);
                            } else {
                                assert(self.props@[i as int].key@ == k);
                            }
                        }
                        if exists|j: int|
                            0 <= j < i + 1 && (#[trigger] self.props@[j]).key@ == k
                                && !self.props@[j].props@.is_empty() {
                            let j = choose|j: int|
                                0 <= j < i + 1 && (#[trigger] self.props@[j]).key@ == k
                                    && !self.props@[j].props@.is_empty();
                            if j < i {
                                assert(has_text(before, k));
                                let w = choose|w: int|
                                    0 <= w < before.len() && (#[trigger] before[w])@ == k;
                                assert(r@[w] == before[w]);
                            } else {
                                assert(r@[before.len() as int]@ == k);
                            }
                        }
                    }
                }
            } else {
                proof {
                    assert forall|k: Seq<char>|
                        has_text(r@, k) <==> exists|j: int|
                            0 <= j < i + 1 && (#[trigger] self.props@[j]).key@ == k
                                && !self.props@[j].props@.is_empty() by {
                        if has_text(r@, k) {
                            let j = choose|j: int|
                                0 <= j < i && (#[trigger] self.props@[j]).key@ == k
                                    && !self.props@[j].props@.is_empty();
                            assert(0 <= j < i + 1);
                        }
                    }
                }
            }
            i = i + 1;
        }
        proof {
            assert forall|k: Seq<char>|
                has_text(r@, k) <==> self@.contains_key(k) && !self@[k].is_empty() by {
                lemma_first_key(self.props@, k);
                let f = first_key(self.props@, k);
                if has_text(r@, k) {
                    let j = choose|j: int|
                        0 <= j < self.props@.len() && (#[trigger] self.props@[j]).key@ == k
                            && !self.props@[j].props@.is_empty();
                    if f < j {
                        assert(self.props@[f].key@ != self.props@[j].key@);
                    }
                }
                if self@.contains_key(k) && !self@[k].is_empty() {
                    assert(self.props@[f].key@ == k);
                }
            }
        }
        r
    }

    /// The number of images that have settings.
    pub fn len(&self) -> (n: usize)
        ensures
            self.wf() ==> n == self@.dom().len(),
            n == 0 <==> self@ == Map::<Seq<char>, PropsView>::empty(),
    {
        proof {
            self.lemma_size();
        }
        self.props.len()
    }

    proof fn lemma_size(&self)
        ensures
            self.wf() ==> self.props@.len() == self@.dom().len(),
            self@.dom().finite(),
            self.props@.len() == 0 <==> self@ == Map::<Seq<char>, PropsView>::empty(),
    {
        let keys = self.props@.map_values(|e: PropertyEntry| e.key@);
        assert(keys.to_set() =~= self@.dom()) by {
            assert forall|k: Seq<char>| keys.to_set().contains(k) <==> self@.dom().contains(
                k,
            ) by {
                lemma_first_key(self.props@, k);
                if keys.to_set().contains(k) {
                    let i = choose|i: int| 0 <= i < keys.len() && keys[i] == k;
                    assert(self.props@[i].key@ == k);
                }
                if self@.dom().contains(k) {
                    assert(keys[first_key(self.props@, k)] == k);
                }
            }
        }
        vstd::seq_lib::seq_to_set_is_finite(keys);
        if self.wf() {
            assert(keys.no_duplicates()) by {
                assert forall|i: int, j: int|
                    0 <= i < keys.len() && 0 <= j < keys.len() && i != j implies keys[i]
                    != keys[j] by {
                    if i < j {
                        assert(self.props@[i].key@ != self.props@[j].key@);
                    } else {
                        assert(self.props@[j].key@ != self.props@[i].key@);
                    }
                }
            }
            keys.unique_seq_to_set();
        }
        if self.props@.len() == 0 {
            assert(self@ =~= Map::<Seq<char>, PropsView>::empty());
        } else {
            lemma_first_key(self.props@, self.props@[0].key@);
            assert(self@.contains_key(self.props@[0].key@));
        }
    }
}

/// What follows the insets in a fingerprint.
pub open spec fn after_insets(p: PropsView) -> Seq<char> {
    if p.has_tail() {
        background_text(p.background) + seq!['-'] + tail_text(p)
    } else {
        background_text(p.background)
    }
}

/// The fingerprint, part by part.
pub proof fn lemma_full_text_shape(p: PropsView)
    ensures
        p.full_text() == (if p.has_crop_pad() {
            insets_then(p, after_insets(p))
        } else if p.has_tail() {
            Seq::<char>::empty() + seq!['-'] + tail_text(p)
        } else {
            Seq::<char>::empty()
        }),
{
    if p.has_crop_pad() && p.has_tail() {
        let more = seq!['-'] + tail_text(p);
        let g = background_text(p.background);
        lemma_insets_then_more(p, g, more);
        assert(g + more =~= g + seq!['-'] + tail_text(p));
        assert(insets_then(p, g) + more =~= insets_then(p, g) + seq!['-'] + tail_text(p));
    }
}

/// What is appended to a text that begins with the insets is appended to
/// what follows them.
proof fn lemma_insets_then_more(p: PropsView, rest: Seq<char>, more: Seq<char>)
    ensures
        insets_then(p, rest) + more == insets_then(p, rest + more),
{
    let c = seq![','];
    let t = int_text(or_zero(p.top));
    let b = int_text(or_zero(p.bottom));
    let l = int_text(or_zero(p.left));
    let r = int_text(or_zero(p.right));
    let r3 = r + c + rest;
    let r2 = l + c + r3;
    let r1 = b + c + r2;
    assert(r3 + more =~= r + c + (rest + more));
    assert(r2 + more =~= l + c + (r3 + more));
    assert(r1 + more =~= b + c + (r2 + more));
    assert((t + c + r1) + more =~= t + c + (r1 + more));
}

/// The background of a fingerprint holds digits only.
pub proof fn lemma_background_text(c: Option<Colour>)
    ensures
        all_digits(background_text(c)),
        c is Some ==> background_text(c).len() >= 4,
{
    match c {
        Some(c) => {
            lemma_nat_text(c.r as nat);
            lemma_nat_text(c.g as nat);
            lemma_nat_text(c.b as nat);
            lemma_nat_text(c.a as nat);
            let r = nat_text(c.r as nat);
            let g = nat_text(c.g as nat);
            let b = nat_text(c.b as nat);
            let a = nat_text(c.a as nat);
            let t = background_text(Some(c));
            assert forall|i: int| 0 <= i < t.len() implies is_digit(#[trigger] t[i]) by {
                if i < r.len() {
                    assert(t[i] == r[i]);
                } else if i < r.len() + g.len() {
                    assert(t[i] == g[i - r.len()]);
                } else if i < r.len() + g.len() + b.len() {
                    assert(t[i] == b[i - r.len() - g.len()]);
                } else {
                    assert(t[i] == a[i - r.len() - g.len() - b.len()]);
                }
            }
        },
        None => {},
    }
}

/// A percentage, as it is written in a fingerprint, holds no comma.
pub proof fn lemma_percent_text(v: Option<Seq<char>>)
    requires
        v matches Some(t) ==> is_percent_text(t),
    ensures
        lacks(percent_or_zero(v), ','),
        percent_or_zero(v).len() >= 1,
{
}

/// Settings that ask for nothing have an empty fingerprint, and only they.
pub proof fn lemma_empty_fingerprint(p: PropsView)
    ensures
        p.unset() <==> p.full_text().len() == 0,
        !p.has_crop_pad() <==> p.crop_pad_text().len() == 0,
        p.is_empty() ==> p.crop_pad_text() == Seq::<char>::empty() && p.full_text() == Seq::<
            char,
        >::empty(),
{
    lemma_int_text_chars(or_zero(p.top));
    lemma_int_text_chars(or_zero(p.denoise));
}

/// A fingerprint tells apart whatever it encodes: two settings with the
/// same fingerprint agree on which parts they have, on every inset and on
/// the denoise level (an unset one counting as 0), on both percentages as
/// they are written, and on the digits of the background.
pub proof fn lemma_full_text_injective(a: PropsView, b: PropsView)
    requires
        a.wf(),
        b.wf(),
        a.full_text() == b.full_text(),
    ensures
        a.has_crop_pad() == b.has_crop_pad(),
        a.has_tail() == b.has_tail(),
        or_zero(a.top) == or_zero(b.top),
        or_zero(a.bottom) == or_zero(b.bottom),
        or_zero(a.left) == or_zero(b.left),
        or_zero(a.right) == or_zero(b.right),
        background_text(a.background) == background_text(b.background),
        or_zero(a.denoise) == or_zero(b.denoise),
        percent_or_zero(a.vertical) == percent_or_zero(b.vertical),
        percent_or_zero(a.horizontal) == percent_or_zero(b.horizontal),
{
    lemma_full_text_shape(a);
    lemma_full_text_shape(b);
    lemma_facts(a);
    lemma_facts(b);
    if a.has_crop_pad() {
        lemma_insets_show(a, b);
    }
    if b.has_crop_pad() {
        lemma_insets_show(b, a);
    }
    if a.has_crop_pad() && b.has_crop_pad() {
        lemma_same_insets(a, b, after_insets(a), after_insets(b));
        lemma_same_rest(a, b);
    } else if a.has_tail() && b.has_tail() {
        let ta = Seq::<char>::empty() + seq!['-'] + tail_text(a);
        let tb = Seq::<char>::empty() + seq!['-'] + tail_text(b);
        assert(tail_text(a) =~= ta.skip(1));
        assert(tail_text(b) =~= tb.skip(1));
        lemma_same_tail(a, b);
    } else if a.has_tail() {
        assert((Seq::<char>::empty() + seq!['-'] + tail_text(a)).len() > 0);
    } else if b.has_tail() {
        assert((Seq::<char>::empty() + seq!['-'] + tail_text(b)).len() > 0);
    }
}

proof fn lemma_facts(p: PropsView)
    requires
        p.wf(),
    ensures
        lacks(int_text(or_zero(p.top)), ','),
        lacks(int_text(or_zero(p.bottom)), ','),
        lacks(int_text(or_zero(p.left)), ','),
        lacks(int_text(or_zero(p.right)), ','),
        lacks(int_text(or_zero(p.denoise)), ','),
        lacks(percent_or_zero(p.vertical), ','),
        lacks(percent_or_zero(p.horizontal), ','),
        all_digits(background_text(p.background)),
        lacks(background_text(p.background), '-'),
        lacks(background_text(p.background), ','),
{
    lemma_int_text_chars(or_zero(p.top));
    lemma_int_text_chars(or_zero(p.bottom));
    lemma_int_text_chars(or_zero(p.left));
    lemma_int_text_chars(or_zero(p.right));
    lemma_int_text_chars(or_zero(p.denoise));
    lemma_percent_text(p.vertical);
    lemma_percent_text(p.horizontal);
    lemma_background_text(p.background);
}

proof fn lemma_same_insets(a: PropsView, b: PropsView, ra: Seq<char>, rb: Seq<char>)
    requires
        insets_then(a, ra) == insets_then(b, rb),
    ensures
        or_zero(a.top) == or_zero(b.top),
        or_zero(a.bottom) == or_zero(b.bottom),
        or_zero(a.left) == or_zero(b.left),
        or_zero(a.right) == or_zero(b.right),
        ra == rb,
{
    lemma_int_text_chars(or_zero(a.top));
    lemma_int_text_chars(or_zero(a.bottom));
    lemma_int_text_chars(or_zero(a.left));
    lemma_int_text_chars(or_zero(a.right));
    lemma_int_text_chars(or_zero(b.top));
    lemma_int_text_chars(or_zero(b.bottom));
    lemma_int_text_chars(or_zero(b.left));
    lemma_int_text_chars(or_zero(b.right));
    let a3 = int_text(or_zero(a.right)) + seq![','] + ra;
    let b3 = int_text(or_zero(b.right)) + seq![','] + rb;
    let a2 = int_text(or_zero(a.left)) + seq![','] + a3;
    let b2 = int_text(or_zero(b.left)) + seq![','] + b3;
    let a1 = int_text(or_zero(a.bottom)) + seq![','] + a2;
    let b1 = int_text(or_zero(b.bottom)) + seq![','] + b2;
    lemma_split_unique(int_text(or_zero(a.top)), a1, int_text(or_zero(b.top)), b1, ',');
    lemma_split_unique(int_text(or_zero(a.bottom)), a2, int_text(or_zero(b.bottom)), b2, ',');
    lemma_split_unique(int_text(or_zero(a.left)), a3, int_text(or_zero(b.left)), b3, ',');
    lemma_split_unique(int_text(or_zero(a.right)), ra, int_text(or_zero(b.right)), rb, ',');
    lemma_int_text_injective(or_zero(a.top), or_zero(b.top));
    lemma_int_text_injective(or_zero(a.bottom), or_zero(b.bottom));
    lemma_int_text_injective(or_zero(a.left), or_zero(b.left));
    lemma_int_text_injective(or_zero(a.right), or_zero(b.right));
}

proof fn lemma_same_tail(a: PropsView, b: PropsView)
    requires
        a.wf(),
        b.wf(),
        tail_text(a) == tail_text(b),
    ensures
        or_zero(a.denoise) == or_zero(b.denoise),
        percent_or_zero(a.vertical) == percent_or_zero(b.vertical),
        percent_or_zero(a.horizontal) == percent_or_zero(b.horizontal),
{
    lemma_facts(a);
    lemma_facts(b);
    let a1 = percent_or_zero(a.vertical) + seq![','] + percent_or_zero(a.horizontal);
    let b1 = percent_or_zero(b.vertical) + seq![','] + percent_or_zero(b.horizontal);
    lemma_split_unique(int_text(or_zero(a.denoise)), a1, int_text(or_zero(b.denoise)), b1, ',');
    lemma_split_unique(
        percent_or_zero(a.vertical),
        percent_or_zero(a.horizontal),
        percent_or_zero(b.vertical),
        percent_or_zero(b.horizontal),
        ',',
    );
    lemma_int_text_injective(or_zero(a.denoise), or_zero(b.denoise));
}

proof fn lemma_same_rest(a: PropsView, b: PropsView)
    requires
        a.wf(),
        b.wf(),
        after_insets(a) == after_insets(b),
    ensures
        a.has_tail() == b.has_tail(),
        background_text(a.background) == background_text(b.background),
        or_zero(a.denoise) == or_zero(b.denoise),
        percent_or_zero(a.vertical) == percent_or_zero(b.vertical),
        percent_or_zero(a.horizontal) == percent_or_zero(b.horizontal),
{
    lemma_facts(a);
    lemma_facts(b);
    let ga = background_text(a.background);
    let gb = background_text(b.background);
    if a.has_tail() && b.has_tail() {
        lemma_split_unique(ga, tail_text(a), gb, tail_text(b), '-');
        lemma_same_tail(a, b);
    } else if a.has_tail() {
        assert(after_insets(a)[ga.len() as int] == '-');
        assert(is_digit(gb[ga.len() as int]));
    } else if b.has_tail() {
        assert(after_insets(b)[gb.len() as int] == '-');
        assert(is_digit(ga[gb.len() as int]));
    }
}

/// A fingerprint with insets is never a fingerprint without them.
proof fn lemma_insets_show(a: PropsView, b: PropsView)
    requires
        a.wf(),
        b.wf(),
        a.has_crop_pad(),
        a.full_text() == b.full_text(),
    ensures
        b.has_crop_pad(),
{
    lemma_full_text_shape(a);
    lemma_full_text_shape(b);
    lemma_facts(a);
    lemma_facts(b);
    lemma_int_text_chars(or_zero(a.top));
    let whole = insets_then(a, after_insets(a));
    assert(whole.len() > 0);
    if !b.has_crop_pad() && b.has_tail() {
        let a3 = int_text(or_zero(a.right)) + seq![','] + after_insets(a);
        let a2 = int_text(or_zero(a.left)) + seq![','] + a3;
        let a1 = int_text(or_zero(a.bottom)) + seq![','] + a2;
        let head = seq!['-'] + int_text(or_zero(b.denoise));
        let b1 = percent_or_zero(b.vertical) + seq![','] + percent_or_zero(b.horizontal);
        assert(Seq::<char>::empty() + seq!['-'] + tail_text(b) =~= head + seq![','] + b1);
        assert forall|i: int| 0 <= i < head.len() implies #[trigger] head[i] != ',' by {
            if i > 0 {
                assert(head[i] == int_text(or_zero(b.denoise))[i - 1]);
            }
        }
        lemma_split_unique(int_text(or_zero(a.top)), a1, head, b1, ',');
        lemma_split_unique(
            int_text(or_zero(a.bottom)),
            a2,
            percent_or_zero(b.vertical),
            percent_or_zero(b.horizontal),
            ',',
        );
        assert(a2[int_text(or_zero(a.left)).len() as int] == ',');
    }
}

/// `<name> = <value>` and a line break.
pub open spec fn line_text(name: Seq<char>, value: Seq<char>) -> Seq<char> {
    name + seq![' ', '=', ' '] + value + seq!['\n']
}

/// The line of a percentage, if it is set.
pub open spec fn percent_line(name: Seq<char>, v: Option<Seq<char>>) -> Seq<char> {
    match v {
        Some(t) => line_text(name, t),
        None => Seq::empty(),
    }
}

/// The line of a number, if it is set.
pub open spec fn number_line(name: Seq<char>, v: Option<i32>) -> Seq<char> {
    match v {
        Some(n) => line_text(name, int_text(n as int)),
        None => Seq::empty(),
    }
}

/// The settings as they are shown to the user: one line for each field
/// that is set, the background last. Overrides are not shown.
pub open spec fn described(p: PropsView) -> Seq<char> {
    percent_line("vertical"@, p.vertical) + percent_line("horizontal"@, p.horizontal)
        + number_line("top"@, p.top) + number_line("bottom"@, p.bottom) + number_line(
        "left"@,
        p.left,
    ) + number_line("right"@, p.right) + number_line("denoise"@, p.denoise) + (match p.background {
        Some(c) => line_text("background"@, colour_text(c)),
        None => Seq::empty(),
    })
}

fn push_line(out: &mut String, name: &str, value: &str)
    ensures
        final(out)@ == old(out)@ + line_text(name@, value@),
{
    push_str(out, name);
    push_char(out, ' ');
    push_char(out, '=');
    push_char(out, ' ');
    push_str(out, value);
    push_char(out, '\n');
    proof {
        assert(out@ =~= old(out)@ + line_text(name@, value@));
    }
}

fn push_number_line(out: &mut String, name: &str, v: Option<i32>)
    ensures
        final(out)@ == old(out)@ + number_line(name@, v),
{
    match v {
        Some(n) => {
            let mut text = String::new();
            push_int(&mut text, n as i64);
            proof {
                assert(text@ =~= int_text(n as int));
            }
            push_line(out, name, text.as_str());
        },
        None => {
            proof {
                assert(out@ =~= out@ + Seq::<char>::empty());
            }
        },
    }
}

fn push_percent_line(out: &mut String, name: &str, v: &Option<Percent>)
    ensures
        final(out)@ == old(out)@ + percent_line(name@, percent_view(*v)),
{
    match v {
        Some(p) => {
            push_line(out, name, p.as_str());
        },
        None => {
            proof {
                assert(out@ =~= out@ + Seq::<char>::empty());
            }
        },
    }
}

/// The index of the first override for the aspect ratio `x:y`, or -1.
pub open spec fn override_index(nested: Seq<OverrideView>, x: Seq<char>, y: Seq<char>) -> int
    decreases nested.len(),
{
    if nested.len() == 0 {
        -1
    } else if override_index(nested.drop_last(), x, y) >= 0 {
        override_index(nested.drop_last(), x, y)
    } else if nested.last().x == x && nested.last().y == y {
        nested.len() - 1
    } else {
        -1
    }
}

/// Whether the overrides for the width `x` are worth writing down: one
/// of them is not empty.
pub open spec fn width_has_settings(nested: Seq<OverrideView>, x: Seq<char>) -> bool {
    exists|j: int| 0 <= j < nested.len() && (#[trigger] nested[j]).x == x && !nested[j].props.is_empty()
}

/// The indices of the overrides among the first `n` that are written
/// down: those for a width that has settings.
pub open spec fn written_overrides(nested: Seq<OverrideView>, n: int) -> Seq<usize>
    decreases n,
{
    if n <= 0 {
        Seq::empty()
    } else if width_has_settings(nested, nested[n - 1].x) {
        written_overrides(nested, n - 1).push((n - 1) as usize)
    } else {
        written_overrides(nested, n - 1)
    }
}

impl ImageProperties {
    /// The settings as text, a line for each field that is set.
    pub fn describe(&self) -> (s: String)
        ensures
            s@ == described(self@),
    {
        let mut s = String::new();
        push_percent_line(&mut s, "vertical", &self.vertical);
        push_percent_line(&mut s, "horizontal", &self.horizontal);
        push_number_line(&mut s, "top", self.top);
        push_number_line(&mut s, "bottom", self.bottom);
        push_number_line(&mut s, "left", self.left);
        push_number_line(&mut s, "right", self.right);
        push_number_line(&mut s, "denoise", self.denoise);
        match self.background {
            Some(c) => {
                let text = colour_to_string(c);
                push_line(&mut s, "background", text.as_str());
            },
            None => {},
        }
        proof {
            assert(s@ =~= described(self@));
        }
        s
    }

    /// The overrides to write down, by their indices: an override is left
    /// out if every override for its width is empty.
    pub fn skip_nested_empties(&self) -> (r: Vec<usize>)
        ensures
            r@ == written_overrides(self@.nested, self@.nested.len() as int),
    {
        proof {
            self.lemma_nested_view();
        }
        let n = self.nested.len();
        let mut r: Vec<usize> = Vec::new();
        let mut i: usize = 0;
        while i < n
            invariant
                i <= n,
                n == self.nested@.len(),
                self@.nested.len() == self.nested@.len(),
                forall|k: int|
                    0 <= k < self.nested@.len() ==> #[trigger] self@.nested[k] == self.nested@[k]@,
                r@ == written_overrides(self@.nested, i as int),
            decreases n - i,
        {
            let mut found = false;
            let mut j: usize = 0;
            while j < n
                invariant
                    j <= n,
                    i < n,
                    n == self.nested@.len(),
                    self@.nested.len() == self.nested@.len(),
                    forall|k: int|
                        0 <= k < self.nested@.len() ==> #[trigger] self@.nested[k]
                            == self.nested@[k]@,
                    found == exists|k: int|
                        0 <= k < j && (#[trigger] self@.nested[k]).x == self@.nested[i as int].x
                            && !self@.nested[k].props.is_empty(),
                decreases n - j,
            {
                if self.nested[j].x == self.nested[i].x && !self.nested[j].props.is_empty() {
                    assert(self@.nested[j as int].x == self@.nested[i as int].x
                        && !self@.nested[j as int].props.is_empty());
                    found = true;
                }
                j = j + 1;
            }
            if found {
                r.push(i);
            }
            i = i + 1;
        }
        r
    }
}

/// The settings `new` with the overrides of `base`.
pub open spec fn with_settings(base: PropsView, new: PropsView) -> PropsView {
    PropsView { nested: base.nested, ..new }
}

/// Settings in which no field is set and which hold no override.
pub open spec fn no_settings() -> PropsView {
    PropsView {
        vertical: None,
        horizontal: None,
        top: None,
        bottom: None,
        left: None,
        right: None,
        background: None,
        denoise: None,
        nested: Seq::empty(),
    }
}

/// The settings of an image after `new` was stored: as its own settings
/// where no aspect ratio is given, and else as the override for that
/// ratio, which is added if there was none. Overrides are never replaced
/// as a whole: the ones that an override holds itself stay.
pub open spec fn updated(base: PropsView, at: Option<(Seq<char>, Seq<char>)>, new: PropsView) -> PropsView {
    match at {
        None => with_settings(base, new),
        Some(at) => {
            let i = override_index(base.nested, at.0, at.1);
            if i >= 0 {
                PropsView {
                    nested: base.nested.update(
                        i,
                        OverrideView {
                            x: at.0,
                            y: at.1,
                            props: with_settings(base.nested[i].props, new),
                        },
                    ),
                    ..base
                }
            } else {
                PropsView {
                    nested: base.nested.push(OverrideView { x: at.0, y: at.1, props: new.flat() }),
                    ..base
                }
            }
        },
    }
}

/// An aspect ratio as the keys of overrides write it.
pub open spec fn ratio_texts(res: Option<(u32, u32)>) -> Option<(Seq<char>, Seq<char>)> {
    match res {
        Some(r) => Some((nat_text(r.0 as nat), nat_text(r.1 as nat))),
        None => None,
    }
}

/// The index of an override is that of the first one for the aspect ratio.
pub proof fn lemma_override_index(nested: Seq<OverrideView>, x: Seq<char>, y: Seq<char>)
    ensures
        -1 <= override_index(nested, x, y) < nested.len(),
        override_index(nested, x, y) >= 0 ==> nested[override_index(nested, x, y)].x == x
            && nested[override_index(nested, x, y)].y == y,
        forall|i: int|
            0 <= i < nested.len() && (override_index(nested, x, y) < 0 || i < override_index(
                nested,
                x,
                y,
            )) ==> !((#[trigger] nested[i]).x == x && nested[i].y == y),
    decreases nested.len(),
{
    if nested.len() > 0 {
        lemma_override_index(nested.drop_last(), x, y);
        assert forall|i: int|
            0 <= i < nested.len() && (override_index(nested, x, y) < 0 || i < override_index(
                nested,
                x,
                y,
            )) implies !((#[trigger] nested[i]).x == x && nested[i].y == y) by {
            if i < nested.len() - 1 {
                assert(nested.drop_last()[i] == nested[i]);
            }
        }
    }
}

proof fn lemma_override_index_is(nested: Seq<OverrideView>, x: Seq<char>, y: Seq<char>, k: int)
    requires
        -1 <= k < nested.len(),
        k >= 0 ==> nested[k].x == x && nested[k].y == y,
        forall|i: int|
            0 <= i < nested.len() && (k < 0 || i < k) ==> !((#[trigger] nested[i]).x == x
                && nested[i].y == y),
    ensures
        override_index(nested, x, y) == k,
{
    lemma_override_index(nested, x, y);
}

impl ImageProperties {
    /// Stores `new` as the override for the aspect ratio `x:y`.
    pub fn set_override(&mut self, x: String, y: String, new: &ImageProperties)
        ensures
            final(self)@ == updated(old(self)@, Some((x@, y@)), new@),
    {
        proof {
            self.lemma_nested_view();
        }
        let n = self.nested.len();
        let mut found: Option<usize> = None;
        let mut i: usize = 0;
        while i < n && found.is_none()
            invariant
                i <= n,
                n == self.nested@.len(),
                *self == *old(self),
                self@.nested.len() == self.nested@.len(),
                forall|k: int|
                    0 <= k < self.nested@.len() ==> #[trigger] self@.nested[k] == self.nested@[k]@,
                match found {
                    Some(f) => f < n && self@.nested[f as int].x == x@ && self@.nested[f as int].y
                        == y@ && forall|k: int|
                        0 <= k < f ==> !((#[trigger] self@.nested[k]).x == x@ && self@.nested[k].y
                            == y@),
                    None => forall|k: int|
                        0 <= k < i ==> !((#[trigger] self@.nested[k]).x == x@ && self@.nested[k].y
                            == y@),
                },
            decreases n - i + (if found is None { 1int } else { 0int }),
        {
            if self.nested[i].x == x && self.nested[i].y == y {
                found = Some(i);
            } else {
                i = i + 1;
            }
        }
        let ghost before = self@;
        match found {
            Some(f) => {
                proof {
                    lemma_override_index_is(before.nested, x@, y@, f as int);
                }
                let mut e = self.nested.remove(f);
                let ghost inner = e.props@;
                e.props.copy_from(new);
                e.x = x;
                e.y = y;
                self.nested.insert(f, e);
                proof {
                    self.lemma_nested_view();
                    let want = updated(before, Some((x@, y@)), new@);
                    assert(self@.nested.len() == want.nested.len());
                    assert forall|k: int| 0 <= k < self@.nested.len() implies self@.nested[k]
                        == want.nested[k] by {
                        if k != f {
                            assert(self.nested@[k] == old(self).nested@[k]);
                            assert(before.nested[k] == old(self).nested@[k]@);
                        } else {
                            assert(before.nested[f as int] == old(self).nested@[f as int]@);
                        }
                    }
                    assert(self@.nested =~= want.nested);
                }
            },
            None => {
                proof {
                    lemma_override_index_is(before.nested, x@, y@, -1);
                }
                let props = new.clone();
                self.nested.push(AspectOverride { x, y, props });
                proof {
                    self.lemma_nested_view();
                    let want = updated(before, Some((x@, y@)), new@);
                    assert forall|k: int| 0 <= k < self@.nested.len() implies self@.nested[k]
                        == want.nested[k] by {
                        if k < n {
                            assert(self.nested@[k] == old(self).nested@[k]);
                            assert(before.nested[k] == old(self).nested@[k]@);
                        }
                    }
                    assert(self@.nested =~= want.nested);
                }
            },
        }
    }
}

impl Properties {
    /// Stores `new` as the settings of the image `key`: as its own where
    /// `res` is `None`, and else as the override for that aspect ratio.
    pub fn update(&mut self, key: &str, res: Option<(u32, u32)>, new: &ImageProperties)
        requires
            old(self).wf(),
        ensures
            final(self).wf(),
            final(self)@ == old(self)@.insert(
                key@,
                updated(
                    if old(self)@.contains_key(key@) {
                        old(self)@[key@]
                    } else {
                        no_settings()
                    },
                    ratio_texts(res),
                    new@,
                ),
            ),
    {
        let mut ip = match self.remove(key) {
            Some(p) => p,
            None => {
                let d = ImageProperties::default();
                proof {
                    assert(d@.nested =~= Seq::<OverrideView>::empty());
                    assert(d@ == no_settings());
                }
                d
            },
        };
        match res {
            Some(r) => {
                let mut x = String::new();
                push_nat(&mut x, r.0 as u64);
                let mut y = String::new();
                push_nat(&mut y, r.1 as u64);
                proof {
                    assert(x@ =~= nat_text(r.0 as nat));
                    assert(y@ =~= nat_text(r.1 as nat));
                }
                ip.set_override(x, y, new);
            },
            None => {
                ip.copy_from(new);
            },
        }
        self.insert(key, ip);
        proof {
            assert(old(self)@.remove(key@).insert(key@, ip@) =~= old(self)@.insert(key@, ip@));
        }
    }
}

} // verus!
