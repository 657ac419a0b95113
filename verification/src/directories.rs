//! Finding the originals, and numbering new ones after those in a directory.

use vstd::prelude::*;
use vstd::string::*;
use crate::ids::OriginalWallpaperID;
use crate::paths::{below, has_leaf, is_rel_path, is_relative, leaf, rest_below, strip_prefix};
use crate::text::{lower, lower_of};
use crate::text::{
    all_digits, chars_of, digit_value, digits_value, eq_ignore_ascii_case, is_digit, lower_text,
    nat_text, push_char, push_chars, push_nat, push_str,
};
use crate::groups::key_texts;

verus! {

/// The extensions of the images that count as originals, letters in either case.
pub open spec fn is_image_extension(ext: Seq<char>) -> bool {
    ||| lower_text(ext) == seq!['j', 'p', 'g']
    ||| lower_text(ext) == seq!['j', 'p', 'e', 'g']
    ||| lower_text(ext) == seq!['p', 'n', 'g']
    ||| lower_text(ext) == seq!['b', 'm', 'p']
}

/// The index of the last `.` of a name, or -1.
pub open spec fn last_dot(s: Seq<char>) -> int
    decreases s.len(),
{
    if s.len() == 0 {
        -1
    } else if s.last() == '.' {
        s.len() - 1
    } else {
        last_dot(s.drop_last())
    }
}

/// The extension of a file name: what follows its last `.`, unless the
/// name has none or only begins with one.
pub open spec fn extension_of(name: Seq<char>) -> Option<Seq<char>> {
    if last_dot(name) <= 0 {
        None
    } else {
        Some(name.skip(last_dot(name) + 1))
    }
}

/// The last dot is a dot, and no dot follows it.
pub proof fn lemma_last_dot(s: Seq<char>)
    ensures
        -1 <= last_dot(s) < s.len(),
        last_dot(s) >= 0 ==> s[last_dot(s)] == '.',
        forall|i: int| last_dot(s) < i < s.len() ==> #[trigger] s[i] != '.',
    decreases s.len(),
{
    if s.len() > 0 && s.last() != '.' {
        lemma_last_dot(s.drop_last());
        assert forall|i: int| last_dot(s) < i < s.len() implies #[trigger] s[i] != '.' by {
            if i < s.len() - 1 {
                assert(s.drop_last()[i] == s[i]);
            }
        }
    }
}

proof fn lemma_last_dot_is(s: Seq<char>, k: int)
    requires
        -1 <= k < s.len(),
        k >= 0 ==> s[k] == '.',
        forall|i: int| k < i < s.len() ==> #[trigger] s[i] != '.',
    ensures
        last_dot(s) == k,
{
    lemma_last_dot(s);
}

fn find_last_dot(v: &Vec<char>) -> (r: Option<usize>)
    ensures
        match r {
            Some(k) => k as int == last_dot(v@),
            None => last_dot(v@) == -1,
        },
{
    let mut i: usize = v.len();
    while i > 0
        invariant
            i <= v@.len(),
            forall|j: int| i <= j < v@.len() ==> #[trigger] v@[j] != '.',
        decreases i,
    {
        i = i - 1;
        if v[i] == '.' {
            proof {
                lemma_last_dot_is(v@, i as int);
            }
            return Some(i);
        }
    }
    proof {
        lemma_last_dot_is(v@, -1);
    }
    None
}

/// Whether an extension is that of an image that counts as an original.
pub fn valid_extension(ext: &str) -> (r: bool)
    ensures
        r == is_image_extension(ext@),
{
    let v = chars_of(ext);
    proof {
        reveal_strlit("jpg");
        reveal_strlit("jpeg");
        reveal_strlit("png");
        reveal_strlit("bmp");
        assert("jpg"@ =~= seq!['j', 'p', 'g']);
        assert("jpeg"@ =~= seq!['j', 'p', 'e', 'g']);
        assert("png"@ =~= seq!['p', 'n', 'g']);
        assert("bmp"@ =~= seq!['b', 'm', 'p']);
        assert(lower_text("jpg"@) =~= "jpg"@);
        assert(lower_text("jpeg"@) =~= "jpeg"@);
        assert(lower_text("png"@) =~= "png"@);
        assert(lower_text("bmp"@) =~= "bmp"@);
    }
    eq_ignore_ascii_case(&v, "jpg") || eq_ignore_ascii_case(&v, "jpeg") || eq_ignore_ascii_case(
        &v,
        "png",
    ) || eq_ignore_ascii_case(&v, "bmp")
}

/// Whether a file name is that of an original: its extension is one of
/// the image extensions.
pub open spec fn is_original_name(name: Seq<char>) -> bool {
    extension_of(name) matches Some(ext) && is_image_extension(ext)
}

/// Runtime form of `is_original_name`.
pub fn has_valid_extension(name: &str) -> (r: bool)
    ensures
        r == is_original_name(name@),
{
    let v = chars_of(name);
    let len = v.len();
    proof {
        lemma_last_dot(v@);
    }
    match find_last_dot(&v) {
        Some(k) => {
            if k == 0 {
                return false;
            }
            let mut ext = String::new();
            push_chars(&mut ext, &v, k + 1, len);
            assert(ext@ =~= name@.skip(k + 1));
            valid_extension(ext.as_str())
        },
        None => false,
    }
}

/// The identity of the file at `path`, if it is an original: it lies
/// below the originals directory, under ordinary names, and its name has
/// the extension of an image.
pub fn original_id(originals: &str, path: &str) -> (r: Option<OriginalWallpaperID>)
    ensures
        r is Some <==> below(path@, originals@) && is_rel_path(rest_below(path@, originals@))
            && is_original_name(leaf(path@)),
        r matches Some(id) ==> id@ == rest_below(path@, originals@),
{
    let name = match crate::paths::file_name(path) {
        Some(name) => name,
        None => {
            proof {
                lemma_no_leaf_no_extension(leaf(path@));
            }
            return None;
        },
    };
    if !has_valid_extension(name.as_str()) {
        return None;
    }
    match strip_prefix(path, originals) {
        Some(rel) => {
            if is_relative(rel.as_str()) {
                Some(OriginalWallpaperID::from_rel_path(rel.as_str()))
            } else {
                None
            }
        },
        None => None,
    }
}

/// A name that is empty, `.` or `..` has no extension.
proof fn lemma_no_leaf_no_extension(name: Seq<char>)
    requires
        name.len() == 0 || name == seq!['.'] || name == seq!['.', '.'],
    ensures
        !is_original_name(name),
{
    lemma_last_dot(name);
    if name == seq!['.', '.'] {
        assert(name.len() == 2 && name[1] == '.');
        lemma_last_dot_is(name, 1);
        assert(name.skip(2) =~= Seq::<char>::empty());
        assert(lower_text(Seq::<char>::empty()).len() == 0);
    }
}

/// An ASCII letter of either case.
pub open spec fn is_letter(c: char) -> bool {
    ('a' <= c && c <= 'z') || ('A' <= c && c <= 'Z')
}

/// The name is `<prefix><digits>.<ext>`: at least one digit, an extension
/// of three or four letters, and a prefix that is empty or ends in a
/// character that is no digit, with no line break before that character.
/// Only the ten ASCII digits count as digits and only the ASCII letters
/// as letters: a digit of another script is an ordinary character, which
/// can end a prefix.
pub open spec fn is_numbered(name: Seq<char>, prefix_len: int, digits_len: int) -> bool {
    let dot = prefix_len + digits_len;
    &&& 0 <= prefix_len
    &&& 1 <= digits_len
    &&& dot < name.len()
    &&& name[dot] == '.'
    &&& (name.len() - dot - 1 == 3 || name.len() - dot - 1 == 4)
    &&& forall|i: int| dot < i < name.len() ==> is_letter(#[trigger] name[i])
    &&& forall|i: int| prefix_len <= i < dot ==> is_digit(#[trigger] name[i])
    &&& (prefix_len > 0 ==> !is_digit(name[prefix_len - 1]))
    &&& forall|i: int| 0 <= i < prefix_len - 1 ==> #[trigger] name[i] != '\n'
}

/// A numbered name, taken apart.
#[derive(Debug)]
pub struct NameParts {
    pub prefix: String,
    pub digits: String,
}

fn is_digit_char(c: char) -> (r: bool)
    ensures
        r == is_digit(c),
{
    c == '0' || c == '1' || c == '2' || c == '3' || c == '4' || c == '5' || c == '6' || c == '7'
        || c == '8' || c == '9'
}

fn is_letter_char(c: char) -> (r: bool)
    ensures
        r == is_letter(c),
{
    ('a' <= c && c <= 'z') || ('A' <= c && c <= 'Z')
}

/// Takes a numbered name apart. A name is numbered in at most one way.
#[verifier::loop_isolation(false)]
pub fn parse_name(name: &str) -> (r: Option<NameParts>)
    ensures
        match r {
            Some(parts) => is_numbered(name@, parts.prefix@.len() as int, parts.digits@.len() as int)
                && parts.prefix@ == name@.take(parts.prefix@.len() as int) && parts.digits@
                == name@.subrange(
                parts.prefix@.len() as int,
                (parts.prefix@.len() + parts.digits@.len()) as int,
            ),
            None => forall|p: int, d: int| !is_numbered(name@, p, d),
        },
        forall|p: int, d: int|
            is_numbered(name@, p, d) ==> (r matches Some(parts) && parts.prefix@.len() == p
                && parts.digits@.len() == d),
{
    let v = chars_of(name);
    let n = v.len();
    proof {
        lemma_last_dot(v@);
    }
    let dot = match find_last_dot(&v) {
        Some(k) => k,
        None => {
            assert forall|p: int, d: int| !is_numbered(name@, p, d) by {
                if is_numbered(name@, p, d) {
                    assert(name@[p + d] == '.');
                }
            }
            return None;
        },
    };
    // Every numbering of the name has its dot here: the letters after
    // the dot of a numbering hold no dot.
    assert forall|p: int, d: int| is_numbered(name@, p, d) implies p + d == dot by {
        if p + d < dot {
            assert(is_letter(name@[dot as int]));
        } else if p + d > dot {
            assert(name@[p + d] == '.');
        }
    }
    let ext_len = n - dot - 1;
    if ext_len != 3 && ext_len != 4 {
        return None;
    }
    let mut i: usize = dot + 1;
    while i < n
        invariant
            dot < i <= n,
            forall|j: int| dot < j < i ==> is_letter(#[trigger] v@[j]),
        decreases n - i,
    {
        if !is_letter_char(v[i]) {
            assert forall|p: int, d: int| !is_numbered(name@, p, d) by {
                if is_numbered(name@, p, d) {
                    assert(is_letter(name@[i as int]));
                }
            }
            return None;
        }
        i = i + 1;
    }
    let mut start: usize = dot;
    while start > 0 && is_digit_char(v[start - 1])
        invariant
            start <= dot,
            forall|j: int| start <= j < dot ==> is_digit(#[trigger] v@[j]),
        decreases start,
    {
        start = start - 1;
    }
    // Every numbering of the name has its digits here: they reach back
    // to a character that is no digit.
    assert forall|p: int, d: int| is_numbered(name@, p, d) implies p == start by {
        if p < start {
            assert(is_digit(name@[start - 1]));
        } else if p > start {
            assert(is_digit(name@[p - 1]));
        }
    }
    if start == dot {
        return None;
    }
    let mut j: usize = 0;
    while j + 1 < start
        invariant
            j <= start,
            forall|k: int| 0 <= k < j ==> #[trigger] v@[k] != '\n',
        decreases start - j,
    {
        if v[j] == '\n' {
            assert forall|p: int, d: int| !is_numbered(name@, p, d) by {
                if is_numbered(name@, p, d) {
                    assert(name@[j as int] != '\n');
                }
            }
            return None;
        }
        j = j + 1;
    }
    let mut prefix = String::new();
    push_chars(&mut prefix, &v, 0, start);
    let mut digits = String::new();
    push_chars(&mut digits, &v, start, dot);
    proof {
        assert(prefix@ =~= name@.take(start as int));
        assert(digits@ =~= name@.subrange(start as int, dot as int));
        assert(is_numbered(name@, start as int, dot - start));
    }
    Some(NameParts { prefix, digits })
}

/// Reads a number written in decimal digits, if it is small enough to be held.
pub fn parse_number(digits: &str) -> (r: Option<usize>)
    ensures
        r is Some <==> digits@.len() > 0 && all_digits(digits@) && digits_value(digits@)
            <= usize::MAX,
        r matches Some(n) ==> n == digits_value(digits@),
{
    let v = chars_of(digits);
    if v.len() == 0 {
        return None;
    }
    let mut n: usize = 0;
    let mut i: usize = 0;
    while i < v.len()
        invariant
            i <= v@.len(),
            v@ == digits@,
            all_digits(v@.take(i as int)),
            n == digits_value(v@.take(i as int)),
        decreases v@.len() - i,
    {
        let ghost next = v@.take(i + 1);
        proof {
            assert(next.drop_last() =~= v@.take(i as int));
            assert(next.last() == v@[i as int]);
        }
        let c = v[i];
        if !is_digit_char(c) {
            assert(!is_digit(digits@[i as int]));
            return None;
        }
        let d: usize = digit_of_char(c);
        if n > (usize::MAX - d) / 10 {
            proof {
                assert(digits_value(next) > usize::MAX);
                lemma_value_grows(v@, i + 1, v@.len() as int);
                assert(v@.take(v@.len() as int) =~= v@);
            }
            return None;
        }
        n = n * 10 + d;
        proof {
            assert forall|k: int| 0 <= k < next.len() implies is_digit(#[trigger] next[k]) by {
                if k < i {
                    assert(next[k] == v@.take(i as int)[k]);
                }
            }
        }
        i = i + 1;
    }
    proof {
        assert(v@.take(v@.len() as int) =~= v@);
    }
    Some(n)
}

/// A longer text of digits denotes no smaller number.
proof fn lemma_value_grows(s: Seq<char>, a: int, b: int)
    requires
        0 <= a <= b <= s.len(),
    ensures
        digits_value(s.take(a)) <= digits_value(s.take(b)),
    decreases b - a,
{
    if a < b {
        lemma_value_grows(s, a, b - 1);
        assert(s.take(b).drop_last() =~= s.take(b - 1));
    }
}

fn digit_of_char(c: char) -> (d: usize)
    requires
        is_digit(c),
    ensures
        d == digit_value(c),
        d < 10,
{
    if c == '1' {
        1
    } else if c == '2' {
        2
    } else if c == '3' {
        3
    } else if c == '4' {
        4
    } else if c == '5' {
        5
    } else if c == '6' {
        6
    } else if c == '7' {
        7
    } else if c == '8' {
        8
    } else if c == '9' {
        9
    } else {
        0
    }
}

/// The one way in which a numbered name is numbered: the length of its
/// prefix and the number of its digits.
pub open spec fn numbering(name: Seq<char>) -> (int, int) {
    choose|p: int, d: int| is_numbered(name, p, d)
}

/// The name is a numbered name.
pub open spec fn has_number(name: Seq<char>) -> bool {
    exists|p: int, d: int| is_numbered(name, p, d)
}

/// What stands before the digits of a numbered name.
pub open spec fn name_prefix(name: Seq<char>) -> Seq<char> {
    name.take(numbering(name).0)
}

/// The digits of a numbered name.
pub open spec fn name_digits(name: Seq<char>) -> Seq<char> {
    name.subrange(numbering(name).0, numbering(name).0 + numbering(name).1)
}

/// The number of a numbered name.
pub open spec fn name_number(name: Seq<char>) -> nat {
    digits_value(name_digits(name))
}

/// The name is numbered, with a number that can be held.
pub open spec fn is_sequenced(name: Seq<char>) -> bool {
    has_number(name) && name_number(name) <= usize::MAX
}

/// Which names of a directory are looked at.
pub enum Wanted {
    /// The names of originals.
    Originals,
    /// The names of originals that begin with a text.
    Beginning(Seq<char>),
    /// The names of originals that are numbered after a prefix.
    Numbered(Seq<char>),
}

/// Whether a name is looked at.
pub open spec fn is_wanted_name(name: Seq<char>, wanted: Wanted) -> bool {
    match wanted {
        Wanted::Originals => is_original_name(name),
        Wanted::Beginning(prefix) => is_original_name(name) && begins_with(name, prefix),
        Wanted::Numbered(prefix) => is_original_name(name) && has_number(name) && name_prefix(name)
            == prefix,
    }
}

/// The names among the first `n` of the list that are looked at, in their order.
pub open spec fn kept(names: Seq<Seq<char>>, keep: Wanted, n: int) -> Seq<Seq<char>>
    decreases n,
{
    if n <= 0 {
        Seq::empty()
    } else if is_wanted_name(names[n - 1], keep) {
        kept(names, keep, n - 1).push(names[n - 1])
    } else {
        kept(names, keep, n - 1)
    }
}

/// The largest number among the first `n` names.
pub open spec fn max_number(items: Seq<Seq<char>>, n: int) -> nat
    decreases n,
{
    if n <= 0 {
        0
    } else if name_number(items[n - 1]) > max_number(items, n - 1) {
        name_number(items[n - 1])
    } else {
        max_number(items, n - 1)
    }
}

/// The largest count of digits among the first `n` names.
pub open spec fn max_digits(items: Seq<Seq<char>>, n: int) -> nat
    decreases n,
{
    if n <= 0 {
        0
    } else if name_digits(items[n - 1]).len() > max_digits(items, n - 1) {
        name_digits(items[n - 1]).len()
    } else {
        max_digits(items, n - 1)
    }
}

/// The names form one sequence: each is numbered and all share a prefix.
pub open spec fn one_sequence(items: Seq<Seq<char>>) -> bool {
    &&& forall|i: int| 0 <= i < items.len() ==> is_sequenced(#[trigger] items[i])
    &&& forall|i: int|
        0 <= i < items.len() ==> name_prefix(#[trigger] items[i]) == name_prefix(items[0])
}

/// Where a sequence of names goes on: the prefix they share, the number
/// after the largest one, and the largest count of digits. Nothing where
/// the names are not one sequence, or the next number cannot be held.
pub open spec fn next_in_sequence(items: Seq<Seq<char>>) -> Option<(Seq<char>, nat, nat)> {
    if items.len() == 0 || !one_sequence(items) || max_number(items, items.len() as int)
        >= usize::MAX {
        None
    } else {
        Some(
            (
                name_prefix(items[0]),
                max_number(items, items.len() as int) + 1,
                max_digits(items, items.len() as int),
            ),
        )
    }
}

/// What was found where a directory is expected.
#[derive(Debug, Clone, Copy, PartialEq, Eq, Structural)]
pub enum DirState {
    Missing,
    NotDirectory,
    Directory,
}

/// The prefix, the number and the count of digits for the next original
/// in a directory, given the names of the files in it. A directory that is
/// missing or holds no originals starts at 0 with two digits.
pub open spec fn next_in_dir(state: DirState, names: Seq<Seq<char>>) -> Option<
    (Seq<char>, nat, nat),
> {
    match state {
        DirState::Missing => Some((Seq::empty(), 0, 2)),
        DirState::NotDirectory => None,
        DirState::Directory => {
            let items = kept(names, Wanted::Originals, names.len() as int);
            if items.len() == 0 {
                Some((Seq::empty(), 0, 2))
            } else {
                next_in_sequence(items)
            }
        },
    }
}

/// The name begins with `prefix`.
pub open spec fn begins_with(name: Seq<char>, prefix: Seq<char>) -> bool {
    prefix.len() <= name.len() && name.take(prefix.len() as int) == prefix
}

/// The same for the originals whose names begin with `prefix`, of which
/// there has to be one.
pub open spec fn next_for_prefix(state: DirState, names: Seq<Seq<char>>, prefix: Seq<char>) -> Option<
    (Seq<char>, nat, nat),
> {
    if state != DirState::Directory {
        None
    } else {
        next_in_sequence(kept(names, Wanted::Beginning(prefix), names.len() as int))
    }
}

/// The number and the count of digits for the next original whose name
/// is `prefix` and a number: the number after the largest one in use,
/// with as many digits as the longest; 0 with two digits where there is
/// none. Nothing where a number in use cannot be held or followed.
pub open spec fn next_for_wildcard(state: DirState, names: Seq<Seq<char>>, prefix: Seq<char>) -> Option<
    (nat, nat),
> {
    match state {
        DirState::Missing => Some((0, 2)),
        DirState::NotDirectory => None,
        DirState::Directory => {
            let items = kept(names, Wanted::Numbered(prefix), names.len() as int);
            if items.len() == 0 {
                Some((0, 2))
            } else if (exists|i: int| 0 <= i < items.len() && !is_sequenced(#[trigger] items[i]))
                || max_number(items, items.len() as int) >= usize::MAX {
                None
            } else {
                Some(
                    (
                        max_number(items, items.len() as int) + 1,
                        max_digits(items, items.len() as int),
                    ),
                )
            }
        },
    }
}

/// What is known of a name once it was taken apart.
proof fn lemma_parts(name: Seq<char>, p: int, d: int)
    requires
        is_numbered(name, p, d),
        forall|q: int, e: int| is_numbered(name, q, e) ==> q == p && e == d,
    ensures
        has_number(name),
        numbering(name) == (p, d),
{
    let (q, e) = numbering(name);
    assert(is_numbered(name, q, e));
}

/// One name of a directory, read as far as the numbering needs it.
struct Numbered {
    prefix: String,
    number: Option<usize>,
    digits: usize,
}

fn read_name(name: &str) -> (r: Option<Numbered>)
    ensures
        r is Some <==> has_number(name@),
        r matches Some(x) ==> x.prefix@ == name_prefix(name@) && x.digits == name_digits(name@).len()
            && (x.number is Some <==> is_sequenced(name@)) && (x.number matches Some(v) ==> v
            == name_number(name@)),
{
    match parse_name(name) {
        Some(parts) => {
            proof {
                lemma_parts(name@, parts.prefix@.len() as int, parts.digits@.len() as int);
                assert(parts.digits@ == name_digits(name@));
                assert(all_digits(parts.digits@)) by {
                    assert forall|i: int| 0 <= i < parts.digits@.len() implies is_digit(
                        #[trigger] parts.digits@[i],
                    ) by {
                        assert(parts.digits@[i] == name@[parts.prefix@.len() + i]);
                    }
                }
            }
            let number = parse_number(parts.digits.as_str());
            let digits = parts.digits.as_str().unicode_len();
            Some(Numbered { prefix: parts.prefix, number, digits })
        },
        None => None,
    }
}

#[verifier::loop_isolation(false)]
fn starts_with_text(name: &str, prefix: &str) -> (r: bool)
    ensures
        r == begins_with(name@, prefix@),
{
    let v = chars_of(name);
    let p = chars_of(prefix);
    if p.len() > v.len() {
        return false;
    }
    let mut i: usize = 0;
    while i < p.len()
        invariant
            i <= p@.len() <= v@.len(),
            forall|j: int| 0 <= j < i ==> #[trigger] v@[j] == p@[j],
        decreases p@.len() - i,
    {
        if v[i] != p[i] {
            assert(v@.take(p@.len() as int)[i as int] != p@[i as int]);
            return false;
        }
        i = i + 1;
    }
    assert(v@.take(p@.len() as int) =~= p@);
    true
}

/// Where the sequence of the given names goes on.
pub fn sequence_after(items: &Vec<String>) -> (r: Option<(String, usize, usize)>)
    ensures
        match r {
            Some(next) => next_in_sequence(key_texts(items@)) == Some(
                (next.0@, next.1 as nat, next.2 as nat),
            ),
            None => next_in_sequence(key_texts(items@)) is None,
        },
{
    let ghost names = key_texts(items@);
    if items.len() == 0 {
        return None;
    }
    let first = match read_name(items[0].as_str()) {
        Some(x) => x,
        None => {
            assert(!is_sequenced(names[0]));
            return None;
        },
    };
    let mut num: usize = 0;
    let mut digits: usize = 0;
    let mut i: usize = 0;
    while i < items.len()
        invariant
            i <= items@.len(),
            names == key_texts(items@),
            first.prefix@ == name_prefix(names[0]),
            num == max_number(names, i as int),
            digits == max_digits(names, i as int),
            forall|j: int| 0 <= j < i ==> is_sequenced(#[trigger] names[j]),
            forall|j: int| 0 <= j < i ==> name_prefix(#[trigger] names[j]) == name_prefix(names[0]),
        decreases items@.len() - i,
    {
        assert(names[i as int] == items@[i as int]@);
        let x = match read_name(items[i].as_str()) {
            Some(x) => x,
            None => {
                assert(!is_sequenced(names[i as int]));
                return None;
            },
        };
        if x.prefix != first.prefix {
            assert(name_prefix(names[i as int]) != name_prefix(names[0]));
            return None;
        }
        let number = match x.number {
            Some(v) => v,
            None => {
                assert(!is_sequenced(names[i as int]));
                return None;
            },
        };
        if number > num {
            num = number;
        }
        if x.digits > digits {
            digits = x.digits;
        }
        i = i + 1;
    }
    if num == usize::MAX {
        return None;
    }
    Some((first.prefix, num + 1, digits))
}

/// The names among `names` that are names of originals.
pub fn originals_among(names: &Vec<String>) -> (r: Vec<String>)
    ensures
        key_texts(r@) == kept(key_texts(names@), Wanted::Originals, names@.len() as int),
{
    let mut r: Vec<String> = Vec::new();
    let mut i: usize = 0;
    proof {
        assert(key_texts(r@) =~= Seq::<Seq<char>>::empty());
    }
    while i < names.len()
        invariant
            i <= names@.len(),
            key_texts(r@) == kept(key_texts(names@), Wanted::Originals, i as int),
        decreases names@.len() - i,
    {
        let ghost before = r@;
        assert(key_texts(names@)[i as int] == names@[i as int]@);
        if has_valid_extension(names[i].as_str()) {
            r.push(names[i].clone());
            proof {
                assert(key_texts(r@) =~= key_texts(before).push(names@[i as int]@));
            }
        }
        i = i + 1;
    }
    r
}

/// The prefix, the number and the count of digits for the next original
/// in a directory. `names` holds the names of the regular files in it.
pub fn next_original_in_dir(state: DirState, names: &Vec<String>) -> (r: Option<
    (String, usize, usize),
>)
    ensures
        match r {
            Some(next) => next_in_dir(state, key_texts(names@)) == Some(
                (next.0@, next.1 as nat, next.2 as nat),
            ),
            None => next_in_dir(state, key_texts(names@)) is None,
        },
{
    match state {
        DirState::Missing => Some((String::new(), 0, 2)),
        DirState::NotDirectory => None,
        DirState::Directory => {
            let items = originals_among(names);
            if items.len() == 0 {
                Some((String::new(), 0, 2))
            } else {
                sequence_after(&items)
            }
        },
    }
}

/// The same for the originals whose names begin with `prefix`: they have
/// to be one sequence, and there has to be one of them.
pub fn next_original_for_prefix(state: DirState, names: &Vec<String>, prefix: &str) -> (r: Option<
    (String, usize, usize),
>)
    ensures
        match r {
            Some(next) => next_for_prefix(state, key_texts(names@), prefix@) == Some(
                (next.0@, next.1 as nat, next.2 as nat),
            ),
            None => next_for_prefix(state, key_texts(names@), prefix@) is None,
        },
{
    match state {
        DirState::Directory => {},
        _ => {
            return None;
        },
    }
    let mut items: Vec<String> = Vec::new();
    let mut i: usize = 0;
    proof {
        assert(key_texts(items@) =~= Seq::<Seq<char>>::empty());
    }
    while i < names.len()
        invariant
            i <= names@.len(),
            key_texts(items@) == kept(key_texts(names@), Wanted::Beginning(prefix@), i as int),
        decreases names@.len() - i,
    {
        let ghost before = items@;
        assert(key_texts(names@)[i as int] == names@[i as int]@);
        if has_valid_extension(names[i].as_str()) && starts_with_text(names[i].as_str(), prefix) {
            items.push(names[i].clone());
            proof {
                assert(key_texts(items@) =~= key_texts(before).push(names@[i as int]@));
            }
        }
        i = i + 1;
    }
    sequence_after(&items)
}

/// The number and the count of digits for the next original named
/// `prefix` and a number.
#[verifier::loop_isolation(false)]
pub fn next_original_for_wildcard_prefix(state: DirState, names: &Vec<String>, prefix: &str) -> (r:
    Option<(usize, usize)>)
    ensures
        match r {
            Some(next) => next_for_wildcard(state, key_texts(names@), prefix@) == Some(
                (next.0 as nat, next.1 as nat),
            ),
            None => next_for_wildcard(state, key_texts(names@), prefix@) is None,
        },
{
    match state {
        DirState::Missing => {
            return Some((0, 2));
        },
        DirState::NotDirectory => {
            return None;
        },
        DirState::Directory => {},
    }
    let wanted = String::from_str(prefix);
    let ghost keep = Wanted::Numbered(prefix@);
    let ghost all = key_texts(names@);
    let mut num: usize = 0;
    let mut digits: usize = 0;
    let mut any = false;
    let mut i: usize = 0;
    while i < names.len()
        invariant
            i <= names@.len(),
            wanted@ == prefix@,
            all == key_texts(names@),
            keep == Wanted::Numbered(prefix@),
            any == (kept(all, keep, i as int).len() > 0),
            num == max_number(kept(all, keep, i as int), kept(all, keep, i as int).len() as int),
            digits == max_digits(kept(all, keep, i as int), kept(all, keep, i as int).len() as int),
            forall|j: int|
                0 <= j < kept(all, keep, i as int).len() ==> is_sequenced(
                    #[trigger] kept(all, keep, i as int)[j],
                ),
        decreases names@.len() - i,
    {
        assert(all[i as int] == names@[i as int]@);
        let ghost before = kept(all, keep, i as int);
        let ghost after = kept(all, keep, i + 1);
        if has_valid_extension(names[i].as_str()) {
            match read_name(names[i].as_str()) {
                Some(x) => {
                    if x.prefix == wanted {
                        proof {
                            assert(is_wanted_name(all[i as int], keep));
                            assert(after == before.push(all[i as int]));
                            lemma_max_push(before, all[i as int]);
                        }
                        let number = match x.number {
                            Some(v) => v,
                            None => {
                                proof {
                                    assert(!is_sequenced(after[after.len() - 1]));
                                    lemma_kept_grows(all, keep, i + 1, names@.len() as int);
                                    let full = kept(all, keep, names@.len() as int);
                                    assert(full[after.len() - 1] == after[after.len() - 1]);
                                    assert(full.len() > 0);
                                    assert(!is_sequenced(full[after.len() - 1]));
                                }
                                return None;
                            },
                        };
                        if number > num {
                            num = number;
                        }
                        if x.digits > digits {
                            digits = x.digits;
                        }
                        any = true;
                    } else {
                        assert(!is_wanted_name(all[i as int], keep));
                    }
                },
                None => {
                    assert(!is_wanted_name(all[i as int], keep));
                },
            }
        } else {
            assert(!is_wanted_name(all[i as int], keep));
        }
        i = i + 1;
    }
    if !any {
        return Some((0, 2));
    }
    if num == usize::MAX {
        return None;
    }
    Some((num + 1, digits))
}

/// The largest number and digit count after one more name.
proof fn lemma_max_push(items: Seq<Seq<char>>, name: Seq<char>)
    ensures
        max_number(items.push(name), items.len() as int + 1) == (if name_number(name) > max_number(
            items,
            items.len() as int,
        ) {
            name_number(name)
        } else {
            max_number(items, items.len() as int)
        }),
        max_digits(items.push(name), items.len() as int + 1) == (if name_digits(name).len() > max_digits(
            items,
            items.len() as int,
        ) {
            name_digits(name).len()
        } else {
            max_digits(items, items.len() as int)
        }),
{
    let more = items.push(name);
    lemma_max_same(items, more, items.len() as int);
}

/// The largest number and digit count depend on the names counted only.
proof fn lemma_max_same(a: Seq<Seq<char>>, b: Seq<Seq<char>>, n: int)
    requires
        0 <= n <= a.len(),
        n <= b.len(),
        forall|i: int| 0 <= i < n ==> a[i] == b[i],
    ensures
        max_number(a, n) == max_number(b, n),
        max_digits(a, n) == max_digits(b, n),
    decreases n,
{
    if n > 0 {
        lemma_max_same(a, b, n - 1);
    }
}

/// What is kept of a longer part of a list begins with what is kept of a
/// shorter part.
proof fn lemma_kept_grows(names: Seq<Seq<char>>, keep: Wanted, a: int, b: int)
    requires
        0 <= a <= b <= names.len(),
    ensures
        kept(names, keep, a).len() <= kept(names, keep, b).len(),
        forall|j: int|
            0 <= j < kept(names, keep, a).len() ==> kept(names, keep, b)[j] == #[trigger] kept(
                names,
                keep,
                a,
            )[j],
    decreases b - a,
{
    if a < b {
        lemma_kept_grows(names, keep, a, b - 1);
    }
}

/// `count` zeros.
pub open spec fn zeros(count: int) -> Seq<char> {
    Seq::new(
        if count > 0 {
            count as nat
        } else {
            0
        },
        |i: int| '0',
    )
}

/// A number in decimal, with zeros before it where it has fewer than
/// `digits` digits.
pub open spec fn padded(n: nat, digits: int) -> Seq<char> {
    zeros(digits - nat_text(n).len()) + nat_text(n)
}

/// The name of a new original: `<prefix><number>.<extension>`, the
/// number padded with zeros to `digits` digits.
pub fn numbered_name(prefix: &str, n: usize, digits: usize, extension: &str) -> (r: String)
    ensures
        r@ == prefix@ + padded(n as nat, digits as int) + seq!['.'] + extension@,
{
    let mut number = String::new();
    push_nat(&mut number, n as u64);
    proof {
        assert(number@ =~= nat_text(n as nat));
    }
    let len = number.as_str().unicode_len();
    let mut r = String::from_str(prefix);
    let mut k: usize = len;
    while k < digits
        invariant
            len <= k,
            k <= digits || k == len,
            r@ == prefix@ + zeros(k - len),
        decreases digits - k,
    {
        push_char(&mut r, '0');
        proof {
            assert(zeros(k + 1 - len) =~= zeros(k - len).push('0'));
            assert(r@ =~= prefix@ + zeros(k + 1 - len));
        }
        k = k + 1;
    }
    proof {
        assert(zeros(k - len) =~= zeros(digits - len));
    }
    push_str(&mut r, number.as_str());
    push_char(&mut r, '.');
    push_str(&mut r, extension);
    proof {
        assert(r@ =~= prefix@ + padded(n as nat, digits as int) + seq!['.'] + extension@);
    }
    r
}

/// The extension of the file that a path names, in lower case.
pub open spec fn extension_lower(path: Seq<char>) -> Option<Seq<char>> {
    if !has_leaf(path) {
        None
    } else {
        match extension_of(leaf(path)) {
            Some(e) => Some(lower_text(e)),
            None => None,
        }
    }
}

/// The extension of the file that a path names, in lower case.
pub fn extension(path: &str) -> (r: Option<String>)
    ensures
        r is Some <==> extension_lower(path@) is Some,
        r matches Some(e) ==> Some(e@) == extension_lower(path@),
{
    let name = match crate::paths::file_name(path) {
        Some(name) => name,
        None => {
            return None;
        },
    };
    let v = chars_of(name.as_str());
    let len = v.len();
    proof {
        lemma_last_dot(v@);
    }
    match find_last_dot(&v) {
        Some(k) => {
            if k == 0 {
                return None;
            }
            let mut ext = String::new();
            let mut i: usize = k + 1;
            while i < len
                invariant
                    k < i <= len,
                    len == v@.len(),
                    ext@ == lower_text(v@.skip(k + 1)).take(i - k - 1),
                decreases len - i,
            {
                push_char(&mut ext, lower_of(v[i]));
                proof {
                    let all = lower_text(v@.skip(k + 1));
                    assert(all.take(i - k) =~= all.take(i - k - 1).push(all[i - k - 1]));
                }
                i = i + 1;
            }
            proof {
                let all = lower_text(v@.skip(k + 1));
                assert(all.take(all.len() as int) =~= all);
            }
            Some(ext)
        },
        None => None,
    }
}

} // verus!
