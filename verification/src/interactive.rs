//! What the interactive shell asks of the library: paths and resolutions
//! as the user types them.

use vstd::prelude::*;
use vstd::string::*;
use std::collections::VecDeque;
use crate::colour::{colour_of, spec_black, string_to_colour, Colour};
use crate::config::{is_zero_text, percent_view, ImageProperties, Percent, PropsView};
use crate::directories::{extension, extension_lower, is_image_extension, valid_extension};
use crate::monitors::{gcd, gcd_of, lemma_gcd};
use crate::paths::{below, file_name, has_leaf, join, joined, leaf, parent, parent_of, starts_with};
use crate::text::{lower, lower_of, lower_text};
use crate::text::{all_digits, chars_of, digit_value, digits_value, is_digit, push_char, push_chars, push_str};

verus! {

/// The names of a path so far, after `piece` was read: an empty piece and
/// `.` change nothing, `..` takes the last name away if there is one, and
/// any other piece is a further name.
pub open spec fn with_piece(names: Seq<Seq<char>>, piece: Seq<char>) -> Seq<Seq<char>> {
    if piece.len() == 0 || piece == seq!['.'] {
        names
    } else if piece == seq!['.', '.'] {
        if names.len() > 0 {
            names.drop_last()
        } else {
            names
        }
    } else {
        names.push(piece)
    }
}

/// The names collected from the first `n` characters of `s`, and the
/// piece that is being read.
pub open spec fn scanned(s: Seq<char>, n: int) -> (Seq<Seq<char>>, Seq<char>)
    decreases n,
{
    if n <= 0 {
        (Seq::empty(), Seq::empty())
    } else {
        let before = scanned(s, n - 1);
        if s[n - 1] == '/' {
            (with_piece(before.0, before.1), Seq::empty())
        } else {
            (before.0, before.1.push(s[n - 1]))
        }
    }
}

/// Names with `/` between them.
pub open spec fn slashed(names: Seq<Seq<char>>) -> Seq<char>
    decreases names.len(),
{
    if names.len() == 0 {
        Seq::empty()
    } else if names.len() == 1 {
        names[0]
    } else {
        slashed(names.drop_last()) + seq!['/'] + names.last()
    }
}

/// The path without `.`, without empty components, and with every `..`
/// resolved against the name before it. A `..` with no name before it is
/// dropped. An absolute path stays absolute.
pub open spec fn normalized(s: Seq<char>) -> Seq<char> {
    let end = scanned(s, s.len() as int);
    let names = with_piece(end.0, end.1);
    if s.len() > 0 && s[0] == '/' {
        seq!['/'] + slashed(names)
    } else {
        slashed(names)
    }
}

/// The texts of a list of strings.
pub open spec fn texts(v: Seq<String>) -> Seq<Seq<char>> {
    Seq::new(v.len(), |i: int| v[i]@)
}

fn take_piece(names: &mut Vec<String>, piece: String)
    ensures
        texts(final(names)@) == with_piece(texts(old(names)@), piece@),
{
    let v = chars_of(piece.as_str());
    if v.len() == 0 || (v.len() == 1 && v[0] == '.') {
        proof {
            if v@.len() == 1 {
                assert(piece@ =~= seq!['.']);
            }
        }
    } else if v.len() == 2 && v[0] == '.' && v[1] == '.' {
        proof {
            assert(piece@ =~= seq!['.', '.']);
            assert(piece@ != seq!['.']) by {
                assert(seq!['.'].len() == 1);
            }
            if names@.len() > 0 {
                assert(texts(names@.drop_last()) =~= texts(names@).drop_last());
            }
        }
        if names.len() > 0 {
            names.pop();
        }
    } else {
        proof {
            if piece@ == seq!['.'] {
                assert(piece@.len() == 1 && piece@[0] == '.');
            }
            if piece@ == seq!['.', '.'] {
                assert(piece@.len() == 2 && piece@[0] == '.' && piece@[1] == '.');
            }
            assert(texts(names@.push(piece)) =~= texts(names@).push(piece@));
        }
        names.push(piece);
    }
}

/// Resolves `.` and `..` in a path without looking at the file system, so
/// that it works for paths that do not exist.
pub fn normalize_path(path: &str) -> (r: String)
    ensures
        r@ == normalized(path@),
{
    let v = chars_of(path);
    let mut names: Vec<String> = Vec::new();
    let mut cur = String::new();
    let mut i: usize = 0;
    proof {
        assert(texts(names@) =~= scanned(v@, 0).0);
    }
    while i < v.len()
        invariant
            i <= v@.len(),
            texts(names@) == scanned(v@, i as int).0,
            cur@ == scanned(v@, i as int).1,
        decreases v@.len() - i,
    {
        if v[i] == '/' {
            take_piece(&mut names, cur);
            cur = String::new();
        } else {
            push_char(&mut cur, v[i]);
        }
        i = i + 1;
    }
    take_piece(&mut names, cur);
    let mut r = String::new();
    if v.len() > 0 && v[0] == '/' {
        push_char(&mut r, '/');
    }
    let ghost head = r@;
    let mut k: usize = 0;
    proof {
        assert(texts(names@).take(0) =~= Seq::<Seq<char>>::empty());
        assert(head + Seq::<char>::empty() =~= head);
    }
    while k < names.len()
        invariant
            k <= names@.len(),
            r@ == head + slashed(texts(names@).take(k as int)),
        decreases names@.len() - k,
    {
        let ghost done = texts(names@).take(k as int);
        let ghost next = texts(names@).take(k + 1);
        proof {
            assert(next.drop_last() =~= done);
            assert(next.last() == names@[k as int]@);
        }
        if k > 0 {
            push_char(&mut r, '/');
            push_str(&mut r, names[k].as_str());
            proof {
                assert(r@ =~= head + (slashed(done) + seq!['/'] + names@[k as int]@));
            }
        } else {
            push_str(&mut r, names[k].as_str());
            proof {
                assert(slashed(done) =~= Seq::<char>::empty());
                assert(r@ =~= head + names@[k as int]@);
            }
        }
        k = k + 1;
    }
    proof {
        assert(texts(names@).take(names@.len() as int) =~= texts(names@));
        if !(v@.len() > 0 && v@[0] == '/') {
            assert(head + slashed(texts(names@)) =~= slashed(texts(names@)));
        } else {
            assert(head =~= seq!['/']);
        }
    }
    r
}

/// White space, as it is trimmed off what the user types.
pub open spec fn is_space(c: char) -> bool {
    let u = c as u32;
    ||| (0x09 <= u && u <= 0x0d)
    ||| u == 0x20
    ||| u == 0x85
    ||| u == 0xa0
    ||| u == 0x1680
    ||| (0x2000 <= u && u <= 0x200a)
    ||| u == 0x2028
    ||| u == 0x2029
    ||| u == 0x202f
    ||| u == 0x205f
    ||| u == 0x3000
}

/// The number of white space characters at the beginning of a text.
pub open spec fn leading_spaces(s: Seq<char>) -> int
    decreases s.len(),
{
    if s.len() > 0 && is_space(s[0]) {
        1 + leading_spaces(s.skip(1))
    } else {
        0
    }
}

/// The number of white space characters at the end of a text.
pub open spec fn trailing_spaces(s: Seq<char>) -> int
    decreases s.len(),
{
    if s.len() > 0 && is_space(s.last()) {
        1 + trailing_spaces(s.drop_last())
    } else {
        0
    }
}

/// The text without the white space around it.
pub open spec fn trimmed(s: Seq<char>) -> Seq<char> {
    let from = leading_spaces(s);
    let rest = s.skip(from);
    rest.take(rest.len() - trailing_spaces(rest))
}

/// The index of the first `c` in a text, or its length if there is none.
pub open spec fn first_of(s: Seq<char>, c: char) -> int
    decreases s.len(),
{
    if s.len() == 0 || s[0] == c {
        0
    } else {
        1 + first_of(s.skip(1), c)
    }
}

/// The number that a text of digits, with or without a `+` before them,
/// denotes, if it is no larger than `max`.
pub open spec fn unsigned_of(s: Seq<char>, max: int) -> Option<int> {
    let digits = if s.len() > 0 && s[0] == '+' {
        s.skip(1)
    } else {
        s
    };
    if digits.len() > 0 && all_digits(digits) && digits_value(digits) <= max {
        Some(digits_value(digits) as int)
    } else {
        None
    }
}

/// The integer that a text of digits with an optional sign denotes, if
/// it can be held in 32 bits.
pub open spec fn signed_of(s: Seq<char>) -> Option<int> {
    if s.len() > 0 && s[0] == '-' {
        match unsigned_of_digits(s.skip(1), 0x8000_0000) {
            Some(v) => Some(-v),
            None => None,
        }
    } else {
        unsigned_of(s, 0x7fff_ffff)
    }
}

/// The number that a text of digits denotes, if it is no larger than `max`.
pub open spec fn unsigned_of_digits(digits: Seq<char>, max: int) -> Option<int> {
    if digits.len() > 0 && all_digits(digits) && digits_value(digits) <= max {
        Some(digits_value(digits) as int)
    } else {
        None
    }
}

/// The aspect ratio that `<width>x<height>` stands for, in lowest terms.
/// An empty text stands for no ratio; any other text that is not two
/// positive numbers with an `x` between them is an error.
pub open spec fn resolution_of(s: Seq<char>) -> Result<Option<(int, int)>, ()> {
    let t = trimmed(s);
    let x = first_of(t, 'x');
    if t.len() == 0 {
        Ok(None)
    } else if x >= t.len() {
        Err(())
    } else {
        match (unsigned_of(t.take(x), u32::MAX as int), unsigned_of(
            trimmed(t.skip(x + 1)),
            u32::MAX as int,
        )) {
            (Some(w), Some(h)) => if w > 0 && h > 0 {
                Ok(Some((w / (gcd(w as nat, h as nat) as int), h / (gcd(w as nat, h as nat) as int))))
            } else {
                Err(())
            },
            _ => Err(()),
        }
    }
}

/// The path to install to and the aspect ratio to store the settings
/// under. What follows the first blank is the ratio if it reads as one;
/// if it does not, it is part of the path.
pub open spec fn install_of(s: Seq<char>) -> Result<(Seq<char>, Option<(int, int)>), ()> {
    let t = trimmed(s);
    let blank = first_of(t, ' ');
    if t.len() == 0 {
        Err(())
    } else if blank >= t.len() {
        Ok((t, None))
    } else {
        match resolution_of(trimmed(t.skip(blank + 1))) {
            Ok(res) => Ok((t.take(blank), res)),
            Err(_) => Ok((t, None)),
        }
    }
}

/// The white space at the beginning ends at the first character that is none.
pub proof fn lemma_leading_spaces(s: Seq<char>)
    ensures
        0 <= leading_spaces(s) <= s.len(),
        forall|i: int| 0 <= i < leading_spaces(s) ==> is_space(#[trigger] s[i]),
        leading_spaces(s) < s.len() ==> !is_space(s[leading_spaces(s)]),
    decreases s.len(),
{
    if s.len() > 0 && is_space(s[0]) {
        let rest = s.skip(1);
        lemma_leading_spaces(rest);
        assert forall|i: int| 0 <= i < leading_spaces(s) implies is_space(#[trigger] s[i]) by {
            if i > 0 {
                assert(s[i] == rest[i - 1]);
            }
        }
        if leading_spaces(s) < s.len() {
            assert(s[leading_spaces(s)] == rest[leading_spaces(rest)]);
        }
    }
}

proof fn lemma_leading_is(s: Seq<char>, k: int)
    requires
        0 <= k <= s.len(),
        forall|i: int| 0 <= i < k ==> is_space(#[trigger] s[i]),
        k < s.len() ==> !is_space(s[k]),
    ensures
        leading_spaces(s) == k,
    decreases s.len(),
{
    if s.len() > 0 && is_space(s[0]) {
        let rest = s.skip(1);
        assert(k >= 1);
        assert forall|i: int| 0 <= i < k - 1 implies is_space(#[trigger] rest[i]) by {
            assert(rest[i] == s[i + 1]);
        }
        if k - 1 < rest.len() {
            assert(rest[k - 1] == s[k]);
        }
        lemma_leading_is(rest, k - 1);
    } else if s.len() > 0 {
        if k > 0 {
            assert(is_space(s[0]));
        }
    }
}

proof fn lemma_trailing_is(s: Seq<char>, k: int)
    requires
        0 <= k <= s.len(),
        forall|i: int| s.len() - k <= i < s.len() ==> is_space(#[trigger] s[i]),
        k < s.len() ==> !is_space(s[s.len() - k - 1]),
    ensures
        trailing_spaces(s) == k,
    decreases s.len(),
{
    if s.len() > 0 && is_space(s.last()) {
        let rest = s.drop_last();
        assert(k >= 1);
        assert forall|i: int| rest.len() - (k - 1) <= i < rest.len() implies is_space(
            #[trigger] rest[i],
        ) by {
            assert(rest[i] == s[i]);
        }
        if k - 1 < rest.len() {
            assert(rest[rest.len() - (k - 1) - 1] == s[s.len() - k - 1]);
        }
        lemma_trailing_is(rest, k - 1);
    } else if s.len() > 0 {
        if k > 0 {
            assert(is_space(s[s.len() - 1]));
        }
    }
}

proof fn lemma_first_is(s: Seq<char>, c: char, k: int)
    requires
        0 <= k <= s.len(),
        forall|i: int| 0 <= i < k ==> #[trigger] s[i] != c,
        k < s.len() ==> s[k] == c,
    ensures
        first_of(s, c) == k,
    decreases s.len(),
{
    if s.len() > 0 && s[0] != c {
        let rest = s.skip(1);
        assert(k >= 1);
        assert forall|i: int| 0 <= i < k - 1 implies #[trigger] rest[i] != c by {
            assert(rest[i] == s[i + 1]);
        }
        if k - 1 < rest.len() {
            assert(rest[k - 1] == s[k]);
        }
        lemma_first_is(rest, c, k - 1);
    } else if s.len() > 0 {
        if k > 0 {
            assert(s[0] != c);
        }
    }
}

fn is_space_char(c: char) -> (r: bool)
    ensures
        r == is_space(c),
{
    let u: u32 = c as u32;
    (0x09 <= u && u <= 0x0d) || u == 0x20 || u == 0x85 || u == 0xa0 || u == 0x1680 || (0x2000 <= u
        && u <= 0x200a) || u == 0x2028 || u == 0x2029 || u == 0x202f || u == 0x205f || u == 0x3000
}

/// The characters `v[from..to]` without the white space around them, as
/// a range of indices.
fn trim_range(v: &Vec<char>, from: usize, to: usize) -> (r: (usize, usize))
    requires
        from <= to <= v@.len(),
    ensures
        from <= r.0 <= r.1 <= to,
        v@.subrange(r.0 as int, r.1 as int) == trimmed(v@.subrange(from as int, to as int)),
{
    let ghost s = v@.subrange(from as int, to as int);
    let mut a: usize = from;
    while a < to && is_space_char(v[a])
        invariant
            from <= a <= to <= v@.len(),
            forall|i: int| from <= i < a ==> is_space(#[trigger] v@[i]),
        decreases to - a,
    {
        a = a + 1;
    }
    let mut b: usize = to;
    while b > a && is_space_char(v[b - 1])
        invariant
            a <= b <= to <= v@.len(),
            forall|i: int| b <= i < to ==> is_space(#[trigger] v@[i]),
        decreases b,
    {
        b = b - 1;
    }
    proof {
        assert forall|i: int| 0 <= i < a - from implies is_space(#[trigger] s[i]) by {
            assert(s[i] == v@[from + i]);
        }
        lemma_leading_is(s, a - from);
        let rest = s.skip(a - from);
        assert forall|i: int| rest.len() - (to - b) <= i < rest.len() implies is_space(
            #[trigger] rest[i],
        ) by {
            assert(rest[i] == v@[a + i]);
        }
        if to - b < rest.len() {
            assert(rest[rest.len() - (to - b) - 1] == v@[b - 1]);
        }
        lemma_trailing_is(rest, to - b);
        assert(v@.subrange(a as int, b as int) =~= trimmed(s));
    }
    (a, b)
}

/// The index of the first `c` in `v[from..to]`, counted from `from`.
fn find_first(v: &Vec<char>, from: usize, to: usize, c: char) -> (r: usize)
    requires
        from <= to <= v@.len(),
    ensures
        r as int == first_of(v@.subrange(from as int, to as int), c),
        r <= to - from,
{
    let ghost s = v@.subrange(from as int, to as int);
    let mut i: usize = from;
    while i < to && v[i] != c
        invariant
            from <= i <= to <= v@.len(),
            forall|j: int| from <= j < i ==> #[trigger] v@[j] != c,
        decreases to - i,
    {
        i = i + 1;
    }
    proof {
        assert forall|j: int| 0 <= j < i - from implies #[trigger] s[j] != c by {
            assert(s[j] == v@[from + j]);
        }
        if i < to {
            assert(s[i - from] == v@[i as int]);
        }
        lemma_first_is(s, c, i - from);
    }
    i - from
}

fn digit_char_value(c: char) -> (r: Option<u64>)
    ensures
        r is Some <==> is_digit(c),
        r matches Some(d) ==> d == digit_value(c) && d < 10,
{
    if c == '0' {
        Some(0)
    } else if c == '1' {
        Some(1)
    } else if c == '2' {
        Some(2)
    } else if c == '3' {
        Some(3)
    } else if c == '4' {
        Some(4)
    } else if c == '5' {
        Some(5)
    } else if c == '6' {
        Some(6)
    } else if c == '7' {
        Some(7)
    } else if c == '8' {
        Some(8)
    } else if c == '9' {
        Some(9)
    } else {
        None
    }
}

proof fn lemma_value_grows(s: Seq<char>, a: int, b: int)
    requires
        0 <= a <= b <= s.len(),
    ensures
        digits_value(s.take(a)) <= digits_value(s.take(b)),
    decreases b - a,
{
    if a < b {
        lemma_value_grows(s, a, b - 1);
        assert(s.take(b).drop_last() =~= s.take(b - 1));
    }
}

/// Reads the digits `v[from..to]` as a number that is no larger than `max`.
fn read_digits(v: &Vec<char>, from: usize, to: usize, max: u64) -> (r: Option<u64>)
    requires
        from <= to <= v@.len(),
        max <= 0xffff_ffff,
    ensures
        match r {
            Some(n) => unsigned_of_digits(v@.subrange(from as int, to as int), max as int) == Some(
                n as int,
            ),
            None => unsigned_of_digits(v@.subrange(from as int, to as int), max as int) is None,
        },
{
    let ghost s = v@.subrange(from as int, to as int);
    if from == to {
        return None;
    }
    let mut n: u64 = 0;
    let mut i: usize = from;
    proof {
        assert(s.take(0) =~= Seq::<char>::empty());
    }
    while i < to
        invariant
            from <= i <= to <= v@.len(),
            s == v@.subrange(from as int, to as int),
            max <= 0xffff_ffff,
            all_digits(s.take(i - from)),
            n == digits_value(s.take(i - from)),
            n <= max,
        decreases to - i,
    {
        let ghost next = s.take(i - from + 1);
        proof {
            assert(next.drop_last() =~= s.take(i - from));
            assert(next.last() == v@[i as int]);
        }
        let d = match digit_char_value(v[i]) {
            Some(d) => d,
            None => {
                assert(!is_digit(s[i - from]));
                return None;
            },
        };
        let m = n * 10 + d;
        if m > max {
            proof {
                lemma_value_grows(s, i - from + 1, s.len() as int);
                assert(s.take(s.len() as int) =~= s);
            }
            return None;
        }
        n = m;
        proof {
            assert forall|k: int| 0 <= k < next.len() implies is_digit(#[trigger] next[k]) by {
                if k < i - from {
                    assert(next[k] == s.take(i - from)[k]);
                }
            }
        }
        i = i + 1;
    }
    proof {
        assert(s.take(s.len() as int) =~= s);
    }
    Some(n)
}

/// Reads `v[from..to]` as a number without a sign or with a `+`.
fn read_unsigned(v: &Vec<char>, from: usize, to: usize, max: u64) -> (r: Option<u64>)
    requires
        from <= to <= v@.len(),
        max <= 0xffff_ffff,
    ensures
        match r {
            Some(n) => unsigned_of(v@.subrange(from as int, to as int), max as int) == Some(n as int),
            None => unsigned_of(v@.subrange(from as int, to as int), max as int) is None,
        },
{
    let ghost s = v@.subrange(from as int, to as int);
    if from < to && v[from] == '+' {
        proof {
            assert(s[0] == '+');
            assert(s.skip(1) =~= v@.subrange(from + 1, to as int));
        }
        read_digits(v, from + 1, to, max)
    } else {
        proof {
            if s.len() > 0 {
                assert(s[0] == v@[from as int]);
            }
        }
        read_digits(v, from, to, max)
    }
}

/// Reads a text as a signed integer of 32 bits.
pub fn parse_i32(text: &str) -> (r: Option<i32>)
    ensures
        match r {
            Some(n) => signed_of(text@) == Some(n as int),
            None => signed_of(text@) is None,
        },
{
    let v = chars_of(text);
    let n = v.len();
    proof {
        assert(v@.subrange(0, n as int) =~= text@);
    }
    if n > 0 && v[0] == '-' {
        proof {
            assert(v@.subrange(1, n as int) =~= text@.skip(1));
        }
        match read_digits(&v, 1, n, 0x8000_0000) {
            Some(m) => {
                if m == 0x8000_0000 {
                    Some(i32::MIN)
                } else {
                    Some(-(m as i32))
                }
            },
            None => None,
        }
    } else {
        match read_unsigned(&v, 0, n, 0x7fff_ffff) {
            Some(m) => Some(m as i32),
            None => None,
        }
    }
}

fn resolution_in(v: &Vec<char>, from: usize, to: usize) -> (r: Result<Option<(u32, u32)>, ()>)
    requires
        from <= to <= v@.len(),
    ensures
        match r {
            Ok(Some(res)) => resolution_of(v@.subrange(from as int, to as int)) == Ok::<
                Option<(int, int)>,
                (),
            >(Some((res.0 as int, res.1 as int))) && res.0 > 0 && res.1 > 0,
            Ok(None) => resolution_of(v@.subrange(from as int, to as int)) == Ok::<
                Option<(int, int)>,
                (),
            >(None),
            Err(_) => resolution_of(v@.subrange(from as int, to as int)) is Err,
        },
{
    let (a, b) = trim_range(v, from, to);
    let ghost t = v@.subrange(a as int, b as int);
    if a == b {
        return Ok(None);
    }
    let x = find_first(v, a, b, 'x');
    if x >= b - a {
        return Err(());
    }
    proof {
        assert(t.take(x as int) =~= v@.subrange(a as int, a + x));
        assert(t.skip(x + 1) =~= v@.subrange(a + x + 1, b as int));
    }
    let (c, d) = trim_range(v, a + x + 1, b);
    let w = read_unsigned(v, a, a + x, 0xffff_ffff);
    let h = read_unsigned(v, c, d, 0xffff_ffff);
    match (w, h) {
        (Some(w), Some(h)) => {
            if w > 0 && h > 0 {
                let w32 = w as u32;
                let h32 = h as u32;
                let g = gcd_of(w32, h32);
                proof {
                    lemma_gcd(w as nat, h as nat);
                    let gi = g as int;
                    vstd::arithmetic::div_mod::lemma_fundamental_div_mod(w as int, gi);
                    vstd::arithmetic::div_mod::lemma_fundamental_div_mod(h as int, gi);
                    assert(w as int / gi > 0) by (nonlinear_arith)
                        requires
                            gi > 0,
                            w as int > 0,
                            w as int == gi * (w as int / gi) + 0,
                    ;
                    assert(h as int / gi > 0) by (nonlinear_arith)
                        requires
                            gi > 0,
                            h as int > 0,
                            h as int == gi * (h as int / gi) + 0,
                    ;
                }
                Ok(Some((w32 / g, h32 / g)))
            } else {
                Err(())
            }
        },
        _ => Err(()),
    }
}

/// Reads `<width>x<height>` as an aspect ratio in lowest terms.
pub fn parse_res(s: &str) -> (r: Result<Option<(u32, u32)>, ()>)
    ensures
        match r {
            Ok(Some(res)) => resolution_of(s@) == Ok::<Option<(int, int)>, ()>(
                Some((res.0 as int, res.1 as int)),
            ) && res.0 > 0 && res.1 > 0,
            Ok(None) => resolution_of(s@) == Ok::<Option<(int, int)>, ()>(None),
            Err(_) => resolution_of(s@) is Err,
        },
{
    let v = chars_of(s);
    proof {
        assert(v@.subrange(0, v@.len() as int) =~= s@);
    }
    resolution_in(&v, 0, v.len())
}

/// Reads the arguments of the install command: a path, and optionally
/// the aspect ratio to store the settings under.
pub fn parse_install(s: &str) -> (r: Result<(String, Option<(u32, u32)>), ()>)
    ensures
        match r {
            Ok((path, Some(res))) => install_of(s@) == Ok::<(Seq<char>, Option<(int, int)>), ()>(
                (path@, Some((res.0 as int, res.1 as int))),
            ),
            Ok((path, None)) => install_of(s@) == Ok::<(Seq<char>, Option<(int, int)>), ()>(
                (path@, None),
            ),
            Err(_) => install_of(s@) is Err,
        },
{
    let v = chars_of(s);
    proof {
        assert(v@.subrange(0, v@.len() as int) =~= s@);
    }
    let (a, b) = trim_range(&v, 0, v.len());
    let ghost t = v@.subrange(a as int, b as int);
    if a == b {
        return Err(());
    }
    let blank = find_first(&v, a, b, ' ');
    let mut whole = String::new();
    push_chars(&mut whole, &v, a, b);
    proof {
        assert(whole@ =~= t);
    }
    if blank >= b - a {
        return Ok((whole, None));
    }
    proof {
        assert(t.take(blank as int) =~= v@.subrange(a as int, a + blank));
        assert(t.skip(blank + 1) =~= v@.subrange(a + blank + 1, b as int));
    }
    let (c, d) = trim_range(&v, a + blank + 1, b);
    match resolution_in(&v, c, d) {
        Ok(res) => {
            let mut path = String::new();
            push_chars(&mut path, &v, a, a + blank);
            proof {
                assert(path@ =~= t.take(blank as int));
            }
            Ok((path, res))
        },
        Err(_) => Ok((whole, None)),
    }
}

/// What the user can ask of the interactive shell.
#[derive(Debug)]
pub enum Command {
    Vertical(Percent),
    Horizontal(Percent),
    Top(i32),
    Bottom(i32),
    Left(i32),
    Right(i32),
    Background(Colour),
    Denoise(i32),
    /// Install the image under a path, and store its settings, for one
    /// aspect ratio where one is given.
    Install(String, Option<(u32, u32)>),
    /// Store the settings, for one aspect ratio where one is given.
    Update(Option<(u32, u32)>),
    /// Back to the settings that the shell started with.
    Reset,
    /// Unset every setting.
    Clear,
    Help,
    Print,
    Exit,
    Invalid,
}

/// A command as plain values.
pub enum CommandView {
    Vertical(Seq<char>),
    Horizontal(Seq<char>),
    Top(i32),
    Bottom(i32),
    Left(i32),
    Right(i32),
    Background(Colour),
    Denoise(i32),
    Install(Seq<char>, Option<(u32, u32)>),
    Update(Option<(u32, u32)>),
    Reset,
    Clear,
    Help,
    Print,
    Exit,
    Invalid,
}

impl View for Command {
    type V = CommandView;

    open spec fn view(&self) -> CommandView {
        match self {
            Command::Vertical(p) => CommandView::Vertical(p@),
            Command::Horizontal(p) => CommandView::Horizontal(p@),
            Command::Top(v) => CommandView::Top(*v),
            Command::Bottom(v) => CommandView::Bottom(*v),
            Command::Left(v) => CommandView::Left(*v),
            Command::Right(v) => CommandView::Right(*v),
            Command::Background(c) => CommandView::Background(*c),
            Command::Denoise(v) => CommandView::Denoise(*v),
            Command::Install(p, r) => CommandView::Install(p@, *r),
            Command::Update(r) => CommandView::Update(*r),
            Command::Reset => CommandView::Reset,
            Command::Clear => CommandView::Clear,
            Command::Help => CommandView::Help,
            Command::Print => CommandView::Print,
            Command::Exit => CommandView::Exit,
            Command::Invalid => CommandView::Invalid,
        }
    }
}

/// The line as it is read: in lower case and without white space around it.
pub open spec fn command_line(s: Seq<char>) -> Seq<char> {
    trimmed(lower_text(s))
}

/// The first word of a line: the name of the command.
pub open spec fn command_word(s: Seq<char>) -> Seq<char> {
    command_line(s).take(first_of(command_line(s), ' '))
}

/// What follows the first word of a line, without white space around it.
pub open spec fn command_argument(s: Seq<char>) -> Seq<char> {
    let t = command_line(s);
    if first_of(t, ' ') >= t.len() {
        Seq::empty()
    } else {
        trimmed(t.skip(first_of(t, ' ') + 1))
    }
}

/// An aspect ratio as a command holds it.
pub open spec fn ratio(r: Option<(int, int)>) -> Option<(u32, u32)> {
    match r {
        Some(r) => Some((r.0 as u32, r.1 as u32)),
        None => None,
    }
}

/// The command that a word and its argument stand for. `number` is the
/// argument read as a number with a fraction, if it reads as one.
pub open spec fn command_of(word: Seq<char>, arg: Seq<char>, number: Option<Seq<char>>) -> CommandView {
    if word == "vertical"@ || word == "v"@ {
        match number {
            Some(f) => CommandView::Vertical(f),
            None => CommandView::Invalid,
        }
    } else if word == "horizontal"@ || word == "h"@ {
        match number {
            Some(f) => CommandView::Horizontal(f),
            None => CommandView::Invalid,
        }
    } else if word == "top"@ || word == "t"@ {
        match signed_of(arg) {
            Some(i) => CommandView::Top(i as i32),
            None => CommandView::Invalid,
        }
    } else if word == "bottom"@ || word == "b"@ {
        match signed_of(arg) {
            Some(i) => CommandView::Bottom(i as i32),
            None => CommandView::Invalid,
        }
    } else if word == "left"@ || word == "l"@ {
        match signed_of(arg) {
            Some(i) => CommandView::Left(i as i32),
            None => CommandView::Invalid,
        }
    } else if word == "right"@ || word == "r"@ {
        match signed_of(arg) {
            Some(i) => CommandView::Right(i as i32),
            None => CommandView::Invalid,
        }
    } else if word == "background"@ || word == "bg"@ {
        match colour_of(arg) {
            Some(c) => CommandView::Background(c),
            None => CommandView::Invalid,
        }
    } else if word == "install"@ {
        match install_of(arg) {
            Ok(i) => CommandView::Install(i.0, ratio(i.1)),
            Err(_) => CommandView::Invalid,
        }
    } else if word == "update"@ {
        match resolution_of(arg) {
            Ok(r) => CommandView::Update(ratio(r)),
            Err(_) => CommandView::Invalid,
        }
    } else if word == "denoise"@ || word == "d"@ {
        match signed_of(arg) {
            Some(i) => CommandView::Denoise(i as i32),
            None => CommandView::Invalid,
        }
    } else if word == "reset"@ {
        CommandView::Reset
    } else if word == "clear"@ {
        CommandView::Clear
    } else if word == "help"@ {
        CommandView::Help
    } else if word == "print"@ {
        CommandView::Print
    } else if word == "exit"@ {
        CommandView::Exit
    } else {
        CommandView::Invalid
    }
}

/// Whether a command changes what is shown, so that the wallpaper has to
/// be built again.
pub open spec fn rebuilds(c: CommandView) -> bool {
    match c {
        CommandView::Vertical(_) => true,
        CommandView::Horizontal(_) => true,
        CommandView::Top(_) => true,
        CommandView::Bottom(_) => true,
        CommandView::Left(_) => true,
        CommandView::Right(_) => true,
        CommandView::Background(_) => true,
        CommandView::Denoise(_) => true,
        CommandView::Reset => true,
        CommandView::Clear => true,
        _ => false,
    }
}

/// A number that is set unless it is zero.
pub open spec fn nonzero(v: i32) -> Option<i32> {
    if v != 0 {
        Some(v)
    } else {
        None
    }
}

/// The settings after a command. A value that asks for nothing unsets
/// its setting: zero for a translation or an inset, opaque black for the
/// background, 1 for the denoise level.
pub open spec fn applied(props: PropsView, c: CommandView, initial: PropsView) -> PropsView {
    match c {
        CommandView::Vertical(v) => PropsView {
            vertical: if is_zero_text(v) {
                None
            } else {
                Some(v)
            },
            ..props
        },
        CommandView::Horizontal(v) => PropsView {
            horizontal: if is_zero_text(v) {
                None
            } else {
                Some(v)
            },
            ..props
        },
        CommandView::Top(v) => PropsView { top: nonzero(v), ..props },
        CommandView::Bottom(v) => PropsView { bottom: nonzero(v), ..props },
        CommandView::Left(v) => PropsView { left: nonzero(v), ..props },
        CommandView::Right(v) => PropsView { right: nonzero(v), ..props },
        CommandView::Background(c) => PropsView {
            background: if c == spec_black() {
                None
            } else {
                Some(c)
            },
            ..props
        },
        CommandView::Denoise(v) => PropsView {
            denoise: if v != 1 {
                Some(v)
            } else {
                None
            },
            ..props
        },
        CommandView::Reset => initial.flat(),
        CommandView::Clear => PropsView {
            vertical: None,
            horizontal: None,
            top: None,
            bottom: None,
            left: None,
            right: None,
            background: None,
            denoise: None,
            nested: Seq::empty(),
        },
        _ => props,
    }
}

fn is_word(word: &String, name: &str) -> (r: bool)
    ensures
        r == (word@ == name@),
{
    *word == String::from_str(name)
}

/// The name of the command and its argument, as a line is taken apart.
pub fn split_command(s: &str) -> (r: (String, String))
    ensures
        r.0@ == command_word(s@),
        r.1@ == command_argument(s@),
{
    let raw = chars_of(s);
    let mut v: Vec<char> = Vec::new();
    let mut i: usize = 0;
    while i < raw.len()
        invariant
            i <= raw@.len(),
            v@.len() == i,
            forall|j: int| 0 <= j < i ==> #[trigger] v@[j] == lower(raw@[j]),
        decreases raw@.len() - i,
    {
        v.push(lower_of(raw[i]));
        i = i + 1;
    }
    proof {
        assert(v@ =~= lower_text(s@));
        assert(v@.subrange(0, v@.len() as int) =~= v@);
    }
    let (a, b) = trim_range(&v, 0, v.len());
    let ghost t = v@.subrange(a as int, b as int);
    let blank = find_first(&v, a, b, ' ');
    let mut word = String::new();
    push_chars(&mut word, &v, a, a + blank);
    proof {
        assert(word@ =~= t.take(blank as int));
    }
    let mut arg = String::new();
    if blank < b - a {
        proof {
            assert(t.skip(blank + 1) =~= v@.subrange(a + blank + 1, b as int));
        }
        let (c, d) = trim_range(&v, a + blank + 1, b);
        push_chars(&mut arg, &v, c, d);
        proof {
            assert(arg@ =~= v@.subrange(c as int, d as int));
        }
    }
    (word, arg)
}

impl Command {
    /// Reads a line as a command. `number` is the argument of the line
    /// read as a number with a fraction, where it reads as one.
    pub fn from(s: &str, number: Option<Percent>) -> (r: Command)
        ensures
            r@ == command_of(command_word(s@), command_argument(s@), percent_view(number)),
    {
        let (word, arg) = split_command(s);
        if is_word(&word, "vertical") || is_word(&word, "v") {
            match number {
                Some(f) => Command::Vertical(f),
                None => Command::Invalid,
            }
        } else if is_word(&word, "horizontal") || is_word(&word, "h") {
            match number {
                Some(f) => Command::Horizontal(f),
                None => Command::Invalid,
            }
        } else if is_word(&word, "top") || is_word(&word, "t") {
            match parse_i32(arg.as_str()) {
                Some(i) => Command::Top(i),
                None => Command::Invalid,
            }
        } else if is_word(&word, "bottom") || is_word(&word, "b") {
            match parse_i32(arg.as_str()) {
                Some(i) => Command::Bottom(i),
                None => Command::Invalid,
            }
        } else if is_word(&word, "left") || is_word(&word, "l") {
            match parse_i32(arg.as_str()) {
                Some(i) => Command::Left(i),
                None => Command::Invalid,
            }
        } else if is_word(&word, "right") || is_word(&word, "r") {
            match parse_i32(arg.as_str()) {
                Some(i) => Command::Right(i),
                None => Command::Invalid,
            }
        } else if is_word(&word, "background") || is_word(&word, "bg") {
            match string_to_colour(arg.as_str()) {
                Some(c) => Command::Background(c),
                None => Command::Invalid,
            }
        } else if is_word(&word, "install") {
            match parse_install(arg.as_str()) {
                Ok((path, res)) => Command::Install(path, res),
                Err(_) => Command::Invalid,
            }
        } else if is_word(&word, "update") {
            match parse_res(arg.as_str()) {
                Ok(res) => Command::Update(res),
                Err(_) => Command::Invalid,
            }
        } else if is_word(&word, "denoise") || is_word(&word, "d") {
            match parse_i32(arg.as_str()) {
                Some(i) => Command::Denoise(i),
                None => Command::Invalid,
            }
        } else if is_word(&word, "reset") {
            Command::Reset
        } else if is_word(&word, "clear") {
            Command::Clear
        } else if is_word(&word, "help") {
            Command::Help
        } else if is_word(&word, "print") {
            Command::Print
        } else if is_word(&word, "exit") {
            Command::Exit
        } else {
            Command::Invalid
        }
    }

    /// Whether the wallpaper has to be built again after the command.
    pub fn process(&self) -> (r: bool)
        ensures
            r == rebuilds(self@),
    {
        match self {
            Command::Vertical(_) => true,
            Command::Horizontal(_) => true,
            Command::Top(_) => true,
            Command::Bottom(_) => true,
            Command::Left(_) => true,
            Command::Right(_) => true,
            Command::Background(_) => true,
            Command::Denoise(_) => true,
            Command::Reset => true,
            Command::Clear => true,
            _ => false,
        }
    }

    /// Changes the settings as the command says. The commands that do
    /// not speak of settings change nothing.
    pub fn apply(&self, props: &mut ImageProperties, initial: &ImageProperties)
        requires
            old(props)@.nested.len() == 0,
        ensures
            final(props)@ == applied(old(props)@, self@, initial@),
            final(props)@.nested.len() == 0,
    {
        match self {
            Command::Vertical(v) => {
                props.vertical = if v.is_zero() {
                    None
                } else {
                    Some(v.clone())
                };
            },
            Command::Horizontal(v) => {
                props.horizontal = if v.is_zero() {
                    None
                } else {
                    Some(v.clone())
                };
            },
            Command::Top(v) => {
                props.top = crate::config::zero_is_none(*v);
            },
            Command::Bottom(v) => {
                props.bottom = crate::config::zero_is_none(*v);
            },
            Command::Left(v) => {
                props.left = crate::config::zero_is_none(*v);
            },
            Command::Right(v) => {
                props.right = crate::config::zero_is_none(*v);
            },
            Command::Background(c) => {
                props.background = if c.r == 0 && c.g == 0 && c.b == 0 && c.a == 0xff {
                    None
                } else {
                    Some(*c)
                };
            },
            Command::Denoise(v) => {
                props.denoise = if *v != 1 {
                    Some(*v)
                } else {
                    None
                };
            },
            Command::Reset => {
                *props = initial.clone();
            },
            Command::Clear => {
                *props = ImageProperties::default();
            },
            _ => {},
        }
        proof {
            assert(props@.nested =~= applied(old(props)@, self@, initial@).nested);
        }
    }
}

/// Why an image is not installed.
#[derive(Debug)]
pub enum Refusal {
    /// The image lies inside the originals directory already.
    AlreadyInstalled,
    /// The path to install to is absolute.
    NotRelative,
    /// The path leads out of the originals directory.
    Outside,
    /// The extension is not that of an image.
    BadExtension(String),
    /// The path names no directory to install into.
    NoDirectory,
    /// The extension asked for is not that of the image.
    ExtensionMismatch(String),
    /// Neither the image nor the path has an extension.
    NoExtension,
}

/// Where an image is installed, as far as the paths alone can tell.
#[derive(Debug)]
pub enum InstallPlan {
    Refused(Refusal),
    /// To this path.
    Exact(String),
    /// Into a directory, under the next number of the originals in it.
    InDirectory { dir: String, extension: String },
    /// Into a directory, under a prefix and the next number after it.
    Wildcard { dir: String, prefix: String, extension: String },
    /// Into a directory, after the one sequence of originals whose names
    /// begin with a text.
    Prefix { dir: String, prefix: String, extension: String },
}

/// An install plan as plain values.
pub enum PlanView {
    AlreadyInstalled,
    NotRelative,
    Outside,
    BadExtension(Seq<char>),
    NoDirectory,
    ExtensionMismatch(Seq<char>),
    NoExtension,
    Exact(Seq<char>),
    InDirectory(Seq<char>, Seq<char>),
    Wildcard(Seq<char>, Seq<char>, Seq<char>),
    Prefix(Seq<char>, Seq<char>, Seq<char>),
}

impl View for InstallPlan {
    type V = PlanView;

    open spec fn view(&self) -> PlanView {
        match self {
            InstallPlan::Refused(Refusal::AlreadyInstalled) => PlanView::AlreadyInstalled,
            InstallPlan::Refused(Refusal::NotRelative) => PlanView::NotRelative,
            InstallPlan::Refused(Refusal::Outside) => PlanView::Outside,
            InstallPlan::Refused(Refusal::BadExtension(e)) => PlanView::BadExtension(e@),
            InstallPlan::Refused(Refusal::NoDirectory) => PlanView::NoDirectory,
            InstallPlan::Refused(Refusal::ExtensionMismatch(e)) => PlanView::ExtensionMismatch(e@),
            InstallPlan::Refused(Refusal::NoExtension) => PlanView::NoExtension,
            InstallPlan::Exact(p) => PlanView::Exact(p@),
            InstallPlan::InDirectory { dir, extension } => PlanView::InDirectory(dir@, extension@),
            InstallPlan::Wildcard { dir, prefix, extension } => PlanView::Wildcard(
                dir@,
                prefix@,
                extension@,
            ),
            InstallPlan::Prefix { dir, prefix, extension } => PlanView::Prefix(
                dir@,
                prefix@,
                extension@,
            ),
        }
    }
}

/// The plan for an image without a path extension to go by: the path
/// names a directory, a prefix with `*`, or the beginning of a sequence.
pub open spec fn numbering_plan(dest: Seq<char>, e: Seq<char>, dest_is_dir: bool) -> PlanView {
    if !has_leaf(dest) || leaf(dest) == seq!['*'] {
        match parent_of(dest) {
            Some(dir) => PlanView::InDirectory(dir, e),
            None => PlanView::NoDirectory,
        }
    } else if dest_is_dir {
        PlanView::InDirectory(dest, e)
    } else if dest.last() == '*' {
        match parent_of(dest) {
            Some(dir) => PlanView::Wildcard(dir, leaf(dest).drop_last(), e),
            None => PlanView::NoDirectory,
        }
    } else {
        match parent_of(dest) {
            Some(dir) => PlanView::Prefix(dir, leaf(dest), e),
            None => PlanView::NoDirectory,
        }
    }
}

/// Where the image `original` is installed when the user asks for the
/// path `rel` below the originals directory. An extension `*` stands for
/// that of the image; a path without an extension asks for a number.
pub open spec fn plan_of(
    originals: Seq<char>,
    rel: Seq<char>,
    original: Seq<char>,
    dest_is_dir: bool,
) -> PlanView {
    let dest = normalized(joined(originals, rel));
    if below(original, originals) {
        PlanView::AlreadyInstalled
    } else if rel.len() > 0 && rel[0] == '/' {
        PlanView::NotRelative
    } else if !below(dest, originals) {
        PlanView::Outside
    } else {
        match (extension_lower(dest), extension_lower(original)) {
            (Some(a), Some(b)) => if a == seq!['*'] && is_image_extension(b) {
                PlanView::Exact(dest.drop_last() + b)
            } else if !is_image_extension(b) {
                PlanView::BadExtension(b)
            } else if a == b {
                PlanView::Exact(dest)
            } else {
                PlanView::ExtensionMismatch(b)
            },
            (None, Some(b)) => if !is_image_extension(b) {
                PlanView::BadExtension(b)
            } else {
                numbering_plan(dest, b, dest_is_dir)
            },
            (Some(a), None) => if !is_image_extension(a) {
                PlanView::BadExtension(a)
            } else {
                PlanView::Exact(dest)
            },
            (None, None) => PlanView::NoExtension,
        }
    }
}

fn is_star(s: &String) -> (r: bool)
    ensures
        r == (s@ == seq!['*']),
{
    let v = chars_of(s.as_str());
    if v.len() == 1 && v[0] == '*' {
        assert(s@ =~= seq!['*']);
        true
    } else {
        proof {
            if s@ == seq!['*'] {
                assert(s@.len() == 1 && s@[0] == '*');
            }
        }
        false
    }
}

fn numbering(dest: String, e: String, dest_is_dir: bool) -> (r: InstallPlan)
    ensures
        r@ == numbering_plan(dest@, e@, dest_is_dir),
{
    let name = file_name(dest.as_str());
    let no_name = match &name {
        Some(n) => is_star(n),
        None => true,
    };
    if no_name {
        return match parent(dest.as_str()) {
            Some(dir) => InstallPlan::InDirectory { dir, extension: e },
            None => InstallPlan::Refused(Refusal::NoDirectory),
        };
    }
    if dest_is_dir {
        return InstallPlan::InDirectory { dir: dest, extension: e };
    }
    let v = chars_of(dest.as_str());
    let name = match name {
        Some(n) => n,
        None => String::new(),
    };
    if v.len() > 0 && v[v.len() - 1] == '*' {
        let nv = chars_of(name.as_str());
        let mut prefix = String::new();
        proof {
            crate::paths::lemma_last_slash(dest@);
        }
        push_chars(&mut prefix, &nv, 0, nv.len() - 1);
        proof {
            assert(prefix@ =~= leaf(dest@).drop_last());
        }
        match parent(dest.as_str()) {
            Some(dir) => InstallPlan::Wildcard { dir, prefix, extension: e },
            None => InstallPlan::Refused(Refusal::NoDirectory),
        }
    } else {
        match parent(dest.as_str()) {
            Some(dir) => InstallPlan::Prefix { dir, prefix: name, extension: e },
            None => InstallPlan::Refused(Refusal::NoDirectory),
        }
    }
}

/// Decides where an image is installed. `dest_is_dir` says whether the
/// path asked for, below the originals directory and normalized, is a
/// directory.
pub fn install_plan(originals: &str, rel: &str, original: &str, dest_is_dir: bool) -> (r:
    InstallPlan)
    ensures
        r@ == plan_of(originals@, rel@, original@, dest_is_dir),
{
    if starts_with(original, originals) {
        return InstallPlan::Refused(Refusal::AlreadyInstalled);
    }
    if rel.unicode_len() > 0 && rel.get_char(0) == '/' {
        return InstallPlan::Refused(Refusal::NotRelative);
    }
    let dest = install_destination(originals, rel);
    if !starts_with(dest.as_str(), originals) {
        return InstallPlan::Refused(Refusal::Outside);
    }
    let a = extension(dest.as_str());
    let b = extension(original);
    match (a, b) {
        (Some(a), Some(b)) => {
            if is_star(&a) && valid_extension(b.as_str()) {
                let v = chars_of(dest.as_str());
                let mut to = String::new();
                proof {
                    lemma_extension_in_path(dest@);
                }
                push_chars(&mut to, &v, 0, v.len() - 1);
                push_str(&mut to, b.as_str());
                proof {
                    assert(to@ =~= dest@.drop_last() + b@);
                }
                InstallPlan::Exact(to)
            } else if !valid_extension(b.as_str()) {
                InstallPlan::Refused(Refusal::BadExtension(b))
            } else if a == b {
                InstallPlan::Exact(dest)
            } else {
                InstallPlan::Refused(Refusal::ExtensionMismatch(b))
            }
        },
        (None, Some(b)) => {
            if !valid_extension(b.as_str()) {
                InstallPlan::Refused(Refusal::BadExtension(b))
            } else {
                numbering(dest, b, dest_is_dir)
            }
        },
        (Some(a), None) => {
            if !valid_extension(a.as_str()) {
                InstallPlan::Refused(Refusal::BadExtension(a))
            } else {
                InstallPlan::Exact(dest)
            }
        },
        (None, None) => InstallPlan::Refused(Refusal::NoExtension),
    }
}

/// The path asked for, below the originals directory and normalized.
pub fn install_destination(originals: &str, rel: &str) -> (r: String)
    ensures
        r@ == normalized(joined(originals@, rel@)),
{
    let joined_path = join(originals, rel);
    normalize_path(joined_path.as_str())
}

/// A path whose file has an extension is not empty.
proof fn lemma_extension_in_path(path: Seq<char>)
    requires
        extension_lower(path) is Some,
    ensures
        path.len() > 0,
{
    crate::paths::lemma_last_slash(path);
}

/// The lines that the user entered last, the newest first.
pub struct ConsoleHistory {
    max: usize,
    history: VecDeque<String>,
}

impl View for ConsoleHistory {
    type V = Seq<Seq<char>>;

    closed spec fn view(&self) -> Seq<Seq<char>> {
        Seq::new(self.history@.len(), |i: int| self.history@[i]@)
    }
}

impl ConsoleHistory {
    /// The number of lines that are kept at most.
    pub closed spec fn limit(&self) -> nat {
        self.max as nat
    }

    /// The history holds no more lines than it keeps, and keeps at least one.
    pub closed spec fn wf(&self) -> bool {
        self.max > 0 && self.history@.len() <= self.max
    }

    /// An empty history that keeps 128 lines.
    pub fn new() -> (r: ConsoleHistory)
        ensures
            r.wf(),
            r@.len() == 0,
            r.limit() == 128,
    {
        ConsoleHistory { max: 128, history: VecDeque::new() }
    }

    /// The line that was entered `pos` lines ago.
    pub fn read(&self, pos: usize) -> (r: Option<String>)
        ensures
            r is Some <==> pos < self@.len(),
            r matches Some(line) ==> line@ == self@[pos as int],
    {
        if pos < self.history.len() {
            Some(self.history[pos].clone())
        } else {
            None
        }
    }

    /// Remembers a line. A full history forgets its oldest line for it.
    pub fn write(&mut self, line: String)
        requires
            old(self).wf(),
        ensures
            final(self).wf(),
            final(self).limit() == old(self).limit(),
            final(self)@ == seq![line@] + (if old(self)@.len() == old(self).limit() {
                old(self)@.drop_last()
            } else {
                old(self)@
            }),
    {
        if self.history.len() == self.max {
            self.history.pop_back();
        }
        self.history.push_front(line);
        proof {
            assert(self@ =~= seq![line@] + (if old(self)@.len() == old(self).limit() {
                old(self)@.drop_last()
            } else {
                old(self)@
            }));
        }
    }
}

} // verus!
