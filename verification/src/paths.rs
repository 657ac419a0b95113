//! Paths as texts whose components are separated by `/`.

use vstd::prelude::*;
use vstd::string::*;
use crate::text::{chars_of, push_char, push_chars, push_str};

verus! {

/// `rel` below `base`: an absolute `rel` stands for itself, and a
/// separator is put between the two unless `base` is empty or ends in one.
pub open spec fn joined(base: Seq<char>, rel: Seq<char>) -> Seq<char> {
    if rel.len() > 0 && rel[0] == '/' {
        rel
    } else if base.len() == 0 || base.last() == '/' {
        base + rel
    } else {
        base + seq!['/'] + rel
    }
}

/// The index of the last separator in `s`, or -1 if there is none.
pub open spec fn last_slash(s: Seq<char>) -> int
    decreases s.len(),
{
    if s.len() == 0 {
        -1
    } else if s.last() == '/' {
        s.len() - 1
    } else {
        last_slash(s.drop_last())
    }
}

/// What follows the last separator: the file name of a path that ends in one.
pub open spec fn leaf(s: Seq<char>) -> Seq<char> {
    s.skip(last_slash(s) + 1)
}

/// The path ends in a file name: its leaf is not empty, `.` or `..`.
pub open spec fn has_leaf(s: Seq<char>) -> bool {
    leaf(s).len() > 0 && leaf(s) != seq!['.'] && leaf(s) != seq!['.', '.']
}

/// What precedes the leaf, without the separator between the two; the root
/// alone where the leaf stands directly below it. `None` for a path
/// without a leaf.
pub open spec fn parent_of(s: Seq<char>) -> Option<Seq<char>> {
    if leaf(s).len() == 0 {
        None
    } else if last_slash(s) == 0 {
        Some(seq!['/'])
    } else if last_slash(s) < 0 {
        Some(Seq::empty())
    } else {
        Some(s.take(last_slash(s)))
    }
}

/// `s` is `base` or lies below it, component by component.
pub open spec fn below(s: Seq<char>, base: Seq<char>) -> bool {
    &&& base.len() <= s.len()
    &&& s.take(base.len() as int) == base
    &&& (s.len() == base.len() || base.len() == 0 || base.last() == '/' || s[base.len() as int]
        == '/')
}

/// What is left of `s` below `base`, without a separator in front.
pub open spec fn rest_below(s: Seq<char>, base: Seq<char>) -> Seq<char> {
    if s.len() > base.len() && s[base.len() as int] == '/' && base.len() > 0 && base.last()
        != '/' {
        s.skip(base.len() as int + 1)
    } else {
        s.skip(base.len() as int)
    }
}

/// A component starts at `i`: at the beginning, or right after a separator.
pub open spec fn starts_component(s: Seq<char>, i: int) -> bool {
    0 <= i < s.len() && (i == 0 || s[i - 1] == '/')
}

/// A component ends before `i`: at the end, or right before a separator.
pub open spec fn ends_component(s: Seq<char>, i: int) -> bool {
    0 <= i <= s.len() && (i == s.len() || s[i] == '/')
}

/// A relative path of ordinary names: not empty, no separator in front or
/// at the end, no empty component, and no component `.` or `..`.
pub open spec fn is_rel_path(s: Seq<char>) -> bool {
    &&& s.len() > 0
    &&& s[0] != '/'
    &&& s.last() != '/'
    &&& forall|i: int| 0 < i < s.len() && #[trigger] s[i] == '/' ==> s[i - 1] != '/'
    &&& forall|i: int| #[trigger]
        starts_component(s, i) && s[i] == '.' ==> !ends_component(s, i + 1) && !(i + 1 < s.len()
            && s[i + 1] == '.' && ends_component(s, i + 2))
}

/// The last separator is a separator, and no separator follows it.
pub proof fn lemma_last_slash(s: Seq<char>)
    ensures
        -1 <= last_slash(s) < s.len(),
        last_slash(s) >= 0 ==> s[last_slash(s)] == '/',
        forall|i: int| last_slash(s) < i < s.len() ==> #[trigger] s[i] != '/',
    decreases s.len(),
{
    if s.len() > 0 && s.last() != '/' {
        lemma_last_slash(s.drop_last());
        assert forall|i: int| last_slash(s) < i < s.len() implies #[trigger] s[i] != '/' by {
            if i < s.len() - 1 {
                assert(s.drop_last()[i] == s[i]);
            }
        }
    }
}

/// The last separator is the one index that holds a separator with none after it.
pub proof fn lemma_last_slash_is(s: Seq<char>, k: int)
    requires
        -1 <= k < s.len(),
        k >= 0 ==> s[k] == '/',
        forall|i: int| k < i < s.len() ==> #[trigger] s[i] != '/',
    ensures
        last_slash(s) == k,
{
    lemma_last_slash(s);
}

fn find_last_slash(v: &Vec<char>) -> (r: Option<usize>)
    ensures
        match r {
            Some(k) => k as int == last_slash(v@),
            None => last_slash(v@) == -1,
        },
{
    let mut i: usize = v.len();
    while i > 0
        invariant
            i <= v@.len(),
            forall|j: int| i <= j < v@.len() ==> #[trigger] v@[j] != '/',
        decreases i,
    {
        i = i - 1;
        if v[i] == '/' {
            proof {
                lemma_last_slash_is(v@, i as int);
            }
            return Some(i);
        }
    }
    proof {
        lemma_last_slash_is(v@, -1);
    }
    None
}

/// Joins two paths as `joined` says.
pub fn join(base: &str, rel: &str) -> (r: String)
    ensures
        r@ == joined(base@, rel@),
{
    let b = chars_of(base);
    let n = rel.unicode_len();
    if n > 0 && rel.get_char(0) == '/' {
        return String::from_str(rel);
    }
    let mut r = String::from_str(base);
    if b.len() > 0 && b[b.len() - 1] != '/' {
        push_char(&mut r, '/');
    }
    push_str(&mut r, rel);
    r
}

/// The file name a path ends in, if it ends in one.
pub fn file_name(p: &str) -> (r: Option<String>)
    ensures
        r is Some <==> has_leaf(p@),
        r matches Some(name) ==> name@ == leaf(p@),
{
    let v = chars_of(p);
    let len = v.len();
    proof {
        lemma_last_slash(v@);
    }
    let start: usize = match find_last_slash(&v) {
        Some(k) => k + 1,
        None => 0,
    };
    let n = len - start;
    proof {
        lemma_last_slash(v@);
        assert(leaf(p@) =~= v@.subrange(start as int, v@.len() as int));
    }
    if n == 0 {
        return None;
    }
    if n == 1 && v[start] == '.' {
        assert(leaf(p@) =~= seq!['.']);
        return None;
    }
    if n == 2 && v[start] == '.' && v[start + 1] == '.' {
        assert(leaf(p@) =~= seq!['.', '.']);
        return None;
    }
    let mut r = String::new();
    push_chars(&mut r, &v, start, v.len());
    proof {
        assert(r@ =~= leaf(p@));
        if leaf(p@) == seq!['.'] {
            assert(leaf(p@).len() == 1 && leaf(p@)[0] == '.');
        }
        if leaf(p@) == seq!['.', '.'] {
            assert(leaf(p@).len() == 2 && leaf(p@)[0] == '.' && leaf(p@)[1] == '.');
        }
    }
    Some(r)
}

/// The directory that holds the leaf of a path.
pub fn parent(p: &str) -> (r: Option<String>)
    ensures
        match r {
            Some(d) => parent_of(p@) == Some(d@),
            None => parent_of(p@) is None,
        },
{
    let v = chars_of(p);
    let len = v.len();
    proof {
        lemma_last_slash(v@);
    }
    match find_last_slash(&v) {
        Some(k) => {
            if k + 1 == len {
                assert(leaf(p@).len() == 0);
                None
            } else if k == 0 {
                let mut r = String::new();
                push_char(&mut r, '/');
                assert(r@ =~= seq!['/']);
                Some(r)
            } else {
                let mut r = String::new();
                push_chars(&mut r, &v, 0, k);
                assert(r@ =~= p@.take(k as int));
                Some(r)
            }
        },
        None => {
            if v.len() == 0 {
                None
            } else {
                let r = String::new();
                Some(r)
            }
        },
    }
}

/// Whether `p` is `base` or lies below it.
#[verifier::loop_isolation(false)]
pub fn starts_with(p: &str, base: &str) -> (r: bool)
    ensures
        r == below(p@, base@),
{
    let v = chars_of(p);
    let b = chars_of(base);
    if b.len() > v.len() {
        return false;
    }
    let mut i: usize = 0;
    while i < b.len()
        invariant
            i <= b@.len() <= v@.len(),
            forall|j: int| 0 <= j < i ==> #[trigger] v@[j] == b@[j],
        decreases b@.len() - i,
    {
        if v[i] != b[i] {
            assert(v@.take(b@.len() as int)[i as int] != b@[i as int]);
            return false;
        }
        i = i + 1;
    }
    assert(v@.take(b@.len() as int) =~= b@);
    v.len() == b.len() || b.len() == 0 || b[b.len() - 1] == '/' || v[b.len()] == '/'
}

/// The part of `p` below `base`, or `None` where `p` does not lie below it.
pub fn strip_prefix(p: &str, base: &str) -> (r: Option<String>)
    ensures
        r is Some <==> below(p@, base@),
        r matches Some(rest) ==> rest@ == rest_below(p@, base@),
{
    if !starts_with(p, base) {
        return None;
    }
    let v = chars_of(p);
    let b = chars_of(base);
    let start: usize = if v.len() > b.len() && v[b.len()] == '/' && b.len() > 0 && b[b.len() - 1]
        != '/' {
        b.len() + 1
    } else {
        b.len()
    };
    let mut r = String::new();
    push_chars(&mut r, &v, start, v.len());
    assert(r@ =~= rest_below(p@, base@));
    Some(r)
}

/// Whether `p` is a relative path of ordinary names.
#[verifier::loop_isolation(false)]
pub fn is_relative(p: &str) -> (r: bool)
    ensures
        r == is_rel_path(p@),
{
    let v = chars_of(p);
    let n = v.len();
    if n == 0 || v[0] == '/' || v[n - 1] == '/' {
        return false;
    }
    let mut i: usize = 0;
    while i < n
        invariant
            i <= n,
            n == v@.len(),
            forall|k: int| 0 < k < i && #[trigger] v@[k] == '/' ==> v@[k - 1] != '/',
            forall|k: int| #[trigger]
                starts_component(v@, k) && k < i && v@[k] == '.' ==> !ends_component(v@, k + 1)
                    && !(k + 1 < v@.len() && v@[k + 1] == '.' && ends_component(v@, k + 2)),
        decreases n - i,
    {
        if i > 0 && v[i] == '/' && v[i - 1] == '/' {
            return false;
        }
        if (i == 0 || v[i - 1] == '/') && v[i] == '.' {
            assert(starts_component(v@, i as int));
            if i + 1 == n || v[i + 1] == '/' {
                assert(ends_component(v@, i + 1));
                return false;
            }
            if v[i + 1] == '.' && (i + 2 == n || v[i + 2] == '/') {
                assert(ends_component(v@, i + 2));
                return false;
            }
        }
        i = i + 1;
    }
    true
}

/// The last separator of two texts put together is that of the second,
/// and that of the first where the second has none.
pub proof fn lemma_last_slash_concat(x: Seq<char>, y: Seq<char>)
    ensures
        last_slash(x + y) == (if last_slash(y) >= 0 {
            x.len() + last_slash(y)
        } else {
            last_slash(x)
        }),
        leaf(x + y) == (if last_slash(y) >= 0 {
            leaf(y)
        } else {
            leaf(x) + y
        }),
{
    let z = x + y;
    let k = if last_slash(y) >= 0 {
        x.len() + last_slash(y)
    } else {
        last_slash(x)
    };
    lemma_last_slash(x);
    lemma_last_slash(y);
    assert forall|i: int| k < i < z.len() implies #[trigger] z[i] != '/' by {
        if i < x.len() {
            assert(z[i] == x[i]);
        } else {
            assert(z[i] == y[i - x.len()]);
        }
    }
    if k >= 0 {
        if last_slash(y) >= 0 {
            assert(z[k] == y[last_slash(y)]);
        } else {
            assert(z[k] == x[k]);
        }
    }
    lemma_last_slash_is(z, k);
    if last_slash(y) >= 0 {
        assert(z.skip(k + 1) =~= y.skip(last_slash(y) + 1));
    } else {
        assert(z.skip(k + 1) =~= x.skip(last_slash(x) + 1) + y);
    }
}

/// The file name of a relative path stays its file name below any directory.
pub proof fn lemma_leaf_joined(base: Seq<char>, rel: Seq<char>)
    requires
        rel.len() > 0,
        rel[0] != '/',
    ensures
        leaf(joined(base, rel)) == leaf(rel),
{
    lemma_last_slash(rel);
    let head = if base.len() == 0 || base.last() == '/' {
        base
    } else {
        base + seq!['/']
    };
    assert(joined(base, rel) =~= head + rel);
    lemma_last_slash_concat(head, rel);
    if last_slash(rel) < 0 {
        if head.len() > 0 {
            lemma_last_slash_is(head, head.len() - 1);
        }
        assert(leaf(head) =~= Seq::<char>::empty());
        assert(leaf(head) + rel =~= rel);
        assert(leaf(rel) =~= rel);
    }
}

/// A text without a separator is its own file name.
pub proof fn lemma_leaf_of_name(name: Seq<char>)
    requires
        forall|i: int| 0 <= i < name.len() ==> #[trigger] name[i] != '/',
    ensures
        last_slash(name) == -1,
        leaf(name) == name,
{
    lemma_last_slash_is(name, -1);
    assert(name.skip(0) =~= name);
}

} // verus!
