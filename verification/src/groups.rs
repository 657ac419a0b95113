//! Grouping by equal keys: displays that show the same wallpaper, and
//! displays that want the same final file.

use vstd::prelude::*;
use vstd::string::*;
use crate::ids::OriginalWallpaperID;

verus! {

/// The texts of a list of strings.
pub open spec fn key_texts(v: Seq<String>) -> Seq<Seq<char>> {
    Seq::new(v.len(), |i: int| v[i]@)
}

/// The key at `i` does not occur before `i`.
pub open spec fn is_first(keys: Seq<Seq<char>>, i: int) -> bool {
    0 <= i < keys.len() && forall|j: int| 0 <= j < i ==> #[trigger] keys[j] != keys[i]
}

/// The indices below `n` at which a key occurs for the first time, in order.
pub open spec fn firsts(keys: Seq<Seq<char>>, n: int) -> Seq<usize>
    decreases n,
{
    if n <= 0 {
        Seq::empty()
    } else if is_first(keys, n - 1) {
        firsts(keys, n - 1).push((n - 1) as usize)
    } else {
        firsts(keys, n - 1)
    }
}

/// The indices below `n` at which `key` occurs, in order.
pub open spec fn positions(keys: Seq<Seq<char>>, key: Seq<char>, n: int) -> Seq<usize>
    decreases n,
{
    if n <= 0 {
        Seq::empty()
    } else if keys[n - 1] == key {
        positions(keys, key, n - 1).push((n - 1) as usize)
    } else {
        positions(keys, key, n - 1)
    }
}

/// A key and the indices at which it occurs.
#[derive(Debug)]
pub struct Group {
    pub key: String,
    pub members: Vec<usize>,
}

/// The group is the one for the key that is the `g`-th to occur:
/// it carries that key, and every index at which the key occurs.
pub open spec fn is_group(group: Group, keys: Seq<Seq<char>>, g: int) -> bool {
    let first = firsts(keys, keys.len() as int)[g] as int;
    &&& 0 <= first < keys.len()
    &&& group.key@ == keys[first]
    &&& group.members@ == positions(keys, keys[first], keys.len() as int)
}

fn first_indices(keys: &Vec<String>) -> (r: Vec<usize>)
    ensures
        r@ == firsts(key_texts(keys@), keys@.len() as int),
        forall|g: int| 0 <= g < r@.len() ==> #[trigger] r@[g] < keys@.len(),
{
    let mut r: Vec<usize> = Vec::new();
    let mut i: usize = 0;
    while i < keys.len()
        invariant
            i <= keys@.len(),
            r@ == firsts(key_texts(keys@), i as int),
            forall|g: int| 0 <= g < r@.len() ==> #[trigger] r@[g] < i,
        decreases keys@.len() - i,
    {
        let mut seen = false;
        let mut j: usize = 0;
        while j < i
            invariant
                j <= i < keys@.len(),
                seen == exists|k: int| 0 <= k < j && #[trigger] key_texts(keys@)[k] == key_texts(keys@)[i as int],
            decreases i - j,
        {
            if keys[j] == keys[i] {
                assert(key_texts(keys@)[j as int] == key_texts(keys@)[i as int]);
                seen = true;
            }
            j = j + 1;
        }
        if !seen {
            assert(is_first(key_texts(keys@), i as int));
            r.push(i);
        } else {
            assert(!is_first(key_texts(keys@), i as int));
        }
        i = i + 1;
    }
    r
}

fn positions_of(keys: &Vec<String>, key: &String) -> (r: Vec<usize>)
    ensures
        r@ == positions(key_texts(keys@), key@, keys@.len() as int),
{
    let mut r: Vec<usize> = Vec::new();
    let mut i: usize = 0;
    while i < keys.len()
        invariant
            i <= keys@.len(),
            r@ == positions(key_texts(keys@), key@, i as int),
        decreases keys@.len() - i,
    {
        assert(key_texts(keys@)[i as int] == keys@[i as int]@);
        if keys[i] == *key {
            r.push(i);
        }
        i = i + 1;
    }
    r
}

/// One group for each key, in the order in which the keys first occur,
/// each with every index at which its key occurs.
pub fn group_equal(keys: &Vec<String>) -> (r: Vec<Group>)
    ensures
        r@.len() == firsts(key_texts(keys@), keys@.len() as int).len(),
        forall|g: int| 0 <= g < r@.len() ==> is_group(#[trigger] r@[g], key_texts(keys@), g),
{
    let heads = first_indices(keys);
    let mut r: Vec<Group> = Vec::new();
    let mut g: usize = 0;
    while g < heads.len()
        invariant
            g <= heads@.len(),
            heads@ == firsts(key_texts(keys@), keys@.len() as int),
            forall|k: int| 0 <= k < heads@.len() ==> #[trigger] heads@[k] < keys@.len(),
            r@.len() == g,
            forall|k: int|
                0 <= k < g ==> (#[trigger] r@[k]).key@ == keys@[heads@[k] as int]@ && r@[k].members@
                    == positions(key_texts(keys@), keys@[heads@[k] as int]@, keys@.len() as int),
        decreases heads@.len() - g,
    {
        let first = heads[g];
        assert(heads@[g as int] < keys@.len());
        let key = keys[first].clone();
        let members = positions_of(keys, &key);
        r.push(Group { key, members });
        g = g + 1;
    }
    r
}

/// A group holds the indices of its key and no others.
pub proof fn lemma_positions(keys: Seq<Seq<char>>, key: Seq<char>, n: int)
    requires
        0 <= n <= keys.len(),
        n <= usize::MAX,
    ensures
        forall|k: int|
            0 <= k < positions(keys, key, n).len() ==> #[trigger] positions(keys, key, n)[k] < n
                && keys[positions(keys, key, n)[k] as int] == key,
        forall|i: int|
            0 <= i < n && #[trigger] keys[i] == key ==> positions(keys, key, n).contains(
                i as usize,
            ),
    decreases n,
{
    if n > 0 {
        lemma_positions(keys, key, n - 1);
        let was = positions(keys, key, n - 1);
        let now = positions(keys, key, n);
        assert forall|k: int| 0 <= k < now.len() implies #[trigger] now[k] < n && keys[now[k] as int]
            == key by {
            if k < was.len() {
                assert(now[k] == was[k]);
            }
        }
        assert forall|i: int| 0 <= i < n && #[trigger] keys[i] == key implies now.contains(
            i as usize,
        ) by {
            if i < n - 1 {
                let k = choose|k: int| 0 <= k < was.len() && was[k] == i as usize;
                assert(now[k] == i as usize);
            } else {
                assert(now[now.len() - 1] == i as usize);
            }
        }
    }
}

/// The groups stand for first occurrences, no two of them for the same
/// key, and every key that occurs has one.
pub proof fn lemma_firsts(keys: Seq<Seq<char>>, n: int)
    requires
        0 <= n <= keys.len(),
        n <= usize::MAX,
    ensures
        forall|g: int|
            0 <= g < firsts(keys, n).len() ==> #[trigger] firsts(keys, n)[g] < n && is_first(
                keys,
                firsts(keys, n)[g] as int,
            ),
        forall|g: int, h: int|
            0 <= g < h < firsts(keys, n).len() ==> keys[#[trigger] firsts(keys, n)[g] as int]
                != keys[#[trigger] firsts(keys, n)[h] as int],
        forall|i: int|
            0 <= i < n ==> exists|g: int|
                0 <= g < firsts(keys, n).len() && keys[#[trigger] firsts(keys, n)[g] as int]
                    == #[trigger] keys[i],
    decreases n,
{
    if n > 0 {
        lemma_firsts(keys, n - 1);
        let f0 = firsts(keys, n - 1);
        let f1 = firsts(keys, n);
        assert forall|g: int| 0 <= g < f1.len() implies #[trigger] f1[g] < n && is_first(
            keys,
            f1[g] as int,
        ) by {
            if g < f0.len() {
                assert(f1[g] == f0[g]);
            }
        }
        assert forall|g: int, h: int| 0 <= g < h < f1.len() implies keys[#[trigger] f1[g] as int]
            != keys[#[trigger] f1[h] as int] by {
            assert(f1[g] == f0[g]);
            if h < f0.len() {
                assert(f1[h] == f0[h]);
            } else {
                assert(f1[h] == n - 1);
                assert(is_first(keys, n - 1));
                assert(f0[g] < n - 1);
            }
        }
        assert forall|i: int| 0 <= i < n implies exists|g: int|
            0 <= g < f1.len() && keys[#[trigger] f1[g] as int] == #[trigger] keys[i] by {
            if i < n - 1 {
                let g = choose|g: int|
                    0 <= g < f0.len() && keys[#[trigger] f0[g] as int] == keys[i];
                assert(f1[g] == f0[g]);
            } else {
                if is_first(keys, n - 1) {
                    assert(f1[f1.len() - 1] == n - 1);
                } else {
                    let j = choose|j: int| 0 <= j < n - 1 && #[trigger] keys[j] == keys[n - 1];
                    let g = choose|g: int|
                        0 <= g < f0.len() && keys[#[trigger] f0[g] as int] == keys[j];
                    assert(f1[g] == f0[g]);
                }
            }
        }
    }
}

/// The paths of a list of wallpapers.
pub open spec fn id_texts(v: Seq<OriginalWallpaperID>) -> Seq<Seq<char>> {
    Seq::new(v.len(), |i: int| v[i]@)
}

/// Merges the displays that were given the same wallpaper: one group for
/// each wallpaper that was selected, in the order of selection, with the
/// displays it is for. The wallpaper at index `i` is for display `i`.
pub fn merge_duplicates(selection: &Vec<OriginalWallpaperID>) -> (r: Vec<Group>)
    ensures
        r@.len() == firsts(id_texts(selection@), selection@.len() as int).len(),
        forall|g: int| 0 <= g < r@.len() ==> is_group(#[trigger] r@[g], id_texts(selection@), g),
{
    let mut keys: Vec<String> = Vec::new();
    let mut i: usize = 0;
    while i < selection.len()
        invariant
            i <= selection@.len(),
            keys@.len() == i,
            forall|j: int| 0 <= j < i ==> (#[trigger] keys@[j])@ == selection@[j]@,
        decreases selection@.len() - i,
    {
        keys.push(String::from_str(selection[i].slash_path()));
        i = i + 1;
    }
    proof {
        assert(key_texts(keys@) =~= id_texts(selection@));
    }
    group_equal(&keys)
}

} // verus!
