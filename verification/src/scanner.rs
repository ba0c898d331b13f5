//! What a listing of a directory or of an archive is cut down to: the files
//! and entries that matter, ordered by name without regard to case.

use vstd::prelude::*;
use crate::ranking::{ascending, insert_ranked, lemma_ascending_unique, tied, views, Ranking};
use crate::text::{
    ends_with, ends_with_text, lemma_text_before_irreflexive, lemma_text_before_total,
    lemma_text_before_transitive, lowercase, precedes, same_chars, same_text, segments,
    split_segments, text_before, to_lowercase,
};

verus! {

/// A mod archive found in a directory.
#[derive(Debug)]
pub struct FileInfo {
    pub name: String,
    pub path: String,
}

/// An entry of an archive.
#[derive(Debug)]
pub struct JarEntry {
    pub name: String,
    pub is_dir: bool,
}

/// What a directory holds under one name.
#[derive(Debug)]
pub struct DirectoryEntry {
    pub name: String,
    pub path: String,
    pub is_file: bool,
}

/// The name of an archive of a mod: it ends with `.jar`, in whatever case.
pub open spec fn is_jar_name(name: Seq<char>) -> bool {
    ends_with_text(lowercase(name), ".jar"@)
}

/// The entry lies in a recipe folder: its path has at least three pieces, the
/// first is `data`, and the third is `recipe` or `recipes`.
pub open spec fn in_recipe_folder(name: Seq<char>) -> bool {
    let pieces = segments(name);
    &&& pieces.len() >= 3
    &&& pieces[0] == "data"@
    &&& (pieces[2] == "recipe"@ || pieces[2] == "recipes"@)
}

/// The entry is a recipe file: its path has at least four pieces, the first
/// is `data`, the third is `recipe` or `recipes`, and it ends with `.json`.
pub open spec fn is_recipe_path(name: Seq<char>) -> bool {
    let pieces = segments(name);
    &&& pieces.len() >= 4
    &&& pieces[0] == "data"@
    &&& (pieces[2] == "recipe"@ || pieces[2] == "recipes"@)
    &&& ends_with_text(name, ".json"@)
}

/// Whether the entry lies in a recipe folder.
pub fn lies_in_recipe_folder(name: &str) -> (r: bool)
    ensures
        r == in_recipe_folder(name@),
{
    let pieces = split_segments(name);
    pieces.len() >= 3 && same_chars(&pieces[0], "data") && (same_chars(&pieces[2], "recipe")
        || same_chars(&pieces[2], "recipes"))
}

/// Whether the entry is a recipe file.
pub fn is_recipe_file(name: &str) -> (r: bool)
    ensures
        r == is_recipe_path(name@),
{
    let pieces = split_segments(name);
    pieces.len() >= 4 && same_chars(&pieces[0], "data") && (same_chars(&pieces[2], "recipe")
        || same_chars(&pieces[2], "recipes")) && ends_with(name, ".json")
}

/// The order of keyed places: by key, and by place where the keys are the
/// same.
pub struct ByKeyThenPlace;

impl Ranking<(String, usize)> for ByKeyThenPlace {
    open spec fn before(a: (Seq<char>, usize), b: (Seq<char>, usize)) -> bool {
        text_before(a.0, b.0) || (a.0 == b.0 && a.1 < b.1)
    }

    proof fn lemma_irreflexive(a: (Seq<char>, usize)) {
        lemma_text_before_irreflexive(a.0);
    }

    proof fn lemma_transitive(a: (Seq<char>, usize), b: (Seq<char>, usize), c: (Seq<char>, usize)) {
        lemma_text_before_irreflexive(a.0);
        if text_before(a.0, b.0) && text_before(b.0, c.0) {
            lemma_text_before_transitive(a.0, b.0, c.0);
        }
    }

    fn precedes(a: &(String, usize), b: &(String, usize)) -> (r: bool) {
        proof {
            lemma_text_before_irreflexive(a.0@);
        }
        if precedes(a.0.as_str(), b.0.as_str()) {
            true
        } else if same_text(a.0.as_str(), b.0.as_str()) {
            a.1 < b.1
        } else {
            false
        }
    }
}

/// `order` names the places of `keys` that are kept, each once, by key, and
/// in their first order where the keys are the same.
pub open spec fn arranged(keys: Seq<Seq<char>>, keep: Seq<bool>, order: Seq<usize>) -> bool {
    &&& forall|i: int|
        0 <= i < order.len() ==> (#[trigger] order[i]) < keys.len() && keep[order[i] as int]
    &&& forall|k: int| 0 <= k < keys.len() && #[trigger] keep[k] ==> order.contains(k as usize)
    &&& forall|i: int, j: int|
        0 <= i < j < order.len() ==> ByKeyThenPlace::before(
            (keys[order[i] as int], #[trigger] order[i]),
            (keys[order[j] as int], #[trigger] order[j]),
        )
}

/// The places of `order` with their keys.
pub open spec fn keyed(keys: Seq<Seq<char>>, order: Seq<usize>) -> Seq<(Seq<char>, usize)> {
    Seq::new(order.len(), |i: int| (keys[order[i] as int], order[i]))
}

/// Keys and what is kept of them are arranged in one way only.
pub proof fn lemma_arranged_unique(
    keys: Seq<Seq<char>>,
    keep: Seq<bool>,
    a: Seq<usize>,
    b: Seq<usize>,
)
    requires
        keys.len() == keep.len(),
        arranged(keys, keep, a),
        arranged(keys, keep, b),
    ensures
        a == b,
{
    let pa = keyed(keys, a);
    let pb = keyed(keys, b);
    assert forall|x: (Seq<char>, usize)| pa.contains(x) <==> pb.contains(x) by {
        if pa.contains(x) {
            let i = choose|i: int| 0 <= i < pa.len() && pa[i] == x;
            assert(keep[a[i] as int]);
            assert(b.contains(a[i]));
            let j = choose|j: int| 0 <= j < b.len() && b[j] == a[i];
            assert(pb[j] == x);
        }
        if pb.contains(x) {
            let i = choose|i: int| 0 <= i < pb.len() && pb[i] == x;
            assert(keep[b[i] as int]);
            assert(a.contains(b[i]));
            let j = choose|j: int| 0 <= j < a.len() && a[j] == b[i];
            assert(pa[j] == x);
        }
    }
    assert(ascending::<(String, usize), ByKeyThenPlace>(pa)) by {
        assert forall|i: int, j: int| 0 <= i < j < pa.len() implies ByKeyThenPlace::before(
            pa[i],
            pa[j],
        ) by {
            assert(ByKeyThenPlace::before((keys[a[i] as int], a[i]), (keys[a[j] as int], a[j])));
        }
    }
    assert(ascending::<(String, usize), ByKeyThenPlace>(pb)) by {
        assert forall|i: int, j: int| 0 <= i < j < pb.len() implies ByKeyThenPlace::before(
            pb[i],
            pb[j],
        ) by {
            assert(ByKeyThenPlace::before((keys[b[i] as int], b[i]), (keys[b[j] as int], b[j])));
        }
    }
    lemma_ascending_unique::<(String, usize), ByKeyThenPlace>(pa, pb);
    assert(a.len() == b.len());
    assert forall|i: int| 0 <= i < a.len() implies a[i] == b[i] by {
        assert(pa[i] == pb[i]);
    }
    assert(a =~= b);
}

/// The places of `keys` that are kept, by key, and in their first order
/// where the keys are the same.
pub fn arrange(keys: &Vec<String>, keep: &Vec<bool>) -> (order: Vec<usize>)
    requires
        keys.len() == keep.len(),
    ensures
        arranged(views(keys@), keep@, order@),
{
    let mut pairs: Vec<(String, usize)> = Vec::new();
    let mut k: usize = 0;
    while k < keys.len()
        invariant
            k <= keys.len(),
            keys.len() == keep.len(),
            ascending::<(String, usize), ByKeyThenPlace>(views(pairs@)),
            forall|i: int|
                0 <= i < pairs.len() ==> (#[trigger] pairs[i]).1 < k && keep[pairs[i].1 as int]
                    && pairs[i].0@ == keys[pairs[i].1 as int]@,
            forall|m: int|
                0 <= m < k && #[trigger] keep[m] ==> exists|i: int|
                    0 <= i < pairs.len() && (#[trigger] pairs[i]).1 == m,
        decreases keys.len() - k,
    {
        if keep[k] {
            let pair = (keys[k].clone(), k);
            let ghost before_pairs = pairs@;
            let place = insert_ranked::<(String, usize), ByKeyThenPlace>(&mut pairs, pair);
            proof {
                match place {
                    Some(at) => {
                        assert forall|m: int| 0 <= m < k + 1 && #[trigger] keep[m] implies exists|
                            i: int,
                        |
                            0 <= i < pairs.len() && (#[trigger] pairs[i]).1 == m by {
                            if m < k {
                                let i = choose|i: int|
                                    0 <= i < before_pairs.len() && (#[trigger] before_pairs[i]).1
                                        == m;
                                let moved = if i < at {
                                    i
                                } else {
                                    i + 1
                                };
                                assert(pairs[moved] == before_pairs[i]);
                            } else {
                                assert(pairs[at as int] == pair);
                            }
                        }
                    },
                    None => {
                        let j = choose|j: int|
                            0 <= j < before_pairs.len() && tied::<(String, usize), ByKeyThenPlace>(
                                #[trigger] before_pairs[j]@,
                                pair@,
                            );
                        lemma_text_before_total(before_pairs[j].0@, pair.0@);
                        assert(false);
                    },
                }
            }
        }
        k += 1;
    }
    let mut order: Vec<usize> = Vec::new();
    let mut i: usize = 0;
    while i < pairs.len()
        invariant
            i <= pairs.len(),
            order.len() == i,
            forall|j: int| 0 <= j < i ==> order[j] == pairs[j].1,
        decreases pairs.len() - i,
    {
        order.push(pairs[i].1);
        i += 1;
    }
    proof {
        assert forall|m: int| 0 <= m < keys.len() && #[trigger] keep[m] implies order@.contains(
            m as usize,
        ) by {
            let i = choose|i: int| 0 <= i < pairs.len() && (#[trigger] pairs[i]).1 == m;
            assert(order@[i] == m as usize);
        }
        assert forall|i: int, j: int| 0 <= i < j < order.len() implies ByKeyThenPlace::before(
            (views(keys@)[order[i] as int], #[trigger] order[i]),
            (views(keys@)[order[j] as int], #[trigger] order[j]),
        ) by {
            assert(ByKeyThenPlace::before(views(pairs@)[i], views(pairs@)[j]));
        }
    }
    order
}

/// The names of the entries of a directory in lower case, in order.
pub open spec fn file_keys(entries: Seq<DirectoryEntry>) -> Seq<Seq<char>> {
    Seq::new(entries.len(), |i: int| lowercase(entries[i].name@))
}

/// Which entries of a directory are archives of mods: the files whose name
/// ends with `.jar`.
pub open spec fn file_kept(entries: Seq<DirectoryEntry>) -> Seq<bool> {
    Seq::new(entries.len(), |i: int| entries[i].is_file && is_jar_name(entries[i].name@))
}

/// The names of the entries of an archive in lower case, in order.
pub open spec fn entry_keys(entries: Seq<JarEntry>) -> Seq<Seq<char>> {
    Seq::new(entries.len(), |i: int| lowercase(entries[i].name@))
}

/// Which entries of an archive lie in a recipe folder.
pub open spec fn entry_kept(entries: Seq<JarEntry>) -> Seq<bool> {
    Seq::new(entries.len(), |i: int| in_recipe_folder(entries[i].name@))
}

/// The archives of mods among the entries of a directory: the files whose
/// name ends with `.jar` in whatever case, by name in lower case, and in
/// their first order where those names are the same.
pub fn jar_files(entries: &Vec<DirectoryEntry>) -> (r: Vec<FileInfo>)
    ensures
        exists|order: Seq<usize>|
            {
                &&& #[trigger] arranged(file_keys(entries@), file_kept(entries@), order)
                &&& r.len() == order.len()
                &&& forall|i: int|
                    0 <= i < r.len() ==> (#[trigger] r[i]).name@ == entries[order[i] as int].name@
                        && r[i].path@ == entries[order[i] as int].path@
            },
{
    let mut keys: Vec<String> = Vec::new();
    let mut keep: Vec<bool> = Vec::new();
    let mut i: usize = 0;
    while i < entries.len()
        invariant
            i <= entries.len(),
            keys.len() == i,
            keep.len() == i,
            forall|j: int| 0 <= j < i ==> (#[trigger] keys[j])@ == lowercase(entries[j].name@),
            forall|j: int|
                0 <= j < i ==> #[trigger] keep[j] == (entries[j].is_file && is_jar_name(
                    entries[j].name@,
                )),
        decreases entries.len() - i,
    {
        let key = to_lowercase(entries[i].name.as_str());
        let wanted = entries[i].is_file && ends_with(key.as_str(), ".jar");
        keys.push(key);
        keep.push(wanted);
        i += 1;
    }
    let order = arrange(&keys, &keep);
    proof {
        assert(views(keys@) =~= file_keys(entries@));
        assert(keep@ =~= file_kept(entries@));
    }
    let mut out: Vec<FileInfo> = Vec::new();
    let mut n: usize = 0;
    while n < order.len()
        invariant
            n <= order.len(),
            out.len() == n,
            forall|j: int| 0 <= j < order.len() ==> (#[trigger] order[j]) < entries.len(),
            forall|j: int|
                0 <= j < n ==> (#[trigger] out[j]).name@ == entries[order[j] as int].name@
                    && out[j].path@ == entries[order[j] as int].path@,
        decreases order.len() - n,
    {
        let entry = &entries[order[n]];
        out.push(FileInfo { name: entry.name.clone(), path: entry.path.clone() });
        n += 1;
    }
    out
}

/// The entries of an archive that lie in a recipe folder, by name in lower
/// case, and in their first order where those names are the same.
pub fn recipe_entries(entries: &Vec<JarEntry>) -> (r: Vec<JarEntry>)
    ensures
        exists|order: Seq<usize>|
            {
                &&& #[trigger] arranged(entry_keys(entries@), entry_kept(entries@), order)
                &&& r.len() == order.len()
                &&& forall|i: int|
                    0 <= i < r.len() ==> (#[trigger] r[i]).name@ == entries[order[i] as int].name@
                        && r[i].is_dir == entries[order[i] as int].is_dir
            },
{
    let mut keys: Vec<String> = Vec::new();
    let mut keep: Vec<bool> = Vec::new();
    let mut i: usize = 0;
    while i < entries.len()
        invariant
            i <= entries.len(),
            keys.len() == i,
            keep.len() == i,
            forall|j: int| 0 <= j < i ==> (#[trigger] keys[j])@ == lowercase(entries[j].name@),
            forall|j: int| 0 <= j < i ==> #[trigger] keep[j] == in_recipe_folder(entries[j].name@),
        decreases entries.len() - i,
    {
        keys.push(to_lowercase(entries[i].name.as_str()));
        keep.push(lies_in_recipe_folder(entries[i].name.as_str()));
        i += 1;
    }
    let order = arrange(&keys, &keep);
    proof {
        assert(views(keys@) =~= entry_keys(entries@));
        assert(keep@ =~= entry_kept(entries@));
    }
    let mut out: Vec<JarEntry> = Vec::new();
    let mut n: usize = 0;
    while n < order.len()
        invariant
            n <= order.len(),
            out.len() == n,
            forall|j: int| 0 <= j < order.len() ==> (#[trigger] order[j]) < entries.len(),
            forall|j: int|
                0 <= j < n ==> (#[trigger] out[j]).name@ == entries[order[j] as int].name@
                    && out[j].is_dir == entries[order[j] as int].is_dir,
        decreases order.len() - n,
    {
        let entry = &entries[order[n]];
        out.push(JarEntry { name: entry.name.clone(), is_dir: entry.is_dir });
        n += 1;
    }
    out
}

} // verus!
