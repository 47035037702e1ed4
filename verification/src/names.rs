use vstd::prelude::*;

use crate::data_ref::{DataRef, DataRefModel};
use crate::order::{compare_chars, lemma_lex_asymmetric, lemma_lex_irreflexive, lemma_lex_transitive, lex_less};
use crate::overlay::models;
use crate::text::chars_of;

verus! {

/// The characters of each string.
pub open spec fn str_views(v: Seq<String>) -> Seq<Seq<char>> {
    Seq::new(v.len(), |i: int| v[i]@)
}

/// Strictly ascending in character order, so no name occurs twice.
pub open spec fn sorted_names(s: Seq<Seq<char>>) -> bool {
    forall|i: int, j: int| 0 <= i < j < s.len() ==> lex_less(#[trigger] s[i], #[trigger] s[j])
}

/// The names a sorted list holds.
pub open spec fn name_set(v: Seq<String>) -> Set<Seq<char>> {
    str_views(v).to_set()
}

/// Where `key` stands in the sorted `keys`: at `idx` when `found`, else `idx` is where it
/// would be inserted.
pub open spec fn placed(keys: Seq<Seq<char>>, key: Seq<char>, idx: int, found: bool) -> bool {
    &&& 0 <= idx <= keys.len()
    &&& (found ==> idx < keys.len() && keys[idx] == key)
    &&& forall|i: int| 0 <= i < idx ==> lex_less(#[trigger] keys[i], key)
    &&& (!found ==> forall|i: int| idx <= i < keys.len() ==> lex_less(key, #[trigger] keys[i]))
}

/// -1, 0 or 1 as `a` sorts before, equals, or sorts after `b`, comparing characters (as
/// `str`'s own order does).
pub fn compare_str(a: &str, b: &str) -> (r: i8)
    ensures
        r < 0 <==> lex_less(a@, b@),
        r > 0 <==> lex_less(b@, a@),
        r == 0 <==> a@ == b@,
{
    let x = chars_of(a);
    let y = chars_of(b);
    compare_chars(x.as_slice(), y.as_slice())
}

/// A sorted list stays sorted past its own bounds: whatever sorts after `keys[idx]` sorts
/// after everything before it too.
proof fn lemma_placed_found(keys: Seq<Seq<char>>, key: Seq<char>, idx: int)
    requires
        sorted_names(keys),
        placed(keys, key, idx, true),
    ensures
        forall|i: int| idx < i < keys.len() ==> lex_less(key, #[trigger] keys[i]),
        forall|i: int| 0 <= i < keys.len() && i != idx ==> keys[i] != key,
{
    assert forall|i: int| 0 <= i < keys.len() && i != idx implies keys[i] != key by {
        if i < idx {
            lemma_lex_irreflexive(key);
        } else {
            assert(lex_less(keys[idx], keys[i]));
            lemma_lex_irreflexive(key);
        }
    }
}

fn find_key(keys: &Vec<&str>, key: &str) -> (r: (usize, bool))
    requires
        sorted_names(Seq::new(keys@.len(), |i: int| keys@[i]@)),
    ensures
        placed(Seq::new(keys@.len(), |i: int| keys@[i]@), key@, r.0 as int, r.1),
{
    let ghost ks = Seq::new(keys@.len(), |i: int| keys@[i]@);
    let mut i: usize = 0;
    while i < keys.len()
        invariant
            ks == Seq::new(keys@.len(), |i: int| keys@[i]@),
            sorted_names(ks),
            i <= keys@.len(),
            forall|j: int| 0 <= j < i ==> lex_less(#[trigger] ks[j], key@),
        decreases keys@.len() - i,
    {
        let c = compare_str(keys[i], key);
        if c == 0 {
            return (i, true);
        } else if c > 0 {
            proof {
                assert forall|j: int| i <= j < ks.len() implies lex_less(key@, #[trigger] ks[j]) by {
                    if j > i {
                        assert(lex_less(ks[i as int], ks[j]));
                        lemma_lex_transitive(key@, ks[i as int], ks[j]);
                    }
                }
            }
            return (i, false);
        }
        i = i + 1;
    }
    (i, false)
}

/// Where `key` stands in a sorted list of names.
pub fn find_name(names: &Vec<String>, key: &str) -> (r: (usize, bool))
    requires
        sorted_names(str_views(names@)),
    ensures
        placed(str_views(names@), key@, r.0 as int, r.1),
{
    let mut keys: Vec<&str> = Vec::new();
    let mut i: usize = 0;
    while i < names.len()
        invariant
            i <= names@.len(),
            keys@.len() == i,
            forall|j: int| 0 <= j < i ==> (#[trigger] keys@[j])@ == names@[j]@,
        decreases names@.len() - i,
    {
        keys.push(names[i].as_str());
        i = i + 1;
    }
    assert(Seq::new(keys@.len(), |i: int| keys@[i]@) =~= str_views(names@));
    find_key(&keys, key)
}

pub proof fn lemma_insert_sorted(keys: Seq<Seq<char>>, key: Seq<char>, idx: int)
    requires
        sorted_names(keys),
        placed(keys, key, idx, false),
    ensures
        sorted_names(keys.insert(idx, key)),
        keys.insert(idx, key).to_set() == keys.to_set().insert(key),
{
    let s = keys.insert(idx, key);
    assert forall|i: int, j: int| 0 <= i < j < s.len() implies lex_less(#[trigger] s[i], #[trigger] s[j]) by {
        if j < idx {
        } else if j == idx {
        } else if i < idx {
            assert(s[j] == keys[j - 1]);
            lemma_lex_transitive(s[i], key, s[j]);
        } else if i == idx {
        } else {
            assert(s[i] == keys[i - 1] && s[j] == keys[j - 1]);
        }
    }
    assert forall|x: Seq<char>| s.to_set().contains(x) <==> keys.to_set().insert(key).contains(x) by {
        if s.to_set().contains(x) {
            let i = choose|i: int| 0 <= i < s.len() && s[i] == x;
            if i < idx {
                assert(keys[i] == x);
            } else if i > idx {
                assert(keys[i - 1] == x);
            }
        }
        if keys.to_set().contains(x) {
            let i = choose|i: int| 0 <= i < keys.len() && keys[i] == x;
            if i < idx {
                assert(s[i] == x);
            } else {
                assert(s[i + 1] == x);
            }
        }
        if x == key {
            assert(s[idx] == x);
        }
    }
    assert(s.to_set() =~= keys.to_set().insert(key));
}

proof fn lemma_remove_sorted(keys: Seq<Seq<char>>, idx: int)
    requires
        sorted_names(keys),
        0 <= idx < keys.len(),
    ensures
        sorted_names(keys.remove(idx)),
        keys.remove(idx).to_set() == keys.to_set().remove(keys[idx]),
{
    let s = keys.remove(idx);
    let key = keys[idx];
    assert forall|i: int, j: int| 0 <= i < j < s.len() implies lex_less(#[trigger] s[i], #[trigger] s[j]) by {
        if j < idx {
        } else if i < idx {
            assert(s[j] == keys[j + 1]);
        } else {
            assert(s[i] == keys[i + 1] && s[j] == keys[j + 1]);
        }
    }
    assert forall|x: Seq<char>| s.to_set().contains(x) <==> keys.to_set().remove(key).contains(x) by {
        if s.to_set().contains(x) {
            let i = choose|i: int| 0 <= i < s.len() && s[i] == x;
            if i < idx {
                assert(keys[i] == x);
                assert(lex_less(keys[i], key));
                lemma_lex_irreflexive(key);
            } else {
                assert(keys[i + 1] == x);
                assert(lex_less(key, keys[i + 1]));
                lemma_lex_irreflexive(key);
            }
        }
        if keys.to_set().remove(key).contains(x) {
            let i = choose|i: int| 0 <= i < keys.len() && keys[i] == x;
            if i < idx {
                assert(s[i] == x);
            } else {
                assert(s[i - 1] == x);
            }
        }
    }
    assert(s.to_set() =~= keys.to_set().remove(key));
}

/// Add a name to a sorted list, unless it is there already.
pub fn insert_name(names: &mut Vec<String>, key: String)
    requires
        sorted_names(str_views(old(names)@)),
    ensures
        sorted_names(str_views(final(names)@)),
        name_set(final(names)@) == name_set(old(names)@).insert(key@),
{
    let (idx, found) = find_name(names, key.as_str());
    if !found {
        let ghost keys = str_views(names@);
        proof {
            lemma_insert_sorted(keys, key@, idx as int);
        }
        let ghost k = key@;
        names.insert(idx, key);
        assert(str_views(names@) =~= keys.insert(idx as int, k));
    } else {
        proof {
            let keys = str_views(names@);
            assert(keys.to_set().contains(key@)) by {
                assert(keys[idx as int] == key@);
            }
            assert(keys.to_set().insert(key@) =~= keys.to_set());
        }
    }
}

/// Take a name out of a sorted list, if it is there.
pub fn remove_name(names: &mut Vec<String>, key: &str)
    requires
        sorted_names(str_views(old(names)@)),
    ensures
        sorted_names(str_views(final(names)@)),
        name_set(final(names)@) == name_set(old(names)@).remove(key@),
{
    let (idx, found) = find_name(names, key);
    let ghost keys = str_views(names@);
    if found {
        proof {
            lemma_remove_sorted(keys, idx as int);
        }
        names.remove(idx);
        assert(str_views(names@) =~= keys.remove(idx as int));
    } else {
        proof {
            assert(!keys.to_set().contains(key@)) by {
                if keys.to_set().contains(key@) {
                    let i = choose|i: int| 0 <= i < keys.len() && keys[i] == key@;
                    lemma_lex_irreflexive(key@);
                    if i < idx {
                        assert(lex_less(keys[i], key@));
                    } else {
                        assert(lex_less(key@, keys[i]));
                    }
                }
            }
            assert(keys.to_set().remove(key@) =~= keys.to_set());
        }
    }
}

/// One file of an install and the references its bytes come from.
#[derive(Debug)]
pub struct FileEntry {
    pub path: String,
    pub refs: Vec<DataRef>,
}

pub open spec fn file_paths(files: Seq<FileEntry>) -> Seq<Seq<char>> {
    Seq::new(files.len(), |i: int| files[i].path@)
}

/// The files of a sorted list, by path.
pub open spec fn file_map(files: Seq<FileEntry>) -> Map<Seq<char>, Seq<DataRefModel>> {
    Map::new(
        |p: Seq<char>| file_paths(files).contains(p),
        |p: Seq<char>| models(files[file_paths(files).index_of(p)].refs@),
    )
}

/// A file's references as the map holds them, or none for a file it lacks.
pub open spec fn refs_or_empty(m: Map<Seq<char>, Seq<DataRefModel>>, p: Seq<char>) -> Seq<DataRefModel> {
    if m.contains_key(p) {
        m[p]
    } else {
        Seq::empty()
    }
}

/// In a sorted list each path names its own entry.
pub proof fn lemma_file_map_index(files: Seq<FileEntry>, i: int)
    requires
        sorted_names(file_paths(files)),
        0 <= i < files.len(),
    ensures
        file_map(files).contains_key(files[i].path@),
        file_map(files)[files[i].path@] == models(files[i].refs@),
{
    let ps = file_paths(files);
    assert(ps[i] == files[i].path@);
    let k = ps.index_of(files[i].path@);
    if k != i {
        lemma_lex_irreflexive(ps[i]);
        if k < i {
            assert(lex_less(ps[k], ps[i]));
        } else {
            assert(lex_less(ps[i], ps[k]));
        }
    }
}

fn find_file(files: &Vec<FileEntry>, key: &str) -> (r: (usize, bool))
    requires
        sorted_names(file_paths(files@)),
    ensures
        placed(file_paths(files@), key@, r.0 as int, r.1),
{
    let mut keys: Vec<&str> = Vec::new();
    let mut i: usize = 0;
    while i < files.len()
        invariant
            i <= files@.len(),
            keys@.len() == i,
            forall|j: int| 0 <= j < i ==> (#[trigger] keys@[j])@ == files@[j].path@,
        decreases files@.len() - i,
    {
        keys.push(files[i].path.as_str());
        i = i + 1;
    }
    assert(Seq::new(keys@.len(), |i: int| keys@[i]@) =~= file_paths(files@));
    find_key(&keys, key)
}

/// Take a file's references out of the list, leaving the file out of it.
pub fn take_file(files: &mut Vec<FileEntry>, path: &str) -> (refs: Vec<DataRef>)
    requires
        sorted_names(file_paths(old(files)@)),
    ensures
        sorted_names(file_paths(final(files)@)),
        file_map(final(files)@) == file_map(old(files)@).remove(path@),
        models(refs@) == refs_or_empty(file_map(old(files)@), path@),
{
    let ghost m = file_map(files@);
    let ghost ps = file_paths(files@);
    let ghost old_files = files@;
    let (idx, found) = find_file(files, path);
    if !found {
        proof {
            assert(!ps.contains(path@)) by {
                if ps.contains(path@) {
                    let i = choose|i: int| 0 <= i < ps.len() && ps[i] == path@;
                    lemma_lex_irreflexive(path@);
                    if i < idx {
                        assert(lex_less(ps[i], path@));
                    } else {
                        assert(lex_less(path@, ps[i]));
                    }
                }
            }
            assert(m.remove(path@) =~= m);
        }
        let empty: Vec<DataRef> = Vec::new();
        assert(models(empty@) =~= Seq::<DataRefModel>::empty());
        return empty;
    }
    proof {
        lemma_file_map_index(old_files, idx as int);
        lemma_placed_found(ps, path@, idx as int);
        lemma_remove_sorted(ps, idx as int);
    }
    let entry = files.remove(idx);
    proof {
        let nf = files@;
        assert(file_paths(nf) =~= ps.remove(idx as int));
        assert forall|p: Seq<char>| #[trigger] file_map(nf).contains_key(p) <==> m.remove(path@).contains_key(p) by {
            if file_paths(nf).contains(p) {
                let i = choose|i: int| 0 <= i < file_paths(nf).len() && file_paths(nf)[i] == p;
                if i < idx {
                    assert(ps[i] == p);
                } else {
                    assert(ps[i + 1] == p);
                }
            }
            if m.remove(path@).contains_key(p) {
                let i = choose|i: int| 0 <= i < ps.len() && ps[i] == p;
                if i < idx {
                    assert(file_paths(nf)[i] == p);
                } else {
                    assert(file_paths(nf)[i - 1] == p);
                }
            }
        }
        assert forall|p: Seq<char>| #[trigger] file_map(nf).contains_key(p) implies file_map(nf)[p] == m.remove(path@)[p] by {
            let i = choose|i: int| 0 <= i < file_paths(nf).len() && file_paths(nf)[i] == p;
            lemma_file_map_index(nf, i);
            if i < idx {
                assert(nf[i] == old_files[i]);
                lemma_file_map_index(old_files, i);
            } else {
                assert(nf[i] == old_files[i + 1]);
                lemma_file_map_index(old_files, i + 1);
            }
        }
        assert(file_map(nf) =~= m.remove(path@));
    }
    entry.refs
}

/// Store a file's references, replacing what the list held for it.
pub fn put_file(files: &mut Vec<FileEntry>, path: String, refs: Vec<DataRef>)
    requires
        sorted_names(file_paths(old(files)@)),
    ensures
        sorted_names(file_paths(final(files)@)),
        file_map(final(files)@) == file_map(old(files)@).insert(path@, models(refs@)),
{
    let ghost p0 = path@;
    let ghost r0 = models(refs@);
    let removed = take_file(files, path.as_str());
    let ghost m = file_map(files@);
    let ghost ps = file_paths(files@);
    let ghost mid = files@;
    let (idx, found) = find_file(files, path.as_str());
    proof {
        assert(!m.contains_key(p0));
        if found {
            assert(ps[idx as int] == p0);
            assert(ps.contains(p0));
        }
        lemma_insert_sorted(ps, p0, idx as int);
    }
    files.insert(idx, FileEntry { path, refs });
    proof {
        let nf = files@;
        assert(file_paths(nf) =~= ps.insert(idx as int, p0));
        assert forall|p: Seq<char>| #[trigger] file_map(nf).contains_key(p) <==> m.insert(p0, r0).contains_key(p) by {
            if file_paths(nf).contains(p) {
                let i = choose|i: int| 0 <= i < file_paths(nf).len() && file_paths(nf)[i] == p;
                if i < idx {
                    assert(ps[i] == p);
                } else if i > idx {
                    assert(ps[i - 1] == p);
                }
            }
            if m.contains_key(p) {
                let i = choose|i: int| 0 <= i < ps.len() && ps[i] == p;
                if i < idx {
                    assert(file_paths(nf)[i] == p);
                } else {
                    assert(file_paths(nf)[i + 1] == p);
                }
            }
            if p == p0 {
                assert(file_paths(nf)[idx as int] == p);
            }
        }
        assert forall|p: Seq<char>| #[trigger] file_map(nf).contains_key(p) implies file_map(nf)[p] == m.insert(p0, r0)[p] by {
            let i = choose|i: int| 0 <= i < file_paths(nf).len() && file_paths(nf)[i] == p;
            lemma_file_map_index(nf, i);
            if i < idx {
                assert(nf[i] == mid[i]);
                lemma_file_map_index(mid, i);
            } else if i > idx {
                assert(nf[i] == mid[i - 1]);
                lemma_file_map_index(mid, i - 1);
            }
        }
        assert(file_map(nf) =~= m.insert(p0, r0));
        assert(m.insert(p0, r0) =~= file_map(old(files)@).insert(p0, r0));
    }
}


/// Whether the list holds a file at `path`.
pub fn has_file(files: &Vec<FileEntry>, path: &str) -> (b: bool)
    requires
        sorted_names(file_paths(files@)),
    ensures
        b == file_map(files@).contains_key(path@),
{
    let (idx, found) = find_file(files, path);
    proof {
        let ps = file_paths(files@);
        if found {
            assert(ps[idx as int] == path@);
        } else if ps.contains(path@) {
            let i = choose|i: int| 0 <= i < ps.len() && ps[i] == path@;
            lemma_lex_irreflexive(path@);
            if i < idx {
                assert(lex_less(ps[i], path@));
            } else {
                assert(lex_less(path@, ps[i]));
            }
        }
    }
    found
}

/// A sorted list of names holds each name once.
pub proof fn lemma_sorted_names_distinct(s: Seq<Seq<char>>)
    requires
        sorted_names(s),
    ensures
        s.no_duplicates(),
{
    assert forall|i: int, j: int| 0 <= i < s.len() && 0 <= j < s.len() && i != j implies s[i] != s[j] by {
        crate::order::lemma_lex_irreflexive(s[i]);
        if i < j {
            assert(lex_less(s[i], s[j]));
        } else {
            assert(lex_less(s[j], s[i]));
        }
    }
}

} // verus!
