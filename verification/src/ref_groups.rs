//! Which references a patcher writes straight away and which it has to download, grouped so
//! that each stretch of a patch is fetched once.
use vstd::prelude::*;

use crate::data_ref::{PatchRef, RefKind};
use crate::names::FileEntry;
use crate::version::{PatchVersion, VersionModel};

verus! {

/// A reference's place: the file's index and the reference's index within the file.
pub type RefPlace = (usize, usize);

/// Every reference of `files` with its place, file by file, in order.
pub open spec fn ref_items(files: Seq<FileEntry>) -> Seq<(int, int, RefKind, VersionModel)>
    decreases files.len(),
{
    if files.len() == 0 {
        Seq::empty()
    } else {
        let f = files.len() - 1;
        ref_items(files.drop_last()) + Seq::new(
            files.last().refs@.len(),
            |j: int| (f, j, files.last().refs@[j]@.kind, files.last().refs@[j]@.version),
        )
    }
}

/// Where `key` sits among the groups, or -1.
pub open spec fn key_pos(groups: Seq<((VersionModel, PatchRef), Seq<(int, int)>)>, key: (VersionModel, PatchRef)) -> int
    decreases groups.len(),
{
    if groups.len() == 0 {
        -1
    } else if groups.last().0 == key {
        groups.len() - 1
    } else {
        key_pos(groups.drop_last(), key)
    }
}

/// The references that need no download, in order, and the downloaded ones grouped by
/// applied version and patch stretch, groups in order of first use and each group's places
/// in order.
pub open spec fn grouping(items: Seq<(int, int, RefKind, VersionModel)>) -> (
    Seq<(int, int)>,
    Seq<((VersionModel, PatchRef), Seq<(int, int)>)>,
)
    decreases items.len(),
{
    if items.len() == 0 {
        (Seq::empty(), Seq::empty())
    } else {
        let (plain, groups) = grouping(items.drop_last());
        let it = items.last();
        match it.2 {
            RefKind::Patch { patch, .. } => {
                let key = (it.3, patch);
                let k = key_pos(groups, key);
                if k < 0 {
                    (plain, groups.push((key, seq![(it.0, it.1)])))
                } else {
                    (plain, groups.update(k, (key, groups[k].1.push((it.0, it.1)))))
                }
            },
            _ => (plain.push((it.0, it.1)), groups),
        }
    }
}

pub open spec fn places(v: Seq<RefPlace>) -> Seq<(int, int)> {
    v.map_values(|p: RefPlace| (p.0 as int, p.1 as int))
}

/// The groups as plain values.
pub open spec fn group_models(g: Seq<((PatchVersion, PatchRef), Vec<RefPlace>)>) -> Seq<
    ((VersionModel, PatchRef), Seq<(int, int)>),
> {
    g.map_values(|e: ((PatchVersion, PatchRef), Vec<RefPlace>)| ((e.0.0@, e.0.1), places(e.1@)))
}

proof fn lemma_key_pos(groups: Seq<((VersionModel, PatchRef), Seq<(int, int)>)>, key: (VersionModel, PatchRef))
    ensures
        -1 <= key_pos(groups, key) < groups.len(),
        key_pos(groups, key) >= 0 ==> groups[key_pos(groups, key)].0 == key,
        key_pos(groups, key) < 0 ==> forall|i: int| 0 <= i < groups.len() ==> groups[i].0 != key,
        forall|i: int| key_pos(groups, key) < i < groups.len() ==> groups[i].0 != key,
    decreases groups.len(),
{
    if groups.len() > 0 && groups.last().0 != key {
        lemma_key_pos(groups.drop_last(), key);
        assert forall|i: int| key_pos(groups, key) < i < groups.len() implies groups[i].0 != key by {
            if i < groups.len() - 1 {
                assert(groups[i] == groups.drop_last()[i]);
            }
        }
    }
}

/// Find `key` among the groups, from the back.
fn find_group(groups: &Vec<((PatchVersion, PatchRef), Vec<RefPlace>)>, version: &PatchVersion, patch: PatchRef) -> (r: Option<usize>)
    ensures
        match r {
            Some(k) => k as int == key_pos(group_models(groups@), (version@, patch)),
            None => key_pos(group_models(groups@), (version@, patch)) < 0,
        },
{
    let ghost g = group_models(groups@);
    let mut i = groups.len();
    assert(g.take(i as int) =~= g);
    while i > 0
        invariant
            i <= groups@.len(),
            g == group_models(groups@),
            key_pos(g, (version@, patch)) == key_pos(g.take(i as int), (version@, patch)),
        decreases i,
    {
        proof {
            let t = g.take(i as int);
            assert(t.drop_last() =~= g.take(i - 1));
            assert(t.last() == g[i - 1]);
        }
        if groups[i - 1].0.0 == *version && groups[i - 1].0.1 == patch {
            return Some(i - 1);
        }
        i = i - 1;
    }
    None
}

/// Split the references of `files` into those written without a download (zeros and empty
/// blocks) and those read from patches, the latter grouped by applied version and patch
/// stretch so that each stretch is downloaded once.
pub fn group_refs(files: &[FileEntry]) -> (r: (Vec<RefPlace>, Vec<((PatchVersion, PatchRef), Vec<RefPlace>)>))
    ensures
        places(r.0@) == grouping(ref_items(files@)).0,
        group_models(r.1@) == grouping(ref_items(files@)).1,
{
    let mut plain: Vec<RefPlace> = Vec::new();
    let mut groups: Vec<((PatchVersion, PatchRef), Vec<RefPlace>)> = Vec::new();
    let mut f: usize = 0;
    proof {
        assert(files@.take(0) =~= Seq::<FileEntry>::empty());
        assert(places(plain@) =~= Seq::<(int, int)>::empty());
        assert(group_models(groups@) =~= Seq::<((VersionModel, PatchRef), Seq<(int, int)>)>::empty());
    }
    while f < files.len()
        invariant
            f <= files@.len(),
            places(plain@) == grouping(ref_items(files@.take(f as int))).0,
            group_models(groups@) == grouping(ref_items(files@.take(f as int))).1,
        decreases files@.len() - f,
    {
        let refs = &files[f].refs;
        let ghost before = ref_items(files@.take(f as int));
        let mut j: usize = 0;
        proof {
            assert(before + Seq::new(0, |k: int| (f as int, k, refs@[k]@.kind, refs@[k]@.version)) =~= before);
        }
        while j < refs.len()
            invariant
                f < files@.len(),
                refs == files@[f as int].refs,
                j <= refs@.len(),
                before == ref_items(files@.take(f as int)),
                places(plain@) == grouping(
                    before + Seq::new(j as nat, |k: int| (f as int, k, refs@[k]@.kind, refs@[k]@.version)),
                ).0,
                group_models(groups@) == grouping(
                    before + Seq::new(j as nat, |k: int| (f as int, k, refs@[k]@.kind, refs@[k]@.version)),
                ).1,
            decreases refs@.len() - j,
        {
            let ghost prev = before + Seq::new(j as nat, |k: int| (f as int, k, refs@[k]@.kind, refs@[k]@.version));
            let ghost next = before + Seq::new((j + 1) as nat, |k: int| (f as int, k, refs@[k]@.kind, refs@[k]@.version));
            assert(next.drop_last() =~= prev);
            assert(next.last() == (f as int, j as int, refs@[j as int]@.kind, refs@[j as int]@.version));
            let ghost g0 = group_models(groups@);
            match refs[j].patch() {
                None => {
                    plain.push((f, j));
                    assert(places(plain@) =~= grouping(prev).0.push((f as int, j as int)));
                },
                Some(patch) => {
                    let version = refs[j].applied_version();
                    proof {
                        lemma_key_pos(g0, (version@, patch));
                    }
                    match find_group(&groups, version, patch) {
                        Some(k) => {
                            let ghost old_groups = groups@;
                            let mut entry = groups.remove(k);
                            let ghost old_places = entry.1@;
                            entry.1.push((f, j));
                            assert(places(entry.1@) =~= places(old_places).push((f as int, j as int)));
                            let ghost new_entry = entry;
                            groups.insert(k, entry);
                            assert(groups@ =~= old_groups.update(k as int, new_entry));
                            assert(g0[k as int] == ((old_groups[k as int].0.0@, old_groups[k as int].0.1), places(old_places)));
                            assert(group_models(groups@) =~= g0.update(
                                k as int,
                                ((version@, patch), g0[k as int].1.push((f as int, j as int))),
                            ));
                        },
                        None => {
                            let fresh: Vec<RefPlace> = vec![(f, j)];
                            assert(places(fresh@) =~= seq![(f as int, j as int)]);
                            groups.push(((version.duplicate(), patch), fresh));
                            assert(group_models(groups@) =~= g0.push(((version@, patch), seq![(f as int, j as int)])));
                        },
                    }
                },
            }
            j = j + 1;
        }
        proof {
            let t = files@.take(f + 1);
            assert(t.drop_last() =~= files@.take(f as int));
            assert(t.last() == files@[f as int]);
            assert(ref_items(t) =~= before + Seq::new(
                refs@.len(),
                |k: int| (f as int, k, refs@[k]@.kind, refs@[k]@.version),
            ));
        }
        f = f + 1;
    }
    assert(files@.take(files@.len() as int) =~= files@);
    (plain, groups)
}

} // verus!
