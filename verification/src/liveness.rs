use vstd::prelude::*;

use crate::index::{Origin, PatchEntry, Repository, Source, Status};
use crate::version::GameVersion;
use crate::text::{chars_of, find_char, first_index, lemma_first_index, string_of};

verus! {

/// What one look at a source said.
#[derive(Debug, Clone, Copy, PartialEq, Eq, Structural)]
pub enum Probe {
    Alive,
    Dead,
    /// The host answered, but not about whether the file exists.
    Unknown,
}

/// Where `pat` first occurs in `s` at or after `i`, or -1.
pub open spec fn find_from(s: Seq<char>, pat: Seq<char>, i: int) -> int
    decreases s.len() - i,
{
    if i < 0 || i + pat.len() > s.len() {
        -1
    } else if pat.len() == 0 || s.subrange(i, i + pat.len()) == pat {
        i
    } else {
        find_from(s, pat, i + 1)
    }
}

proof fn lemma_find_from(s: Seq<char>, pat: Seq<char>, i: int)
    requires
        0 <= i,
    ensures
        find_from(s, pat, i) == -1 || (i <= find_from(s, pat, i) && find_from(s, pat, i) + pat.len()
            <= s.len()),
    decreases s.len() - i,
{
    if i + pat.len() <= s.len() && !(pat.len() == 0 || s.subrange(i, i + pat.len()) == pat) {
        lemma_find_from(s, pat, i + 1);
    }
}

fn matches_at(cs: &Vec<char>, pat: &Vec<char>, i: usize) -> (b: bool)
    requires
        i + pat@.len() <= cs@.len(),
    ensures
        b == (cs@.subrange(i as int, i + pat@.len()) == pat@),
{
    let mut k: usize = 0;
    while k < pat.len()
        invariant
            i + pat@.len() <= cs@.len(),
            cs@.len() == cs.len(),
            pat@.len() == pat.len(),
            k <= pat@.len(),
            forall|j: int| 0 <= j < k ==> cs@[i + j] == pat@[j],
        decreases pat@.len() - k,
    {
        if cs[i + k] != pat[k] {
            assert(cs@.subrange(i as int, i + pat@.len())[k as int] != pat@[k as int]);
            return false;
        }
        k = k + 1;
    }
    assert(cs@.subrange(i as int, i + pat@.len()) =~= pat@);
    true
}

fn find_sub(cs: &Vec<char>, pat: &Vec<char>) -> (r: Option<usize>)
    ensures
        match r {
            Some(k) => find_from(cs@, pat@, 0) == k,
            None => find_from(cs@, pat@, 0) == -1,
        },
{
    if pat.len() > cs.len() {
        return None;
    }
    let last = cs.len() - pat.len();
    let mut i: usize = 0;
    while i <= last
        invariant
            last + pat@.len() == cs@.len(),
            i <= last + 1,
            find_from(cs@, pat@, 0) == find_from(cs@, pat@, i as int),
        decreases last + 1 - i,
    {
        if pat.len() == 0 || matches_at(cs, pat, i) {
            return Some(i);
        }
        if i == last {
            assert(find_from(cs@, pat@, i + 1) == -1);
            return None;
        }
        i = i + 1;
    }
    None
}

/// The archive.org item and the file in it that a download URL names: what follows the
/// first `/download/`, cut at its first slash.
pub open spec fn archive_parts_spec(url: Seq<char>) -> Option<(Seq<char>, Seq<char>)> {
    let pat = "/download/"@;
    let k = find_from(url, pat, 0);
    if k < 0 {
        None
    } else {
        let after = url.skip(k + pat.len());
        let j = first_index(after, '/');
        if j < 0 {
            None
        } else {
            Some((after.take(j), after.skip(j + 1)))
        }
    }
}

/// The archive.org item and the file in it that a download URL names.
pub fn archive_parts(url: &str) -> (r: Option<(String, String)>)
    ensures
        match r {
            Some((item, file)) => archive_parts_spec(url@) == Some((item@, file@)),
            None => archive_parts_spec(url@) is None,
        },
{
    let cs = chars_of(url);
    let pat = chars_of("/download/");
    let n = cs.len();
    let k = match find_sub(&cs, &pat) {
        Some(k) => k,
        None => {
            return None;
        },
    };
    proof {
        lemma_find_from(cs@, pat@, 0);
    }
    assert(k + pat@.len() <= cs@.len());
    let from = k + pat.len();
    proof {
        lemma_first_index(cs@.subrange(from as int, n as int), '/');
    }
    let j = match find_char(cs.as_slice(), from, n, '/') {
        Some(j) => from + j,
        None => {
            proof {
                let after = url@.skip(k + pat@.len());
                assert(after =~= cs@.subrange(from as int, n as int));
            }
            return None;
        },
    };
    let ghost after = url@.skip(k + pat@.len());
    proof {
        assert(after =~= cs@.subrange(from as int, n as int));
        lemma_first_index(after, '/');
    }
    assert(j < n);
    let item = string_of(vstd::slice::slice_subrange(cs.as_slice(), from, j));
    let file = string_of(vstd::slice::slice_subrange(cs.as_slice(), j + 1, n));
    assert(item@ =~= after.take(first_index(after, '/')));
    assert(file@ =~= after.skip(first_index(after, '/') + 1));
    Some((item, file))
}

/// The file listing recorded for `item`, where one is recorded: the first entry that names it.
pub open spec fn listing_of(l: Seq<(String, Option<Vec<String>>)>, item: Seq<char>) -> Option<Option<Vec<String>>>
    decreases l.len(),
{
    if l.len() == 0 {
        None
    } else if l[0].0@ == item {
        Some(l[0].1)
    } else {
        listing_of(l.drop_first(), item)
    }
}

/// Whether `names` holds `name`.
pub open spec fn names_hold(names: Seq<String>, name: Seq<char>) -> bool {
    exists|i: int| 0 <= i < names.len() && (#[trigger] names[i])@ == name
}

/// What the archive.org listings say of a URL: for an archive.org download, alive if its
/// item lists the file, dead if the item lists other files only, unknown if the item's
/// listing could not be had; nothing for any other URL, which needs a request of its own.
pub open spec fn listed_probe(l: Seq<(String, Option<Vec<String>>)>, url: Seq<char>) -> Option<Probe> {
    match archive_parts_spec(url) {
        None => None,
        Some((item, file)) => Some(
            match listing_of(l, item) {
                Some(Some(files)) => if names_hold(files@, file) {
                    Probe::Alive
                } else {
                    Probe::Dead
                },
                _ => Probe::Unknown,
            },
        ),
    }
}

fn find_listing(l: &Vec<(String, Option<Vec<String>>)>, item: &String) -> (r: Option<usize>)
    ensures
        match r {
            Some(i) => i < l@.len() && listing_of(l@, item@) == Some(l@[i as int].1),
            None => listing_of(l@, item@) is None,
        },
{
    let mut i: usize = 0;
    assert(l@.skip(0) =~= l@);
    while i < l.len()
        invariant
            i <= l@.len(),
            listing_of(l@, item@) == listing_of(l@.skip(i as int), item@),
        decreases l@.len() - i,
    {
        assert(l@.skip(i as int)[0] == l@[i as int]);
        if l[i].0 == *item {
            return Some(i);
        }
        assert(l@.skip(i as int).drop_first() =~= l@.skip(i + 1));
        i = i + 1;
    }
    None
}

fn names_contain(names: &Vec<String>, name: &String) -> (b: bool)
    ensures
        b == names_hold(names@, name@),
{
    let mut i: usize = 0;
    while i < names.len()
        invariant
            i <= names@.len(),
            forall|j: int| 0 <= j < i ==> (#[trigger] names@[j])@ != name@,
        decreases names@.len() - i,
    {
        if names[i] == *name {
            assert((names@[i as int])@ == name@);
            return true;
        }
        i = i + 1;
    }
    false
}

/// What the archive.org listings say of a URL; nothing where the URL needs a request of its
/// own.
pub fn listed_probe_of(listings: &Vec<(String, Option<Vec<String>>)>, url: &str) -> (r: Option<Probe>)
    ensures
        r == listed_probe(listings@, url@),
{
    match archive_parts(url) {
        None => None,
        Some((item, file)) => match find_listing(listings, &item) {
            Some(i) => match &listings[i].1 {
                Some(files) => if names_contain(files, &file) {
                    Some(Probe::Alive)
                } else {
                    Some(Probe::Dead)
                },
                None => Some(Probe::Unknown),
            },
            None => Some(Probe::Unknown),
        },
    }
}

/// What was found of `url`: the first entry that names it.
pub open spec fn probe_of(probed: Seq<(String, Probe)>, url: Seq<char>) -> Option<Probe>
    decreases probed.len(),
{
    if probed.len() == 0 {
        None
    } else if probed[0].0@ == url {
        Some(probed[0].1)
    } else {
        probe_of(probed.drop_first(), url)
    }
}

/// What was found of `url`.
pub fn find_probe(probed: &Vec<(String, Probe)>, url: &String) -> (r: Option<Probe>)
    ensures
        r == probe_of(probed@, url@),
{
    let mut i: usize = 0;
    assert(probed@.skip(0) =~= probed@);
    while i < probed.len()
        invariant
            i <= probed@.len(),
            probe_of(probed@, url@) == probe_of(probed@.skip(i as int), url@),
        decreases probed@.len() - i,
    {
        assert(probed@.skip(i as int)[0] == probed@[i as int]);
        if probed[i].0 == *url {
            return Some(probed[i].1);
        }
        assert(probed@.skip(i as int).drop_first() =~= probed@.skip(i + 1));
        i = i + 1;
    }
    None
}

/// Whether a first look contradicts what a source records, so that a second look must
/// confirm it before the record changes: only for sources outside archive.org, whose
/// listings are authoritative.
pub open spec fn is_disputed(url: Seq<char>, status: Status, p: Option<Probe>) -> bool {
    archive_parts_spec(url) is None && match p {
        Some(Probe::Alive) => status != Status::Alive,
        Some(Probe::Dead) => status != Status::Dead,
        _ => false,
    }
}

/// Whether a first look contradicts what a source records.
pub fn disputed(url: &str, status: Status, probed: &Vec<(String, Probe)>) -> (b: bool)
    ensures
        b == is_disputed(url@, status, probe_of(probed@, url@)),
{
    if archive_parts(url).is_some() {
        return false;
    }
    match find_probe(probed, &url.to_string()) {
        Some(Probe::Alive) => status != Status::Alive,
        Some(Probe::Dead) => status != Status::Dead,
        _ => false,
    }
}

/// A disputed first look stands only where a second look agrees; otherwise nothing is known.
pub fn reconcile(first: Probe, again: Probe) -> (p: Probe)
    ensures
        p == (if first == again {
            first
        } else {
            Probe::Unknown
        }),
{
    if first == again {
        first
    } else {
        Probe::Unknown
    }
}

/// The status a look gives a source: what it found, where it found the file there or gone;
/// otherwise what the source records.
pub open spec fn probed_status(p: Option<Probe>, old: Status) -> Status {
    match p {
        Some(Probe::Alive) => Status::Alive,
        Some(Probe::Dead) => Status::Dead,
        _ => old,
    }
}

/// How many of the sources the looks change.
pub open spec fn changed_count(srcs: Seq<(Origin, Source)>, probed: Seq<(String, Probe)>) -> nat
    decreases srcs.len(),
{
    if srcs.len() == 0 {
        0
    } else {
        let s = srcs.last().1;
        changed_count(srcs.drop_last(), probed) + if probed_status(probe_of(probed, s.url@), s.status)
            != s.status {
            1nat
        } else {
            0nat
        }
    }
}

/// How many of the sources the looks could say nothing of.
pub open spec fn unknown_count(srcs: Seq<(Origin, Source)>, probed: Seq<(String, Probe)>) -> nat
    decreases srcs.len(),
{
    if srcs.len() == 0 {
        0
    } else {
        unknown_count(srcs.drop_last(), probed) + if probe_of(
            probed,
            srcs.last().1.url@,
        ) == Some(Probe::Unknown) {
            1nat
        } else {
            0nat
        }
    }
}

/// How many sources the patches list in all.
pub open spec fn source_total(patches: Seq<(GameVersion, PatchEntry)>) -> nat
    decreases patches.len(),
{
    if patches.len() == 0 {
        0
    } else {
        source_total(patches.drop_last()) + patches.last().1.sources@.len()
    }
}

/// How many sources of all the patches the looks change.
pub open spec fn patches_changed(patches: Seq<(GameVersion, PatchEntry)>, probed: Seq<(String, Probe)>) -> nat
    decreases patches.len(),
{
    if patches.len() == 0 {
        0
    } else {
        patches_changed(patches.drop_last(), probed) + changed_count(patches.last().1.sources@, probed)
    }
}

/// How many sources of all the patches the looks say nothing of.
pub open spec fn patches_unknown(patches: Seq<(GameVersion, PatchEntry)>, probed: Seq<(String, Probe)>) -> nat
    decreases patches.len(),
{
    if patches.len() == 0 {
        0
    } else {
        patches_unknown(patches.drop_last(), probed) + unknown_count(patches.last().1.sources@, probed)
    }
}

/// Whether `n` is `o` with its status set by the looks, and its check time set to `stamp`
/// where the status changed.
pub open spec fn source_updated(o: (Origin, Source), n: (Origin, Source), probed: Seq<(String, Probe)>, stamp: Seq<char>) -> bool {
    let st = probed_status(probe_of(probed, o.1.url@), o.1.status);
    &&& n.0 == o.0
    &&& n.1.url == o.1.url
    &&& n.1.status == st
    &&& if st != o.1.status {
        n.1.checked@ == stamp
    } else {
        n.1.checked == o.1.checked
    }
}

proof fn lemma_counts_bounded(srcs: Seq<(Origin, Source)>, probed: Seq<(String, Probe)>)
    ensures
        changed_count(srcs, probed) + unknown_count(srcs, probed) <= srcs.len(),
    decreases srcs.len(),
{
    if srcs.len() > 0 {
        lemma_counts_bounded(srcs.drop_last(), probed);
    }
}

/// Set each source's status from the looks, stamping those that change.
fn apply_to_sources(sources: &mut Vec<(Origin, Source)>, probed: &Vec<(String, Probe)>, stamp: &str) -> (r: (u64, u64))
    requires
        old(sources)@.len() <= u64::MAX,
    ensures
        final(sources)@.len() == old(sources)@.len(),
        forall|j: int| 0 <= j < old(sources)@.len() ==> source_updated(
            old(sources)@[j],
            #[trigger] final(sources)@[j],
            probed@,
            stamp@,
        ),
        r.0 == changed_count(old(sources)@, probed@),
        r.1 == unknown_count(old(sources)@, probed@),
{
    let ghost before = sources@;
    let mut changed: u64 = 0;
    let mut unknown: u64 = 0;
    let mut j: usize = 0;
    while j < sources.len()
        invariant
            sources@.len() == before.len() <= u64::MAX,
            j <= before.len(),
            forall|k: int| 0 <= k < j ==> source_updated(before[k], #[trigger] sources@[k], probed@, stamp@),
            forall|k: int| j <= k < before.len() ==> #[trigger] sources@[k] == before[k],
            changed == changed_count(before.take(j as int), probed@),
            unknown == unknown_count(before.take(j as int), probed@),
        decreases before.len() - j,
    {
        proof {
            assert(before.take(j + 1).drop_last() =~= before.take(j as int));
            lemma_counts_bounded(before.take(j as int), probed@);
        }
        let (origin, mut src) = sources.remove(j);
        let found = find_probe(probed, &src.url);
        match found {
            Some(Probe::Alive) | Some(Probe::Dead) => {
                let status = if found == Some(Probe::Alive) {
                    Status::Alive
                } else {
                    Status::Dead
                };
                if status != src.status {
                    src.status = status;
                    src.checked = stamp.to_owned();
                    changed = changed + 1;
                }
            },
            Some(Probe::Unknown) => {
                unknown = unknown + 1;
            },
            None => {},
        }
        sources.insert(j, (origin, src));
        proof {
            assert forall|k: int| 0 <= k < j + 1 implies source_updated(before[k], #[trigger] sources@[k], probed@, stamp@) by {
                if k < j {
                }
            }
        }
        j = j + 1;
    }
    assert(before.take(j as int) =~= before);
    (changed, unknown)
}

proof fn lemma_patch_counts_bounded(patches: Seq<(GameVersion, PatchEntry)>, probed: Seq<(String, Probe)>)
    ensures
        patches_changed(patches, probed) + patches_unknown(patches, probed) <= source_total(patches),
    decreases patches.len(),
{
    if patches.len() > 0 {
        lemma_patch_counts_bounded(patches.drop_last(), probed);
        lemma_counts_bounded(patches.last().1.sources@, probed);
    }
}

/// Set every source's status from the looks, stamping those that change; says how many
/// changed and how many the looks said nothing of.
pub fn apply_probes(repository: &mut Repository, probed: &Vec<(String, Probe)>, stamp: &str) -> (r: (u64, u64))
    requires
        source_total(old(repository).patches@) <= u64::MAX,
    ensures
        final(repository).schema == old(repository).schema,
        final(repository).slug == old(repository).slug,
        final(repository).name == old(repository).name,
        final(repository).region == old(repository).region,
        final(repository).latest == old(repository).latest,
        final(repository).patches@.len() == old(repository).patches@.len(),
        forall|i: int| 0 <= i < old(repository).patches@.len() ==> {
            let o = old(repository).patches@[i];
            let n = #[trigger] final(repository).patches@[i];
            &&& n.0 == o.0
            &&& n.1.prev == o.1.prev
            &&& n.1.size == o.1.size
            &&& n.1.header == o.1.header
            &&& n.1.discovered == o.1.discovered
            &&& n.1.verified == o.1.verified
            &&& n.1.sources@.len() == o.1.sources@.len()
            &&& forall|j: int| 0 <= j < o.1.sources@.len() ==> source_updated(
                o.1.sources@[j],
                #[trigger] n.1.sources@[j],
                probed@,
                stamp@,
            )
        },
        r.0 == patches_changed(old(repository).patches@, probed@),
        r.1 == patches_unknown(old(repository).patches@, probed@),
{
    let ghost before = repository.patches@;
    assert(before.skip(0) =~= before);
    let mut changed: u64 = 0;
    let mut unknown: u64 = 0;
    let mut i: usize = 0;
    while i < repository.patches.len()
        invariant
            repository.patches@.len() == before.len(),
            source_total(before) <= u64::MAX,
            i <= before.len(),
            repository.schema == old(repository).schema,
            repository.slug == old(repository).slug,
            repository.name == old(repository).name,
            repository.region == old(repository).region,
            repository.latest == old(repository).latest,
            before == old(repository).patches@,
            forall|k: int| 0 <= k < i ==> {
                let o = before[k];
                let n = #[trigger] repository.patches@[k];
                &&& n.0 == o.0
                &&& n.1.prev == o.1.prev
                &&& n.1.size == o.1.size
                &&& n.1.header == o.1.header
                &&& n.1.discovered == o.1.discovered
                &&& n.1.verified == o.1.verified
                &&& n.1.sources@.len() == o.1.sources@.len()
                &&& forall|j: int| 0 <= j < o.1.sources@.len() ==> source_updated(
                    o.1.sources@[j],
                    #[trigger] n.1.sources@[j],
                    probed@,
                    stamp@,
                )
            },
            forall|k: int| i <= k < before.len() ==> #[trigger] repository.patches@[k] == before[k],
            changed == patches_changed(before.take(i as int), probed@),
            unknown == patches_unknown(before.take(i as int), probed@),
            changed + unknown + source_total(before.skip(i as int)) <= source_total(before),
        decreases before.len() - i,
    {
        let (version, mut entry) = repository.patches.remove(i);
        proof {
            assert(before.take(i + 1).drop_last() =~= before.take(i as int));
            assert(before.skip(i as int).len() > 0);
            lemma_source_total_skip(before, i as int);
            lemma_counts_bounded(entry.sources@, probed@);
        }
        let (c, u) = apply_to_sources(&mut entry.sources, probed, stamp);
        changed = changed + c;
        unknown = unknown + u;
        repository.patches.insert(i, (version, entry));
        i = i + 1;
    }
    assert(before.take(i as int) =~= before);
    (changed, unknown)
}

proof fn lemma_source_total_skip(patches: Seq<(GameVersion, PatchEntry)>, i: int)
    requires
        0 <= i < patches.len(),
    ensures
        source_total(patches.skip(i)) == patches[i].1.sources@.len() + source_total(patches.skip(i + 1)),
    decreases patches.len(),
{
    if i == patches.len() - 1 {
        assert(patches.skip(i).drop_last() =~= patches.skip(i + 1));
        assert(patches.skip(i + 1).len() == 0);
    } else {
        lemma_source_total_skip(patches.drop_last(), i);
        assert(patches.drop_last().skip(i) =~= patches.skip(i).drop_last());
        assert(patches.drop_last().skip(i + 1) =~= patches.skip(i + 1).drop_last());
    }
}

/// Whether every source of a patch is dead: a patch with no source counts as unreachable.
pub open spec fn all_dead(srcs: Seq<(Origin, Source)>) -> bool {
    forall|j: int| 0 <= j < srcs.len() ==> (#[trigger] srcs[j]).1.status == Status::Dead
}

/// How many patches no source can serve.
pub open spec fn unreachable_spec(patches: Seq<(GameVersion, PatchEntry)>) -> nat
    decreases patches.len(),
{
    if patches.len() == 0 {
        0
    } else {
        unreachable_spec(patches.drop_last()) + if all_dead(patches.last().1.sources@) {
            1nat
        } else {
            0nat
        }
    }
}

/// How many patches of a repository no source can serve.
pub fn unreachable_count(repository: &Repository) -> (n: usize)
    ensures
        n == unreachable_spec(repository.patches@),
{
    let patches = &repository.patches;
    let mut n: usize = 0;
    let mut i: usize = 0;
    while i < patches.len()
        invariant
            i <= patches@.len(),
            n <= i,
            n == unreachable_spec(patches@.take(i as int)),
        decreases patches@.len() - i,
    {
        assert(patches@.take(i + 1).drop_last() =~= patches@.take(i as int));
        let sources = &patches[i].1.sources;
        let mut dead = true;
        let mut j: usize = 0;
        while j < sources.len()
            invariant
                j <= sources@.len(),
                dead == (forall|k: int| 0 <= k < j ==> (#[trigger] sources@[k]).1.status == Status::Dead),
            decreases sources@.len() - j,
        {
            if sources[j].1.status != Status::Dead {
                dead = false;
            }
            j = j + 1;
        }
        if dead {
            n = n + 1;
        }
        i = i + 1;
    }
    assert(patches@.take(i as int) =~= patches@);
    n
}

} // verus!
