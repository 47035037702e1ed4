//! Guessing patch names on a CDN: every name a run of dates could carry, and, for a found
//! hotfix, the name of the hotfix after it.
use vstd::prelude::*;

use vstd::utf8::{decode_utf8, encode_utf8, valid_utf8};

use crate::bytes::utf8_text;
use crate::index::{
    entry_index, lemma_entry_index, Discovered, DiscoveryMethod, Header, Origin, PatchEntry, Repository, Source, Status,
};
use crate::order::{older, same_rank};
use crate::version::{parse_version, version_error, GameVersion, VersionError, VersionModel};
use crate::names::str_views;
use crate::text::{decimal, decimal_len, push_decimal, push_str, push_zeros, zero_pad};

verus! {

/// The section letters after `s`: the last letter moves on by one, a `z` turning into an
/// `a` and carrying into the letter before it, and an `a` put in front when every letter
/// carried.
pub open spec fn bump(s: Seq<u8>) -> Seq<u8>
    decreases s.len(),
{
    if s.len() == 0 {
        seq![97u8]
    } else if s.last() == 122 {
        bump(s.drop_last()).push(97u8)
    } else {
        s.drop_last().push(((s.last() + 1) % 256) as u8)
    }
}

pub open spec fn is_ascii_digit(b: u8) -> bool {
    48 <= b <= 57
}

/// The index of the last ASCII digit of `s`, or -1.
pub open spec fn last_digit(s: Seq<u8>) -> int
    decreases s.len(),
{
    if s.len() == 0 {
        -1
    } else if is_ascii_digit(s.last()) {
        s.len() - 1
    } else {
        last_digit(s.drop_last())
    }
}

/// The bytes of the hotfix name after `b`: `H`, the version up to its last digit, then the
/// section letters moved on; nothing when `b` is no hotfix name with a section.
pub open spec fn next_letter_bytes(b: Seq<u8>) -> Option<Seq<u8>> {
    if b.len() == 0 || b[0] != 72 {
        None
    } else {
        let stem = b.drop_first();
        let k = last_digit(stem);
        if k < 0 || k + 1 == stem.len() {
            None
        } else {
            Some(seq![72u8] + stem.take(k + 1) + bump(stem.skip(k + 1)))
        }
    }
}

/// The name of the hotfix after `name`, where its bytes make text.
pub open spec fn next_letter_spec(name_bytes: Seq<u8>) -> Option<Seq<char>> {
    match next_letter_bytes(name_bytes) {
        Some(b) => if valid_utf8(b) {
            Some(decode_utf8(b))
        } else {
            None
        },
        None => None,
    }
}

proof fn lemma_last_digit(s: Seq<u8>)
    ensures
        -1 <= last_digit(s) < s.len(),
        last_digit(s) >= 0 ==> is_ascii_digit(s[last_digit(s)]),
        forall|j: int| last_digit(s) < j < s.len() ==> !is_ascii_digit(#[trigger] s[j]),
    decreases s.len(),
{
    if s.len() > 0 && !is_ascii_digit(s.last()) {
        lemma_last_digit(s.drop_last());
        assert forall|j: int| last_digit(s) < j < s.len() implies !is_ascii_digit(#[trigger] s[j]) by {
            if j < s.len() - 1 {
                assert(s[j] == s.drop_last()[j]);
            }
        }
    }
}

/// The section letters after `s`, as bytes.
fn bump_exec(s: &[u8]) -> (out: Vec<u8>)
    ensures
        out@ == bump(s@),
    decreases s.len(),
{
    if s.len() == 0 {
        return vec![97u8];
    }
    let n = s.len();
    let head = vstd::slice::slice_subrange(s, 0, n - 1);
    assert(head@ =~= s@.drop_last());
    if s[n - 1] == 122 {
        let mut out = bump_exec(head);
        out.push(97u8);
        out
    } else {
        let mut out: Vec<u8> = Vec::new();
        let mut i: usize = 0;
        while i < n - 1
            invariant
                n == s@.len(),
                i <= n - 1,
                out@ == s@.take(i as int),
            decreases n - 1 - i,
        {
            out.push(s[i]);
            assert(s@.take(i + 1) =~= s@.take(i as int).push(s@[i as int]));
            i = i + 1;
        }
        out.push(s[n - 1].wrapping_add(1));
        assert(out@ =~= s@.drop_last().push(((s@.last() + 1) % 256) as u8));
        out
    }
}

/// The name of the hotfix that would follow `name`: the same version with the section letters
/// moved on by one (`...a` after which `...b`, `...z` after which `...aa`); nothing when
/// `name` is no hotfix name (`H`, a version ending in a digit, then letters).
pub fn next_letter(name: &str) -> (r: Option<String>)
    ensures
        match r {
            Some(s) => next_letter_spec(encode_utf8(name@)) == Some(s@),
            None => next_letter_spec(encode_utf8(name@)) is None,
        },
{
    let b = name.as_bytes();
    if b.len() == 0 || b[0] != 72 {
        return None;
    }
    let ghost stem = b@.drop_first();
    let mut k = b.len();
    assert(stem.take(k - 1) =~= stem);
    while k > 1 && !(48 <= b[k - 1] && b[k - 1] <= 57)
        invariant
            1 <= k <= b@.len(),
            stem == b@.drop_first(),
            last_digit(stem) == last_digit(stem.take(k - 1)),
        decreases k,
    {
        assert(stem.take(k - 1).drop_last() =~= stem.take(k - 2));
        k = k - 1;
    }
    proof {
        assert(stem.take(b@.len() - 1) =~= stem);
        if k > 1 {
            assert(stem.take(k - 1).last() == b@[k - 1]);
        }
    }
    if k == 1 || k == b.len() {
        proof {
            if k > 1 {
                assert(last_digit(stem) == k - 2);
            }
        }
        return None;
    }
    assert(last_digit(stem) == k - 2);
    let section = vstd::slice::slice_subrange(b, k, b.len());
    assert(section@ =~= stem.skip(k - 1));
    let letters = bump_exec(section);
    let mut out: Vec<u8> = Vec::new();
    let mut i: usize = 0;
    while i < k
        invariant
            k <= b@.len(),
            i <= k,
            out@ == b@.take(i as int),
        decreases k - i,
    {
        out.push(b[i]);
        assert(b@.take(i + 1) =~= b@.take(i as int).push(b@[i as int]));
        i = i + 1;
    }
    let mut j: usize = 0;
    while j < letters.len()
        invariant
            j <= letters@.len(),
            out@ == b@.take(k as int) + letters@.take(j as int),
        decreases letters@.len() - j,
    {
        out.push(letters[j]);
        assert(letters@.take(j + 1) =~= letters@.take(j as int).push(letters@[j as int]));
        j = j + 1;
    }
    assert(letters@.take(letters@.len() as int) =~= letters@);
    assert(b@.take(k as int) =~= seq![72u8] + stem.take(k - 1));
    assert(out@ =~= seq![72u8] + stem.take(k - 1) + bump(stem.skip(k - 1)));
    utf8_text(out.as_slice())
}

/// `n` in decimal, zero-padded to four digits.
pub open spec fn padded4(n: nat) -> Seq<char> {
    zero_pad(decimal(n), 4)
}

/// The two names one date, part and revision can carry: the patch and its first hotfix.
pub open spec fn probe_pair(stamp: Seq<char>, part: nat, revision: nat) -> Seq<Seq<char>> {
    let tail = seq!['.'] + padded4(part) + seq!['.'] + padded4(revision);
    seq![seq!['D'] + stamp + tail, seq!['H'] + stamp + tail + seq!['a']]
}

/// The names of the first `n` revisions of one date and part.
pub open spec fn revision_names(stamp: Seq<char>, part: nat, n: nat) -> Seq<Seq<char>>
    decreases n,
{
    if n == 0 {
        Seq::empty()
    } else {
        revision_names(stamp, part, (n - 1) as nat) + probe_pair(stamp, part, (n - 1) as nat)
    }
}

/// The names of the first `n` parts of one date.
pub open spec fn part_names(stamp: Seq<char>, n: nat, revisions: nat) -> Seq<Seq<char>>
    decreases n,
{
    if n == 0 {
        Seq::empty()
    } else {
        part_names(stamp, (n - 1) as nat, revisions) + revision_names(stamp, (n - 1) as nat, revisions)
    }
}

/// Every name a sweep over `stamps` probes, date by date, part `0..=parts` and revision
/// `0..revisions`.
pub open spec fn sweep_spec(stamps: Seq<Seq<char>>, parts: nat, revisions: nat) -> Seq<Seq<char>>
    decreases stamps.len(),
{
    if stamps.len() == 0 {
        Seq::empty()
    } else {
        sweep_spec(stamps.drop_last(), parts, revisions) + part_names(stamps.last(), parts + 1, revisions)
    }
}

fn push_padded4(out: &mut String, n: u32)
    ensures
        final(out)@ == old(out)@ + padded4(n as nat),
{
    let ghost before = out@;
    let l = decimal_len(n as u64);
    if l < 4 {
        push_zeros(out, 4 - l);
    }
    push_decimal(out, n as u64);
    assert(out@ =~= before + padded4(n as nat));
}

fn push_revisions(out: &mut Vec<String>, stamp: &str, part: u32, revisions: u32)
    ensures
        str_views(final(out)@) == str_views(old(out)@) + revision_names(stamp@, part as nat, revisions as nat),
{
    let ghost before = str_views(out@);
    let mut r: u32 = 0;
    while r < revisions
        invariant
            r <= revisions,
            str_views(out@) == before + revision_names(stamp@, part as nat, r as nat),
        decreases revisions - r,
    {
        let mut tail = String::new();
        tail.push('.');
        push_padded4(&mut tail, part);
        tail.push('.');
        push_padded4(&mut tail, r);
        let mut d = String::new();
        d.push('D');
        push_str(&mut d, stamp);
        push_str(&mut d, tail.as_str());
        let mut h = String::new();
        h.push('H');
        push_str(&mut h, stamp);
        push_str(&mut h, tail.as_str());
        h.push('a');
        let ghost mid = out@;
        out.push(d);
        out.push(h);
        proof {
            let pair = probe_pair(stamp@, part as nat, r as nat);
            let t = seq!['.'] + padded4(part as nat) + seq!['.'] + padded4(r as nat);
            assert(tail@ =~= t);
            assert(out@[mid.len() as int]@ =~= pair[0]);
            assert(out@[mid.len() as int + 1]@ =~= pair[1]);
            assert(str_views(out@) =~= str_views(mid) + pair);
        }
        r = r + 1;
    }
}

/// The names a sweep probes: for each date stamp, each part up to `parts` and each revision
/// below `revisions`, the patch `D<stamp>.<part:04>.<revision:04>` and its first hotfix
/// `H<stamp>.<part:04>.<revision:04>a`; at most `budget` of them, the first ones.
pub fn sweep_names(stamps: &[String], parts: u32, revisions: u32, budget: usize) -> (r: Vec<String>)
    ensures
        str_views(r@) == (if sweep_spec(str_views(stamps@), parts as nat, revisions as nat).len() > budget {
            sweep_spec(str_views(stamps@), parts as nat, revisions as nat).take(budget as int)
        } else {
            sweep_spec(str_views(stamps@), parts as nat, revisions as nat)
        }),
{
    let mut names: Vec<String> = Vec::new();
    let mut i: usize = 0;
    while i < stamps.len()
        invariant
            i <= stamps@.len(),
            str_views(names@) == sweep_spec(str_views(stamps@).take(i as int), parts as nat, revisions as nat),
        decreases stamps@.len() - i,
    {
        let stamp = stamps[i].as_str();
        let ghost start = str_views(names@);
        let mut part: u64 = 0;
        while part <= parts as u64
            invariant
                part <= parts as u64 + 1,
                stamp@ == stamps@[i as int]@,
                str_views(names@) == start + part_names(stamp@, part as nat, revisions as nat),
            decreases parts as u64 + 1 - part,
        {
            let ghost mid = str_views(names@);
            push_revisions(&mut names, stamp, part as u32, revisions);
            assert(str_views(names@) =~= start + part_names(stamp@, (part + 1) as nat, revisions as nat));
            part = part + 1;
        }
        proof {
            let t = str_views(stamps@).take(i + 1);
            assert(t.drop_last() =~= str_views(stamps@).take(i as int));
            assert(t.last() == stamps@[i as int]@);
        }
        i = i + 1;
    }
    assert(str_views(stamps@).take(stamps@.len() as int) =~= str_views(stamps@));
    let ghost all = str_views(names@);
    names.truncate(budget);
    assert(str_views(names@) =~= (if all.len() > budget {
        all.take(budget as int)
    } else {
        all
    }));
    names
}

/// The versions the found names spell, or the error of the first that spells none.
pub open spec fn found_versions(names: Seq<Seq<char>>) -> Result<Seq<VersionModel>, VersionError>
    decreases names.len(),
{
    if names.len() == 0 {
        Ok(Seq::empty())
    } else {
        match found_versions(names.drop_last()) {
            Err(e) => Err(e),
            Ok(vs) => match parse_version(names.last()) {
                Some(v) => Ok(vs.push(v)),
                None => Err(version_error(names.last())),
            },
        }
    }
}

/// Whether a version of the same rank is listed.
pub open spec fn listed(m: Seq<(VersionModel, int)>, v: VersionModel) -> bool {
    exists|j: int| 0 <= j < m.len() && same_rank(#[trigger] m[j].0, v)
}

/// Where `v` goes in a list kept oldest first: before the first version not older than it.
pub open spec fn insert_pos(m: Seq<(VersionModel, int)>, v: VersionModel) -> int
    decreases m.len(),
{
    if m.len() == 0 || !older(m[0].0, v) {
        0
    } else {
        1 + insert_pos(m.drop_first(), v)
    }
}

/// The list of versions after the found ones are added in turn, each tagged with where its
/// entry comes from: `-1 - i` for the repository's entry `i`, `k` for the found patch `k`.
/// A version already listed is skipped.
pub open spec fn fold_found(start: Seq<(VersionModel, int)>, fv: Seq<VersionModel>) -> Seq<(VersionModel, int)>
    decreases fv.len(),
{
    if fv.len() == 0 {
        start
    } else {
        let prev = fold_found(start, fv.drop_last());
        let v = fv.last();
        if listed(prev, v) {
            prev
        } else {
            prev.insert(insert_pos(prev, v), (v, fv.len() - 1))
        }
    }
}

/// The repository's own entries, tagged as such.
pub open spec fn listed_start(ps: Seq<(GameVersion, PatchEntry)>) -> Seq<(VersionModel, int)> {
    Seq::new(ps.len(), |i: int| (ps[i].0@, -1 - i))
}

/// The entry a sweep records for a patch it found: no predecessor yet, its size and header,
/// one live CDN source under `base`, found now by sweeping, not verified.
pub open spec fn found_entry(e: PatchEntry, name: Seq<char>, size: i64, header: Option<Header>, base: Seq<char>, stamp: Seq<char>) -> bool {
    &&& e.prev is None
    &&& e.size == size
    &&& e.header == header
    &&& e.sources@.len() == 1
    &&& e.sources@[0].0 == Origin::Cdn
    &&& e.sources@[0].1.url@ == base + seq!['/'] + name + seq!['.', 'p', 'a', 't', 'c', 'h']
    &&& e.sources@[0].1.status == Status::Alive
    &&& e.sources@[0].1.checked@ == stamp
    &&& e.discovered.at@ == stamp
    &&& e.discovered.method == DiscoveryMethod::CdnSweep
    &&& e.verified is None
}

pub open spec fn found_names(found: Seq<(String, i64, Option<Header>)>) -> Seq<Seq<char>> {
    Seq::new(found.len(), |i: int| found[i].0@)
}

proof fn lemma_found_versions_len(names: Seq<Seq<char>>)
    ensures
        found_versions(names) matches Ok(vs) ==> vs.len() == names.len() && forall|i: int|
            0 <= i < names.len() ==> parse_version(names[i]) == Some(#[trigger] vs[i]),
    decreases names.len(),
{
    if names.len() > 0 {
        lemma_found_versions_len(names.drop_last());
        if let Ok(vs) = found_versions(names) {
            let prev = found_versions(names.drop_last())->Ok_0;
            assert forall|i: int| 0 <= i < names.len() implies parse_version(names[i]) == Some(#[trigger] vs[i]) by {
                if i < names.len() - 1 {
                    assert(names.drop_last()[i] == names[i]);
                    assert(vs[i] == prev[i]);
                }
            }
        }
    }
}

fn copy_str(s: &str) -> (out: String)
    ensures
        out@ == s@,
{
    let mut out = String::new();
    push_str(&mut out, s);
    out
}

fn found_entry_exec(name: &str, size: i64, header: Option<Header>, base: &str, stamp: &str) -> (e: PatchEntry)
    ensures
        found_entry(e, name@, size, header, base@, stamp@),
{
    let mut url = String::new();
    push_str(&mut url, base);
    url.push('/');
    push_str(&mut url, name);
    proof {
        reveal_strlit(".patch");
    }
    push_str(&mut url, ".patch");
    assert(url@ =~= base@ + seq!['/'] + name@ + seq!['.', 'p', 'a', 't', 'c', 'h']);
    let source = Source { url, status: Status::Alive, checked: copy_str(stamp) };
    let mut sources = Vec::new();
    sources.push((Origin::Cdn, source));
    PatchEntry {
        prev: None,
        size,
        header,
        sources,
        discovered: Discovered { at: copy_str(stamp), method: DiscoveryMethod::CdnSweep },
        verified: None,
    }
}

/// Where `version` goes among the repository's patches, oldest first.
fn insert_position(ps: &Vec<(GameVersion, PatchEntry)>, version: &GameVersion, Ghost(m): Ghost<Seq<(VersionModel, int)>>) -> (pos: usize)
    requires
        m.len() == ps@.len(),
        forall|i: int| 0 <= i < m.len() ==> #[trigger] m[i].0 == ps@[i].0@,
    ensures
        pos == insert_pos(m, version@),
        pos <= ps@.len(),
{
    let mut i: usize = 0;
    assert(m.skip(0) =~= m);
    while i < ps.len() && ps[i].0.0.compare(&version.0) < 0
        invariant
            i <= ps@.len(),
            m.len() == ps@.len(),
            forall|k: int| 0 <= k < m.len() ==> #[trigger] m[k].0 == ps@[k].0@,
            insert_pos(m, version@) == i + insert_pos(m.skip(i as int), version@),
        decreases ps@.len() - i,
    {
        assert(m.skip(i as int)[0] == m[i as int]);
        assert(m.skip(i as int).drop_first() =~= m.skip(i + 1));
        i = i + 1;
    }
    if i < ps.len() {
        assert(m.skip(i as int)[0] == m[i as int]);
    } else {
        assert(m.skip(i as int).len() == 0);
    }
    i
}

/// Add the patches a sweep found (name, size, header) to the repository, each under
/// `base` and stamped `stamp`, in turn and in version order, skipping versions already
/// listed; gives how many were added. A name that spells no version refuses the whole
/// batch, and the repository is left as it was.
pub fn add_found(repository: &mut Repository, found: &[(String, i64, Option<Header>)], base: &str, stamp: &str) -> (r: Result<u64, VersionError>)
    ensures
        match r {
            Err(e) => found_versions(found_names(found@)) == Err::<Seq<VersionModel>, VersionError>(e)
                && *final(repository) == *old(repository),
            Ok(added) => found_versions(found_names(found@)) is Ok && {
                let m = fold_found(listed_start(old(repository).patches@), found_versions(found_names(found@))->Ok_0);
                &&& final(repository).patches@.len() == m.len()
                &&& added == m.len() - old(repository).patches@.len()
                &&& forall|i: int| 0 <= i < m.len() ==> {
                    let e = #[trigger] final(repository).patches@[i];
                    &&& e.0@ == m[i].0
                    &&& m[i].1 < 0 ==> e.1 == old(repository).patches@[-1 - m[i].1].1
                    &&& m[i].1 >= 0 ==> found_entry(
                        e.1,
                        found@[m[i].1].0@,
                        found@[m[i].1].1,
                        found@[m[i].1].2,
                        base@,
                        stamp@,
                    )
                }
                &&& final(repository).schema == old(repository).schema
                &&& final(repository).slug == old(repository).slug
                &&& final(repository).name == old(repository).name
                &&& final(repository).region == old(repository).region
                &&& final(repository).latest == old(repository).latest
            },
        },
{
    let ghost names = found_names(found@);
    let mut versions: Vec<GameVersion> = Vec::new();
    let mut i: usize = 0;
    assert(names.take(0) =~= Seq::<Seq<char>>::empty());
    assert(Seq::new(versions@.len(), |k: int| versions@[k]@) =~= Seq::<VersionModel>::empty());
    while i < found.len()
        invariant
            i <= found@.len(),
            names == found_names(found@),
            found_versions(names.take(i as int)) == Ok::<Seq<VersionModel>, VersionError>(
                Seq::new(versions@.len(), |k: int| versions@[k]@),
            ),
        decreases found@.len() - i,
    {
        assert(names.take(i + 1).drop_last() =~= names.take(i as int));
        assert(names.take(i + 1).last() == found@[i as int].0@);
        match GameVersion::new(found[i].0.as_str()) {
            Err(e) => {
                proof {
                    lemma_found_prefix_err(names, (i + 1) as nat);
                }
                return Err(e);
            },
            Ok(v) => {
                let ghost before = Seq::new(versions@.len(), |k: int| versions@[k]@);
                versions.push(v);
                assert(Seq::new(versions@.len(), |k: int| versions@[k]@) =~= before.push(v@));
            },
        }
        i = i + 1;
    }
    assert(names.take(found@.len() as int) =~= names);
    let ghost fv = Seq::new(versions@.len(), |k: int| versions@[k]@);
    proof {
        lemma_found_versions_len(names);
    }
    let ghost start = listed_start(repository.patches@);
    let ghost old_ps = repository.patches@;
    let mut added: u64 = 0;
    let mut j: usize = 0;
    assert(fv.take(0) =~= Seq::<VersionModel>::empty());
    while j < versions.len()
        invariant
            j <= versions@.len(),
            versions@.len() == found@.len(),
            fv == Seq::new(versions@.len(), |k: int| versions@[k]@),
            found_versions(names) == Ok::<Seq<VersionModel>, VersionError>(fv),
            names == found_names(found@),
            start == listed_start(old_ps),
            old_ps == old(repository).patches@,
            repository.schema == old(repository).schema,
            repository.slug == old(repository).slug,
            repository.name == old(repository).name,
            repository.region == old(repository).region,
            repository.latest == old(repository).latest,
            repository.patches@.len() == fold_found(start, fv.take(j as int)).len(),
            fold_found(start, fv.take(j as int)).len() >= old_ps.len(),
            added == fold_found(start, fv.take(j as int)).len() - old_ps.len(),
            added <= j,
            forall|k: int| 0 <= k < fold_found(start, fv.take(j as int)).len() ==> {
                let e = #[trigger] repository.patches@[k];
                let t = fold_found(start, fv.take(j as int))[k];
                &&& e.0@ == t.0
                &&& t.1 < 0 ==> -1 - t.1 < old_ps.len() && e.1 == old_ps[-1 - t.1].1
                &&& t.1 >= 0 ==> t.1 < j && found_entry(e.1, found@[t.1].0@, found@[t.1].1, found@[t.1].2, base@, stamp@)
            },
        decreases versions@.len() - j,
    {
        let ghost prev = fold_found(start, fv.take(j as int));
        assert(fv.take(j + 1).drop_last() =~= fv.take(j as int));
        assert(fv.take(j + 1).last() == versions@[j as int]@);
        let version = &versions[j];
        proof {
            lemma_entry_index(repository.patches@, version@);
        }
        match repository.find(version) {
            Some(k) => {
                assert(same_rank(prev[k as int].0, version@));
                assert(listed(prev, version@));
            },
            None => {
                assert(!listed(prev, version@)) by {
                    if listed(prev, version@) {
                        let w = choose|w: int| 0 <= w < prev.len() && same_rank(#[trigger] prev[w].0, version@);
                        assert(repository.patches@[w].0@ == prev[w].0);
                    }
                }
                let pos = insert_position(&repository.patches, version, Ghost(prev));
                let entry = found_entry_exec(found[j].0.as_str(), found[j].1, found[j].2, base, stamp);
                assert(found@[j as int].0@ == names[j as int]);
                let ghost before_ps = repository.patches@;
                repository.patches.insert(pos, (version.duplicate(), entry));
                proof {
                    let next = prev.insert(pos as int, (version@, j as int));
                    assert(fold_found(start, fv.take(j + 1)) == next);
                    assert forall|k: int| 0 <= k < next.len() implies {
                        let e = #[trigger] repository.patches@[k];
                        let t = next[k];
                        &&& e.0@ == t.0
                        &&& t.1 < 0 ==> -1 - t.1 < old_ps.len() && e.1 == old_ps[-1 - t.1].1
                        &&& t.1 >= 0 ==> t.1 < j + 1 && found_entry(e.1, found@[t.1].0@, found@[t.1].1, found@[t.1].2, base@, stamp@)
                    } by {
                        if k < pos {
                            assert(repository.patches@[k] == before_ps[k]);
                            assert(next[k] == prev[k]);
                        } else if k > pos {
                            assert(repository.patches@[k] == before_ps[k - 1]);
                            assert(next[k] == prev[k - 1]);
                        }
                    }
                }
                added = added + 1;
            },
        }
        j = j + 1;
    }
    assert(fv.take(versions@.len() as int) =~= fv);
    Ok(added)
}

proof fn lemma_found_prefix_err(names: Seq<Seq<char>>, n: nat)
    requires
        0 < n <= names.len(),
        found_versions(names.take(n - 1)) is Ok,
        parse_version(names[n - 1]) is None,
    ensures
        found_versions(names) == Err::<Seq<VersionModel>, VersionError>(version_error(names[n - 1])),
    decreases names.len() - n,
{
    assert(names.take(n as int).drop_last() =~= names.take(n - 1));
    assert(names.take(n as int).last() == names[n - 1]);
    if n < names.len() {
        lemma_found_prefix_err_step(names, n);
    } else {
        assert(names.take(n as int) =~= names);
    }
}

proof fn lemma_found_prefix_err_step(names: Seq<Seq<char>>, n: nat)
    requires
        0 < n <= names.len(),
        found_versions(names.take(n as int)) is Err,
    ensures
        found_versions(names) == found_versions(names.take(n as int)),
    decreases names.len() - n,
{
    if n < names.len() {
        assert(names.take(n + 1int).drop_last() =~= names.take(n as int));
        assert(found_versions(names.take(n + 1int)) == found_versions(names.take(n as int)));
        lemma_found_prefix_err_step(names, n + 1);
    } else {
        assert(names.take(n as int) =~= names);
    }
}

} // verus!
