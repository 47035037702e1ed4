use vstd::prelude::*;

use crate::index::{DiscoveryMethod, PatchEntry, Region, Repository};
use crate::text::{chars_of, pieces, push_str, split, split_chars, string_of};
use crate::version::{version_text, GameVersion, Version, VersionModel};

verus! {

/// The version the patch servers are asked from when nothing is installed.
pub const SENTINEL: &'static str = "2012.01.01.0000.0000";

/// `SENTINEL` as a version.
pub open spec fn sentinel_model() -> VersionModel {
    VersionModel {
        year: 2012,
        month: 1,
        day: 1,
        part: 0,
        revision: 0,
        is_historic: false,
        section: None,
    }
}

/// `SENTINEL` as a game version.
pub fn sentinel() -> (v: GameVersion)
    ensures
        v@ == sentinel_model(),
{
    GameVersion(
        Version { year: 2012, month: 1, day: 1, part: 0, revision: 0, is_historic: false, section: None },
    )
}

/// The version a repository reports having: nothing for a full poll, else its newest patch,
/// else nothing.
pub open spec fn version_of_spec(patches: Seq<(GameVersion, PatchEntry)>, full: bool) -> VersionModel {
    if full || patches.len() == 0 {
        sentinel_model()
    } else {
        patches.last().0@
    }
}

/// The version a repository reports having.
pub fn version_of(repository: &Repository, full: bool) -> (v: GameVersion)
    ensures
        v@ == version_of_spec(repository.patches@, full),
{
    let n = repository.patches.len();
    if full || n == 0 {
        sentinel()
    } else {
        repository.patches[n - 1].0.duplicate()
    }
}

/// Where `c` last occurs in `s`, or -1.
pub open spec fn last_index(s: Seq<char>, c: char) -> int
    decreases s.len(),
{
    if s.len() == 0 {
        -1
    } else if s.last() == c {
        s.len() - 1
    } else {
        last_index(s.drop_last(), c)
    }
}

proof fn lemma_last_index(s: Seq<char>, c: char)
    ensures
        -1 <= last_index(s, c) < s.len(),
    decreases s.len(),
{
    if s.len() > 0 && s.last() != c {
        lemma_last_index(s.drop_last(), c);
    }
}

/// What follows the last `/` of a repository name: its expansion.
pub open spec fn last_segment(name: Seq<char>) -> Seq<char> {
    name.skip(last_index(name, '/') + 1)
}

fn last_segment_of(name: &str) -> (s: String)
    ensures
        s@ == last_segment(name@),
{
    let cs = chars_of(name);
    let mut k: usize = cs.len();
    assert(cs@.take(cs@.len() as int) =~= cs@);
    while k > 0 && cs[k - 1] != '/'
        invariant
            k <= cs@.len(),
            cs@ == name@,
            last_index(name@, '/') == last_index(cs@.take(k as int), '/'),
        decreases k,
    {
        assert(cs@.take(k as int).drop_last() =~= cs@.take(k - 1));
        k = k - 1;
    }
    proof {
        if k > 0 {
            assert(cs@.take(k as int).last() == '/');
        }
        assert(cs@.take(cs@.len() as int) =~= cs@);
    }
    let out = string_of(vstd::slice::slice_subrange(cs.as_slice(), k, cs.len()));
    assert(out@ =~= last_segment(name@));
    out
}

/// The report lines for `repos[..k]`, the one at `game` left out: each expansion with the
/// version it has.
pub open spec fn report_lines(repos: Seq<Repository>, game: int, full: bool) -> Seq<char>
    decreases repos.len(),
{
    if repos.len() == 0 {
        Seq::empty()
    } else {
        let r = repos.last();
        report_lines(repos.drop_last(), game, full) + if repos.len() - 1 == game {
            Seq::empty()
        } else {
            "\n"@ + last_segment(r.name@) + "\t"@ + version_text(version_of_spec(r.patches@, full), false)
        }
    }
}

/// The body of a version check: the sentinel and an empty hash, then a line for every
/// repository but the game's.
pub open spec fn report_spec(repos: Seq<Repository>, game: int, full: bool) -> Seq<char> {
    SENTINEL@ + "=00000000000000000000000000000000"@ + report_lines(repos, game, full)
}

/// The body of a version check.
pub fn report(repositories: &[Repository], game: usize, full: bool) -> (body: String)
    ensures
        body@ == report_spec(repositories@, game as int, full),
{
    let mut body = String::new();
    push_str(&mut body, SENTINEL);
    push_str(&mut body, "=00000000000000000000000000000000");
    let mut i: usize = 0;
    while i < repositories.len()
        invariant
            i <= repositories@.len(),
            body@ == SENTINEL@ + "=00000000000000000000000000000000"@ + report_lines(
                repositories@.take(i as int),
                game as int,
                full,
            ),
        decreases repositories@.len() - i,
    {
        let ghost before = body@;
        proof {
            assert(repositories@.take(i + 1).drop_last() =~= repositories@.take(i as int));
        }
        if i != game {
            let repository = &repositories[i];
            push_str(&mut body, "\n");
            let expansion = last_segment_of(repository.name.as_str());
            push_str(&mut body, expansion.as_str());
            push_str(&mut body, "\t");
            let version = version_of(repository, full).to_string();
            push_str(&mut body, version.as_str());
            assert(body@ =~= before + ("\n"@ + last_segment(repository.name@) + "\t"@ + version_text(
                version_of_spec(repository.patches@, full),
                false,
            )));
        } else {
            assert(body@ =~= before + Seq::<char>::empty());
        }
        i = i + 1;
    }
    assert(repositories@.take(i as int) =~= repositories@);
    body
}

/// Why no version check can be sent for a repository.
#[derive(Debug, Clone, PartialEq, Eq)]
pub enum EndpointError {
    /// The name is not of the form `product/platform/channel/repo`.
    BadName(String),
    /// The global game repository is only answered within a logged-in session.
    NeedsSession,
}

/// The host that answers version checks for a region's repository.
pub open spec fn host_of(region: Region, repo: Seq<char>) -> Option<Seq<char>> {
    match region {
        Region::Global => if repo == "boot"@ {
            Some("patch-bootver.ffxiv.com"@)
        } else {
            None
        },
        Region::Korea => Some("ngamever-live.ff14.co.kr"@),
        Region::China => Some("ffxivpatch01.ff14.sdo.com"@),
        Region::Taiwan => Some("patch-gamever.ffxiv.com.tw"@),
    }
}

/// Where a repository's version check goes:
/// `http://{host}/http/{platform}/{product}_{channel}_{repo}/{from}/`.
pub open spec fn endpoint_spec(region: Region, name: Seq<char>, from: VersionModel) -> Result<Seq<char>, EndpointError> {
    let parts = split(name, '/');
    if parts.len() != 4 {
        Err(EndpointError::BadName(arbitrary()))
    } else {
        match host_of(region, parts[3]) {
            None => Err(EndpointError::NeedsSession),
            Some(host) => Ok(
                "http://"@ + host + "/http/"@ + parts[1] + "/"@ + parts[0] + "_"@ + parts[2] + "_"@
                    + parts[3] + "/"@ + version_text(from, false) + "/"@,
            ),
        }
    }
}

/// Where a repository's version check goes.
pub fn endpoint(region: Region, name: &str, from: &GameVersion) -> (r: Result<String, EndpointError>)
    ensures
        match r {
            Ok(url) => endpoint_spec(region, name@, from@) == Ok::<Seq<char>, EndpointError>(url@),
            Err(EndpointError::BadName(n)) => endpoint_spec(region, name@, from@) is Err
                && split(name@, '/').len() != 4 && n@ == name@,
            Err(e) => endpoint_spec(region, name@, from@) == Err::<Seq<char>, EndpointError>(e),
        },
{
    let cs = chars_of(name);
    let parts = split_chars(cs.as_slice(), '/');
    if parts.len() != 4 {
        return Err(EndpointError::BadName(name.to_owned()));
    }
    let product = string_of(parts[0].as_slice());
    let platform = string_of(parts[1].as_slice());
    let channel = string_of(parts[2].as_slice());
    let repo = string_of(parts[3].as_slice());
    assert(product@ == split(name@, '/')[0]);
    assert(platform@ == split(name@, '/')[1]);
    assert(channel@ == split(name@, '/')[2]);
    assert(repo@ == split(name@, '/')[3]);
    assert(split(name@, '/').len() == 4);
    let boot = "boot".to_owned();
    let host: &str = match region {
        Region::Global => {
            if repo == boot {
                "patch-bootver.ffxiv.com"
            } else {
                return Err(EndpointError::NeedsSession);
            }
        },
        Region::Korea => "ngamever-live.ff14.co.kr",
        Region::China => "ffxivpatch01.ff14.sdo.com",
        Region::Taiwan => "patch-gamever.ffxiv.com.tw",
    };
    let mut url = String::new();
    push_str(&mut url, "http://");
    push_str(&mut url, host);
    push_str(&mut url, "/http/");
    push_str(&mut url, platform.as_str());
    push_str(&mut url, "/");
    push_str(&mut url, product.as_str());
    push_str(&mut url, "_");
    push_str(&mut url, channel.as_str());
    push_str(&mut url, "_");
    push_str(&mut url, repo.as_str());
    push_str(&mut url, "/");
    let version = from.to_string();
    push_str(&mut url, version.as_str());
    push_str(&mut url, "/");
    assert(host_of(region, repo@) == Some(host@));
    assert(url@ =~= "http://"@ + host@ + "/http/"@ + platform@ + "/"@ + product@ + "_"@ + channel@ + "_"@
        + repo@ + "/"@ + version_text(from@, false) + "/"@);
    Ok(url)
}

/// What the sweep recorded a patch as following: for a patch found by sweeping the CDN, the
/// patch listed before it (none for the first); any other keeps its own.
pub open spec fn relinked_prev(patches: Seq<(GameVersion, PatchEntry)>, i: int) -> Option<VersionModel> {
    if patches[i].1.discovered.method == DiscoveryMethod::CdnSweep {
        if i == 0 {
            None
        } else {
            Some(patches[i - 1].0@)
        }
    } else {
        match patches[i].1.prev {
            Some(v) => Some(v@),
            None => None,
        }
    }
}

/// Link every patch found by sweeping the CDN to the patch listed before it.
pub fn relink(repository: &mut Repository)
    ensures
        final(repository).schema == old(repository).schema,
        final(repository).slug == old(repository).slug,
        final(repository).name == old(repository).name,
        final(repository).region == old(repository).region,
        final(repository).latest == old(repository).latest,
        final(repository).patches@.len() == old(repository).patches@.len(),
        forall|i: int| 0 <= i < old(repository).patches@.len() ==> {
            let o = old(repository).patches@[i];
            let n = #[trigger] final(repository).patches@[i];
            &&& n.0 == o.0
            &&& n.1.size == o.1.size
            &&& n.1.header == o.1.header
            &&& n.1.sources == o.1.sources
            &&& n.1.discovered == o.1.discovered
            &&& n.1.verified == o.1.verified
            &&& match n.1.prev {
                Some(v) => relinked_prev(old(repository).patches@, i) == Some(v@),
                None => relinked_prev(old(repository).patches@, i) is None,
            }
        },
{
    let ghost before = repository.patches@;
    let mut previous: Option<GameVersion> = None;
    let mut i: usize = 0;
    while i < repository.patches.len()
        invariant
            repository.patches@.len() == before.len(),
            i <= before.len(),
            repository.schema == old(repository).schema,
            repository.slug == old(repository).slug,
            repository.name == old(repository).name,
            repository.region == old(repository).region,
            repository.latest == old(repository).latest,
            before == old(repository).patches@,
            match previous {
                Some(p) => i > 0 && p@ == before[i - 1].0@,
                None => i == 0,
            },
            forall|k: int| 0 <= k < i ==> {
                let o = before[k];
                let n = #[trigger] repository.patches@[k];
                &&& n.0 == o.0
                &&& n.1.size == o.1.size
                &&& n.1.header == o.1.header
                &&& n.1.sources == o.1.sources
                &&& n.1.discovered == o.1.discovered
                &&& n.1.verified == o.1.verified
                &&& match n.1.prev {
                    Some(v) => relinked_prev(before, k) == Some(v@),
                    None => relinked_prev(before, k) is None,
                }
            },
            forall|k: int| i <= k < before.len() ==> #[trigger] repository.patches@[k] == before[k],
        decreases before.len() - i,
    {
        let (version, mut entry) = repository.patches.remove(i);
        if entry.discovered.method == DiscoveryMethod::CdnSweep {
            let install = match &entry.header {
                Some(header) => header.is_install(),
                None => false,
            };
            entry.prev = if install && previous.is_none() {
                None
            } else {
                match &previous {
                    Some(p) => Some(p.duplicate()),
                    None => None,
                }
            };
        }
        let next = version.duplicate();
        repository.patches.insert(i, (version, entry));
        previous = Some(next);
        i = i + 1;
    }
}

} // verus!
