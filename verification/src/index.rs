use vstd::prelude::*;

use crate::chain::{pair_models, Patch, Step, StepModel};
use crate::chunk::trim_end;
use crate::order::{older, same_rank};
use crate::text::{chars_of, find_char, first_index, lemma_first_index, push_str, string_of};
use crate::version::{GameVersion, VersionModel};

verus! {

/// The regions whose patch servers the index covers.
#[derive(Debug, Clone, Copy, PartialEq, Eq, Structural)]
pub enum Region {
    Global,
    Korea,
    China,
    Taiwan,
}

/// Whether a patch is a diff against its predecessor or a historic full install.
#[derive(Debug, Clone, Copy, PartialEq, Eq, Structural)]
pub enum PatchType {
    Diff,
    Hist,
}

/// Where a patch file can be fetched from; a patch's sources are ordered `Cdn` first.
#[derive(Debug, Clone, Copy, PartialEq, Eq, Structural, PartialOrd, Ord)]
pub enum Origin {
    Cdn,
    ArchiveOrg,
}

/// Whether a source answered the last time it was checked.
#[derive(Debug, Clone, Copy, PartialEq, Eq, Structural)]
pub enum Status {
    Alive,
    Dead,
    Unchecked,
}

/// How a patch came to be listed.
#[derive(Debug, Clone, Copy, PartialEq, Eq, Structural)]
pub enum DiscoveryMethod {
    VersionCheck,
    CdnSweep,
    MaintenanceScrape,
    ThaliakSeed,
    ArchiveIndex,
    Manual,
}

/// How a patch's place in its repository was confirmed.
#[derive(Debug, Clone, Copy, PartialEq, Eq, Structural)]
pub enum VerifyMethod {
    ChainCoverage,
}

/// What the first bytes of a patch file say about it.
#[derive(Debug, Clone, Copy, PartialEq, Eq, Structural)]
pub struct Header {
    pub version: u8,
    pub patch_type: PatchType,
    /// How many add commands the patch holds, where its header counts them.
    pub add_commands: Option<u32>,
    /// How many file commands the patch holds, where its header counts them.
    pub file_commands: Option<u32>,
}

impl Header {
    /// Whether the patch installs files from nothing: it counts no add commands and at least
    /// one file command.
    pub fn is_install(&self) -> (b: bool)
        ensures
            b == (self.add_commands == Some(0u32) && (self.file_commands matches Some(f) && f > 0)),
    {
        match (self.add_commands, self.file_commands) {
            (Some(0), Some(files)) => files > 0,
            _ => false,
        }
    }
}

/// The bytes every ZiPatch file starts with.
pub open spec fn zipatch_magic() -> Seq<u8> {
    seq![0x91u8, 0x5a, 0x49, 0x50, 0x41, 0x54, 0x43, 0x48, 0x0d, 0x0a, 0x1a, 0x0a]
}

/// How many bytes of a patch the header is read from.
pub const HEADER_BYTES: usize = 80;

/// The big-endian 32-bit number at `at`.
pub open spec fn be32(b: Seq<u8>, at: int) -> int {
    b[at] * 0x100_0000 + b[at + 1] * 0x1_0000 + b[at + 2] * 0x100 + b[at + 3]
}

/// What the first bytes of a patch say: nothing unless they hold the ZiPatch magic and a
/// `DIFF` or `HIST` type; the format version is the high half of the little-endian word
/// at 20, cut to a byte (the byte at 22); version 3 headers count add commands (at 60) and
/// file commands (at 76), big-endian.
pub open spec fn header_of(body: Seq<u8>) -> Option<Header> {
    if body.len() < HEADER_BYTES || body.take(12) != zipatch_magic() {
        None
    } else {
        let t = body.subrange(24, 28);
        let kind = if t == seq![0x44u8, 0x49, 0x46, 0x46] {
            Some(PatchType::Diff)
        } else if t == seq![0x48u8, 0x49, 0x53, 0x54] {
            Some(PatchType::Hist)
        } else {
            None
        };
        match kind {
            None => None,
            Some(patch_type) => {
                let version = body[22];
                let counted = version == 3;
                Some(
                    Header {
                        version,
                        patch_type,
                        add_commands: if counted {
                            Some(be32(body, 60) as u32)
                        } else {
                            None
                        },
                        file_commands: if counted {
                            Some(be32(body, 76) as u32)
                        } else {
                            None
                        },
                    },
                )
            },
        }
    }
}

fn read_be32(body: &[u8], at: usize) -> (v: u32)
    requires
        at + 4 <= body@.len(),
    ensures
        v == be32(body@, at as int),
{
    let v = (body[at] as u32) * 0x100_0000 + (body[at + 1] as u32) * 0x1_0000 + (body[at + 2]
        as u32) * 0x100 + body[at + 3] as u32;
    v
}

/// Read the header at the start of a patch file.
pub fn parse_header(body: &[u8]) -> (r: Option<Header>)
    ensures
        r == header_of(body@),
{
    if body.len() < HEADER_BYTES {
        return None;
    }
    let magic: [u8; 12] = [0x91, 0x5a, 0x49, 0x50, 0x41, 0x54, 0x43, 0x48, 0x0d, 0x0a, 0x1a, 0x0a];
    let mut i: usize = 0;
    while i < 12
        invariant
            body@.len() >= HEADER_BYTES,
            magic@ == zipatch_magic(),
            i <= 12,
            forall|j: int| 0 <= j < i ==> body@[j] == magic@[j],
        decreases 12 - i,
    {
        if body[i] != magic[i] {
            assert(body@.take(12)[i as int] != zipatch_magic()[i as int]);
            return None;
        }
        i = i + 1;
    }
    assert(body@.take(12) =~= zipatch_magic());
    let ghost t = body@.subrange(24, 28);
    let patch_type = if body[24] == 0x44 && body[25] == 0x49 && body[26] == 0x46 && body[27]
        == 0x46 {
        assert(t =~= seq![0x44u8, 0x49, 0x46, 0x46]);
        PatchType::Diff
    } else if body[24] == 0x48 && body[25] == 0x49 && body[26] == 0x53 && body[27] == 0x54 {
        assert(t =~= seq![0x48u8, 0x49, 0x53, 0x54]);
        assert(t != seq![0x44u8, 0x49, 0x46, 0x46]) by {
            assert(t[0] != seq![0x44u8, 0x49, 0x46, 0x46][0]);
        }
        PatchType::Hist
    } else {
        assert(t != seq![0x44u8, 0x49, 0x46, 0x46] && t != seq![0x48u8, 0x49, 0x53, 0x54]) by {
            if t == seq![0x44u8, 0x49, 0x46, 0x46] {
                assert(t[0] == 0x44 && t[1] == 0x49 && t[2] == 0x46 && t[3] == 0x46);
            }
            if t == seq![0x48u8, 0x49, 0x53, 0x54] {
                assert(t[0] == 0x48 && t[1] == 0x49 && t[2] == 0x53 && t[3] == 0x54);
            }
        }
        return None;
    };
    let version = body[22];
    let counted = version == 3;
    let add_commands = if counted {
        Some(read_be32(body, 60))
    } else {
        None
    };
    let file_commands = if counted {
        Some(read_be32(body, 76))
    } else {
        None
    };
    Header { version, patch_type, add_commands, file_commands }.into_some()
}

impl Header {
    fn into_some(self) -> (r: Option<Header>)
        ensures
            r == Some(self),
    {
        Some(self)
    }
}

/// Why an index value could not be read.
#[derive(Debug, Clone, PartialEq, Eq)]
pub enum IndexError {
    /// A region name that is none of `global`, `korea`, `china`, `taiwan`.
    UnknownRegion(String),
    /// A repository given without `=region`.
    MissingRegion(String),
}

/// The region a lower-case name stands for.
pub open spec fn region_named(name: Seq<char>) -> Option<Region> {
    if name == seq!['g', 'l', 'o', 'b', 'a', 'l'] {
        Some(Region::Global)
    } else if name == seq!['k', 'o', 'r', 'e', 'a'] {
        Some(Region::Korea)
    } else if name == seq!['c', 'h', 'i', 'n', 'a'] {
        Some(Region::China)
    } else if name == seq!['t', 'a', 'i', 'w', 'a', 'n'] {
        Some(Region::Taiwan)
    } else {
        None
    }
}

/// The region a name stands for.
pub fn parse_region(region: &str) -> (r: Result<Region, IndexError>)
    ensures
        r matches Ok(g) ==> region_named(region@) == Some(g),
        r is Err <==> region_named(region@) is None,
        r matches Err(e) ==> e matches IndexError::UnknownRegion(s) && s@ == region@,
{
    let cs = chars_of(region);
    proof {
        reveal_strlit("global");
        reveal_strlit("korea");
        reveal_strlit("china");
        reveal_strlit("taiwan");
    }
    let g = chars_of("global");
    let k = chars_of("korea");
    let c = chars_of("china");
    let t = chars_of("taiwan");
    assert(g@ =~= seq!['g', 'l', 'o', 'b', 'a', 'l']);
    assert(k@ =~= seq!['k', 'o', 'r', 'e', 'a']);
    assert(c@ =~= seq!['c', 'h', 'i', 'n', 'a']);
    assert(t@ =~= seq!['t', 'a', 'i', 'w', 'a', 'n']);
    if same_chars(&cs, &g) {
        Ok(Region::Global)
    } else if same_chars(&cs, &k) {
        Ok(Region::Korea)
    } else if same_chars(&cs, &c) {
        Ok(Region::China)
    } else if same_chars(&cs, &t) {
        Ok(Region::Taiwan)
    } else {
        Err(IndexError::UnknownRegion(region.to_owned()))
    }
}

pub(crate) fn same_chars(a: &Vec<char>, b: &Vec<char>) -> (r: bool)
    ensures
        r == (a@ == b@),
{
    if a.len() != b.len() {
        return false;
    }
    let mut i: usize = 0;
    while i < a.len()
        invariant
            a@.len() == b@.len(),
            i <= a@.len(),
            forall|j: int| 0 <= j < i ==> a@[j] == b@[j],
        decreases a@.len() - i,
    {
        if a[i] != b[i] {
            return false;
        }
        i = i + 1;
    }
    assert(a@ =~= b@);
    true
}

/// What `slug=region` names: the text before the first `=` and the region after it.
pub open spec fn slug_spec(spec: Seq<char>) -> Option<(Seq<char>, Option<Region>)> {
    let k = first_index(spec, '=');
    if k < 0 {
        None
    } else {
        Some((spec.take(k), region_named(spec.skip(k + 1))))
    }
}

/// A repository and its region, given as `slug=region`.
pub fn parse_slug(spec: &str) -> (r: Result<(String, Region), IndexError>)
    ensures
        r is Ok <==> (slug_spec(spec@) matches Some((_, g)) && g is Some),
        r matches Ok((slug, g)) ==> slug_spec(spec@) == Some((slug@, Some(g))),
        slug_spec(spec@) is None ==> (r matches Err(IndexError::MissingRegion(s)) && s@ == spec@),
        (slug_spec(spec@) matches Some((_, g)) && g is None) ==> (r matches Err(
            IndexError::UnknownRegion(s),
        ) && s@ == spec@.skip(first_index(spec@, '=') + 1)),
{
    let cs = chars_of(spec);
    let n = cs.len();
    assert(cs@.subrange(0, n as int) =~= cs@);
    let eq = match find_char(cs.as_slice(), 0, n, '=') {
        Some(k) => k,
        None => {
            return Err(IndexError::MissingRegion(spec.to_owned()));
        },
    };
    proof {
        lemma_first_index(cs@, '=');
    }
    let slug = string_of(vstd::slice::slice_subrange(cs.as_slice(), 0, eq));
    let rest = string_of(vstd::slice::slice_subrange(cs.as_slice(), eq + 1, n));
    assert(slug@ =~= spec@.take(eq as int));
    assert(rest@ =~= spec@.skip(eq + 1));
    match parse_region(rest.as_str()) {
        Ok(g) => Ok((slug, g)),
        Err(e) => Err(e),
    }
}

/// `base/name`, the base's trailing slashes dropped, whether the base is a directory or a
/// URL prefix; just `name` without a base.
pub open spec fn joined(base: Option<Seq<char>>, name: Seq<char>) -> Seq<char> {
    match base {
        Some(b) => if b.len() > 0 {
            trim_end(b, '/') + seq!['/'] + name
        } else {
            name
        },
        None => name,
    }
}

/// Join a base with a name, whether the base is a directory or a URL prefix.
pub fn join(base: Option<&str>, name: &str) -> (s: String)
    ensures
        s@ == joined(
            match base {
                Some(b) => Some(b@),
                None => None,
            },
            name@,
        ),
{
    match base {
        Some(b) => {
            let cs = chars_of(b);
            if cs.len() == 0 {
                return name.to_owned();
            }
            let mut end: usize = cs.len();
            assert(cs@.subrange(0, end as int) =~= cs@);
            while end > 0 && cs[end - 1] == '/'
                invariant
                    end <= cs@.len(),
                    cs@ == b@,
                    trim_end(b@, '/') == trim_end(cs@.subrange(0, end as int), '/'),
                decreases end,
            {
                assert(cs@.subrange(0, end as int).drop_last() =~= cs@.subrange(0, end - 1));
                end = end - 1;
            }
            let mut out = string_of(vstd::slice::slice_subrange(cs.as_slice(), 0, end));
            out.push('/');
            push_str(&mut out, name);
            assert(out@ =~= trim_end(b@, '/') + seq!['/'] + name@);
            out
        },
        None => name.to_owned(),
    }
}

/// Whether a character is an ASCII hexadecimal digit.
pub open spec fn is_hex(c: char) -> bool {
    ('0' <= c && c <= '9') || ('a' <= c && c <= 'f') || ('A' <= c && c <= 'F')
}

/// Whether a file, by the stem and extension of its path, holds a repository: eight
/// hexadecimal digits and `.json`.
pub open spec fn is_repository_name(stem: Option<Seq<char>>, extension: Option<Seq<char>>) -> bool {
    &&& stem matches Some(s) && s.len() == 8 && forall|i: int| 0 <= i < 8 ==> is_hex(#[trigger] s[i])
    &&& extension == Some(seq!['j', 's', 'o', 'n'])
}

/// Whether a file holds a repository, given its path's stem and extension.
pub fn is_repository_file(stem: Option<&str>, extension: Option<&str>) -> (b: bool)
    ensures
        b == is_repository_name(
            match stem {
                Some(s) => Some(s@),
                None => None,
            },
            match extension {
                Some(e) => Some(e@),
                None => None,
            },
        ),
{
    let stem_ok = match stem {
        Some(s) => {
            let cs = chars_of(s);
            if cs.len() != 8 {
                false
            } else {
                let mut i: usize = 0;
                let mut ok = true;
                while i < 8
                    invariant
                        cs@ == s@,
                        cs@.len() == 8,
                        i <= 8,
                        ok == forall|j: int| 0 <= j < i ==> is_hex(#[trigger] cs@[j]),
                    decreases 8 - i,
                {
                    let c = cs[i];
                    let hex = ('0' <= c && c <= '9') || ('a' <= c && c <= 'f') || ('A' <= c && c
                        <= 'F');
                    ok = ok && hex;
                    i = i + 1;
                }
                ok
            }
        },
        None => false,
    };
    let ext_ok = match extension {
        Some(e) => {
            let cs = chars_of(e);
            proof {
                reveal_strlit("json");
            }
            let json = chars_of("json");
            assert(json@ =~= seq!['j', 's', 'o', 'n']);
            same_chars(&cs, &json)
        },
        None => false,
    };
    stem_ok && ext_ok
}

/// The schema every repository file declares.
pub const REPOSITORY_SCHEMA: &'static str =
    "https://raw.githubusercontent.com/WorkingRobot/ffxiv-patches/main/schema/repository.schema.json";

/// The schema the registry declares.
pub const REGISTRY_SCHEMA: &'static str =
    "https://raw.githubusercontent.com/WorkingRobot/ffxiv-patches/main/schema/repositories.schema.json";

/// Where a patch can be downloaded, and whether it could be when last checked.
#[derive(Debug, Clone, PartialEq, Eq)]
pub struct Source {
    pub url: String,
    pub status: Status,
    /// When the source was last checked, as an RFC 3339 timestamp.
    pub checked: String,
}

/// When and how a patch was found.
#[derive(Debug, Clone, PartialEq, Eq)]
pub struct Discovered {
    /// An RFC 3339 timestamp.
    pub at: String,
    pub method: DiscoveryMethod,
}

/// When and how a patch's place was confirmed.
#[derive(Debug, Clone, PartialEq, Eq)]
pub struct Verified {
    /// An RFC 3339 timestamp.
    pub at: String,
    pub method: VerifyMethod,
    pub unsupplied: u64,
}

/// One patch of a repository: the version it follows, its size and where to get it.
#[derive(Debug, Clone)]
pub struct PatchEntry {
    pub prev: Option<GameVersion>,
    pub size: i64,
    pub header: Option<Header>,
    /// The sources, in `Origin` order, each origin once.
    pub sources: Vec<(Origin, Source)>,
    pub discovered: Discovered,
    pub verified: Option<Verified>,
}

/// A repository as the index lists it.
#[derive(Debug, Clone)]
pub struct Repository {
    pub schema: String,
    pub slug: String,
    pub name: String,
    pub region: Region,
    pub latest: GameVersion,
    /// The patches, oldest version first, each version once.
    pub patches: Vec<(GameVersion, PatchEntry)>,
}

/// What the registry says of a repository.
#[derive(Debug, Clone)]
pub struct RepositoryRef {
    pub slug: String,
    pub name: String,
    pub region: Region,
    pub latest: GameVersion,
}

/// Every repository the index holds.
#[derive(Debug, Clone)]
pub struct Registry {
    pub schema: String,
    pub repositories: Vec<RepositoryRef>,
}

/// Why a repository cannot be used as it stands.
#[derive(Debug)]
pub enum RepositoryError {
    /// The file declares another schema.
    WrongSchema(String),
    /// A version names a predecessor the repository does not list.
    MissingPredecessor(GameVersion, GameVersion),
    /// A version names a predecessor that does not come before it.
    LaterPredecessor(GameVersion, GameVersion),
    /// A version lists no source.
    NoSource(GameVersion),
    /// The repository names a latest version it does not list.
    MissingLatest(GameVersion),
    /// A version the walk needs is not listed.
    MissingVersion(GameVersion),
    /// Following predecessors from the version comes back to it.
    OwnAncestor(GameVersion),
}

/// A repository error as plain values.
pub ghost enum RepoFault {
    WrongSchema(Seq<char>),
    MissingPredecessor(VersionModel, VersionModel),
    LaterPredecessor(VersionModel, VersionModel),
    NoSource(VersionModel),
    MissingLatest(VersionModel),
    MissingVersion(VersionModel),
    OwnAncestor(VersionModel),
}

impl View for RepositoryError {
    type V = RepoFault;

    open spec fn view(&self) -> RepoFault {
        match self {
            RepositoryError::WrongSchema(s) => RepoFault::WrongSchema(s@),
            RepositoryError::MissingPredecessor(v, p) => RepoFault::MissingPredecessor(v@, p@),
            RepositoryError::LaterPredecessor(v, p) => RepoFault::LaterPredecessor(v@, p@),
            RepositoryError::NoSource(v) => RepoFault::NoSource(v@),
            RepositoryError::MissingLatest(v) => RepoFault::MissingLatest(v@),
            RepositoryError::MissingVersion(v) => RepoFault::MissingVersion(v@),
            RepositoryError::OwnAncestor(v) => RepoFault::OwnAncestor(v@),
        }
    }
}

/// The first source that is not known dead; -1 when all are.
pub open spec fn first_live(s: Seq<(Origin, Source)>) -> int
    decreases s.len(),
{
    if s.len() == 0 {
        -1
    } else if first_live(s.drop_last()) >= 0 {
        first_live(s.drop_last())
    } else if s.last().1.status != Status::Dead {
        s.len() - 1
    } else {
        -1
    }
}

proof fn lemma_first_live(s: Seq<(Origin, Source)>)
    ensures
        -1 <= first_live(s) < s.len(),
        first_live(s) >= 0 ==> s[first_live(s)].1.status != Status::Dead,
        forall|j: int| 0 <= j < s.len() && (first_live(s) < 0 || j < first_live(s))
            ==> (#[trigger] s[j]).1.status == Status::Dead,
    decreases s.len(),
{
    if s.len() > 0 {
        lemma_first_live(s.drop_last());
        assert forall|j: int| 0 <= j < s.len() && (first_live(s) < 0 || j < first_live(s))
            implies (#[trigger] s[j]).1.status == Status::Dead by {
            if j < s.len() - 1 {
                assert(s[j] == s.drop_last()[j]);
            }
        }
    }
}

/// The source to download from: the first not known dead, or else the first.
pub open spec fn preferred_index(s: Seq<(Origin, Source)>) -> int {
    if first_live(s) >= 0 {
        first_live(s)
    } else if s.len() > 0 {
        0
    } else {
        -1
    }
}

/// The patch an entry stands for: its preferred source's URL and its size.
pub open spec fn patch_of(e: PatchEntry) -> Option<Patch> {
    if e.sources@.len() == 0 {
        None
    } else {
        Some(Patch { url: e.sources@[preferred_index(e.sources@)].1.url, size: e.size })
    }
}

impl PatchEntry {
    fn preferred_at(&self) -> (r: Option<usize>)
        ensures
            r matches Some(k) ==> k == preferred_index(self.sources@) && k < self.sources@.len(),
            r is None <==> self.sources@.len() == 0,
    {
        proof {
            lemma_first_live(self.sources@);
        }
        let mut i: usize = 0;
        while i < self.sources.len()
            invariant
                i <= self.sources@.len(),
                -1 <= first_live(self.sources@) < self.sources@.len(),
                first_live(self.sources@) >= 0 ==> self.sources@[first_live(self.sources@)].1.status
                    != Status::Dead,
                forall|j: int|
                    0 <= j < self.sources@.len() && (first_live(self.sources@) < 0 || j < first_live(
                        self.sources@,
                    )) ==> (#[trigger] self.sources@[j]).1.status == Status::Dead,
                forall|j: int| 0 <= j < i ==> (#[trigger] self.sources@[j]).1.status == Status::Dead,
            decreases self.sources@.len() - i,
        {
            if self.sources[i].1.status != Status::Dead {
                assert(first_live(self.sources@) == i) by {
                    let f = first_live(self.sources@);
                    if f < 0 || f > i {
                        assert(self.sources@[i as int].1.status == Status::Dead);
                    }
                    if f >= 0 && f < i {
                        assert(self.sources@[f].1.status == Status::Dead);
                    }
                }
                return Some(i);
            }
            i = i + 1;
        }
        assert(first_live(self.sources@) < 0) by {
            let f = first_live(self.sources@);
            if f >= 0 {
                assert(self.sources@[f].1.status == Status::Dead);
            }
        }
        if self.sources.len() > 0 {
            Some(0)
        } else {
            None
        }
    }

    /// The source to download from: the first not known dead, or else the first.
    pub fn preferred(&self) -> (r: Option<&Source>)
        ensures
            r is Some <==> self.sources@.len() > 0,
            r matches Some(src) ==> *src == self.sources@[preferred_index(self.sources@)].1,
    {
        match self.preferred_at() {
            Some(k) => Some(&self.sources[k].1),
            None => None,
        }
    }

    /// The patch that reaches `version`: the preferred source's URL and the entry's size.
    pub fn patch(&self, version: &GameVersion) -> (r: Result<Patch, RepositoryError>)
        ensures
            r matches Ok(p) ==> patch_of(*self) == Some(p),
            r matches Err(e) ==> patch_of(*self) is None && e@ == RepoFault::NoSource(version@),
    {
        match self.preferred_at() {
            Some(k) => Ok(Patch { url: self.sources[k].1.url.clone(), size: self.size }),
            None => Err(RepositoryError::NoSource(version.duplicate())),
        }
    }
}

/// Where a version is listed in `ps`, by rank as a map keyed on versions finds it; -1
/// when it is not listed.
pub open spec fn entry_index(ps: Seq<(GameVersion, PatchEntry)>, v: VersionModel) -> int
    decreases ps.len(),
{
    if ps.len() == 0 {
        -1
    } else if entry_index(ps.drop_last(), v) >= 0 {
        entry_index(ps.drop_last(), v)
    } else if same_rank(ps.last().0@, v) {
        ps.len() - 1
    } else {
        -1
    }
}

pub(crate) proof fn lemma_entry_index(ps: Seq<(GameVersion, PatchEntry)>, v: VersionModel)
    ensures
        -1 <= entry_index(ps, v) < ps.len(),
        entry_index(ps, v) >= 0 ==> same_rank(ps[entry_index(ps, v)].0@, v),
        forall|j: int| 0 <= j < ps.len() && (entry_index(ps, v) < 0 || j < entry_index(ps, v))
            ==> !same_rank((#[trigger] ps[j]).0@, v),
    decreases ps.len(),
{
    if ps.len() > 0 {
        lemma_entry_index(ps.drop_last(), v);
        assert forall|j: int| 0 <= j < ps.len() && (entry_index(ps, v) < 0 || j < entry_index(ps, v))
            implies !same_rank((#[trigger] ps[j]).0@, v) by {
            if j < ps.len() - 1 {
                assert(ps[j] == ps.drop_last()[j]);
            }
        }
    }
}

impl Repository {
    /// Where `version` is listed.
    pub fn find(&self, version: &GameVersion) -> (r: Option<usize>)
        ensures
            r matches Some(k) ==> k == entry_index(self.patches@, version@),
            r is None <==> entry_index(self.patches@, version@) < 0,
    {
        proof {
            lemma_entry_index(self.patches@, version@);
        }
        let mut i: usize = 0;
        while i < self.patches.len()
            invariant
                i <= self.patches@.len(),
                -1 <= entry_index(self.patches@, version@) < self.patches@.len(),
                entry_index(self.patches@, version@) >= 0 ==> same_rank(
                    self.patches@[entry_index(self.patches@, version@)].0@,
                    version@,
                ),
                forall|j: int|
                    0 <= j < self.patches@.len() && (entry_index(self.patches@, version@) < 0 || j
                        < entry_index(self.patches@, version@)) ==> !same_rank(
                        (#[trigger] self.patches@[j]).0@,
                        version@,
                    ),
                forall|j: int| 0 <= j < i ==> !same_rank((#[trigger] self.patches@[j]).0@, version@),
            decreases self.patches@.len() - i,
        {
            if self.patches[i].0.0.compare(&version.0) == 0 {
                assert(entry_index(self.patches@, version@) == i) by {
                    let f = entry_index(self.patches@, version@);
                    if f < 0 || f > i {
                        assert(!same_rank(self.patches@[i as int].0@, version@));
                    }
                    if f >= 0 && f < i {
                        assert(!same_rank(self.patches@[f].0@, version@));
                    }
                }
                return Some(i);
            }
            i = i + 1;
        }
        assert(entry_index(self.patches@, version@) < 0) by {
            let f = entry_index(self.patches@, version@);
            if f >= 0 {
                assert(!same_rank(self.patches@[f].0@, version@));
            }
        }
        None
    }
}

/// The models of a run of versions.
pub open spec fn version_models(vs: Seq<GameVersion>) -> Seq<VersionModel> {
    vs.map_values(|v: GameVersion| v@)
}

/// The patches to apply, oldest first, to reach `v` by following predecessors: each
/// version must be listed and have a source; coming back to a version already passed, or
/// walking further than there are versions to pass, is a loop.
pub open spec fn repo_walk(
    ps: Seq<(GameVersion, PatchEntry)>,
    v: VersionModel,
    seen: Seq<VersionModel>,
    fuel: nat,
) -> Result<Seq<(VersionModel, Patch)>, RepoFault>
    decreases fuel,
{
    if seen.contains(v) || fuel == 0 {
        Err(RepoFault::OwnAncestor(v))
    } else {
        let k = entry_index(ps, v);
        if k < 0 {
            Err(RepoFault::MissingVersion(v))
        } else {
            match patch_of(ps[k].1) {
                None => Err(RepoFault::NoSource(v)),
                Some(p) => match ps[k].1.prev {
                    None => Ok(seq![(v, p)]),
                    Some(q) => match repo_walk(ps, q@, seen.push(v), (fuel - 1) as nat) {
                        Ok(rest) => Ok(rest.push((v, p))),
                        Err(e) => Err(e),
                    },
                },
            }
        }
    }
}

fn contains_version(seen: &Vec<GameVersion>, v: &GameVersion) -> (b: bool)
    ensures
        b == version_models(seen@).contains(v@),
{
    let mut i: usize = 0;
    while i < seen.len()
        invariant
            i <= seen@.len(),
            forall|j: int| 0 <= j < i ==> seen@[j]@ != v@,
        decreases seen@.len() - i,
    {
        if seen[i] == *v {
            assert(version_models(seen@)[i as int] == v@);
            return true;
        }
        i = i + 1;
    }
    assert(!version_models(seen@).contains(v@)) by {
        if version_models(seen@).contains(v@) {
            let j = choose|j: int| 0 <= j < version_models(seen@).len() && version_models(seen@)[j] == v@;
            assert(seen@[j]@ == v@);
        }
    }
    false
}

impl Repository {
    /// The patches to apply, oldest first, to reach `version`.
    pub fn chain(&self, version: &GameVersion) -> (r: Result<Vec<(GameVersion, Patch)>, RepositoryError>)
        requires
            self.patches@.len() < usize::MAX,
        ensures
            match r {
                Ok(c) => repo_walk(self.patches@, version@, Seq::empty(), self.patches@.len() + 1)
                    == Ok::<Seq<(VersionModel, Patch)>, RepoFault>(pair_models(c@)),
                Err(e) => repo_walk(self.patches@, version@, Seq::empty(), self.patches@.len() + 1)
                    == Err::<Seq<(VersionModel, Patch)>, RepoFault>(e@),
            },
    {
        let ghost ps = self.patches@;
        let ghost total = repo_walk(ps, version@, Seq::empty(), ps.len() + 1);
        let mut out: Vec<(GameVersion, Patch)> = Vec::new();
        let mut seen: Vec<GameVersion> = Vec::new();
        let mut current = version.duplicate();
        let mut steps: usize = 0;
        proof {
            assert(version_models(seen@) =~= Seq::<VersionModel>::empty());
            assert(pair_models(out@) =~= Seq::<(VersionModel, Patch)>::empty());
            match total {
                Ok(rest) => assert(rest + pair_models(out@) =~= rest),
                Err(_) => {},
            }
        }
        loop
            invariant
                ps == self.patches@,
                ps.len() < usize::MAX,
                steps <= ps.len() + 1,
                total == repo_walk(ps, version@, Seq::empty(), ps.len() + 1),
                total == match repo_walk(ps, current@, version_models(seen@), (ps.len() + 1 - steps) as nat) {
                    Ok(rest) => Ok::<Seq<(VersionModel, Patch)>, RepoFault>(rest + pair_models(out@)),
                    Err(e) => Err(e),
                },
            decreases ps.len() + 1 - steps,
        {
            let ghost fuel = (ps.len() + 1 - steps) as nat;
            if contains_version(&seen, &current) || steps > self.patches.len() {
                return Err(RepositoryError::OwnAncestor(current));
            }
            let k = match self.find(&current) {
                Some(k) => k,
                None => {
                    return Err(RepositoryError::MissingVersion(current));
                },
            };
            proof {
                lemma_entry_index(ps, current@);
            }
            let entry = &self.patches[k].1;
            let p = match entry.patch(&current) {
                Ok(p) => p,
                Err(e) => {
                    return Err(e);
                },
            };
            let ghost before = pair_models(out@);
            out.insert(0, (current.duplicate(), p));
            proof {
                assert(pair_models(out@) =~= seq![(current@, p)] + before);
            }
            match &entry.prev {
                None => {
                    proof {
                        assert(seq![(current@, p)] + before =~= Seq::<(VersionModel, Patch)>::empty()
                            + pair_models(out@));
                        assert(seq![(current@, p)] + before == pair_models(out@));
                    }
                    return Ok(out);
                },
                Some(q) => {
                    let next = q.duplicate();
                    proof {
                        assert(repo_walk(ps, current@, version_models(seen@), fuel) == match repo_walk(
                            ps,
                            next@,
                            version_models(seen@).push(current@),
                            (fuel - 1) as nat,
                        ) {
                            Ok(rest) => Ok::<Seq<(VersionModel, Patch)>, RepoFault>(rest.push((current@, p))),
                            Err(e) => Err(e),
                        });
                        match repo_walk(ps, next@, version_models(seen@).push(current@), (fuel - 1) as nat) {
                            Ok(rest) => {
                                assert(rest.push((current@, p)) + before =~= rest + pair_models(out@));
                            },
                            Err(_) => {},
                        }
                    }
                    let ghost seen_before = version_models(seen@);
                    seen.push(current);
                    assert(version_models(seen@) =~= seen_before.push(current@)) by {
                        assert(version_models(seen@).len() == seen_before.len() + 1);
                    }
                    current = next;
                    steps = steps + 1;
                },
            }
        }
    }
}

/// What is wrong with the entry at `i`, checked in this order: a predecessor the
/// repository does not list, a predecessor that does not come first, no source.
pub open spec fn entry_fault(ps: Seq<(GameVersion, PatchEntry)>, i: int) -> Option<RepoFault> {
    let v = ps[i].0;
    let e = ps[i].1;
    match e.prev {
        Some(p) if entry_index(ps, p@) < 0 => Some(RepoFault::MissingPredecessor(v@, p@)),
        Some(p) if !older(p@, v@) => Some(RepoFault::LaterPredecessor(v@, p@)),
        _ => if e.sources@.len() == 0 {
            Some(RepoFault::NoSource(v@))
        } else {
            None
        },
    }
}

/// The fault of the first of the first `n` entries that has one.
pub open spec fn first_fault(ps: Seq<(GameVersion, PatchEntry)>, n: nat) -> Option<RepoFault>
    decreases n,
{
    if n == 0 {
        None
    } else {
        match first_fault(ps, (n - 1) as nat) {
            Some(f) => Some(f),
            None => entry_fault(ps, n - 1),
        }
    }
}

/// Whether a repository can be used: it declares the repository schema, each entry is
/// sound, and it lists its latest version.
pub open spec fn validation(r: Repository) -> Result<(), RepoFault> {
    if r.schema@ != REPOSITORY_SCHEMA@ {
        Err(RepoFault::WrongSchema(r.schema@))
    } else {
        match first_fault(r.patches@, r.patches@.len()) {
            Some(f) => Err(f),
            None => if entry_index(r.patches@, r.latest@) < 0 {
                Err(RepoFault::MissingLatest(r.latest@))
            } else {
                Ok(())
            },
        }
    }
}

/// The steps of a repository's graph, in order: each version, the patch that reaches it and
/// the version it follows; nothing when a version has no source.
pub open spec fn forest_prefix(ps: Seq<(GameVersion, PatchEntry)>, n: nat) -> Result<Seq<StepModel>, RepoFault>
    decreases n,
{
    if n == 0 {
        Ok(Seq::empty())
    } else {
        match forest_prefix(ps, (n - 1) as nat) {
            Err(f) => Err(f),
            Ok(steps) => match patch_of(ps[n - 1].1) {
                None => Err(RepoFault::NoSource(ps[n - 1].0@)),
                Some(p) => Ok(steps.push(StepModel {
                    version: ps[n - 1].0@,
                    patch: p,
                    parent: match ps[n - 1].1.prev {
                        Some(q) => Some(q@),
                        None => None,
                    },
                })),
            },
        }
    }
}

proof fn lemma_first_fault_stays(ps: Seq<(GameVersion, PatchEntry)>, i: nat, n: nat)
    requires
        i <= n,
        first_fault(ps, i) is Some,
    ensures
        first_fault(ps, n) == first_fault(ps, i),
    decreases n - i,
{
    if i < n {
        lemma_first_fault_stays(ps, i, (n - 1) as nat);
    }
}

proof fn lemma_forest_fails_stays(ps: Seq<(GameVersion, PatchEntry)>, i: nat, n: nat)
    requires
        i <= n,
        forest_prefix(ps, i) is Err,
    ensures
        forest_prefix(ps, n) == forest_prefix(ps, i),
    decreases n - i,
{
    if i < n {
        lemma_forest_fails_stays(ps, i, (n - 1) as nat);
    }
}

impl Repository {
    /// Check the repository: its schema, each entry's predecessor and sources, and that it
    /// lists its latest version.
    pub fn validate(&self) -> (r: Result<(), RepositoryError>)
        ensures
            r is Ok <==> validation(*self) is Ok,
            r matches Err(e) ==> validation(*self) == Err::<(), RepoFault>(e@),
    {
        let schema = REPOSITORY_SCHEMA.to_owned();
        if self.schema != schema {
            return Err(RepositoryError::WrongSchema(self.schema.clone()));
        }
        let mut i: usize = 0;
        while i < self.patches.len()
            invariant
                i <= self.patches@.len(),
                self.schema@ == REPOSITORY_SCHEMA@,
                first_fault(self.patches@, i as nat) is None,
            decreases self.patches@.len() - i,
        {
            let version = &self.patches[i].0;
            let entry = &self.patches[i].1;
            match &entry.prev {
                Some(prev) => {
                    if self.find(prev).is_none() {
                        proof {
                            assert(self.patches@[i as int].1.prev == Some(*prev));
                            assert(entry_fault(self.patches@, i as int) == Some(RepoFault::MissingPredecessor(version@, prev@)));
                            assert(first_fault(self.patches@, (i + 1) as nat) == entry_fault(self.patches@, i as int));
                            lemma_first_fault_stays(self.patches@, (i + 1) as nat, self.patches@.len());
                        }
                        return Err(RepositoryError::MissingPredecessor(version.duplicate(), prev.duplicate()));
                    }
                    if prev.0.compare(&version.0) >= 0 {
                        proof {
                            assert(self.patches@[i as int].1.prev == Some(*prev));
                            assert(entry_fault(self.patches@, i as int) == Some(RepoFault::LaterPredecessor(version@, prev@)));
                            lemma_first_fault_stays(self.patches@, (i + 1) as nat, self.patches@.len());
                        }
                        return Err(RepositoryError::LaterPredecessor(version.duplicate(), prev.duplicate()));
                    }
                },
                None => {},
            }
            if entry.sources.len() == 0 {
                proof {
                    lemma_first_fault_stays(self.patches@, (i + 1) as nat, self.patches@.len());
                }
                return Err(RepositoryError::NoSource(version.duplicate()));
            }
            i = i + 1;
        }
        if self.find(&self.latest).is_none() {
            return Err(RepositoryError::MissingLatest(self.latest.duplicate()));
        }
        Ok(())
    }

    /// Every version's step: the patch that reaches it and the version it follows.
    pub fn forest(&self) -> (r: Result<Vec<Step>, RepositoryError>)
        ensures
            r is Ok <==> forest_prefix(self.patches@, self.patches@.len()) is Ok,
            r matches Ok(steps) ==> forest_prefix(self.patches@, self.patches@.len()) == Ok::<
                Seq<StepModel>,
                RepoFault,
            >(steps@.map_values(|s: Step| s@)),
            r matches Err(e) ==> forest_prefix(self.patches@, self.patches@.len()) == Err::<
                Seq<StepModel>,
                RepoFault,
            >(e@),
    {
        let mut out: Vec<Step> = Vec::new();
        let mut i: usize = 0;
        assert(out@.map_values(|s: Step| s@) =~= Seq::<StepModel>::empty());
        while i < self.patches.len()
            invariant
                i <= self.patches@.len(),
                out@.len() == i,
                forest_prefix(self.patches@, i as nat) == Ok::<Seq<StepModel>, RepoFault>(
                    out@.map_values(|s: Step| s@),
                ),
            decreases self.patches@.len() - i,
        {
            let version = &self.patches[i].0;
            let entry = &self.patches[i].1;
            let patch = match entry.patch(version) {
                Ok(p) => p,
                Err(e) => {
                    proof {
                        lemma_forest_fails_stays(self.patches@, (i + 1) as nat, self.patches@.len());
                    }
                    return Err(e);
                },
            };
            let parent = match &entry.prev {
                Some(q) => Some(q.duplicate()),
                None => None,
            };
            let ghost before = out@.map_values(|s: Step| s@);
            out.push(Step { version: version.duplicate(), patch, parent });
            assert(out@.map_values(|s: Step| s@) =~= before.push(out@[i as int]@));
            i = i + 1;
        }
        Ok(out)
    }
}

} // verus!
