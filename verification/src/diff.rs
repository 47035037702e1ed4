use vstd::prelude::*;

use crate::chunk::trim_end;
use crate::clut::Header;
use crate::clut_build::ClutBuilder;
use crate::data_ref::{DataRef, DataRefModel};
use crate::names::{file_map, file_paths, find_name, has_file, name_set, placed, sorted_names, str_views, FileEntry};
use crate::order::{lex_less, older};
use crate::overlay::models;
use crate::text::chars_of;
use crate::version::{GameVersion, Version, VersionModel};

verus! {

/// What has to change on disk to turn one installed version into another.
#[derive(Debug)]
pub struct ClutDiff {
    pub repository: String,
    pub base_patch_url: String,
    pub version_from: GameVersion,
    pub version_to: GameVersion,
    /// Folders the older install has and the newer lacks, sorted.
    pub removed_folders: Vec<String>,
    /// Files the older install has and the newer lacks, sorted.
    pub removed_files: Vec<String>,
    /// Folders the newer install has and the older lacks, sorted.
    pub added_folders: Vec<String>,
    /// The references each kept file needs written, sorted by path.
    pub added_files: Vec<FileEntry>,
    /// The size each kept file of the newer install has, sorted by path.
    pub file_sizes: Vec<(String, u64)>,
    /// Files of the newer install the filter left out, sorted.
    pub filtered_files: Vec<String>,
}

/// Why two installs cannot be diffed.
#[derive(Debug, Clone, Copy, PartialEq, Eq, Structural)]
pub enum DiffError {
    /// They belong to different repositories.
    DifferentRepositories,
    /// The older install is not older.
    NotNewer,
}

/// One past the last byte a file's references reach: the end of the last one.
pub open spec fn last_end(refs: Seq<DataRefModel>) -> int {
    if refs.len() == 0 {
        0
    } else {
        refs.last().offset + refs.last().length
    }
}

/// The references written by patches after `pv`.
pub open spec fn newer_refs(refs: Seq<DataRefModel>, pv: VersionModel) -> Seq<DataRefModel>
    decreases refs.len(),
{
    if refs.len() == 0 {
        refs
    } else if older(pv, refs.last().version) {
        newer_refs(refs.drop_last(), pv).push(refs.last())
    } else {
        newer_refs(refs.drop_last(), pv)
    }
}

/// What a file of the newer install needs: only what later patches wrote when the older
/// install has the file, the whole file otherwise.
pub open spec fn needed(p: Seq<char>, refs: Seq<DataRefModel>, from: Option<(Map<Seq<char>, Seq<DataRefModel>>, VersionModel)>) -> Seq<DataRefModel> {
    match from {
        Some((files, pv)) => if files.contains_key(p) {
            newer_refs(refs, pv)
        } else {
            refs
        },
        None => refs,
    }
}

/// The added files, sizes and filtered files of the first `n` files of the newer install.
pub open spec fn diff_files(
    paths: Seq<Seq<char>>,
    refs: Seq<Seq<DataRefModel>>,
    keep: Seq<bool>,
    from: Option<(Map<Seq<char>, Seq<DataRefModel>>, VersionModel)>,
    n: nat,
) -> (Seq<(Seq<char>, Seq<DataRefModel>)>, Seq<(Seq<char>, int)>, Seq<Seq<char>>)
    decreases n,
{
    if n == 0 {
        (Seq::empty(), Seq::empty(), Seq::empty())
    } else {
        let (added, sizes, filtered) = diff_files(paths, refs, keep, from, (n - 1) as nat);
        let p = paths[n - 1];
        if !keep[n - 1] {
            (added, sizes, filtered.push(p))
        } else {
            let want = needed(p, refs[n - 1], from);
            (
                if want.len() > 0 {
                    added.push((p, want))
                } else {
                    added
                },
                sizes.push((p, last_end(refs[n - 1]))),
                filtered,
            )
        }
    }
}

/// The base URL a diff downloads from: the newer install's, unless it has none and the
/// older one does; without trailing slashes.
pub open spec fn chosen_base(to: Seq<char>, to_has: bool, from: Option<Seq<char>>) -> Seq<char> {
    match from {
        Some(f) => if !to_has {
            trim_end(f, '/')
        } else {
            trim_end(to, '/')
        },
        None => trim_end(to, '/'),
    }
}

/// When the newer install names a base URL that is not blank, a diff downloads from that
/// URL with its trailing slashes removed, whatever the older install names: the result is
/// the newer URL up to where only slashes follow, and does not end in a slash.
pub proof fn lemma_newer_base_url_wins(to: Seq<char>, from: Option<Seq<char>>)
    requires
        crate::text::trim_white(to).len() > 0,
    ensures
        chosen_base(to, crate::text::trim_white(to).len() > 0, from) == trim_end(to, '/'),
        ({
            let r = chosen_base(to, crate::text::trim_white(to).len() > 0, from);
            &&& r.len() <= to.len()
            &&& r == to.take(r.len() as int)
            &&& r.len() > 0 ==> r.last() != '/'
            &&& forall|i: int| r.len() <= i < to.len() ==> #[trigger] to[i] == '/'
        }),
{
    let k = crate::chunk::lemma_trim_end_facts(to, '/');
}

/// When the newer install names no base URL (a blank one), a diff downloads from the older
/// install's URL where there is one, and from the newer's otherwise; trailing slashes go
/// either way.
pub proof fn lemma_blank_base_url_falls_back(to: Seq<char>, from: Option<Seq<char>>)
    requires
        crate::text::trim_white(to).len() == 0,
    ensures
        from matches Some(f) ==> chosen_base(to, crate::text::trim_white(to).len() > 0, from) == trim_end(f, '/'),
        from is None ==> chosen_base(to, crate::text::trim_white(to).len() > 0, from) == trim_end(to, '/'),
{
}

/// The models of file entries.
pub open spec fn entry_list(files: Seq<FileEntry>) -> Seq<(Seq<char>, Seq<DataRefModel>)> {
    files.map_values(|f: FileEntry| (f.path@, models(f.refs@)))
}

/// The models of size entries.
pub open spec fn size_list(sizes: Seq<(String, u64)>) -> Seq<(Seq<char>, int)> {
    sizes.map_values(|s: (String, u64)| (s.0@, s.1 as int))
}

fn copy_refs_where(refs: &Vec<DataRef>, newer_than: Option<&crate::version::PatchVersion>) -> (out: Vec<DataRef>)
    ensures
        match newer_than {
            Some(pv) => models(out@) == newer_refs(models(refs@), pv@),
            None => models(out@) == models(refs@),
        },
{
    let mut out: Vec<DataRef> = Vec::new();
    let mut i: usize = 0;
    while i < refs.len()
        invariant
            i <= refs@.len(),
            match newer_than {
                Some(pv) => models(out@) == newer_refs(models(refs@).take(i as int), pv@),
                None => models(out@) == models(refs@).take(i as int),
            },
        decreases refs@.len() - i,
    {
        let ghost before = models(out@);
        let ghost prefix = models(refs@).take(i as int);
        assert(models(refs@).take(i + 1).drop_last() =~= prefix);
        assert(models(refs@).take(i + 1).last() == refs@[i as int]@);
        let take = match newer_than {
            Some(pv) => pv.0.compare(&refs[i].applied_version().0) < 0,
            None => true,
        };
        if take {
            let r = refs[i].duplicate();
            let ghost rm = r@;
            out.push(r);
            assert(models(out@) =~= before.push(rm));
        }
        i = i + 1;
    }
    assert(models(refs@).take(refs@.len() as int) =~= models(refs@));
    out
}

/// The names of `list` that `set` lacks, in order.
pub open spec fn not_in(list: Seq<Seq<char>>, set: Set<Seq<char>>) -> Seq<Seq<char>>
    decreases list.len(),
{
    if list.len() == 0 {
        list
    } else if set.contains(list.last()) {
        not_in(list.drop_last(), set)
    } else {
        not_in(list.drop_last(), set).push(list.last())
    }
}

fn contains_name(names: &Vec<String>, key: &str) -> (b: bool)
    requires
        sorted_names(str_views(names@)),
    ensures
        b == name_set(names@).contains(key@),
{
    let (idx, found) = find_name(names, key);
    proof {
        let keys = str_views(names@);
        if found {
            assert(keys.contains(key@)) by {
                assert(keys[idx as int] == key@);
            }
        } else {
            assert(!keys.contains(key@)) by {
                if keys.contains(key@) {
                    let j = choose|j: int| 0 <= j < keys.len() && keys[j] == key@;
                    crate::order::lemma_lex_irreflexive(key@);
                    if j < idx {
                        assert(lex_less(keys[j], key@));
                    } else {
                        assert(lex_less(key@, keys[j]));
                    }
                }
            }
        }
    }
    found
}

/// The names of `list` that the sorted `others` lacks.
fn names_not_in(list: &Vec<String>, others: &Vec<String>) -> (out: Vec<String>)
    requires
        sorted_names(str_views(others@)),
    ensures
        str_views(out@) == not_in(str_views(list@), name_set(others@)),
{
    let mut out: Vec<String> = Vec::new();
    let mut i: usize = 0;
    assert(str_views(out@) =~= not_in(str_views(list@).take(0), name_set(others@)));
    while i < list.len()
        invariant
            sorted_names(str_views(others@)),
            i <= list@.len(),
            str_views(out@) == not_in(str_views(list@).take(i as int), name_set(others@)),
        decreases list@.len() - i,
    {
        let ghost before = str_views(out@);
        assert(str_views(list@).take(i + 1).drop_last() =~= str_views(list@).take(i as int));
        assert(str_views(list@).take(i + 1).last() == list@[i as int]@);
        if !contains_name(others, list[i].as_str()) {
            let name = list[i].clone();
            let ghost nv = name@;
            out.push(name);
            assert(str_views(out@) =~= before.push(nv));
        }
        i = i + 1;
    }
    assert(str_views(list@).take(list@.len() as int) =~= str_views(list@));
    out
}

/// The paths of `files` that the sorted `others` lacks.
fn paths_not_in(files: &Vec<FileEntry>, others: &Vec<FileEntry>) -> (out: Vec<String>)
    requires
        sorted_names(file_paths(others@)),
    ensures
        str_views(out@) == not_in(file_paths(files@), file_map(others@).dom()),
{
    let mut out: Vec<String> = Vec::new();
    let mut i: usize = 0;
    assert(str_views(out@) =~= not_in(file_paths(files@).take(0), file_map(others@).dom()));
    while i < files.len()
        invariant
            sorted_names(file_paths(others@)),
            i <= files@.len(),
            str_views(out@) == not_in(file_paths(files@).take(i as int), file_map(others@).dom()),
        decreases files@.len() - i,
    {
        let ghost before = str_views(out@);
        assert(file_paths(files@).take(i + 1).drop_last() =~= file_paths(files@).take(i as int));
        assert(file_paths(files@).take(i + 1).last() == files@[i as int].path@);
        if !has_file(others, files[i].path.as_str()) {
            let name = files[i].path.clone();
            let ghost nv = name@;
            out.push(name);
            assert(str_views(out@) =~= before.push(nv));
        }
        i = i + 1;
    }
    assert(file_paths(files@).take(files@.len() as int) =~= file_paths(files@));
    out
}

/// A string without its trailing slashes.
fn trim_slashes(s: &str) -> (out: String)
    ensures
        out@ == trim_end(s@, '/'),
{
    let cs = chars_of(s);
    let mut end: usize = cs.len();
    assert(cs@.subrange(0, end as int) =~= cs@);
    while end > 0 && cs[end - 1] == '/'
        invariant
            end <= cs@.len(),
            cs@ == s@,
            trim_end(s@, '/') == trim_end(cs@.subrange(0, end as int), '/'),
        decreases end,
    {
        assert(cs@.subrange(0, end as int).drop_last() =~= cs@.subrange(0, end - 1));
        end = end - 1;
    }
    crate::text::string_of(vstd::slice::slice_subrange(cs.as_slice(), 0, end))
}

/// The older install's files and the patch version it was built to, if there is one.
pub open spec fn from_arg(from: Option<&ClutBuilder>) -> Option<(Map<Seq<char>, Seq<DataRefModel>>, VersionModel)> {
    match from {
        Some(f) => Some((f@.files, f.head().patch_version@)),
        None => None,
    }
}

/// Whether every file of an install ends within 64 bits.
pub open spec fn ends_fit(b: ClutBuilder) -> bool {
    forall|i: int| 0 <= i < b.refs_list().len() ==> last_end(#[trigger] b.refs_list()[i]) <= u64::MAX
}

impl ClutDiff {
    /// Diff the newer install `to` against the older `from`, or against an empty install
    /// when there is none. `keep` says, for each of `to`'s files in path order, whether the
    /// filter keeps it.
    pub fn new(from: Option<&ClutBuilder>, to: &ClutBuilder, keep: &[bool]) -> (r: Result<ClutDiff, DiffError>)
        requires
            to.wf(),
            from matches Some(f) ==> f.wf(),
            keep@.len() == to.path_list().len(),
            ends_fit(*to),
        ensures
            r is Err <==> (from matches Some(f) && (f.head().repository@ != to.head().repository@ || !older(
                f.head().version@,
                to.head().version@,
            ))),
            r matches Err(e) ==> (e == DiffError::DifferentRepositories <==> (from matches Some(f)
                && f.head().repository@ != to.head().repository@)),
            r matches Ok(d) ==> {
                &&& d.repository@ == to.head().repository@
                &&& d.version_to@ == to.head().version@
                &&& d.version_from@ == match from {
                    Some(f) => f.head().version@,
                    None => Version::epoch_model(),
                }
                &&& str_views(d.added_folders@) == match from {
                    Some(f) => not_in(to.folder_list(), f@.folders),
                    None => to.folder_list(),
                }
                &&& str_views(d.removed_folders@) == match from {
                    Some(f) => not_in(f.folder_list(), to@.folders),
                    None => Seq::<Seq<char>>::empty(),
                }
                &&& str_views(d.removed_files@) == match from {
                    Some(f) => not_in(f.path_list(), to@.files.dom()),
                    None => Seq::<Seq<char>>::empty(),
                }
                &&& (entry_list(d.added_files@), size_list(d.file_sizes@), str_views(d.filtered_files@))
                    == diff_files(to.path_list(), to.refs_list(), keep@, from_arg(from), keep@.len())
                &&& d.base_patch_url@ == chosen_base(
                    to.head().base_patch_url@,
                    crate::text::trim_white(to.head().base_patch_url@).len() > 0,
                    match from {
                        Some(f) => Some(f.head().base_patch_url@),
                        None => None,
                    },
                )
            },
    {
        let th = to.header_ref();
        match from {
            Some(f) => {
                let fh = f.header_ref();
                if fh.repository != th.repository {
                    return Err(DiffError::DifferentRepositories);
                }
                if fh.version.0.compare(&th.version.0) >= 0 {
                    return Err(DiffError::NotNewer);
                }
            },
            None => {},
        }
        let to_folders = to.folder_names();
        let to_files = to.file_entries();
        let (added_folders, removed_folders, removed_files) = match from {
            Some(f) => {
                let ff = f.folder_names();
                (names_not_in(to_folders, ff), names_not_in(ff, to_folders), paths_not_in(f.file_entries(), to_files))
            },
            None => {
                let mut all: Vec<String> = Vec::new();
                let mut i: usize = 0;
                while i < to_folders.len()
                    invariant
                        i <= to_folders@.len(),
                        str_views(all@) == str_views(to_folders@).take(i as int),
                    decreases to_folders@.len() - i,
                {
                    let name = to_folders[i].clone();
                    let ghost before = str_views(all@);
                    let ghost nv = name@;
                    all.push(name);
                    assert(str_views(all@) =~= before.push(nv));
                    assert(str_views(all@) =~= str_views(to_folders@).take(i + 1));
                    i = i + 1;
                }
                assert(str_views(to_folders@).take(to_folders@.len() as int) =~= str_views(to_folders@));
                let none: Vec<String> = Vec::new();
                assert(str_views(none@) =~= Seq::<Seq<char>>::empty());
                let none2: Vec<String> = Vec::new();
                assert(str_views(none2@) =~= Seq::<Seq<char>>::empty());
                (all, none, none2)
            },
        };
        let ghost paths = to.path_list();
        let ghost refs = to.refs_list();
        let ghost fa = from_arg(from);
        let mut added_files: Vec<FileEntry> = Vec::new();
        let mut file_sizes: Vec<(String, u64)> = Vec::new();
        let mut filtered_files: Vec<String> = Vec::new();
        let mut i: usize = 0;
        proof {
            to.lemma_lists();
            assert(entry_list(added_files@) =~= Seq::<(Seq<char>, Seq<DataRefModel>)>::empty());
            assert(size_list(file_sizes@) =~= Seq::<(Seq<char>, int)>::empty());
            assert(str_views(filtered_files@) =~= Seq::<Seq<char>>::empty());
        }
        while i < to_files.len()
            invariant
                paths == to.path_list(),
                refs == to.refs_list(),
                fa == from_arg(from),
                file_paths(to_files@) == paths,
                forall|j: int| 0 <= j < to_files@.len() ==> models((#[trigger] to_files@[j]).refs@) == refs[j],
                keep@.len() == paths.len(),
                to_files@.len() == paths.len(),
                refs.len() == paths.len(),
                ends_fit(*to),
                from matches Some(f) ==> f.wf(),
                i <= to_files@.len(),
                (entry_list(added_files@), size_list(file_sizes@), str_views(filtered_files@)) == diff_files(
                    paths,
                    refs,
                    keep@,
                    fa,
                    i as nat,
                ),
            decreases to_files@.len() - i,
        {
            let entry = &to_files[i];
            let ghost before_a = entry_list(added_files@);
            let ghost before_s = size_list(file_sizes@);
            let ghost before_f = str_views(filtered_files@);
            assert(paths[i as int] == entry.path@);
            assert(models(entry.refs@) == refs[i as int]);
            if !keep[i] {
                let name = entry.path.clone();
                let ghost nv = name@;
                filtered_files.push(name);
                assert(str_views(filtered_files@) =~= before_f.push(nv));
            } else {
                let n = entry.refs.len();
                let size: u64 = if n == 0 {
                    0
                } else {
                    assert(last_end(to.refs_list()[i as int]) <= u64::MAX);
                    entry.refs[n - 1].end()
                };
                let path = entry.path.clone();
                let ghost pv = path@;
                file_sizes.push((path, size));
                assert(size_list(file_sizes@) =~= before_s.push((pv, last_end(refs[i as int]))));
                let older_has = match from {
                    Some(f) => has_file(f.file_entries(), entry.path.as_str()),
                    None => false,
                };
                let want = if older_has {
                    match from {
                        Some(f) => copy_refs_where(&entry.refs, Some(&f.header_ref().patch_version)),
                        None => copy_refs_where(&entry.refs, None),
                    }
                } else {
                    copy_refs_where(&entry.refs, None)
                };
                assert(models(want@) == needed(paths[i as int], refs[i as int], fa));
                if want.len() > 0 {
                    let name = entry.path.clone();
                    let ghost e = (name@, models(want@));
                    added_files.push(FileEntry { path: name, refs: want });
                    assert(entry_list(added_files@) =~= before_a.push(e));
                }
            }
            i = i + 1;
        }
        let base = match from {
            Some(f) => if !th.has_base_patch_url() {
                trim_slashes(f.header_ref().base_patch_url.as_str())
            } else {
                trim_slashes(th.base_patch_url.as_str())
            },
            None => trim_slashes(th.base_patch_url.as_str()),
        };
        let version_from = match from {
            Some(f) => f.header_ref().version.duplicate(),
            None => GameVersion::epoch(),
        };
        Ok(ClutDiff {
            repository: th.repository.clone(),
            base_patch_url: base,
            version_from,
            version_to: th.version.duplicate(),
            removed_folders,
            removed_files,
            added_folders,
            added_files,
            file_sizes,
            filtered_files,
        })
    }

    /// Use `url`, without trailing slashes, as the base URL, unless that leaves nothing.
    pub fn provide_base_patch_url(&mut self, url: &str)
        ensures
            trim_end(url@, '/').len() > 0 ==> final(self).base_patch_url@ == trim_end(url@, '/'),
            trim_end(url@, '/').len() == 0 ==> final(self).base_patch_url == old(self).base_patch_url,
            final(self).added_files == old(self).added_files,
            final(self).removed_files == old(self).removed_files,
            final(self).repository == old(self).repository,
            final(self).version_from == old(self).version_from,
            final(self).version_to == old(self).version_to,
            final(self).removed_folders == old(self).removed_folders,
            final(self).added_folders == old(self).added_folders,
            final(self).file_sizes == old(self).file_sizes,
            final(self).filtered_files == old(self).filtered_files,
    {
        let trimmed = trim_slashes(url);
        if trimmed.as_str().unicode_len() > 0 {
            self.base_patch_url = trimmed;
        }
    }
}

/// The items of `s` whose flag is set, in order.
pub open spec fn kept<T>(s: Seq<T>, keep: Seq<bool>) -> Seq<T>
    decreases s.len(),
{
    if s.len() == 0 {
        s
    } else if keep[s.len() - 1] {
        kept(s.drop_last(), keep).push(s.last())
    } else {
        kept(s.drop_last(), keep)
    }
}

/// The items of `s` whose flag is clear, in order.
pub open spec fn dropped<T>(s: Seq<T>, keep: Seq<bool>) -> Seq<T>
    decreases s.len(),
{
    if s.len() == 0 {
        s
    } else if !keep[s.len() - 1] {
        dropped(s.drop_last(), keep).push(s.last())
    } else {
        dropped(s.drop_last(), keep)
    }
}

proof fn lemma_kept_prefix<T>(s: Seq<T>, keep: Seq<bool>, i: int)
    requires
        0 <= i < s.len(),
        s.len() <= keep.len(),
    ensures
        kept(s.take(i + 1), keep) == if keep[i] {
            kept(s.take(i), keep).push(s[i])
        } else {
            kept(s.take(i), keep)
        },
        dropped(s.take(i + 1), keep) == if !keep[i] {
            dropped(s.take(i), keep).push(s[i])
        } else {
            dropped(s.take(i), keep)
        },
{
    assert(s.take(i + 1).drop_last() =~= s.take(i));
}

impl ClutDiff {
    /// Keep only the added and removed files the filter keeps (`keep_added` and
    /// `keep_removed` hold its verdict on each, in order); gives the paths it left out.
    pub fn filter_files(&mut self, keep_added: &[bool], keep_removed: &[bool]) -> (out: Vec<String>)
        requires
            keep_added@.len() == old(self).added_files@.len(),
            keep_removed@.len() == old(self).removed_files@.len(),
        ensures
            entry_list(final(self).added_files@) == kept(entry_list(old(self).added_files@), keep_added@),
            str_views(final(self).removed_files@) == kept(str_views(old(self).removed_files@), keep_removed@),
            str_views(out@) == dropped(entry_list(old(self).added_files@), keep_added@).map_values(
                |e: (Seq<char>, Seq<DataRefModel>)| e.0,
            ) + dropped(str_views(old(self).removed_files@), keep_removed@),
            final(self).base_patch_url == old(self).base_patch_url,
            final(self).repository == old(self).repository,
            final(self).version_from == old(self).version_from,
            final(self).version_to == old(self).version_to,
            final(self).removed_folders == old(self).removed_folders,
            final(self).added_folders == old(self).added_folders,
            final(self).file_sizes == old(self).file_sizes,
            final(self).filtered_files == old(self).filtered_files,
    {
        let ghost ea = entry_list(self.added_files@);
        let ghost er = str_views(self.removed_files@);
        let mut added: Vec<FileEntry> = Vec::new();
        let mut left_added: Vec<String> = Vec::new();
        let mut i: usize = 0;
        proof {
            assert(entry_list(added@) =~= kept(ea.take(0), keep_added@));
            assert(str_views(left_added@) =~= dropped(ea.take(0), keep_added@).map_values(
                |e: (Seq<char>, Seq<DataRefModel>)| e.0,
            ));
        }
        while i < self.added_files.len()
            invariant
                ea == entry_list(self.added_files@),
                keep_added@.len() == ea.len(),
                i <= ea.len(),
                entry_list(added@) == kept(ea.take(i as int), keep_added@),
                str_views(left_added@) == dropped(ea.take(i as int), keep_added@).map_values(
                    |e: (Seq<char>, Seq<DataRefModel>)| e.0,
                ),
            decreases ea.len() - i,
        {
            proof {
                lemma_kept_prefix(ea, keep_added@, i as int);
            }
            let ghost ba = entry_list(added@);
            let ghost bl = str_views(left_added@);
            let ghost before_d = dropped(ea.take(i as int), keep_added@);
            let entry = &self.added_files[i];
            assert(ea[i as int] == (entry.path@, models(entry.refs@)));
            if keep_added[i] {
                let copy = FileEntry { path: entry.path.clone(), refs: crate::clut_build::copy_refs(&entry.refs) };
                let ghost cm = (copy.path@, models(copy.refs@));
                added.push(copy);
                assert(entry_list(added@) =~= ba.push(cm));
            } else {
                let name = entry.path.clone();
                let ghost nv = name@;
                left_added.push(name);
                assert(str_views(left_added@) =~= bl.push(nv));
                assert(before_d.push(ea[i as int]).map_values(|e: (Seq<char>, Seq<DataRefModel>)| e.0)
                    =~= bl.push(nv));
            }
            i = i + 1;
        }
        assert(ea.take(ea.len() as int) =~= ea);
        let mut removed: Vec<String> = Vec::new();
        let mut left_removed: Vec<String> = Vec::new();
        let mut j: usize = 0;
        proof {
            assert(str_views(removed@) =~= kept(er.take(0), keep_removed@));
            assert(str_views(left_removed@) =~= dropped(er.take(0), keep_removed@));
        }
        while j < self.removed_files.len()
            invariant
                er == str_views(self.removed_files@),
                keep_removed@.len() == er.len(),
                j <= er.len(),
                str_views(removed@) == kept(er.take(j as int), keep_removed@),
                str_views(left_removed@) == dropped(er.take(j as int), keep_removed@),
            decreases er.len() - j,
        {
            proof {
                lemma_kept_prefix(er, keep_removed@, j as int);
            }
            let ghost br = str_views(removed@);
            let ghost bl = str_views(left_removed@);
            let name = self.removed_files[j].clone();
            let ghost nv = name@;
            assert(er[j as int] == nv);
            if keep_removed[j] {
                removed.push(name);
                assert(str_views(removed@) =~= br.push(nv));
            } else {
                left_removed.push(name);
                assert(str_views(left_removed@) =~= bl.push(nv));
            }
            j = j + 1;
        }
        assert(er.take(er.len() as int) =~= er);
        self.added_files = added;
        self.removed_files = removed;
        let ghost la = str_views(left_added@);
        let ghost lr = str_views(left_removed@);
        left_added.append(&mut left_removed);
        assert(str_views(left_added@) =~= la + lr);
        left_added
    }
}

} // verus!
