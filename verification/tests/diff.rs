use xiv_core::chunk::Chunk;
use xiv_core::clut::{CompressType, Header, PlatformId, Version};
use xiv_core::clut_build::ClutBuilder;
use xiv_core::clut_file::CLUT_MAGIC;
use xiv_core::diff::{ClutDiff, DiffError};
use xiv_core::version::{GameVersion, PatchVersion};

fn header(repository: &str, version: &str, patch: &str, url: &str) -> Header {
    Header {
        magic: CLUT_MAGIC,
        file_version: Version::SeparateVersioning,
        compression: CompressType::Uncompressed,
        platform: PlatformId::Win32,
        repository: repository.to_string(),
        version: GameVersion::new(version).unwrap(),
        patch_version: PatchVersion::new(patch).unwrap(),
        base_patch_url: url.to_string(),
        decompressed_size: 0,
        compressed_size: 0,
    }
}

fn add(b: &mut ClutBuilder, patch: &str, target: &str, offset: i64) {
    let p = PatchVersion::new(patch).unwrap();
    b.apply(
        &p,
        &Chunk::SqpkAddData {
            target: target.to_string(),
            block_offset: offset,
            block_number: 1,
            block_delete_number: 0,
            patch_offset: 4096,
        },
    )
    .unwrap();
}

fn older() -> ClutBuilder {
    let mut b = ClutBuilder::new(header("4e9a232b", "2024.01.01.0000.0000", "D2024.01.01.0000.0000", "http://old/"));
    let p = PatchVersion::new("D2024.01.01.0000.0000").unwrap();
    b.apply(&p, &Chunk::AddDirectory("sqpack/ffxiv".to_string())).unwrap();
    b.apply(&p, &Chunk::AddDirectory("sqpack/old".to_string())).unwrap();
    add(&mut b, "D2024.01.01.0000.0000", "sqpack/ffxiv/a.dat0", 0);
    add(&mut b, "D2024.01.01.0000.0000", "sqpack/ffxiv/gone.dat0", 0);
    b.remove_overlaps().unwrap();
    b
}

fn newer(url: &str) -> ClutBuilder {
    let mut b = ClutBuilder::new(header("4e9a232b", "2024.02.02.0000.0000", "D2024.02.02.0000.0000", url));
    let p = PatchVersion::new("D2024.01.01.0000.0000").unwrap();
    b.apply(&p, &Chunk::AddDirectory("sqpack/ffxiv".to_string())).unwrap();
    b.apply(&p, &Chunk::AddDirectory("sqpack/new".to_string())).unwrap();
    add(&mut b, "D2024.01.01.0000.0000", "sqpack/ffxiv/a.dat0", 0);
    add(&mut b, "D2024.02.02.0000.0000", "sqpack/ffxiv/a.dat0", 1);
    add(&mut b, "D2024.02.02.0000.0000", "sqpack/ffxiv/b.dat0", 0);
    b.remove_overlaps().unwrap();
    b
}

#[test]
fn a_diff_from_nothing_takes_every_file_whole() {
    let to = newer("http://new/");
    let keep = vec![true; to.file_entries().len()];
    let d = ClutDiff::new(None, &to, &keep).unwrap();
    assert_eq!(d.added_folders, vec!["sqpack/ffxiv".to_string(), "sqpack/new".to_string()]);
    assert!(d.removed_folders.is_empty());
    assert!(d.removed_files.is_empty());
    let added: Vec<(String, usize)> = d.added_files.iter().map(|f| (f.path.clone(), f.refs.len())).collect();
    assert_eq!(added, vec![("sqpack/ffxiv/a.dat0".to_string(), 2), ("sqpack/ffxiv/b.dat0".to_string(), 1)]);
    assert_eq!(d.base_patch_url, "http://new");
    assert_eq!(d.version_from.to_string(), GameVersion::epoch().to_string());
    assert_eq!(d.version_to.to_string(), "2024.02.02.0000.0000");
}

#[test]
fn a_diff_from_an_older_install_takes_only_what_later_patches_wrote() {
    let from = older();
    let to = newer("");
    let keep = vec![true; to.file_entries().len()];
    let d = ClutDiff::new(Some(&from), &to, &keep).unwrap();
    assert_eq!(d.added_folders, vec!["sqpack/new".to_string()]);
    assert_eq!(d.removed_folders, vec!["sqpack/old".to_string()]);
    assert_eq!(d.removed_files, vec!["sqpack/ffxiv/gone.dat0".to_string()]);
    let added: Vec<(String, usize)> = d.added_files.iter().map(|f| (f.path.clone(), f.refs.len())).collect();
    assert_eq!(added, vec![("sqpack/ffxiv/a.dat0".to_string(), 1), ("sqpack/ffxiv/b.dat0".to_string(), 1)]);
    assert!(d.added_files[0].refs.iter().all(|r| r.applied_version().to_string() == "D2024.02.02.0000.0000"));
    assert_eq!(d.file_sizes.len(), 2);
    // The newer install names no base URL, so the older one's stands.
    assert_eq!(d.base_patch_url, "http://old");
}

#[test]
fn a_filtered_file_is_left_out_and_reported() {
    let to = newer("http://new/");
    let keep = vec![true, false];
    let mut d = ClutDiff::new(None, &to, &keep).unwrap();
    assert_eq!(d.filtered_files, vec!["sqpack/ffxiv/b.dat0".to_string()]);
    assert_eq!(d.added_files.len(), 1);
    let left = d.filter_files(&[false], &[]);
    assert_eq!(left, vec!["sqpack/ffxiv/a.dat0".to_string()]);
    assert!(d.added_files.is_empty());
    d.provide_base_patch_url("http://mirror///");
    assert_eq!(d.base_patch_url, "http://mirror");
    d.provide_base_patch_url("///");
    assert_eq!(d.base_patch_url, "http://mirror");
}

#[test]
fn installs_of_other_repositories_or_order_are_refused() {
    let to = newer("http://new/");
    let keep = vec![true; to.file_entries().len()];
    let mut other = ClutBuilder::new(header("2b5cbc63", "2024.01.01.0000.0000", "D2024.01.01.0000.0000", ""));
    other.remove_overlaps().unwrap();
    assert!(matches!(ClutDiff::new(Some(&other), &to, &keep), Err(DiffError::DifferentRepositories)));
    let same = newer("http://new/");
    assert!(matches!(ClutDiff::new(Some(&same), &to, &keep), Err(DiffError::NotNewer)));
}
