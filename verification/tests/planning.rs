use xiv_core::data_ref::{DataRef, PatchRef};
use xiv_core::discover::{add_found, next_letter, sweep_names};
use xiv_core::index::{DiscoveryMethod, Origin, Status};
use xiv_core::names::FileEntry;
use xiv_core::plan::{plan_download, target_version, DownloadPlan};
use xiv_core::ref_groups::group_refs;
use xiv_core::version::{GameVersion, PatchVersion};

fn v(s: &str) -> GameVersion {
    GameVersion::new(s).unwrap()
}

#[test]
fn skips_an_install_already_at_the_target() {
    let target = v("2024.05.31.0000.0000");
    let plan = plan_download(Some(("4e9a232b", &target)), "4e9a232b", &target, false);
    assert!(matches!(plan, DownloadPlan::Skip));
    assert!(!plan.updates());
    // An install that records no slug belongs to the repository asked for.
    assert!(matches!(plan_download(Some(("", &target)), "4e9a232b", &target, true), DownloadPlan::Skip));
}

#[test]
fn patches_from_the_cached_version_of_the_same_repository() {
    let cached = v("2024.04.01.0000.0000");
    let target = v("2024.05.31.0000.0000");
    match plan_download(Some(("4e9a232b", &cached)), "4e9a232b", &target, false) {
        DownloadPlan::FromCache(c) => assert_eq!(c.to_string(), "2024.04.01.0000.0000"),
        other => panic!("unexpected {other:?}"),
    }
    assert!(plan_download(Some(("4e9a232b", &cached)), "4e9a232b", &target, false).updates());
}

#[test]
fn downloads_afresh_otherwise() {
    let cached = v("2024.04.01.0000.0000");
    let target = v("2024.05.31.0000.0000");
    assert!(matches!(plan_download(None, "4e9a232b", &target, false), DownloadPlan::Fresh));
    assert!(matches!(plan_download(Some(("6b936f08", &cached)), "4e9a232b", &target, false), DownloadPlan::Fresh));
    assert!(matches!(plan_download(Some(("4e9a232b", &cached)), "4e9a232b", &target, true), DownloadPlan::Fresh));
    let epoch = GameVersion::epoch();
    assert!(matches!(plan_download(Some(("4e9a232b", &epoch)), "4e9a232b", &target, false), DownloadPlan::Fresh));
}

#[test]
fn picks_the_latest_unless_asked() {
    let latest = v("2024.05.31.0000.0000");
    assert_eq!(target_version(None, &latest).unwrap().to_string(), "2024.05.31.0000.0000");
    assert_eq!(target_version(Some("2023.01.02.0000.0000"), &latest).unwrap().to_string(), "2023.01.02.0000.0000");
    assert!(target_version(Some("not a version"), &latest).is_err());
}

#[test]
fn moves_hotfix_letters_on() {
    assert_eq!(next_letter("H2024.05.31.0000.0001a").as_deref(), Some("H2024.05.31.0000.0001b"));
    assert_eq!(next_letter("H2024.05.31.0000.0001z").as_deref(), Some("H2024.05.31.0000.0001aa"));
    assert_eq!(next_letter("H2024.05.31.0000.0001az").as_deref(), Some("H2024.05.31.0000.0001ba"));
    assert_eq!(next_letter("H2024.05.31.0000.0001zz").as_deref(), Some("H2024.05.31.0000.0001aaa"));
    assert_eq!(next_letter("H2024.05.31.0000.0001"), None);
    assert_eq!(next_letter("D2024.05.31.0000.0001a"), None);
    assert_eq!(next_letter("Habc"), None);
    assert_eq!(next_letter(""), None);
}

#[test]
fn sweeps_dates_parts_and_revisions_within_budget() {
    let stamps = vec!["2024.05.31".to_string(), "2024.06.01".to_string()];
    let all = sweep_names(&stamps, 1, 2, usize::MAX);
    assert_eq!(all.len(), 2 * 2 * 2 * 2);
    assert_eq!(all[0], "D2024.05.31.0000.0000");
    assert_eq!(all[1], "H2024.05.31.0000.0000a");
    assert_eq!(all[2], "D2024.05.31.0000.0001");
    assert_eq!(all[4], "D2024.05.31.0001.0000");
    assert_eq!(all[8], "D2024.06.01.0000.0000");
    let some = sweep_names(&stamps, 1, 2, 3);
    assert_eq!(some, all[..3].to_vec());
}

#[test]
fn groups_patch_references_by_stretch() {
    let a = PatchVersion::new("D2024.05.31.0000.0000").unwrap();
    let b = PatchVersion::new("D2024.06.01.0000.0000").unwrap();
    let files = vec![
        FileEntry {
            path: "x.dat".to_string(),
            refs: vec![
                DataRef::from_raw_patch_data(a.clone(), 100, 0, 16),
                DataRef::from_zeros(a.clone(), 16, 16),
                DataRef::from_raw_patch_data(b.clone(), 100, 32, 16),
            ],
        },
        FileEntry { path: "y.dat".to_string(), refs: vec![DataRef::from_raw_patch_data(a.clone(), 100, 0, 16)] },
    ];
    let (plain, groups) = group_refs(&files);
    assert_eq!(plain, vec![(0, 1)]);
    assert_eq!(groups.len(), 2);
    assert_eq!(groups[0].0 .1, PatchRef { offset: 100, size: 16, is_compressed: false });
    assert_eq!(groups[0].0 .0.to_string(), "D2024.05.31.0000.0000");
    assert_eq!(groups[0].1, vec![(0, 0), (1, 0)]);
    assert_eq!(groups[1].0 .0.to_string(), "D2024.06.01.0000.0000");
    assert_eq!(groups[1].1, vec![(0, 2)]);
}

fn empty_repository() -> xiv_core::index::Repository {
    xiv_core::index::Repository {
        schema: "schema".to_string(),
        slug: "4e9a232b".to_string(),
        name: "ffxiv/win32/release/game".to_string(),
        region: xiv_core::index::Region::Global,
        latest: GameVersion::epoch(),
        patches: Vec::new(),
    }
}

#[test]
fn adds_found_patches_in_version_order_once() {
    let mut repo = empty_repository();
    let found = vec![
        ("D2024.01.02.0000.0000".to_string(), 10i64, None),
        ("D2024.01.01.0000.0000".to_string(), 5i64, None),
        ("D2024.01.02.0000.0000".to_string(), 7i64, None),
    ];
    let added = add_found(&mut repo, &found, "http://cdn/game", "2024-01-03T00:00:00Z").unwrap();
    assert_eq!(added, 2);
    assert_eq!(repo.patches.len(), 2);
    assert_eq!(repo.patches[0].0.to_string(), "2024.01.01.0000.0000");
    assert_eq!(repo.patches[1].0.to_string(), "2024.01.02.0000.0000");
    assert_eq!(repo.patches[1].1.size, 10);
    let source = &repo.patches[0].1.sources[0];
    assert_eq!(repo.patches[0].1.sources[0].0, Origin::Cdn);
    assert_eq!(source.1.url, "http://cdn/game/D2024.01.01.0000.0000.patch");
    assert_eq!(source.1.status, Status::Alive);
    assert_eq!(repo.patches[0].1.discovered.method, DiscoveryMethod::CdnSweep);
    assert!(repo.patches[0].1.prev.is_none());

    let again = add_found(&mut repo, &found[..1], "http://cdn/game", "later").unwrap();
    assert_eq!(again, 0);
    assert_eq!(repo.patches.len(), 2);
}

#[test]
fn refuses_a_found_name_that_is_no_version() {
    let mut repo = empty_repository();
    let found = vec![("D2024.01.01.0000.0000".to_string(), 1i64, None), ("bogus".to_string(), 1i64, None)];
    assert!(add_found(&mut repo, &found, "http://cdn", "now").is_err());
    assert!(repo.patches.is_empty());
}
