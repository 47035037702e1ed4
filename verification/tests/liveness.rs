use xiv_core::index::{
    DiscoveryMethod, Discovered, Header, Origin, PatchEntry, PatchType, Region, Repository, Source,
    Status, REPOSITORY_SCHEMA,
};
use xiv_core::liveness::{
    apply_probes, archive_parts, disputed, find_probe, listed_probe_of, reconcile,
    unreachable_count, Probe,
};
use xiv_core::poll::{endpoint, relink, report, sentinel, version_of, EndpointError, SENTINEL};
use xiv_core::version::GameVersion;

fn version(text: &str) -> GameVersion {
    GameVersion::new(text).unwrap()
}

fn source(url: &str, status: Status) -> Source {
    Source { url: url.to_string(), status, checked: "2025-01-01T00:00:00Z".to_string() }
}

fn entry(prev: Option<&str>, method: DiscoveryMethod, sources: Vec<(Origin, Source)>) -> PatchEntry {
    PatchEntry {
        prev: prev.map(version),
        size: 1,
        header: None,
        sources,
        discovered: Discovered { at: "2025-01-01T00:00:00Z".to_string(), method },
        verified: None,
    }
}

fn repository(name: &str, patches: Vec<(GameVersion, PatchEntry)>) -> Repository {
    Repository {
        schema: REPOSITORY_SCHEMA.to_string(),
        slug: "2b5cbc63".to_string(),
        name: name.to_string(),
        region: Region::Korea,
        latest: version("2024.01.01.0000.0000"),
        patches,
    }
}

#[test]
fn an_archive_url_names_its_item_and_file() {
    assert_eq!(
        archive_parts("https://archive.org/download/ffxiv-patches/game/D2024.patch"),
        Some(("ffxiv-patches".to_string(), "game/D2024.patch".to_string()))
    );
    assert_eq!(archive_parts("https://archive.org/download/item-only"), None);
    assert_eq!(archive_parts("http://cdn/game/D2024.patch"), None);
}

#[test]
fn archive_listings_decide_archive_urls_only() {
    let listings = vec![
        ("item".to_string(), Some(vec!["a.patch".to_string(), "dir/b.patch".to_string()])),
        ("broken".to_string(), None),
    ];
    assert_eq!(listed_probe_of(&listings, "https://archive.org/download/item/dir/b.patch"), Some(Probe::Alive));
    assert_eq!(listed_probe_of(&listings, "https://archive.org/download/item/c.patch"), Some(Probe::Dead));
    assert_eq!(listed_probe_of(&listings, "https://archive.org/download/broken/a.patch"), Some(Probe::Unknown));
    assert_eq!(listed_probe_of(&listings, "https://archive.org/download/other/a.patch"), Some(Probe::Unknown));
    assert_eq!(listed_probe_of(&listings, "http://cdn/a.patch"), None);
}

#[test]
fn only_a_contradicting_look_at_a_cdn_source_is_disputed() {
    let probed = vec![
        ("http://cdn/a.patch".to_string(), Probe::Dead),
        ("http://cdn/b.patch".to_string(), Probe::Unknown),
        ("https://archive.org/download/item/a.patch".to_string(), Probe::Dead),
    ];
    assert!(disputed("http://cdn/a.patch", Status::Alive, &probed));
    assert!(!disputed("http://cdn/a.patch", Status::Dead, &probed));
    assert!(!disputed("http://cdn/b.patch", Status::Alive, &probed));
    assert!(!disputed("https://archive.org/download/item/a.patch", Status::Alive, &probed));
    assert!(!disputed("http://cdn/unseen.patch", Status::Alive, &probed));
    assert_eq!(find_probe(&probed, &"http://cdn/b.patch".to_string()), Some(Probe::Unknown));
}

#[test]
fn a_second_look_must_agree() {
    assert_eq!(reconcile(Probe::Dead, Probe::Dead), Probe::Dead);
    assert_eq!(reconcile(Probe::Dead, Probe::Alive), Probe::Unknown);
    assert_eq!(reconcile(Probe::Alive, Probe::Unknown), Probe::Unknown);
}

#[test]
fn probes_update_statuses_and_stamp_only_changes() {
    let mut repo = repository(
        "ffxiv/win32/release/game",
        vec![
            (
                version("2024.01.01.0000.0000"),
                entry(
                    None,
                    DiscoveryMethod::Manual,
                    vec![
                        (Origin::Cdn, source("http://cdn/a.patch", Status::Alive)),
                        (Origin::ArchiveOrg, source("https://archive.org/download/i/a.patch", Status::Unchecked)),
                    ],
                ),
            ),
            (
                version("2024.02.02.0000.0000"),
                entry(None, DiscoveryMethod::Manual, vec![(Origin::Cdn, source("http://cdn/b.patch", Status::Alive))]),
            ),
        ],
    );
    let probed = vec![
        ("http://cdn/a.patch".to_string(), Probe::Dead),
        ("https://archive.org/download/i/a.patch".to_string(), Probe::Unknown),
        ("http://cdn/b.patch".to_string(), Probe::Alive),
    ];
    let (changed, unknown) = apply_probes(&mut repo, &probed, "2025-06-01T00:00:00Z");
    assert_eq!((changed, unknown), (1, 1));
    let first = &repo.patches[0].1.sources;
    assert_eq!(first[0].1.status, Status::Dead);
    assert_eq!(first[0].1.checked, "2025-06-01T00:00:00Z");
    assert_eq!(first[1].1.status, Status::Unchecked);
    assert_eq!(first[1].1.checked, "2025-01-01T00:00:00Z");
    assert_eq!(repo.patches[1].1.sources[0].1.checked, "2025-01-01T00:00:00Z");
    assert_eq!(unreachable_count(&repo), 0);
    repo.patches[0].1.sources[1].1.status = Status::Dead;
    assert_eq!(unreachable_count(&repo), 1);
}

#[test]
fn a_sweep_links_each_found_patch_to_the_one_before() {
    let mut first = entry(None, DiscoveryMethod::CdnSweep, vec![]);
    first.header = Some(Header { version: 3, patch_type: PatchType::Diff, add_commands: Some(0), file_commands: Some(2) });
    let mut repo = repository(
        "ffxiv/win32/release/game",
        vec![
            (version("2024.01.01.0000.0000"), first),
            (version("2024.02.02.0000.0000"), entry(None, DiscoveryMethod::CdnSweep, vec![])),
            (version("2024.03.03.0000.0000"), entry(Some("2024.01.01.0000.0000"), DiscoveryMethod::Manual, vec![])),
        ],
    );
    relink(&mut repo);
    assert_eq!(repo.patches[0].1.prev, None);
    assert_eq!(repo.patches[1].1.prev.as_ref().map(|v| v.to_string()), Some("2024.01.01.0000.0000".to_string()));
    assert_eq!(repo.patches[2].1.prev.as_ref().map(|v| v.to_string()), Some("2024.01.01.0000.0000".to_string()));
}

#[test]
fn a_version_check_reports_every_other_repository() {
    let game = repository("ffxiv/win32/release/game", vec![]);
    let ex1 = repository(
        "ffxiv/win32/release/ex1",
        vec![(version("2024.05.05.0000.0000"), entry(None, DiscoveryMethod::Manual, vec![]))],
    );
    let ex2 = repository("ffxiv/win32/release/ex2", vec![]);
    let repos = vec![game, ex1, ex2];
    assert_eq!(
        report(&repos, 0, false),
        "2012.01.01.0000.0000=00000000000000000000000000000000\nex1\t2024.05.05.0000.0000\nex2\t2012.01.01.0000.0000"
    );
    assert_eq!(
        report(&repos, 0, true),
        "2012.01.01.0000.0000=00000000000000000000000000000000\nex1\t2012.01.01.0000.0000\nex2\t2012.01.01.0000.0000"
    );
    assert_eq!(version_of(&repos[1], false).to_string(), "2024.05.05.0000.0000");
    assert_eq!(sentinel().to_string(), SENTINEL);
    assert_eq!(GameVersion::new(SENTINEL).unwrap().to_string(), sentinel().to_string());
}

#[test]
fn a_version_check_goes_to_the_region_host() {
    let from = version("2024.05.05.0000.0000");
    assert_eq!(
        endpoint(Region::Korea, "ffxiv/win32/release/game", &from).unwrap(),
        "http://ngamever-live.ff14.co.kr/http/win32/ffxiv_release_game/2024.05.05.0000.0000/"
    );
    assert_eq!(
        endpoint(Region::Global, "ffxiv/win32/release/boot", &from).unwrap(),
        "http://patch-bootver.ffxiv.com/http/win32/ffxiv_release_boot/2024.05.05.0000.0000/"
    );
    assert_eq!(endpoint(Region::Global, "ffxiv/win32/release/game", &from), Err(EndpointError::NeedsSession));
    assert_eq!(
        endpoint(Region::China, "ffxiv/win32/game", &from),
        Err(EndpointError::BadName("ffxiv/win32/game".to_string()))
    );
}
