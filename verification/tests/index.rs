use xiv_core::index::{
    is_repository_file, join, parse_header, parse_region, parse_slug, DiscoveryMethod, Discovered,
    IndexError, Origin, PatchEntry, PatchType, Region, Repository, RepositoryError, Source, Status,
    REPOSITORY_SCHEMA,
};
use xiv_core::version::GameVersion;

fn version(text: &str) -> GameVersion {
    GameVersion::new(text).unwrap()
}

fn patch_header(kind: &[u8; 4], version: u8, adds: u32, files: u32) -> Vec<u8> {
    let mut body = vec![0u8; 80];
    body[..12].copy_from_slice(&[0x91, 0x5a, 0x49, 0x50, 0x41, 0x54, 0x43, 0x48, 0x0d, 0x0a, 0x1a, 0x0a]);
    body[22] = version;
    body[24..28].copy_from_slice(kind);
    body[60..64].copy_from_slice(&adds.to_be_bytes());
    body[76..80].copy_from_slice(&files.to_be_bytes());
    body
}

fn source(url: &str, status: Status) -> Source {
    Source { url: url.to_string(), status, checked: "2025-01-01T00:00:00Z".to_string() }
}

fn entry(prev: Option<&str>, sources: Vec<(Origin, Source)>) -> PatchEntry {
    PatchEntry {
        prev: prev.map(version),
        size: 100,
        header: None,
        sources,
        discovered: Discovered { at: "2025-01-01T00:00:00Z".to_string(), method: DiscoveryMethod::Manual },
        verified: None,
    }
}

fn repository() -> Repository {
    Repository {
        schema: REPOSITORY_SCHEMA.to_string(),
        slug: "4e9a232b".to_string(),
        name: "ffxiv".to_string(),
        region: Region::Global,
        latest: version("2024.03.03.0000.0000"),
        patches: vec![
            (
                version("2024.01.01.0000.0000"),
                entry(None, vec![(Origin::Cdn, source("http://cdn/a.patch", Status::Alive))]),
            ),
            (
                version("2024.02.02.0000.0000"),
                entry(
                    Some("2024.01.01.0000.0000"),
                    vec![
                        (Origin::Cdn, source("http://cdn/b.patch", Status::Dead)),
                        (Origin::ArchiveOrg, source("http://archive/b.patch", Status::Alive)),
                    ],
                ),
            ),
            (
                version("2024.03.03.0000.0000"),
                entry(
                    Some("2024.02.02.0000.0000"),
                    vec![(Origin::Cdn, source("http://cdn/c.patch", Status::Unchecked))],
                ),
            ),
        ],
    }
}

#[test]
fn a_patch_header_names_its_type_and_counts() {
    let header = parse_header(&patch_header(b"DIFF", 3, 0, 7)).unwrap();
    assert_eq!(header.patch_type, PatchType::Diff);
    assert_eq!(header.version, 3);
    assert_eq!(header.add_commands, Some(0));
    assert_eq!(header.file_commands, Some(7));
    assert!(header.is_install());

    let older = parse_header(&patch_header(b"HIST", 2, 0, 7)).unwrap();
    assert_eq!(older.patch_type, PatchType::Hist);
    assert_eq!(older.add_commands, None);
    assert!(!older.is_install());
}

#[test]
fn a_patch_header_needs_the_magic_a_type_and_enough_bytes() {
    let mut body = patch_header(b"DIFF", 3, 1, 1);
    assert!(parse_header(&body[..79]).is_none());
    body[0] = 0;
    assert!(parse_header(&body).is_none());
    assert!(parse_header(&patch_header(b"NOPE", 3, 1, 1)).is_none());
}

#[test]
fn regions_and_slugs_parse_by_their_names() {
    assert_eq!(parse_region("global"), Ok(Region::Global));
    assert_eq!(parse_region("taiwan"), Ok(Region::Taiwan));
    assert_eq!(parse_region("mars"), Err(IndexError::UnknownRegion("mars".to_string())));
    assert_eq!(parse_slug("4e9a232b=korea"), Ok(("4e9a232b".to_string(), Region::Korea)));
    assert_eq!(parse_slug("4e9a232b"), Err(IndexError::MissingRegion("4e9a232b".to_string())));
    assert_eq!(parse_slug("a=b=c"), Err(IndexError::UnknownRegion("b=c".to_string())));
}

#[test]
fn a_name_joins_onto_a_base_with_one_slash() {
    assert_eq!(join(Some("http://host/base//"), "x.patch"), "http://host/base/x.patch");
    assert_eq!(join(Some("http://host"), "x.patch"), "http://host/x.patch");
    assert_eq!(join(Some(""), "x.patch"), "x.patch");
    assert_eq!(join(None, "x.patch"), "x.patch");
}

#[test]
fn repository_files_are_named_by_eight_hex_digits() {
    assert!(is_repository_file(Some("4e9a232B"), Some("json")));
    assert!(!is_repository_file(Some("4e9a232g"), Some("json")));
    assert!(!is_repository_file(Some("4e9a232"), Some("json")));
    assert!(!is_repository_file(Some("4e9a232b"), Some("yaml")));
    assert!(!is_repository_file(None, Some("json")));
}

#[test]
fn a_patch_prefers_its_first_live_source() {
    let repository = repository();
    let second = &repository.patches[1].1;
    assert_eq!(second.preferred().unwrap().url, "http://archive/b.patch");
    let patch = second.patch(&version("2024.02.02.0000.0000")).unwrap();
    assert_eq!(patch.url, "http://archive/b.patch");
    assert_eq!(patch.size, 100);
}

#[test]
fn a_repository_chain_walks_back_to_the_first_patch() {
    let repository = repository();
    assert!(repository.validate().is_ok());
    let chain = repository.chain(&version("2024.03.03.0000.0000")).unwrap();
    let versions: Vec<String> = chain.iter().map(|(v, _)| v.to_string()).collect();
    assert_eq!(
        versions,
        vec!["2024.01.01.0000.0000", "2024.02.02.0000.0000", "2024.03.03.0000.0000"]
    );
    assert_eq!(chain[2].1.url, "http://cdn/c.patch");
    assert_eq!(repository.find(&version("2024.02.02.0000.0000")), Some(1));
    assert_eq!(repository.find(&version("2030.01.01.0000.0000")), None);
}

#[test]
fn a_chain_to_an_unlisted_version_is_refused() {
    let repository = repository();
    assert!(matches!(
        repository.chain(&version("2030.01.01.0000.0000")),
        Err(RepositoryError::MissingVersion(_))
    ));
}

#[test]
fn a_repository_with_a_missing_predecessor_does_not_validate() {
    let mut repository = repository();
    repository.patches[1].1.prev = Some(version("2023.12.12.0000.0000"));
    assert!(matches!(repository.validate(), Err(RepositoryError::MissingPredecessor(_, _))));
    let mut repository = self::repository();
    repository.schema = "other".to_string();
    assert!(matches!(repository.validate(), Err(RepositoryError::WrongSchema(_))));
}

#[test]
fn a_repository_that_loops_is_its_own_ancestor() {
    let mut repository = repository();
    repository.patches[0].1.prev = Some(version("2024.03.03.0000.0000"));
    assert!(matches!(
        repository.chain(&version("2024.03.03.0000.0000")),
        Err(RepositoryError::OwnAncestor(_))
    ));
}
