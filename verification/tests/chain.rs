use xiv_core::chain::{build_chain, build_forest, overrides_for, Node, Patch};
use xiv_core::overrides::override_slug_list;
use xiv_core::version::GameVersion;

fn node(version: &str, prerequisites: &[&str]) -> Node {
    Node {
        version: GameVersion::new(version).unwrap(),
        is_active: true,
        prerequisites: prerequisites.iter().map(|version| GameVersion::new(version).unwrap()).collect(),
        patches: vec![Patch { url: format!("http://patches/{version}.patch"), size: 1 }],
    }
}

/// The lineage: a full install, one more historic patch, then two ordinary ones. The
/// full install lists everything that follows it as a prerequisite.
fn lineage() -> [Node; 4] {
    [
        node("H2024.01.01.0000.0000a", &["2024.02.02.0000.0000", "2024.03.03.0000.0000"]),
        node("H2024.01.01.0000.0000b", &["H2024.01.01.0000.0000a"]),
        node("2024.02.02.0000.0000", &["H2024.01.01.0000.0000b"]),
        node("2024.03.03.0000.0000", &["2024.02.02.0000.0000"]),
    ]
}

fn walked(nodes: &[Node], version: &str) -> Vec<String> {
    build_chain("slug", nodes, &GameVersion::new(version).unwrap())
        .unwrap()
        .into_iter()
        .map(|(version, _)| version.to_string())
        .collect()
}

#[test]
fn a_version_with_no_prerequisite_at_all_is_refused() {
    let mut nodes = lineage().to_vec();
    nodes.push(node("2024.04.04.0000.0000", &[]));
    let why = build_forest("slug", &nodes).expect_err("a dropped edge is not a lineage start");
    assert!(why.message().contains("states no prerequisite at all"), "{}", why.message());
    // The real lineage start is not refused: it states its successors, which the walk discards.
    assert!(build_forest("slug", &lineage()).is_ok());
}

#[test]
fn the_override_table_parses_and_names_the_missing_global_edges() {
    let global = overrides_for("4e9a232b").unwrap().expect("the global overrides");
    let edge = |version: &str| {
        let version = GameVersion::new(version).unwrap();
        global
            .iter()
            .find(|(from, _)| *from == version)
            .expect("an override")
            .1
            .as_ref()
            .map(|to| to.to_string())
    };
    assert_eq!(edge("2026.08.19.0000.0000").as_deref(), Some("2026.08.11.0000.0000"));
    assert_eq!(edge("2026.08.31.0000.0000").as_deref(), Some("2026.08.19.0000.0000"));
    assert_eq!(edge("2026.09.01.0000.0000").as_deref(), Some("2026.08.31.0000.0000"));
    // The one entry that deliberately ends a lineage rather than pointing further back.
    assert_eq!(edge("H2017.06.06.0000.0001a"), None);
    // Every other repository's table parses too.
    for slug in override_slug_list() {
        assert!(overrides_for(slug).unwrap().is_some(), "{slug} has no parsed overrides");
    }
}

#[test]
fn a_chain_stops_where_its_lineage_begins() {
    let nodes = lineage();
    assert_eq!(walked(&nodes, "H2024.01.01.0000.0000b"), ["H2024.01.01.0000.0000a", "H2024.01.01.0000.0000b"]);
    assert_eq!(
        walked(&nodes, "2024.03.03.0000.0000"),
        ["H2024.01.01.0000.0000a", "H2024.01.01.0000.0000b", "2024.02.02.0000.0000", "2024.03.03.0000.0000",]
    );
}

#[test]
fn a_forest_holds_every_version_after_the_one_it_follows() {
    let nodes = lineage();
    let forest = build_forest("slug", &nodes).unwrap();
    assert_eq!(forest.len(), nodes.len());
    assert_eq!(forest.iter().filter(|step| step.parent.is_none()).count(), 1);

    let mut placed: Vec<GameVersion> = Vec::new();
    for step in &forest {
        if let Some(parent) = &step.parent {
            assert!(
                placed.contains(parent),
                "{} is placed before {}, which it follows",
                step.version.to_string(),
                parent.to_string()
            );
            assert!(*parent < step.version, "{} is not older than {}", parent.to_string(), step.version.to_string());
        }
        let chain = walked(&nodes, &step.version.to_string());
        assert_eq!(chain.last().unwrap(), &step.version.to_string());
        placed.push(step.version.duplicate());
    }
}

#[test]
fn a_version_missing_from_the_graph_has_an_empty_chain() {
    let nodes = lineage();
    assert!(walked(&nodes, "2030.01.01.0000.0000").is_empty());
}

#[test]
fn a_patch_url_names_its_version() {
    let patch = Patch { url: "http://patch-dl.ffxiv.com/game/4e9a232b/D2023.06.13.0000.0001.patch".to_string(), size: 1 };
    assert_eq!(patch.version().unwrap().to_string(), "D2023.06.13.0000.0001");
    let bare = Patch { url: "http://x/.patch".to_string(), size: 1 };
    assert_eq!(bare.version(), Err(xiv_core::chain::PatchNameError::Empty));
}
