use rua::install_plan::build_layers;
use rua::to_install::DepthEntry;

fn depths(pairs: &[(&str, usize)]) -> Vec<DepthEntry> {
    pairs.iter().map(|(n, d)| DepthEntry { name: n.to_string(), depth: *d }).collect()
}

#[test]
fn layers_run_deepest_first() {
    // depths {a:0, b:1, c:1, d:2}, each split its own build unit
    let pairs: Vec<(String, String)> = ["a", "b", "c", "d"]
        .iter()
        .map(|n| (n.to_string(), n.to_string()))
        .collect();
    let dm = depths(&[("a", 0), ("b", 1), ("c", 1), ("d", 2)]);
    let layers = build_layers(&pairs, &dm);
    assert_eq!(layers.len(), 3);
    assert_eq!(layers[0].depth, 2);
    assert_eq!(layers[0].members.len(), 1);
    assert_eq!(layers[0].members[0].1, "d");
    assert_eq!(layers[1].depth, 1);
    let bases: Vec<&str> = layers[1].members.iter().map(|m| m.1.as_str()).collect();
    assert_eq!(bases, vec!["b", "c"]);
    assert_eq!(layers[2].depth, 0);
    assert_eq!(layers[2].members[0].1, "a");
}

#[test]
fn split_packages_build_once_at_their_deepest() {
    // two splits of one build unit at different depths
    let pairs = vec![
        ("light".to_string(), "base".to_string()),
        ("deep".to_string(), "base".to_string()),
    ];
    let dm = depths(&[("light", 0), ("deep", 3)]);
    let layers = build_layers(&pairs, &dm);
    assert_eq!(layers.len(), 1);
    assert_eq!(layers[0].depth, 3);
    assert_eq!(layers[0].members, vec![("deep".to_string(), "base".to_string())]);
}
