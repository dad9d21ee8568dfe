use lunacy_tints::adapter::{load, ColorVariable};
use lunacy_tints::palette::{update_by_name, PaletteGroup};
use lunacy_tints::strutil::{first_segment_of, trailing_segment_of};

fn var(id: &str, version: u32, name: &str, value: &str) -> ColorVariable {
    ColorVariable {
        id: String::from(id),
        version,
        name: String::from(name),
        value: String::from(value),
    }
}

#[test]
fn trailing_segment_trims_spaces() {
    assert_eq!(trailing_segment_of("theme / dark / dark.500"), "dark.500");
    assert_eq!(trailing_segment_of("theme/  spaced.100  "), "spaced.100");
    assert_eq!(trailing_segment_of("noslash"), "noslash");
    assert_eq!(trailing_segment_of(""), "");
}

#[test]
fn first_segment_stops_at_slash() {
    assert_eq!(first_segment_of("dark / dark.500"), "dark");
    assert_eq!(first_segment_of("  padded  / x"), "padded");
    assert_eq!(first_segment_of("plain"), "plain");
    assert_eq!(first_segment_of("/ leading"), "");
}

#[test]
fn load_groups_deep_names_by_first_segment() {
    // A name with extra segments still lands in the group of its first
    // segment after the prefix, keyed by its trailing segment.
    let vars = vec![var("a", 1, "theme / dark / deep / deep.500", "#000001")];
    let pal = load(&vars, "theme").unwrap();
    assert_eq!(pal.groups.len(), 1);
    assert_eq!(pal.groups[0].name, "dark");
    assert_eq!(pal.groups[0].entries[0].name, "theme / dark / deep / deep.500");
}

#[test]
fn load_ignores_near_miss_prefixes() {
    // The scope marker is the prefix followed by " / ", exactly.
    let vars = vec![
        var("a", 1, "theme/x/x.100", "#000001"),
        var("b", 1, "themes / x / x.100", "#000002"),
        var("c", 1, "theme / x / x.100", "#000003"),
    ];
    let pal = load(&vars, "theme").unwrap();
    assert_eq!(pal.groups.len(), 1);
    assert_eq!(pal.groups[0].entries.len(), 1);
    assert_eq!(pal.groups[0].entries[0].id, "c");
}

#[test]
fn update_matches_suffix_despite_spacing() {
    // Matching is on the trimmed trailing segment, so spacing around the
    // last separator does not break stop identity.
    let mut group = PaletteGroup {
        name: String::from("dark"),
        entries: vec![lunacy_tints::palette::PaletteEntry {
            id: String::from("tok"),
            version: 1,
            name: String::from("theme / dark /   dark.500  "),
            hex: String::from("#000000"),
        }],
    };
    update_by_name(
        &mut group,
        String::from("theme / dark / dark.500"),
        String::from("#ffffff"),
    );
    assert_eq!(group.entries.len(), 1);
    assert_eq!(group.entries[0].id, "tok");
    assert_eq!(group.entries[0].version, 2);
}
