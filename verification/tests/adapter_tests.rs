use lunacy_tints::adapter::{load, save, ColorVariable};
use lunacy_tints::errors::UpdateError;
use lunacy_tints::palette::{Palette, PaletteEntry, PaletteGroup};

fn var(id: &str, version: u32, name: &str, value: &str) -> ColorVariable {
    ColorVariable {
        id: String::from(id),
        version,
        name: String::from(name),
        value: String::from(value),
    }
}

#[test]
fn load_scopes_by_prefix() {
    // Only names under "theme / " are read; "other / x" is never read into
    // the palette.
    let vars = vec![
        var("id-1", 2, "theme / dark / dark.500", "#112233"),
        var("id-2", 1, "other / x", "#445566"),
    ];
    let pal = load(&vars, "theme").unwrap();
    assert_eq!(pal.groups.len(), 1);
    assert_eq!(pal.groups[0].name, "dark");
    assert_eq!(pal.groups[0].entries.len(), 1);
    let e = &pal.groups[0].entries[0];
    assert_eq!(e.id, "id-1");
    assert_eq!(e.version, 2);
    assert_eq!(e.name, "theme / dark / dark.500");
    assert_eq!(e.hex, "#112233");
}

#[test]
fn load_groups_by_first_segment() {
    let vars = vec![
        var("a", 1, "theme / dark / dark.100", "#000001"),
        var("b", 1, "theme / light / light.100", "#000002"),
        var("c", 1, "theme / dark / dark.200", "#000003"),
    ];
    let pal = load(&vars, "theme").unwrap();
    assert_eq!(pal.groups.len(), 2);
    assert_eq!(pal.groups[0].name, "dark");
    assert_eq!(pal.groups[0].entries.len(), 2);
    assert_eq!(pal.groups[0].entries[1].id, "c");
    assert_eq!(pal.groups[1].name, "light");
    assert_eq!(pal.groups[1].entries.len(), 1);
}

#[test]
fn load_reads_version_zero_as_one() {
    let vars = vec![var("a", 0, "theme / dark / dark.100", "#000001")];
    let pal = load(&vars, "theme").unwrap();
    assert_eq!(pal.groups[0].entries[0].version, 1);
}

#[test]
fn load_rejects_duplicate_stop_suffix() {
    let vars = vec![
        var("a", 1, "theme / dark / dark.100", "#000001"),
        var("b", 1, "theme / dark / dark.100", "#000002"),
    ];
    assert!(matches!(load(&vars, "theme"), Err(UpdateError::MalformedDocument)));
}

#[test]
fn save_keeps_untouched_variables_in_order() {
    let vars = vec![
        var("id-1", 2, "theme / dark / dark.500", "#112233"),
        var("id-2", 1, "other / x", "#445566"),
    ];
    let pal = load(&vars, "theme").unwrap();
    // No touched groups: everything passes through verbatim.
    let out = save(&vars, &pal, &vec![], "theme");
    assert_eq!(out.len(), 2);
    assert_eq!(out[0].name, "theme / dark / dark.500");
    assert_eq!(out[1].name, "other / x");
    assert_eq!(out[1].value, "#445566");
}

#[test]
fn save_moves_touched_group_to_tail() {
    // Removal precedes insertion and insertion is at the tail, so a
    // touched group's entries migrate to the end while everything else
    // keeps its relative order.
    let vars = vec![
        var("id-1", 2, "theme / dark / dark.500", "#112233"),
        var("id-2", 1, "other / x", "#445566"),
    ];
    let palette = Palette {
        groups: vec![PaletteGroup {
            name: String::from("dark"),
            entries: vec![PaletteEntry {
                id: String::from("id-1"),
                version: 3,
                name: String::from("theme / dark / dark.500"),
                hex: String::from("#ffffff"),
            }],
        }],
    };
    let out = save(&vars, &palette, &vec![String::from("dark")], "theme");
    assert_eq!(out.len(), 2);
    assert_eq!(out[0].name, "other / x");
    assert_eq!(out[0].id, "id-2");
    assert_eq!(out[1].name, "theme / dark / dark.500");
    assert_eq!(out[1].version, 3);
    assert_eq!(out[1].value, "#ffffff");
}

#[test]
fn save_removal_is_by_name_prefix() {
    // Every variable whose name starts with "<prefix> / <group>" is
    // claimed by the touched group, even at another stop.
    let vars = vec![
        var("id-1", 1, "theme / dark / dark.100", "#000001"),
        var("id-9", 1, "theme / dark / dark.900", "#000009"),
        var("id-2", 1, "other / x", "#445566"),
    ];
    let palette = Palette {
        groups: vec![PaletteGroup {
            name: String::from("dark"),
            entries: vec![PaletteEntry {
                id: String::from("id-1"),
                version: 2,
                name: String::from("theme / dark / dark.100"),
                hex: String::from("#000001"),
            }],
        }],
    };
    let out = save(&vars, &palette, &vec![String::from("dark")], "theme");
    // Both old dark entries are removed; one current entry is appended.
    assert_eq!(out.len(), 2);
    assert_eq!(out[0].name, "other / x");
    assert_eq!(out[1].name, "theme / dark / dark.100");
}
