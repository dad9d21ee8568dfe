use lunacy_tints::errors::UpdateError;
use lunacy_tints::palette::{
    find_group, link_by_name, reconcile_scale, update_by_name, Palette, PaletteEntry,
    PaletteGroup,
};
use lunacy_tints::scale::{request_with_defaults, GeneratedColor};

fn entry(id: &str, version: u32, name: &str, hex: &str) -> PaletteEntry {
    PaletteEntry {
        id: String::from(id),
        version,
        name: String::from(name),
        hex: String::from(hex),
    }
}

fn brand_group() -> PaletteGroup {
    PaletteGroup {
        name: String::from("brand"),
        entries: vec![
            entry("tok-100", 3, "theme / brand / brand.100", "#aaaaaa"),
            entry("tok-500", 7, "theme / brand / brand.500", "#bbbbbb"),
        ],
    }
}

fn gen(name: &str, stop: u32, hex: &str) -> GeneratedColor {
    GeneratedColor { name: String::from(name), stop, hex: String::from(hex) }
}

#[test]
fn update_by_name_updates_matching_suffix() {
    let mut group = brand_group();
    update_by_name(
        &mut group,
        String::from("theme / brand / brand.500"),
        String::from("#00fbb0"),
    );
    assert_eq!(group.entries.len(), 2);
    assert_eq!(group.entries[1].id, "tok-500");
    assert_eq!(group.entries[1].version, 8);
    assert_eq!(group.entries[1].hex, "#00fbb0");
    // The untouched sibling is left exactly as it was.
    assert_eq!(group.entries[0].version, 3);
    assert_eq!(group.entries[0].hex, "#aaaaaa");
}

#[test]
fn update_by_name_appends_fresh_entry() {
    let mut group = brand_group();
    update_by_name(
        &mut group,
        String::from("theme / brand / brand.900"),
        String::from("#003324"),
    );
    assert_eq!(group.entries.len(), 3);
    let fresh = &group.entries[2];
    assert_eq!(fresh.version, 1);
    assert_eq!(fresh.name, "theme / brand / brand.900");
    assert_eq!(fresh.hex, "#003324");
    // A freshly minted identity token: sixteen random bytes as unpadded
    // URL-safe base64, so 22 characters of text.
    assert_eq!(fresh.id.len(), 22);
    assert_ne!(fresh.id, "tok-100");
}

#[test]
fn update_by_name_version_counts_reconciliations_not_changes() {
    let mut group = brand_group();
    update_by_name(
        &mut group,
        String::from("theme / brand / brand.500"),
        String::from("#bbbbbb"),
    );
    // Same hex as before: the version still advances.
    assert_eq!(group.entries[1].version, 8);
    assert_eq!(group.entries[1].hex, "#bbbbbb");
}

#[test]
fn rename_preserves_identity() {
    // The trailing stop suffix matches even though the full name differs
    // by a group rename: the id survives, the version advances, and the
    // entry takes the new qualified name.
    let mut group = brand_group();
    update_by_name(
        &mut group,
        String::from("theme / rebrand / brand.500"),
        String::from("#00fbb0"),
    );
    assert_eq!(group.entries.len(), 2);
    assert_eq!(group.entries[1].id, "tok-500");
    assert_eq!(group.entries[1].version, 8);
    assert_eq!(group.entries[1].name, "theme / rebrand / brand.500");
}

#[test]
fn reconcile_twice_keeps_ids_and_bumps_versions() {
    // Idempotence under identical regeneration: the second merge rewrites
    // every entry with the same hex, advances versions once more, and
    // never changes an id.
    let mut group = PaletteGroup { name: String::from("brand"), entries: vec![] };
    let gens = vec![
        gen("brand", 100, "#ccfff0"),
        gen("brand", 500, "#00fbb0"),
        gen("brand", 900, "#003324"),
    ];
    reconcile_scale(&mut group, "theme", &gens);
    assert_eq!(group.entries.len(), 3);
    let ids: Vec<String> = group.entries.iter().map(|e| e.id.clone()).collect();
    let hexes: Vec<String> = group.entries.iter().map(|e| e.hex.clone()).collect();
    for e in group.entries.iter() {
        assert_eq!(e.version, 1);
    }
    assert_eq!(group.entries[0].name, "theme / brand / brand.100");

    reconcile_scale(&mut group, "theme", &gens);
    assert_eq!(group.entries.len(), 3);
    for (i, e) in group.entries.iter().enumerate() {
        assert_eq!(e.id, ids[i]);
        assert_eq!(e.hex, hexes[i]);
        assert_eq!(e.version, 2);
    }
}

#[test]
fn reconcile_is_additive() {
    // Entries with no matching generated color are retained untouched.
    let mut group = brand_group();
    let gens = vec![gen("brand", 500, "#00fbb0")];
    reconcile_scale(&mut group, "theme", &gens);
    assert_eq!(group.entries.len(), 2);
    assert_eq!(group.entries[0].id, "tok-100");
    assert_eq!(group.entries[0].version, 3);
    assert_eq!(group.entries[0].hex, "#aaaaaa");
    assert_eq!(group.entries[1].version, 8);
    assert_eq!(group.entries[1].hex, "#00fbb0");
}

#[test]
fn link_copies_anchor_hex_into_new_entry() {
    let mut palette = Palette { groups: vec![brand_group()] };
    let mut req = request_with_defaults(String::from("accent"), String::from("brand"));
    req.value = String::from("brand");
    let r = link_by_name(&mut palette, &req, "theme");
    assert!(r.is_ok());
    assert_eq!(palette.groups.len(), 2);
    let accent = &palette.groups[1];
    assert_eq!(accent.name, "accent");
    assert_eq!(accent.entries.len(), 1);
    assert_eq!(accent.entries[0].name, "theme / accent");
    assert_eq!(accent.entries[0].hex, "#bbbbbb");
    assert_eq!(accent.entries[0].version, 1);
}

#[test]
fn link_bumps_version_when_target_exists() {
    let mut palette = Palette {
        groups: vec![
            brand_group(),
            PaletteGroup {
                name: String::from("accent"),
                entries: vec![entry("tok-accent", 4, "theme / accent", "#123456")],
            },
        ],
    };
    let req = request_with_defaults(String::from("accent"), String::from("brand"));
    assert!(link_by_name(&mut palette, &req, "theme").is_ok());
    let accent = &palette.groups[1];
    assert_eq!(accent.entries.len(), 1);
    assert_eq!(accent.entries[0].id, "tok-accent");
    assert_eq!(accent.entries[0].version, 5);
    assert_eq!(accent.entries[0].hex, "#bbbbbb");
}

#[test]
fn link_to_missing_group_is_an_error() {
    let mut palette = Palette { groups: vec![brand_group()] };
    let req = request_with_defaults(String::from("accent"), String::from("nothere"));
    let r = link_by_name(&mut palette, &req, "theme");
    assert!(matches!(r, Err(UpdateError::ReferenceNotFound)));
    // Nothing changed.
    assert_eq!(palette.groups.len(), 1);
    assert_eq!(palette.groups[0].entries.len(), 2);
}

#[test]
fn link_to_missing_anchor_stop_is_an_error() {
    let mut palette = Palette { groups: vec![brand_group()] };
    let mut req = request_with_defaults(String::from("accent"), String::from("brand"));
    req.anchor_stop = 700;
    let r = link_by_name(&mut palette, &req, "theme");
    assert!(matches!(r, Err(UpdateError::ReferenceNotFound)));
}

#[test]
fn find_group_by_name() {
    let palette = Palette { groups: vec![brand_group()] };
    assert_eq!(find_group(&palette, "brand"), Some(0));
    assert_eq!(find_group(&palette, "accent"), None);
}
