use lunacy_tints::adapter::ColorVariable;
use lunacy_tints::engine::{apply_request, update_palette, MergePolicy};
use lunacy_tints::errors::UpdateError;
use lunacy_tints::palette::Palette;
use lunacy_tints::scale::{request_with_defaults, BaseColorRequest};

fn var(id: &str, version: u32, name: &str, value: &str) -> ColorVariable {
    ColorVariable {
        id: String::from(id),
        version,
        name: String::from(name),
        value: String::from(value),
    }
}

fn brand_request() -> BaseColorRequest {
    request_with_defaults(String::from("brand"), String::from("#00fbb0"))
}

#[test]
fn update_generates_full_scale_at_tail() {
    let vars = vec![var("id-2", 1, "other / x", "#445566")];
    let out = update_palette(
        &vars,
        &vec![brand_request()],
        "theme",
        MergePolicy::PreserveIdentities,
    )
    .unwrap();
    assert_eq!(out.len(), 10);
    assert_eq!(out[0].name, "other / x");
    let expected = [
        "#ccfff0", "#99ffe0", "#61ffd0", "#2effc0", "#00fbb0", "#00c78b", "#009468", "#006647",
        "#003324",
    ];
    for (i, want) in expected.iter().enumerate() {
        let v = &out[1 + i];
        let stop = 100 * (i + 1);
        assert_eq!(v.name, format!("theme / brand / brand.{stop}"));
        assert_eq!(&v.value, want);
        assert_eq!(v.version, 1);
        assert_eq!(v.id.len(), 22);
    }
}

#[test]
fn update_preserves_identities_across_regenerations() {
    let vars = vec![var("id-2", 1, "other / x", "#445566")];
    let reqs = vec![brand_request()];
    let once = update_palette(&vars, &reqs, "theme", MergePolicy::PreserveIdentities).unwrap();
    let twice = update_palette(&once, &reqs, "theme", MergePolicy::PreserveIdentities).unwrap();
    assert_eq!(twice.len(), once.len());
    // "other / x" still leads; the regenerated scale keeps every id and
    // advances every version by one.
    assert_eq!(twice[0].name, "other / x");
    for i in 1..once.len() {
        assert_eq!(twice[i].id, once[i].id);
        assert_eq!(twice[i].name, once[i].name);
        assert_eq!(twice[i].value, once[i].value);
        assert_eq!(twice[i].version, once[i].version + 1);
    }
}

#[test]
fn update_full_replace_reinserts_fresh_entries() {
    let vars = vec![var("id-2", 1, "other / x", "#445566")];
    let reqs = vec![brand_request()];
    let once = update_palette(&vars, &reqs, "theme", MergePolicy::FullReplace).unwrap();
    let twice = update_palette(&once, &reqs, "theme", MergePolicy::FullReplace).unwrap();
    // Every stop is inserted afresh: versions restart at 1.
    for v in twice.iter().skip(1) {
        assert_eq!(v.version, 1);
    }
    assert_eq!(twice.len(), once.len());
}

#[test]
fn update_link_copies_generated_anchor() {
    let vars: Vec<ColorVariable> = vec![];
    let link = request_with_defaults(String::from("accent"), String::from("brand"));
    let out = update_palette(
        &vars,
        &vec![brand_request(), link],
        "theme",
        MergePolicy::PreserveIdentities,
    )
    .unwrap();
    assert_eq!(out.len(), 10);
    let accent = out.iter().find(|v| v.name == "theme / accent").unwrap();
    assert_eq!(accent.value, "#00fbb0");
    assert_eq!(accent.version, 1);
}

#[test]
fn update_link_to_missing_group_fails() {
    let vars: Vec<ColorVariable> = vec![];
    let link = request_with_defaults(String::from("accent"), String::from("brand"));
    let r = update_palette(&vars, &vec![link], "theme", MergePolicy::PreserveIdentities);
    assert!(matches!(r, Err(UpdateError::ReferenceNotFound)));
}

#[test]
fn update_rejects_malformed_document() {
    let vars = vec![
        var("a", 1, "theme / dark / dark.100", "#000001"),
        var("b", 1, "theme / dark / dark.100", "#000002"),
    ];
    let r = update_palette(
        &vars,
        &vec![brand_request()],
        "theme",
        MergePolicy::PreserveIdentities,
    );
    assert!(matches!(r, Err(UpdateError::MalformedDocument)));
}

#[test]
fn update_rejects_malformed_seed() {
    let vars: Vec<ColorVariable> = vec![];
    let mut req = brand_request();
    req.value = String::from("#nothex");
    let r = update_palette(&vars, &vec![req], "theme", MergePolicy::PreserveIdentities);
    assert!(matches!(r, Err(UpdateError::Parse(_))));
}

#[test]
fn apply_request_reconciles_existing_document_entries() {
    // A dark entry loaded from the document keeps its id and advances its
    // version when its stop is regenerated.
    let vars = vec![
        var("stable-id", 4, "theme / brand / brand.500", "#999999"),
        var("id-2", 1, "other / x", "#445566"),
    ];
    let out = update_palette(
        &vars,
        &vec![brand_request()],
        "theme",
        MergePolicy::PreserveIdentities,
    )
    .unwrap();
    let anchor = out.iter().find(|v| v.name == "theme / brand / brand.500").unwrap();
    assert_eq!(anchor.id, "stable-id");
    assert_eq!(anchor.version, 5);
    assert_eq!(anchor.value, "#00fbb0");
    assert_eq!(out[0].name, "other / x");
}

#[test]
fn apply_request_on_palette_directly() {
    let mut palette = Palette { groups: vec![] };
    let r = apply_request(
        &mut palette,
        &brand_request(),
        "theme",
        MergePolicy::PreserveIdentities,
    );
    assert!(r.is_ok());
    assert_eq!(palette.groups.len(), 1);
    assert_eq!(palette.groups[0].name, "brand");
    assert_eq!(palette.groups[0].entries.len(), 9);
    assert_eq!(palette.groups[0].entries[4].hex, "#00fbb0");
}
