use spellbook::avrae::{get_srd, get_tome};
use spellbook::cache::{RemoteCache, TenantCache};
use spellbook::data::FetchError;
use spellbook::fiveetools::{book_from_json, index_from_json, index_keys};
use spellbook::index::autocomplete_classes;
use spellbook::json::Json;
use spellbook::jsontome::get_json;
use spellbook::merge::{build_spell_map, default_class_fixes};
use spellbook::query::{parse_args, parse_level_range, resolve_level_range};
use spellbook::router::{classify_source, Route};
use spellbook::schools::SpellSchool;
use spellbook::session::parse_control;
use spellbook::session::NavEvent;
use spellbook::text::{fmt_u64, is_blank_str, parse_u8, split_str, str_contains, str_le};

#[test]
fn homebrew_tome_decodes_envelope_data() {
    let payload = br#"{
        "data": {
            "_id": "abc42",
            "name": "My Tome",
            "image": "",
            "spells": [
                {
                    "name": "Zap",
                    "level": 1,
                    "school": "evocation",
                    "classes": "Wizard, Sorcerer",
                    "ritual": false,
                    "description": "A small bolt."
                }
            ]
        }
    }"#;
    let tome = get_tome(payload, "abc42").expect("envelope carries data");
    assert_eq!(tome.id, "abc42");
    assert_eq!(tome.name, "My Tome");
    assert_eq!(tome.spells.len(), 1);
    let s = &tome.spells[0];
    assert_eq!(s.name, "Zap");
    assert_eq!(s.level, 1);
    assert_eq!(s.school, SpellSchool::Evocation);
    assert_eq!(s.classes, vec!["Wizard".to_string(), "Sorcerer".to_string()]);
    assert!(!s.ritual);
    assert_eq!(s.description, "A small bolt.");
    let col = tome.into_collection();
    assert_eq!(col.name, "My Tome");
    assert!(col.image.is_none());
}

#[test]
fn homebrew_spell_fields_default_when_absent() {
    let payload = br#"{"data": {"_id": "t", "name": "T", "spells": [{"name": "Husk"}]}}"#;
    let tome = get_tome(payload, "t").expect("data present");
    let s = &tome.spells[0];
    assert_eq!(s.level, 0);
    assert_eq!(s.school, SpellSchool::Abjuration);
    assert!(!s.ritual);
    assert_eq!(s.description, "");
}

#[test]
fn homebrew_error_envelope_is_reported() {
    let e = get_tome(br#"{"error": "no such tome"}"#, "xyz9").unwrap_err();
    assert_eq!(e.source, "xyz9");
    assert_eq!(e.message, "no such tome");
    let e2 = get_tome(br#"{"something": 1}"#, "xyz9").unwrap_err();
    assert_eq!(e2.message, "Expected error message from avrae api.");
    let e3 = get_tome(br#"{"data": null, "error": "gone"}"#, "xyz9").unwrap_err();
    assert_eq!(e3.message, "gone");
}

#[test]
fn malformed_payload_is_a_fetch_error() {
    let e = get_tome(b"{not json", "bad1").unwrap_err();
    assert_eq!(e.source, "bad1");
    assert_eq!(get_srd(b"###").unwrap_err().source, "srd");
}

#[test]
fn baseline_catalog_decodes_spell_array() {
    let payload = br#"{"data": [
        {"name": "Light", "level": 0, "school": "V", "classes": "Cleric", "ritual": false, "description": ""},
        {"name": "Detect Magic", "level": 1, "school": "D", "classes": "Wizard", "ritual": true, "description": ""}
    ]}"#;
    let tome = get_srd(payload).expect("array payload");
    assert_eq!(tome.id, "srd");
    assert_eq!(tome.name, "SRD");
    assert_eq!(tome.spells.len(), 2);
    assert!(tome.spells[1].ritual);
    assert_eq!(tome.spells[0].school, SpellSchool::Evocation);
    // a non-array payload is a shape error for the baseline
    assert!(get_srd(br#"{"data": {"name": "nope"}}"#).is_err());
}

#[test]
fn passthrough_document_carries_only_lists() {
    let payload = br#"{"spell_lists": {"Sorcerer": ["Fireball", "Haste"], "Odd": 3}}"#;
    let tome = get_json(payload, "https://example.com/lists/mine.json").expect("a JSON document");
    assert_eq!(tome.spell_lists.len(), 2);
    // the parser hands object fields over in sorted order
    assert_eq!(tome.spell_lists[0].0, "Odd");
    assert!(tome.spell_lists[0].1.is_empty());
    assert_eq!(tome.spell_lists[1].0, "Sorcerer");
    assert_eq!(tome.spell_lists[1].1, vec!["Fireball".to_string(), "Haste".to_string()]);
    let col = tome.into_collection();
    assert_eq!(col.name, "mine.json");
    assert!(col.spells.is_empty());
}

#[test]
fn book_decodes_and_lookup_injects_classes() {
    let payload = br#"{"spell": [
        {
            "name": "Fireball",
            "level": 3,
            "school": "V",
            "classes": {"fromClassList": [{"name": "Wizard", "source": "PHB"}]},
            "meta": {"ritual": false}
        }
    ]}"#;
    let tome = get_json(payload, "ignored");
    assert!(tome.is_ok());
    let doc = book_doc();
    let mut book = book_from_json(&doc, "PHB");
    assert_eq!(book.id, "phb");
    assert_eq!(book.spells.len(), 1);
    assert_eq!(book.spells[0].classes, vec!["Wizard".to_string()]);
    // the remote lookup maps lower-cased names to class objects per source
    let lookup = Json::Obj(vec![(
        "fireball".to_string(),
        Json::Obj(vec![(
            "class".to_string(),
            Json::Obj(vec![(
                "phb".to_string(),
                Json::Obj(vec![("Sorcerer".to_string(), Json::Bool(true))]),
            )]),
        )]),
    )]);
    book.mut_spells(&lookup);
    assert_eq!(book.spells[0].classes, vec!["Wizard".to_string(), "Sorcerer".to_string()]);
    let col = book.into_collection();
    assert_eq!(col.name, "phb");
}

fn book_doc() -> Json {
    Json::Obj(vec![(
        "spell".to_string(),
        Json::Arr(vec![Json::Obj(vec![
            ("name".to_string(), Json::Str("Fireball".to_string())),
            ("level".to_string(), Json::Int(3)),
            ("school".to_string(), Json::Str("V".to_string())),
            (
                "classes".to_string(),
                Json::Obj(vec![(
                    "fromClassList".to_string(),
                    Json::Arr(vec![Json::Obj(vec![
                        ("name".to_string(), Json::Str("Wizard".to_string())),
                        ("source".to_string(), Json::Str("PHB".to_string())),
                    ])]),
                )]),
            ),
            ("meta".to_string(), Json::Obj(vec![("ritual".to_string(), Json::Bool(false))])),
        ])]),
    )])
}

#[test]
fn file_index_keeps_string_entries_only() {
    let doc = Json::Obj(vec![
        ("PHB".to_string(), Json::Str("spells-phb.json".to_string())),
        ("BAD".to_string(), Json::Int(1)),
        ("XGE".to_string(), Json::Str("spells-xge.json".to_string())),
    ]);
    let index = index_from_json(&doc);
    assert_eq!(index.len(), 2);
    assert_eq!(index[0], ("PHB".to_string(), "spells-phb.json".to_string()));
    let keys = index_keys(&index);
    assert_eq!(keys, vec!["PHB".to_string(), "XGE".to_string()]);
}

#[test]
fn router_classifies_every_source() {
    assert_eq!(classify_source("https://example.com/tome.json"), Route::Passthrough);
    assert_eq!(classify_source("abc123"), Route::Homebrew);
    assert_eq!(classify_source("srd"), Route::Baseline);
    assert_eq!(classify_source("PHB"), Route::Compendium);
    assert_eq!(classify_source("sr3d"), Route::Homebrew);
    assert_eq!(classify_source("not a url"), Route::Compendium);
}

#[test]
fn schools_round_trip_their_codes() {
    for school in SpellSchool::all() {
        let code = school.id().to_string();
        assert_eq!(SpellSchool::from_name(&code), school);
    }
    assert_eq!(SpellSchool::all().len(), 8);
}

#[test]
fn school_names_match_case_insensitively() {
    assert_eq!(SpellSchool::from_name("necro"), SpellSchool::Necromancy);
    assert_eq!(SpellSchool::from_name("EVOCATION"), SpellSchool::Evocation);
    assert_eq!(SpellSchool::from_name("zzzz"), SpellSchool::Abjuration);
    assert_eq!(SpellSchool::Illusion.name(), "Illusion");
    assert_eq!(SpellSchool::Conjuration.id(), 'C');
}

#[test]
fn level_arguments_parse_as_ranges() {
    assert_eq!(parse_level_range("3"), (Some(3), Some(3)));
    assert_eq!(parse_level_range("2-5"), (Some(2), Some(5)));
    assert_eq!(parse_level_range("x-5"), (None, Some(5)));
    assert_eq!(parse_level_range(""), (None, None));
    assert_eq!(parse_level_range("300"), (None, None));
}

#[test]
fn slash_bounds_resolve_with_defaults() {
    assert_eq!(resolve_level_range(None, Some(2), None), (Some(2), Some(9)));
    assert_eq!(resolve_level_range(None, None, Some(4)), (Some(0), Some(4)));
    assert_eq!(resolve_level_range(Some(3), None, None), (Some(3), Some(3)));
    assert_eq!(resolve_level_range(None, None, None), (None, None));
    // an exact level overrides bounds that were both given
    assert_eq!(resolve_level_range(Some(3), Some(1), Some(2)), (Some(3), Some(3)));
}

#[test]
fn prefix_arguments_carry_flags() {
    let (ritual, schools, not_classes) = parse_args("--ritual --necromancy !cleric");
    assert!(ritual);
    assert_eq!(schools, vec![SpellSchool::Necromancy]);
    assert_eq!(
        not_classes,
        vec!["--ritual".to_string(), "--necromancy".to_string(), "cleric".to_string()],
    );
    let (r2, s2, _) = parse_args("plain");
    assert!(!r2);
    assert!(s2.is_empty());
}

#[test]
fn controls_parse_to_navigation_events() {
    assert_eq!(parse_control("interact.prev"), Some(NavEvent::Prev));
    assert_eq!(parse_control("interact.next"), Some(NavEvent::Next));
    assert_eq!(parse_control("interact.close"), None);
}

#[test]
fn text_tools_behave() {
    assert!(is_blank_str(""));
    assert!(is_blank_str(" \t "));
    assert!(!is_blank_str(" a "));
    assert_eq!(parse_u8("255"), Some(255));
    assert_eq!(parse_u8("256"), None);
    assert_eq!(parse_u8(""), None);
    assert_eq!(parse_u8("12a"), None);
    assert_eq!(split_str("Wizard, Sorcerer", ", "), vec!["Wizard", "Sorcerer"]);
    assert_eq!(split_str("plain", ", "), vec!["plain"]);
    assert!(str_contains("hello world", "lo wo"));
    assert!(!str_contains("hello", "world"));
    assert!(str_le("Apple", "Banana"));
    assert!(!str_le("b", "Banana"));
    assert_eq!(fmt_u64(0), "0");
    assert_eq!(fmt_u64(120), "120");
}

#[test]
fn autocomplete_titles_matching_classes() {
    let classes = vec!["wizard".to_string(), "warlock".to_string(), "cleric".to_string()];
    assert_eq!(
        autocomplete_classes(&classes, "w"),
        vec!["Wizard".to_string(), "Warlock".to_string()],
    );
    assert!(autocomplete_classes(&classes, "x").is_empty());
}

#[test]
fn tenant_cache_replaces_wholesale() {
    let mut cache = TenantCache::new();
    assert!(cache.get(1).is_none());
    let a = build_spell_map(&Vec::new(), &default_class_fixes());
    cache.install(1, a);
    assert_eq!(cache.get(1).expect("installed").spell_count(), 0);
    let payload = br#"{"data": [
        {"name": "Light", "level": 0, "school": "V", "classes": "Cleric", "ritual": false, "description": ""}
    ]}"#;
    let baseline = get_srd(payload).unwrap().into_collection();
    let b = build_spell_map(&vec![baseline], &default_class_fixes());
    cache.install(1, b);
    assert_eq!(cache.get(1).expect("replaced").spell_count(), 1);
    assert!(cache.get(2).is_none());
}

#[test]
fn remote_cache_cells_fill_once() {
    let mut cache = RemoteCache::new();
    assert!(cache.index_ref().is_none());
    cache.set_index(vec![("PHB".to_string(), "spells-phb.json".to_string())]);
    assert_eq!(cache.index_ref().expect("set").len(), 1);
    assert!(cache.doc_get("phb").is_none());
    let payload = br#"{"data": {"_id": "t", "name": "T", "spells": []}}"#;
    let col = get_tome(payload, "t").unwrap().into_collection();
    cache.doc_insert("phb".to_string(), col);
    assert_eq!(cache.doc_get("phb").expect("cached").name, "T");
    assert!(cache.baseline_ref().is_none());
}

#[test]
fn fetch_errors_describe_themselves() {
    let e = FetchError { source: "abc".to_string(), message: "timed out".to_string() };
    assert_eq!(e.describe(), "abc: timed out");
}
