use spellbook::data::{Source, Spell, SpellCollection};
use spellbook::index::SpellMap;
use spellbook::merge::{build_spell_map, default_class_fixes, merge_spell_lists, plan_sources};
use spellbook::query::{join_lines, paginate, query_pages};
use spellbook::schools::SpellSchool;
use spellbook::session::{NavEvent, PageSession, SessionOutcome};

fn spell(name: &str, level: u8, school: SpellSchool, classes: &[&str], ritual: bool) -> Spell {
    Spell {
        name: name.to_string(),
        level,
        school,
        classes: classes.iter().map(|c| c.to_string()).collect(),
        description: String::new(),
        ritual,
    }
}

fn collection(id: &str, spells: Vec<Spell>, lists: Vec<(&str, Vec<&str>)>) -> SpellCollection {
    SpellCollection {
        id: Source::Avrae(id.to_string()),
        name: id.to_string(),
        image: None,
        spells,
        spell_lists: lists
            .into_iter()
            .map(|(k, v)| (k.to_string(), v.into_iter().map(|s| s.to_string()).collect()))
            .collect(),
    }
}

fn names_of(sm: &SpellMap) -> Vec<String> {
    let mut v = Vec::new();
    for i in 0..sm.spell_count() {
        v.push(sm.get_spell(i).name.clone());
    }
    v
}

#[test]
fn build_twice_is_identical() {
    let mk = || {
        vec![
            collection(
                "one",
                vec![
                    spell("Bless", 1, SpellSchool::Enchantment, &["Cleric"], false),
                    spell("Alarm", 1, SpellSchool::Abjuration, &["Wizard"], true),
                ],
                vec![("Paladin", vec!["Bless"])],
            ),
            collection(
                "two",
                vec![spell("Fireball", 3, SpellSchool::Evocation, &["Wizard"], false)],
                vec![],
            ),
        ]
    };
    let fixes = default_class_fixes();
    let a = build_spell_map(&mk(), &fixes);
    let b = build_spell_map(&mk(), &fixes);
    assert_eq!(names_of(&a), names_of(&b));
    assert_eq!(a.get_classes(), b.get_classes());
    for i in 0..a.spell_count() {
        assert_eq!(a.get_spell(i).classes, b.get_spell(i).classes);
        assert_eq!(a.get_spell(i).level, b.get_spell(i).level);
    }
}

#[test]
fn dedup_unions_supplemental_classes() {
    // Two sources both hold "Fireball"; one tags Wizard directly, the
    // other through a supplemental list naming Sorcerer.
    let cols = vec![
        collection(
            "one",
            vec![spell("Fireball", 3, SpellSchool::Evocation, &["Wizard"], false)],
            vec![],
        ),
        collection(
            "two",
            vec![spell("Fireball", 3, SpellSchool::Evocation, &[], false)],
            vec![("Sorcerer", vec!["Fireball"])],
        ),
    ];
    let sm = build_spell_map(&cols, &default_class_fixes());
    let count = names_of(&sm).iter().filter(|n| n.as_str() == "Fireball").count();
    assert_eq!(count, 1);
    let wiz = sm.get_spells(&"wizard".to_string()).expect("wizard indexed");
    assert!(wiz.iter().any(|s| s.name == "Fireball"));
    let sor = sm.get_spells(&"sorcerer".to_string()).expect("sorcerer indexed");
    assert!(sor.iter().any(|s| s.name == "Fireball"));
}

#[test]
fn baseline_only_build_succeeds() {
    // A tenant with zero configured sources still builds from the
    // baseline source alone, and the class index is non-empty.
    let baseline = collection(
        "srd",
        vec![
            spell("Cure Wounds", 1, SpellSchool::Evocation, &["Cleric", "Druid"], false),
            spell("Mage Hand", 0, SpellSchool::Conjuration, &["Wizard"], false),
        ],
        vec![],
    );
    let sm = build_spell_map(&vec![baseline], &default_class_fixes());
    assert!(sm.class_count() > 0);
    assert!(sm.get_spells(&"wizard".to_string()).is_some());
    assert_eq!(sm.spell_count(), 2);
}

#[test]
fn single_level_query_pages_are_flat_and_sorted() {
    // 25 matching ritual spells of exactly level 3: two pages of 20 and
    // 5 alphabetical lines, no level header.
    let mut spells = Vec::new();
    for i in 0..25 {
        spells.push(spell(
            &format!("Rite {:02}", 24 - i),
            3,
            SpellSchool::Necromancy,
            &["Wizard"],
            true,
        ));
    }
    let sm = build_spell_map(&vec![collection("one", spells, vec![])], &default_class_fixes());
    let pages = query_pages(&sm, "Wizard", Some(3), Some(3), true, &Vec::new(), &Vec::new());
    assert_eq!(pages.len(), 2);
    let first: Vec<&str> = pages[0].lines().collect();
    let second: Vec<&str> = pages[1].lines().collect();
    assert_eq!(first.len(), 20);
    assert_eq!(second.len(), 5);
    let mut all: Vec<&str> = first.clone();
    all.extend(second.clone());
    let mut sorted = all.clone();
    sorted.sort();
    assert_eq!(all, sorted);
    assert!(pages[0].find("**Level").is_none());
    assert_eq!(first[0], "Rite 00");
    assert_eq!(second[4], "Rite 24");
}

#[test]
fn ranged_query_groups_by_ascending_level() {
    let spells = vec![
        spell("Fireball", 3, SpellSchool::Evocation, &["Wizard"], false),
        spell("Bless", 1, SpellSchool::Enchantment, &["Wizard"], false),
        spell("Alarm", 1, SpellSchool::Abjuration, &["Wizard"], true),
    ];
    let sm = build_spell_map(&vec![collection("one", spells, vec![])], &default_class_fixes());
    let pages = query_pages(&sm, "wizard", Some(1), Some(9), false, &Vec::new(), &Vec::new());
    assert_eq!(pages.len(), 1);
    let lines: Vec<&str> = pages[0].lines().collect();
    assert_eq!(
        lines,
        vec!["**Level 1 spells**", "Alarm", "Bless", "**Level 3 spells**", "Fireball"],
    );
}

#[test]
fn level_filter_bounds_every_result() {
    let spells = vec![
        spell("Wish", 9, SpellSchool::Conjuration, &["Wizard"], false),
        spell("Fireball", 3, SpellSchool::Evocation, &["Wizard"], false),
        spell("Mage Hand", 0, SpellSchool::Conjuration, &["Wizard"], false),
    ];
    let sm = build_spell_map(&vec![collection("one", spells, vec![])], &default_class_fixes());
    let pages = query_pages(&sm, "wizard", Some(1), Some(4), false, &Vec::new(), &Vec::new());
    let text = pages.join("\n");
    assert!(text.contains("Fireball"));
    assert!(!text.contains("Wish"));
    assert!(!text.contains("Mage Hand"));
}

#[test]
fn exclusion_and_school_filters_apply() {
    let spells = vec![
        spell("Fireball", 3, SpellSchool::Evocation, &["Wizard", "Sorcerer"], false),
        spell("Animate Dead", 3, SpellSchool::Necromancy, &["Wizard"], false),
    ];
    let sm = build_spell_map(&vec![collection("one", spells, vec![])], &default_class_fixes());
    // class names are case-insensitive: a lower-cased exclusion token
    // still drops the Sorcerer-classed spell
    let not = vec!["sorcerer".to_string()];
    let pages = query_pages(&sm, "wizard", None, None, false, &Vec::new(), &not);
    let text = pages.join("\n");
    assert!(!text.contains("Fireball"));
    assert!(text.contains("Animate Dead"));
    let not_exact = vec!["SORCERER".to_string()];
    let pages_exact = query_pages(&sm, "wizard", None, None, false, &Vec::new(), &not_exact);
    assert!(!pages_exact.join("\n").contains("Fireball"));
    let schools = vec![SpellSchool::Evocation];
    let pages2 = query_pages(&sm, "wizard", None, None, false, &schools, &Vec::new());
    let text2 = pages2.join("\n");
    assert!(text2.contains("Fireball"));
    assert!(!text2.contains("Animate Dead"));
}

#[test]
fn unknown_class_yields_one_empty_page() {
    let sm = build_spell_map(&Vec::new(), &default_class_fixes());
    let pages = query_pages(&sm, "wizard", None, None, false, &Vec::new(), &Vec::new());
    assert_eq!(pages.len(), 1);
    assert_eq!(pages[0], "");
}

#[test]
fn pagination_counts_and_reassembles() {
    let lines: Vec<String> = (0..45).map(|i| format!("line {i}")).collect();
    let pages = paginate(lines.clone());
    assert_eq!(pages.len(), 3);
    assert_eq!(pages[0].len(), 20);
    assert_eq!(pages[1].len(), 20);
    assert_eq!(pages[2].len(), 5);
    let mut back: Vec<String> = Vec::new();
    for p in &pages {
        back.extend(p.iter().cloned());
    }
    assert_eq!(back, lines);
    let empty = paginate(Vec::new());
    assert_eq!(empty.len(), 1);
    assert_eq!(empty[0].len(), 0);
    assert_eq!(join_lines(&empty[0]), "");
    assert_eq!(join_lines(&vec!["a".to_string(), "b".to_string()]), "a\nb");
}

#[test]
fn navigation_stops_at_both_ends() {
    let pages = vec!["p0".to_string(), "p1".to_string(), "p2".to_string()];
    let mut s = PageSession::new(pages, 7, 1000);
    assert_eq!(s.page_index(), 0);
    assert!(!s.has_prev());
    assert!(s.has_next());
    // previous from the first page is a no-op
    assert_eq!(s.handle_event(7, 10, NavEvent::Prev), SessionOutcome::Show(0));
    // interior moves are exactly one page
    assert_eq!(s.handle_event(7, 10, NavEvent::Next), SessionOutcome::Show(1));
    assert_eq!(s.handle_event(7, 10, NavEvent::Next), SessionOutcome::Show(2));
    // next from the last page is a no-op
    assert_eq!(s.handle_event(7, 10, NavEvent::Next), SessionOutcome::Show(2));
    assert_eq!(s.handle_event(7, 10, NavEvent::Prev), SessionOutcome::Show(1));
    assert_eq!(s.current_page(), "p1");
    assert_eq!(s.footer(), "Page 2 out of 3");
}

#[test]
fn foreign_actor_and_expiry_change_nothing() {
    let pages = vec!["p0".to_string(), "p1".to_string()];
    let mut s = PageSession::new(pages, 7, 1000);
    assert_eq!(s.handle_event(8, 10, NavEvent::Next), SessionOutcome::Ignored);
    assert_eq!(s.page_index(), 0);
    assert_eq!(s.handle_event(7, 1001, NavEvent::Next), SessionOutcome::Expired);
    assert_eq!(s.page_index(), 0);
    assert_eq!(s.handle_event(7, 1000, NavEvent::Next), SessionOutcome::Show(1));
}

#[test]
fn class_lookup_folds_case_beyond_ascii() {
    // class names are case-insensitive under Unicode folding, not only
    // for ASCII letters
    let spells = vec![spell("Umbra", 1, SpellSchool::Illusion, &["\u{c4}ther"], false)];
    let sm = build_spell_map(&vec![collection("one", spells, vec![])], &default_class_fixes());
    let pages = query_pages(&sm, "\u{c4}THER", None, None, false, &Vec::new(), &Vec::new());
    assert!(pages.join("\n").contains("Umbra"));
    let lower = query_pages(&sm, "\u{e4}ther", None, None, false, &Vec::new(), &Vec::new());
    assert!(lower.join("\n").contains("Umbra"));
}

#[test]
fn class_normalization_applies_after_merge() {
    let spells = vec![spell("Entangle", 1, SpellSchool::Conjuration, &["Drud"], false)];
    let sm = build_spell_map(&vec![collection("one", spells, vec![])], &default_class_fixes());
    let druids = sm.get_spells(&"druid".to_string()).expect("druid indexed");
    assert_eq!(druids.len(), 1);
    assert!(druids[0].classes.iter().any(|c| c == "Druid"));
}

#[test]
fn blank_class_names_are_never_indexed() {
    let spells = vec![
        spell("Gust", 0, SpellSchool::Transmutation, &["", " ", "\t", "Wizard"], false),
    ];
    let sm = build_spell_map(&vec![collection("one", spells, vec![])], &default_class_fixes());
    assert_eq!(sm.class_count(), 1);
    assert!(sm.get_spells(&"".to_string()).is_none());
    assert!(sm.get_spells(&" ".to_string()).is_none());
    assert!(sm.get_spells(&"\t".to_string()).is_none());
    assert!(sm.get_spells(&"wizard".to_string()).is_some());
}

#[test]
fn first_fetched_spell_survives_dedup() {
    let cols = vec![
        collection(
            "one",
            vec![spell("Haste", 3, SpellSchool::Transmutation, &["Wizard"], false)],
            vec![],
        ),
        collection(
            "two",
            vec![spell("Haste", 5, SpellSchool::Evocation, &["Sorcerer"], false)],
            vec![],
        ),
    ];
    let sm = build_spell_map(&cols, &default_class_fixes());
    assert_eq!(sm.spell_count(), 1);
    assert_eq!(sm.get_spell(0).level, 3);
    assert_eq!(sm.get_spell(0).school, SpellSchool::Transmutation);
}

#[test]
fn classless_spells_stay_visible_but_unreachable() {
    let spells = vec![spell("Orphan", 2, SpellSchool::Divination, &[], false)];
    let sm = build_spell_map(&vec![collection("one", spells, vec![])], &default_class_fixes());
    assert_eq!(sm.spell_count(), 1);
    assert_eq!(sm.get_spell(0).name, "Orphan");
    assert_eq!(sm.class_count(), 0);
    assert!(sm.get_classes().is_empty());
}

#[test]
fn later_source_wins_list_collisions() {
    let cols = vec![
        collection("one", vec![], vec![("Paladin", vec!["Bless"])]),
        collection("two", vec![], vec![("Paladin", vec!["Aid"])]),
    ];
    let merged = merge_spell_lists(&cols);
    assert_eq!(merged.len(), 1);
    assert_eq!(merged[0].0, "Paladin");
    assert_eq!(merged[0].1, vec!["Aid".to_string()]);
}

#[test]
fn fetch_plan_appends_baseline_and_catalog() {
    let keys = vec!["PHB".to_string(), "UA22".to_string(), "XGE".to_string()];
    let plan = plan_sources(vec!["mytome".to_string()], &keys);
    assert_eq!(
        plan,
        vec!["mytome".to_string(), "srd".to_string(), "PHB".to_string(), "XGE".to_string()],
    );
}
