use amar::canon::{Canon, Entry};
use amar::keyed::KeyedMap;

fn entry(name: &str, fields: &[(&str, &str)]) -> Entry {
    Entry {
        name: name.to_string(),
        url: format!("https://d6gaming.org/index.php/{}", name),
        details: "full".to_string(),
        domains: vec!["Fire_Magick".to_string()],
        fields: fields.iter().map(|(k, v)| (k.to_string(), v.to_string())).collect(),
    }
}

fn sample() -> Canon {
    let mut domain_index = KeyedMap::new();
    domain_index.set("Spells".to_string(), vec!["Fireball".to_string(), "Light".to_string()]);
    domain_index.set("Potions".to_string(), vec!["Healing Draught".to_string()]);
    let mut entries = KeyedMap::new();
    entries.set("Light".to_string(), entry("Light", &[]));
    entries.set(
        "Fireball".to_string(),
        entry("Fireball", &[("domain", "Fire"), ("dr", "11"), ("encumbrance", "5")]),
    );
    Canon { domain_index, entries }
}

#[test]
fn lookup_finds_entry_by_page_name() {
    let c = sample();
    let fb = c.lookup("Fireball").expect("Fireball missing");
    assert_eq!(fb.field("dr").map(String::as_str), Some("11"));
    assert_eq!(fb.field("encumbrance").map(String::as_str), Some("5"));
    assert_eq!(fb.field("domain").map(String::as_str), Some("Fire"));
    assert_eq!(fb.field("range"), None);
    assert!(c.lookup("Darkness").is_none());
}

#[test]
fn category_counts() {
    let c = sample();
    assert_eq!(c.spell_count(), 2);
    assert_eq!(c.potion_count(), 1);
    assert_eq!(c.ritual_count(), 0);
    assert_eq!(c.category("Spells"), &["Fireball".to_string(), "Light".to_string()][..]);
    assert!(c.category("Unknown").is_empty());
}
