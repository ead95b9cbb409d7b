use amar::wiki::{
    body_after_infobox, category_pages, category_url, check_body, extract_infobox, missing_entry,
    page_url, parse_entry, pct_encode_page, raw_url, record_category, strip_wiki_markup, url_decode,
};
use amar::keyed::KeyedMap;
use amar::wiki::{domains_from_captures, fields_from_captures, infobox_with_lowered, pages_from_captures};

const FIREBALL: &str = "{{ Infobox\n| above = Fireball\n| label1 = DR\n| data1 = '''11'''\n| label2 = Encumbrance\n| data2 = 5\n| label3 = Domain\n| data3 = [[Fire Magick|Fire]]\n}}\nA ball of flame.\n=== Ingredients ===\n* Sulphur\n* Ash \n\n[[Category:Fire_Magick]]\n[[Category:Spells]]\n[[Category:Spells]]\n";

#[test]
fn page_names_are_percent_encoded() {
    assert_eq!(pct_encode_page("Mage's Fire"), "Mage%27s_Fire");
    assert_eq!(pct_encode_page("A\u{2019}b"), "A%E2%80%99b");
    assert_eq!(pct_encode_page("a-b.c~d_e"), "a-b.c~d_e");
}

#[test]
fn urls() {
    assert_eq!(page_url("Fireball"), "https://d6gaming.org/index.php/Fireball");
    assert_eq!(raw_url("Ice Wall"), "https://d6gaming.org/index.php?title=Ice_Wall&action=raw");
    assert_eq!(category_url("Fire Magick"), "https://d6gaming.org/index.php/Category:Fire_Magick");
}

#[test]
fn url_decoding() {
    assert_eq!(url_decode("Mage%27s"), "Mage's");
    assert_eq!(url_decode("%E2%80%99"), "\u{2019}");
    assert_eq!(url_decode("%zz%4"), "%zz%4");
    assert_eq!(url_decode("%+5"), "\u{5}");
    // A lone continuation byte is not UTF-8.
    assert_eq!(url_decode("%80"), "\u{FFFD}");
}

#[test]
fn url_decode_undoes_encoding_of_plain_names() {
    for name in ["Mage%27s", "Fire Ball", "A\u{2019}b"] {
        let enc = pct_encode_page(name);
        assert_eq!(url_decode(&enc.replace('_', " ")), name.replace('_', " "));
    }
}

#[test]
fn infobox_contents_balanced() {
    assert_eq!(
        extract_infobox("x {{infobox | a = {{Note|x}} }} y").as_deref(),
        Some("infobox | a = {{Note|x}} ")
    );
    assert_eq!(extract_infobox("no template here"), None);
    assert_eq!(extract_infobox("{{ INFOBOX unterminated"), None);
    assert!(extract_infobox(FIREBALL).unwrap().starts_with(" Infobox\n| above = Fireball"));
}

#[test]
fn markup_is_stripped() {
    assert_eq!(
        strip_wiki_markup("'''Bold''' and [[Link|Text]] and [[Plain]] and [http://x.org site] {{T|y}}end"),
        "Bold and Text and Plain and site end"
    );
    assert_eq!(strip_wiki_markup("''it''"), "it");
}

#[test]
fn blurb_between_infobox_and_heading() {
    assert_eq!(body_after_infobox(FIREBALL), "A ball of flame.");
    let long = format!("}}}}{}\n== X", "a".repeat(400));
    let b = body_after_infobox(&long);
    assert_eq!(b.chars().count(), 301);
    assert!(b.ends_with('…'));
}

#[test]
fn entry_from_full_page() {
    let e = parse_entry("Fireball", FIREBALL);
    assert_eq!(e.name, "Fireball");
    assert_eq!(e.url, "https://d6gaming.org/index.php/Fireball");
    assert_eq!(e.details, "full");
    assert_eq!(e.domains, vec!["Fire_Magick".to_string(), "Spells".to_string()]);
    let keys: Vec<&str> = e.fields.iter().map(|(k, _)| k.as_str()).collect();
    assert_eq!(keys, vec!["description", "display_name", "domain", "dr", "encumbrance", "ingredients"]);
    assert_eq!(e.field("dr").map(String::as_str), Some("11"));
    assert_eq!(e.field("encumbrance").map(String::as_str), Some("5"));
    assert_eq!(e.field("domain").map(String::as_str), Some("Fire"));
    assert_eq!(e.field("display_name").map(String::as_str), Some("Fireball"));
    assert_eq!(e.field("description").map(String::as_str), Some("A ball of flame."));
    assert_eq!(e.field("ingredients").map(String::as_str), Some("Sulphur\nAsh"));
}

#[test]
fn empty_page_is_missing() {
    let e = parse_entry("Ghost", "  ");
    assert_eq!(e.details, "missing");
    assert!(e.fields.is_empty());
    let m = missing_entry("Ghost Light");
    assert_eq!(m.details, "missing");
    assert_eq!(m.url, "https://d6gaming.org/index.php/Ghost_Light");
}

#[test]
fn category_listing_links() {
    let html = r#"<a href="/index.php/Fireball">F</a><a href="/index.php/Category:Spells">S</a>
<a href="/index.php/Mage%27s_Fire">M</a><a href="/index.php/Combat">C</a>
<a href="/index.php/Legacy_Fireball">L</a><a href="/index.php/Main_Page">H</a><a href="/index.php/Fireball">F</a>"#;
    assert_eq!(category_pages(html), vec!["Fireball".to_string(), "Mage's Fire".to_string()]);
}

#[test]
fn blank_bodies_are_errors() {
    assert_eq!(check_body(" \n ".to_string()), Err("empty body".to_string()));
    assert_eq!(check_body("x".to_string()), Ok("x".to_string()));
}

#[test]
fn categories_are_recorded() {
    let mut idx: KeyedMap<Vec<String>> = KeyedMap::new();
    let mut first: KeyedMap<String> = KeyedMap::new();
    record_category(&mut idx, &mut first, "Spells", &vec!["Fireball".to_string(), "Light".to_string()]);
    record_category(&mut idx, &mut first, "Fire_Magick", &vec!["Fireball".to_string()]);
    record_category(&mut idx, &mut first, "Rituals", &vec![]);
    record_category(&mut idx, &mut first, "Spells", &vec!["Blink".to_string()]);
    let idx = idx.into_entries();
    assert_eq!(idx.len(), 2);
    assert_eq!(idx[0].0, "Fire_Magick");
    assert_eq!(idx[1].1, vec!["Fireball".to_string(), "Light".to_string(), "Blink".to_string()]);
    assert_eq!(first.get("Blink"), Some(&"Spells".to_string()));
    assert!(!first.contains_key("Rituals"));
    assert_eq!(
        first.into_entries(),
        vec![
            ("Blink".to_string(), "Spells".to_string()),
            ("Fireball".to_string(), "Spells".to_string()),
            ("Light".to_string(), "Spells".to_string()),
        ]
    );
}

fn cap(groups: &[Option<&str>]) -> Vec<Option<String>> {
    groups.iter().map(|g| g.map(|x| x.to_string())).collect()
}

#[test]
fn domains_from_given_captures() {
    let caps = vec![
        cap(&[Some("[[Category:Spells]]"), Some(" Spells ")]),
        cap(&[Some("[[Category:Monsters]]"), Some("Monsters")]),
        cap(&[Some("[[Category:Air_Magick]]"), Some("Air_Magick")]),
        cap(&[Some("[[Category:Spells]]"), Some("Spells")]),
        cap(&[Some("x"), None]),
    ];
    assert_eq!(domains_from_captures(&caps), vec!["Spells".to_string(), "Air_Magick".to_string()]);
}

#[test]
fn fields_from_given_captures() {
    let caps = vec![
        cap(&[Some("| Label 1 = DR"), Some(" Label 1 "), Some("'''11'''")]),
        cap(&[Some("| above = X"), Some("above"), Some("X")]),
        cap(&[Some("| above = Y"), Some("above"), Some("Y")]),
    ];
    let f = fields_from_captures(&caps);
    assert_eq!(f, vec![("above".to_string(), "Y".to_string()), ("label_1".to_string(), "11".to_string())]);
}

#[test]
fn pages_from_given_captures() {
    let caps = vec![
        cap(&[Some("a"), Some("Mage%27s_Fire")]),
        cap(&[Some("b"), Some("Category:Spells")]),
        cap(&[Some("c"), Some("Legacy_Fire")]),
        cap(&[Some("d"), Some("Blink")]),
        cap(&[Some("e"), Some("Blink")]),
    ];
    assert_eq!(pages_from_captures(&caps), vec!["Blink".to_string(), "Mage's Fire".to_string()]);
}

#[test]
fn url_decode_gives_back_encoded_names() {
    for name in ["Mage's Fire", "A\u{2019}b c", "plain"] {
        let link = pct_encode_page(name).replace('_', " ");
        assert_eq!(url_decode(&link), name);
    }
}

#[test]
fn infobox_start_is_looked_up_in_the_lowered_text() {
    let lowered = FIREBALL.to_lowercase();
    assert_eq!(infobox_with_lowered(FIREBALL, &lowered), extract_infobox(FIREBALL));
    assert!(infobox_with_lowered(FIREBALL, &lowered).is_some());
    // Without the marker in the lowered text there is nothing to find.
    assert_eq!(infobox_with_lowered(FIREBALL, "no template here"), None);
}

#[test]
fn decoding_a_page_url_gives_the_name_with_underscores() {
    for name in ["Mage's Fire", "A\u{2019}b c", "plain", "100% sure?", "x_y z"] {
        assert_eq!(url_decode(&pct_encode_page(name)), name.replace(' ', "_"));
    }
}

#[test]
fn replace_with_an_empty_pattern_surrounds_every_char() {
    assert_eq!(amar::wiki::replace_str("abc", "", "-"), "-a-b-c-");
    assert_eq!(amar::wiki::replace_str("", "", "-"), "-");
    assert_eq!(amar::wiki::replace_str("a''b''", "''", ""), "ab");
}
