use amar::adventure::{
    find_largest_md, image_exts, import_from_dir, is_image_or_ext, parse_sections, pretty_name,
    scan_assets, scan_npc_docs, section_body, Adventure, AdventureAsset, DirScan,
};
use amar::scenes::{attach_scene_images, best_section_for, is_stat_block_heading};

#[test]
fn pretty_name_strips_numeric_prefix_and_splits_camel() {
    assert_eq!(pretty_name("1_Bandits.png"), "Bandits");
    assert_eq!(pretty_name("BrotherAlricDovennan.png"), "Brother Alric Dovennan");
    assert_eq!(pretty_name("Old-Palthar-Keep.npc"), "Old Palthar Keep");
}

#[test]
fn parse_sections_handles_nested_levels() {
    let text = "# Title\n## Overview\nBody\n### Hook\nMore\n## Next\nDone\n";
    let secs = parse_sections(text);
    assert_eq!(secs.len(), 3);
    assert_eq!(secs[0].heading, "Overview");
    assert_eq!(secs[0].level, 2);
    assert_eq!(secs[0].line_end, 5);
    assert_eq!(secs[1].heading, "Hook");
    assert_eq!(secs[1].line_end, 5);
    assert_eq!(secs[2].heading, "Next");
}

#[test]
fn pretty_name_uses_the_file_stem_of_a_path() {
    assert_eq!(pretty_name("Scenes/maps/12-lower_catacombs.jpeg"), "lower catacombs");
    assert_eq!(pretty_name("a/b/.hidden"), ".hidden");
    assert_eq!(pretty_name("dir/archive.tar.gz"), "archive.tar");
    assert_eq!(pretty_name("dir/x/./"), "x");
    assert_eq!(pretty_name(".."), "");
    assert_eq!(pretty_name("x1_Bandits.png"), "x1 Bandits");
}

#[test]
fn parse_sections_crlf_and_trailing_spaces() {
    let text = "## A  \r\nx\r\n###   B\r\n#### not\n##no\n## C";
    let secs = parse_sections(text);
    assert_eq!(secs.len(), 3);
    assert_eq!(secs[0].heading, "A");
    assert_eq!(secs[0].line_start, 1);
    assert_eq!(secs[0].line_end, 5);
    assert_eq!(secs[1].heading, "B");
    assert_eq!(secs[1].level, 3);
    assert_eq!(secs[1].line_end, 5);
    assert_eq!(secs[2].heading, "C");
    assert_eq!(secs[2].line_start, 6);
    assert_eq!(secs[2].line_end, 6);
}

fn scan() -> DirScan {
    DirScan {
        root: "/games/Crypt".to_string(),
        is_dir: true,
        file_name: Some("Crypt".to_string()),
        preferred_is_file: false,
        root_entries: vec![
            ("a.md".to_string(), 10),
            ("b.md".to_string(), 30),
            ("c.txt".to_string(), 99),
            ("d.md".to_string(), 30),
        ],
        scene_files: vec![
            "Scenes/1.png".to_string(),
            "Scenes/Antechamber.png".to_string(),
            "Scenes/notes.txt".to_string(),
            "Scenes/TheHourglass.png".to_string(),
            "Scenes/Sewer.webp".to_string(),
        ],
        floorplan_files: vec!["Maps/LowerCatacombs.JPG".to_string()],
        portrait_files: vec![],
        npc_doc_files: vec!["Bob.npc".to_string(), "NPCs/Ann.npc".to_string(), "Bob.npc".to_string(), "x.NPC".to_string()],
    }
}

fn headed(headings: &[&str]) -> Adventure {
    let mut adv = import_from_dir(&scan(), 7).unwrap();
    let text: String = headings.iter().map(|h| format!("## {}\nbody\n", h)).collect();
    adv.rescan_sections_from(Some(&text));
    adv
}

#[test]
fn import_reads_name_narrative_and_assets() {
    let adv = import_from_dir(&scan(), 7).unwrap();
    assert_eq!(adv.id, 7);
    assert_eq!(adv.name, "Crypt");
    assert_eq!(adv.root_dir, "/games/Crypt");
    assert_eq!(adv.narrative_md, "b.md");
    let names: Vec<&str> = adv.scenes.iter().map(|a| a.name.as_str()).collect();
    assert_eq!(names, vec!["1", "Antechamber", "Sewer", "The Hourglass"]);
    assert_eq!(adv.floorplans[0].name, "Lower Catacombs");
    assert_eq!(adv.floorplans[0].path, "Maps/LowerCatacombs.JPG");
    let docs: Vec<&str> = adv.npc_docs.iter().map(|a| a.path.as_str()).collect();
    assert_eq!(docs, vec!["NPCs/Ann.npc", "Bob.npc"]);
    assert!(adv.sections.is_empty());
}

#[test]
fn import_prefers_named_markdown_and_rejects_files() {
    let mut s = scan();
    s.preferred_is_file = true;
    assert_eq!(import_from_dir(&s, 1).unwrap().narrative_md, "Crypt.md");
    s.file_name = None;
    assert_eq!(import_from_dir(&s, 1).unwrap().name, "Adventure");
    s.is_dir = false;
    assert_eq!(import_from_dir(&s, 1).err(), Some("not a directory: /games/Crypt".to_string()));
}

#[test]
fn largest_markdown_first_of_equals() {
    let e = vec![("a.md".to_string(), 10), ("b.md".to_string(), 30), ("x.txt".to_string(), 99), ("d.md".to_string(), 30)];
    assert_eq!(find_largest_md(&e), Some("b.md".to_string()));
    assert_eq!(find_largest_md(&vec![(".md".to_string(), 5)]), None);
}

#[test]
fn image_extensions_ignore_case() {
    let exts = image_exts();
    assert!(is_image_or_ext("a/B.PNG", &exts));
    assert!(is_image_or_ext("x.jpeg", &exts));
    assert!(!is_image_or_ext("x.txt", &exts));
    assert!(!is_image_or_ext(".png", &exts));
    assert!(!is_image_or_ext("png", &exts));
}

#[test]
fn assets_sorted_by_name() {
    let exts = image_exts();
    let paths = vec!["S/b.PNG".to_string(), "S/a.txt".to_string(), "S/A.jpg".to_string()];
    let got: Vec<AdventureAsset> = scan_assets(&paths, &exts);
    let names: Vec<&str> = got.iter().map(|a| a.name.as_str()).collect();
    assert_eq!(names, vec!["A", "b"]);
    let docs = scan_npc_docs(&vec!["z/Zed.npc".to_string(), "a.npc".to_string(), "z/Zed.npc".to_string()]);
    assert_eq!(docs.len(), 2);
    assert_eq!(docs[0].name, "Zed");
}

#[test]
fn section_body_lines() {
    let text = "## A\nl1\nl2\n## B\nl3";
    let mut adv = Adventure::default();
    adv.rescan_sections_from(Some(text));
    assert_eq!(section_body(&adv, 0, text), vec!["l1".to_string(), "l2".to_string()]);
    assert_eq!(section_body(&adv, 1, text), vec!["l3".to_string()]);
    assert!(section_body(&adv, 5, text).is_empty());
    adv.rescan_sections_from(None);
    assert!(adv.sections.is_empty());
}

#[test]
fn stat_block_headings() {
    assert!(is_stat_block_heading("Torik (M, 34) Sewer Worker"));
    assert!(is_stat_block_heading("Ghoul [Level 3]"));
    assert!(!is_stat_block_heading("Sewer Tunnels"));
}

#[test]
fn images_find_their_sections() {
    let adv = headed(&[
        "Scene 1: Arrival",
        "The Antechamber",
        "Lower Catacombs",
        "Torik the Rat-Catcher (M, 34) Sewer Worker",
        "Sewer Tunnels",
        "7. Temple of Ielina",
    ]);
    assert_eq!(best_section_for(&adv, "1"), Some(0));
    assert_eq!(best_section_for(&adv, "Antechamber"), Some(1));
    assert_eq!(best_section_for(&adv, "Lower Catacombs"), Some(2));
    assert_eq!(best_section_for(&adv, "Sewer"), Some(4));
    assert_eq!(best_section_for(&adv, "007"), Some(5));
    assert_eq!(best_section_for(&adv, "2"), None);
    assert_eq!(best_section_for(&adv, "The Hourglass"), None);
    assert_eq!(best_section_for(&adv, "99999999999"), None);
    // The longest usable word decides: "catacombs" before "old".
    assert_eq!(best_section_for(&adv, "old catacombs"), Some(2));
}

#[test]
fn attach_binds_each_image_once() {
    let mut adv = headed(&["Scene 1: Arrival", "The Antechamber", "Lower Catacombs", "Sewer Tunnels"]);
    attach_scene_images(&mut adv);
    assert_eq!(adv.sections[0].attached_images, vec!["Scenes/1.png".to_string()]);
    assert_eq!(adv.sections[1].attached_images, vec!["Scenes/Antechamber.png".to_string()]);
    assert_eq!(adv.sections[2].attached_images, vec!["Maps/LowerCatacombs.JPG".to_string()]);
    assert_eq!(adv.sections[3].attached_images, vec!["Scenes/Sewer.webp".to_string()]);
    // Running it again gives the same bindings.
    attach_scene_images(&mut adv);
    let total: usize = adv.sections.iter().map(|s| s.attached_images.len()).sum();
    assert_eq!(total, 4);
}

#[test]
fn sections_with_children() {
    let mut adv = Adventure::default();
    adv.rescan_sections_from(Some("## A\n### A1\n## B\n## C\n### C1"));
    assert!(amar::adventure::section_has_children(&adv, 0));
    assert!(!amar::adventure::section_has_children(&adv, 1));
    assert!(!amar::adventure::section_has_children(&adv, 2));
    assert!(amar::adventure::section_has_children(&adv, 3));
    assert!(!amar::adventure::section_has_children(&adv, 4));
    assert!(!amar::adventure::section_has_children(&adv, 9));
}

#[test]
fn absolute_joins_relative_paths_under_the_root() {
    let mut a = Adventure::default();
    a.root_dir = "/games/keep".to_string();
    assert_eq!(a.absolute("maps/tower.png"), "/games/keep/maps/tower.png");
    assert_eq!(a.absolute("/elsewhere/x.png"), "/elsewhere/x.png");
}

#[test]
fn lowered_stat_block_check_takes_text_as_given() {
    assert!(amar::scenes::lowered_is_stat_block("bandit chief (m, 40) [level 3]"));
    assert!(!amar::scenes::lowered_is_stat_block("The Tower (M, 40)"));
    assert!(amar::scenes::is_stat_block_heading("The Tower (M, 40)"));
}
