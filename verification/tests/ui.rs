use amar::ui::MdStyle::{Bold, Code, Italic, Plain};
use amar::ui::{
    attitude_color, category_blurb, compute_left_right, find_close, fmt_opt_num,
    next_char_boundary, scroll_offset, truncate_or_pad, CampSection, Tab,
};

#[test]
fn tab_cycle_visits_bar_in_order_and_wraps() {
    assert_eq!(Tab::World.next(), Tab::Campaign);
    assert_eq!(Tab::Campaign.next(), Tab::Combat);
    assert_eq!(Tab::Combat.next(), Tab::Lore);
    assert_eq!(Tab::Lore.next(), Tab::World);
    assert_eq!(Tab::World.prev(), Tab::Lore);
    assert_eq!(Tab::Lore.prev(), Tab::Combat);
    // Tabs not on the bar step as if they were the first.
    assert_eq!(Tab::Forge.next(), Tab::Campaign);
    assert_eq!(Tab::Inspire.prev(), Tab::Lore);
}

#[test]
fn tab_next_then_prev_is_identity_on_bar() {
    for t in Tab::all() {
        assert_eq!(t.next().prev(), t);
        assert_eq!(t.prev().next(), t);
    }
}

#[test]
fn tab_names() {
    assert_eq!(Tab::World.name(), "World");
    assert_eq!(Tab::Combat.name(), "Combat");
    assert_eq!(Tab::all(), [Tab::World, Tab::Campaign, Tab::Combat, Tab::Lore]);
}

#[test]
fn camp_sections_order_and_ids() {
    let all = CampSection::all();
    assert_eq!(all[0], CampSection::Calendar);
    assert_eq!(all[5], CampSection::SavedForge);
    assert_eq!(CampSection::SavedForge.id(), "Forge log");
    assert_eq!(CampSection::Pcs.id(), "PCs");
}

#[test]
fn left_right_split() {
    // 104 cols, slider 3 → (100 * 3) / 10 = 30 left, 74 right.
    assert_eq!(compute_left_right(104, 3), (30, 74));
    // Narrow slider still leaves 20 on the left.
    assert_eq!(compute_left_right(104, 1), (20, 84));
    // Very narrow screen: left capped so 20 stay on the right.
    assert_eq!(compute_left_right(30, 6), (10, 20));
    assert_eq!(compute_left_right(10, 6), (0, 10));
}

#[test]
fn scroll_keeps_cursor_centered() {
    assert_eq!(scroll_offset(5, 10, 20), 0);
    assert_eq!(scroll_offset(2, 100, 10), 0);
    assert_eq!(scroll_offset(50, 100, 10), 45);
    assert_eq!(scroll_offset(98, 100, 10), 90);
}

#[test]
fn truncation_adds_ellipsis() {
    assert_eq!(truncate_or_pad("hello", 10), "hello");
    assert_eq!(truncate_or_pad("hello world", 5), "hell…");
    assert_eq!(truncate_or_pad("hello", 0), "…");
}

#[test]
fn attitude_colors() {
    assert_eq!(attitude_color("HOSTILE"), 196);
    assert_eq!(attitude_color("FRIENDLY"), 46);
    assert_eq!(attitude_color("whatever"), 252);
}

#[test]
fn optional_numbers() {
    assert_eq!(fmt_opt_num(0, "m"), "");
    assert_eq!(fmt_opt_num(12, "m"), "12 m");
}

#[test]
fn blurbs_for_known_categories() {
    assert!(category_blurb("Spells").unwrap().starts_with("Active casting"));
    assert!(category_blurb("Potions").unwrap().contains("9 potions"));
    assert_eq!(category_blurb("Weapons"), None);
}

#[test]
fn find_close_from_offset() {
    let b = b"a **b** c **d**";
    assert_eq!(find_close(b, 0, b"**"), Some(2));
    assert_eq!(find_close(b, 3, b"**"), Some(5));
    assert_eq!(find_close(b, 14, b"**"), None);
    assert_eq!(find_close(b, 100, b"**"), None);
}

#[test]
fn char_boundaries_skip_multibyte() {
    let s = "aé b";
    assert_eq!(next_char_boundary(s, 0), 1);
    assert_eq!(next_char_boundary(s, 1), 3);
    assert_eq!(next_char_boundary(s, 4), 5);
    assert_eq!(next_char_boundary(s, 7), 5);
}

#[test]
fn ids_continue_past_the_highest() {
    assert_eq!(amar::ui::next_id(&vec![]), 1);
    assert_eq!(amar::ui::next_id(&vec![3, 9, 4]), 10);
    assert_eq!(amar::ui::next_id(&vec![0]), 1);
}

fn spans(line: &str) -> Vec<(amar::ui::MdStyle, usize, usize)> {
    amar::ui::inline_md(line).iter().map(|s| (s.style, s.start, s.end)).collect()
}

#[test]
fn inline_markdown_spans() {
    assert_eq!(
        spans("a **b** *c* `d` é"),
        vec![
            (Plain, 0, 1),
            (Plain, 1, 2),
            (Bold, 4, 5),
            (Plain, 7, 8),
            (Italic, 9, 10),
            (Plain, 11, 12),
            (Code, 13, 14),
            (Plain, 15, 16),
            (Plain, 16, 18),
        ]
    );
    // A bullet star followed by a space stays plain text.
    assert_eq!(spans("* x"), vec![(Plain, 0, 1), (Plain, 1, 2), (Plain, 2, 3)]);
    // An unclosed `**` falls back to an (empty) italic span.
    assert_eq!(spans("**u")[0], (Italic, 1, 1));
    assert!(spans("").is_empty());
}

#[test]
fn regions_districts_first_then_sorted_then_any() {
    let items: Vec<String> = ["Feronir", "Zed", "", "Amaronir", "Bree", "Zed"].iter().map(|s| s.to_string()).collect();
    assert_eq!(amar::ui::region_order(&items), vec!["Amaronir", "Feronir", "Bree", "Zed", ""]);
    assert!(amar::ui::region_order(&vec![]).is_empty());
}

#[test]
fn home_expansion() {
    assert_eq!(amar::ui::expand_home("~/games/crypt", "/home/gm"), "/home/gm/games/crypt");
    assert_eq!(amar::ui::expand_home("~", "/home/gm"), "/home/gm");
    assert_eq!(amar::ui::expand_home("~gm", "/home/gm"), "~gm");
    assert_eq!(amar::ui::expand_home("/abs", "/home/gm"), "/abs");
}

#[test]
fn combat_band_stitches_cards_side_by_side() {
    let card = |ls: &[&str]| ls.iter().map(|s| s.to_string()).collect::<Vec<String>>();
    let cards = vec![card(&["a1", "a2"]), card(&["b1"]), card(&["c1", "c2", "c3"])];
    let mut out = vec!["top".to_string()];
    amar::ui::emit_combat_band(&mut out, &cards, 2);
    assert_eq!(out, vec!["top", "a1 b1", "a2 ", "c1", "c2", "c3"]);
    let mut empty: Vec<String> = Vec::new();
    amar::ui::emit_combat_band(&mut empty, &vec![], 3);
    assert!(empty.is_empty());
}
