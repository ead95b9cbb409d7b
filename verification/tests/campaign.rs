use amar::adventure::{parse_sections, Adventure, AdventureAsset};
use amar::campaign::{
    adventure_group_key, adventure_key, adventure_section_key, build_camp_tree, camp_node_title,
    AdventureAssetKind, AdventureGroupKind, CampNode, CampTreeItem, CampaignOutline, LocationEntry,
    PcEntry, SavedEncounterEntry, SavedKind, SavedNpcEntry, search_campaign, search_candidates, best_world_hit, world_hit_wins, WorldTarget,
    collapse_key, expand_key_for_node, parent_tree_index, expand_path, nav_cursor, toggle_key, tree_position, NavKey,
};
use amar::combat::{CombatRef, TagPool};
use amar::ui::CampSection;

fn empty_campaign() -> CampaignOutline {
    CampaignOutline {
        pcs: vec![],
        npcs: vec![],
        adventures: vec![],
        locations: vec![],
        saved_encounters: vec![],
        saved_towns: vec![],
        saved_weather: vec![],
        saved_npcs: vec![],
        active_adventure_id: None,
        tagged: TagPool::default(),
    }
}

fn sample_adventure() -> Adventure {
    let mut a = Adventure::default();
    a.id = 7;
    a.name = "The Keep".to_string();
    a.sections = parse_sections("## One\nx\n### One A\ny\n## Two\nz\n");
    a.scenes = vec![AdventureAsset { name: "Tower".to_string(), path: "tower.png".to_string() }];
    a
}

fn nodes(t: &[CampTreeItem]) -> Vec<(CampNode, u8, bool, bool)> {
    t.iter().map(|i| (i.node.clone(), i.depth, i.expandable, i.expanded)).collect()
}

#[test]
fn collapsed_tree_lists_the_sections() {
    let c = empty_campaign();
    let t = build_camp_tree(&c, &vec![]);
    assert_eq!(
        nodes(&t),
        vec![
            (CampNode::Section(CampSection::Calendar), 0, false, false),
            (CampNode::Section(CampSection::Pcs), 0, true, false),
            (CampNode::Section(CampSection::Adventures), 0, true, false),
            (CampNode::Section(CampSection::Npcs), 0, true, false),
            (CampNode::Section(CampSection::Factions), 0, false, false),
            (CampNode::Section(CampSection::SavedForge), 0, true, false),
        ]
    );
}

#[test]
fn expanded_empty_sections_show_placeholders() {
    let c = empty_campaign();
    let ex = vec!["PCs".to_string(), "Calendar".to_string(), "Forge log".to_string()];
    let t = build_camp_tree(&c, &ex);
    assert_eq!(t.len(), 8);
    assert_eq!(t[0].expanded, false);
    assert_eq!(
        t[2].node,
        CampNode::Placeholder { section: CampSection::Pcs, msg: "(no PCs yet — press n to add)" }
    );
    assert_eq!(
        t[7].node,
        CampNode::Placeholder { section: CampSection::SavedForge, msg: "(empty — press S on a Forge result to save)" }
    );
}

#[test]
fn expanded_adventure_nests_groups_and_sections() {
    let mut c = empty_campaign();
    c.adventures.push(sample_adventure());
    assert_eq!(adventure_key(7), "adv:7");
    assert_eq!(adventure_group_key(7, AdventureGroupKind::Sections), "adv:7:Sections");
    assert_eq!(adventure_section_key(7, 1), "advsec:7:1");
    let ex = vec![
        "Adventures".to_string(),
        "adv:7".to_string(),
        "adv:7:Sections".to_string(),
        "adv:7:Scenes".to_string(),
    ];
    let t = build_camp_tree(&c, &ex);
    let n = nodes(&t);
    assert_eq!(n[3], (CampNode::Adventure(0), 1, true, true));
    assert_eq!(n[4], (CampNode::AdventureGroup(0, AdventureGroupKind::Sections), 2, true, true));
    // "One" has a child but is collapsed, so "One A" is hidden.
    assert_eq!(n[5], (CampNode::AdventureSection(0, 0), 3, true, false));
    assert_eq!(n[6], (CampNode::AdventureSection(0, 2), 3, false, false));
    assert_eq!(n[7], (CampNode::AdventureGroup(0, AdventureGroupKind::Scenes), 2, true, true));
    assert_eq!(n[8], (CampNode::AdventureAsset(0, AdventureAssetKind::Scene, 0), 3, false, false));
    assert_eq!(n[9].0, CampNode::Section(CampSection::Npcs));
    // Opening "One" shows its sub-section one level deeper.
    let mut ex2 = ex.clone();
    ex2.push("advsec:7:1".to_string());
    let t2 = build_camp_tree(&c, &ex2);
    let n2 = nodes(&t2);
    assert_eq!(n2[5], (CampNode::AdventureSection(0, 0), 3, true, true));
    assert_eq!(n2[6], (CampNode::AdventureSection(0, 1), 4, false, false));
    assert_eq!(n2[7], (CampNode::AdventureSection(0, 2), 3, false, false));
}

#[test]
fn saved_forge_rows_come_encounters_npcs_towns_weather() {
    let mut c = empty_campaign();
    c.saved_weather.push("Storm".to_string());
    c.saved_towns.push("Dale".to_string());
    c.saved_npcs.push(SavedNpcEntry { name: "Guard".to_string(), npc_name: "Olaf".to_string() });
    c.saved_encounters.push(SavedEncounterEntry { name: "Ambush".to_string(), npc_names: vec!["A".to_string(), "B".to_string()] });
    let t = build_camp_tree(&c, &vec!["Forge log".to_string()]);
    let tail: Vec<CampNode> = t[6..].iter().map(|i| i.node.clone()).collect();
    assert_eq!(
        tail,
        vec![
            CampNode::SavedForge(SavedKind::Encounter, 0),
            CampNode::SavedForge(SavedKind::Npc, 0),
            CampNode::SavedForge(SavedKind::Town, 0),
            CampNode::SavedForge(SavedKind::Weather, 0),
        ]
    );
}

#[test]
fn node_titles() {
    let mut c = empty_campaign();
    c.pcs.push(PcEntry { name: "Ari".to_string(), level: 3 });
    c.adventures.push(sample_adventure());
    c.active_adventure_id = Some(7);
    c.adventures[0].current_section = Some(2);
    c.locations.push(LocationEntry { name: "Dale".to_string(), kind: "town".to_string() });
    c.locations.push(LocationEntry { name: "Moor".to_string(), kind: String::new() });
    c.saved_encounters.push(SavedEncounterEntry { name: "Ambush".to_string(), npc_names: vec!["A".to_string(), "B".to_string()] });
    c.tagged.refs.push(CombatRef::EncounterNpc { enc_idx: 0, npc_idx: 1 });
    assert_eq!(camp_node_title(&c, &CampNode::Section(CampSection::Pcs)), "PCs (1)");
    assert_eq!(camp_node_title(&c, &CampNode::Section(CampSection::Calendar)), "Calendar");
    assert_eq!(camp_node_title(&c, &CampNode::Section(CampSection::SavedForge)), "Forge log (1)");
    assert_eq!(camp_node_title(&c, &CampNode::Pc(0)), "Ari  L3");
    assert_eq!(camp_node_title(&c, &CampNode::Pc(4)), "(missing PC)");
    assert_eq!(camp_node_title(&c, &CampNode::Adventure(0)), "\u{25CF} The Keep");
    assert_eq!(camp_node_title(&c, &CampNode::AdventureGroup(0, AdventureGroupKind::NpcPortraits)), "NPC portraits (0)");
    assert_eq!(camp_node_title(&c, &CampNode::AdventureSection(0, 2)), "\u{2192} Two");
    assert_eq!(camp_node_title(&c, &CampNode::AdventureSection(0, 0)), "One");
    assert_eq!(camp_node_title(&c, &CampNode::AdventureAsset(0, AdventureAssetKind::Scene, 0)), "\u{1F3DE} Tower");
    assert_eq!(camp_node_title(&c, &CampNode::Location(0)), "Dale  (town)");
    assert_eq!(camp_node_title(&c, &CampNode::Location(1)), "Moor");
    assert_eq!(camp_node_title(&c, &CampNode::Location(5)), "Location #6");
    assert_eq!(camp_node_title(&c, &CampNode::SavedForge(SavedKind::Encounter, 0)), "\u{2694}  Ambush  (1/2 tagged)");
    assert_eq!(camp_node_title(&c, &CampNode::SavedForge(SavedKind::Town, 0)), "(missing saved item)");
    assert_eq!(camp_node_title(&c, &CampNode::Npc(0)), "(missing NPC)");
}

#[test]
fn search_lands_on_the_best_named_thing() {
    let mut c = empty_campaign();
    c.pcs.push(PcEntry { name: "Ann Marr".to_string(), level: 1 });
    c.npcs.push("Joanna".to_string());
    c.adventures.push(sample_adventure());
    c.saved_encounters.push(SavedEncounterEntry { name: "Ambush".to_string(), npc_names: vec!["Bandit Chief".to_string()] });
    c.saved_npcs.push(SavedNpcEntry { name: "Guard".to_string(), npc_name: "Olaf".to_string() });
    assert!(search_campaign("zzzz", &c).is_none());
    let h = search_campaign("ann", &c).unwrap();
    assert_eq!(h.node, CampNode::Pc(0));
    assert_eq!(h.keys, vec!["PCs".to_string()]);
    assert_eq!(h.label, "Ann Marr");
    // A ### heading also opens its ## parent.
    let h = search_campaign("one a", &c).unwrap();
    assert_eq!(h.node, CampNode::AdventureSection(0, 1));
    assert_eq!(h.keys, vec!["Adventures", "adv:7", "adv:7:Sections", "advsec:7:1"]);
    assert_eq!(h.score, 0);
    let h = search_campaign("tower", &c).unwrap();
    assert_eq!(h.node, CampNode::AdventureAsset(0, AdventureAssetKind::Scene, 0));
    assert_eq!(h.keys, vec!["Adventures", "adv:7", "adv:7:Scenes"]);
    // An encounter NPC lands on its encounter's row.
    let h = search_campaign("bandit chief", &c).unwrap();
    assert_eq!(h.node, CampNode::SavedForge(SavedKind::Encounter, 0));
    let h = search_campaign("olaf", &c).unwrap();
    assert_eq!(h.node, CampNode::SavedForge(SavedKind::Npc, 0));
    assert_eq!(h.keys, vec!["Forge log"]);
}

#[test]
fn ties_go_to_the_first_candidate() {
    let mut c = empty_campaign();
    c.pcs.push(PcEntry { name: "Bree".to_string(), level: 1 });
    c.npcs.push("Bree".to_string());
    let h = search_campaign("bree", &c).unwrap();
    assert_eq!(h.node, CampNode::Pc(0));
    assert_eq!(search_candidates(&c).len(), 2);
}

#[test]
fn world_hits_compete_with_the_campaign() {
    let locs = vec!["Ironvale".to_string(), "Annwick".to_string()];
    let npcs = vec!["Ann".to_string()];
    assert_eq!(best_world_hit("ann", &locs, &npcs), Some((0, WorldTarget::Npc(0))));
    assert_eq!(best_world_hit("iron", &locs, &npcs), Some((108, WorldTarget::Location(0))));
    assert_eq!(best_world_hit("zzz", &locs, &npcs), None);
    assert!(world_hit_wins(None, 500));
    assert!(world_hit_wins(Some(501), 500));
    assert!(!world_hit_wins(Some(500), 500));
}

#[test]
fn expanding_a_hits_keys_shows_it_in_the_tree() {
    let mut c = empty_campaign();
    c.adventures.push(sample_adventure());
    c.saved_encounters.push(SavedEncounterEntry { name: "Ambush".to_string(), npc_names: vec!["Bandit Chief".to_string()] });
    for q in ["one a", "two", "tower", "the keep", "bandit chief"] {
        let h = search_campaign(q, &c).unwrap();
        let t = build_camp_tree(&c, &h.keys);
        assert!(t.iter().any(|row| row.node == h.node), "{q}");
    }
}

fn strs(v: &[&str]) -> Vec<String> {
    v.iter().map(|s| s.to_string()).collect()
}

#[test]
fn landing_on_a_hit_expands_its_path_and_finds_its_row() {
    let mut c = empty_campaign();
    c.adventures.push(sample_adventure());
    let mut ex = strs(&["PCs", "adv:7"]);
    let h = search_campaign("one a", &c).unwrap();
    expand_path(&mut ex, &h.keys);
    assert_eq!(ex, strs(&["PCs", "adv:7", "Adventures", "adv:7:Sections", "advsec:7:1"]));
    let t = build_camp_tree(&c, &ex);
    let i = tree_position(&t, &h.node).unwrap();
    assert_eq!(t[i].node, CampNode::AdventureSection(0, 1));
    assert_eq!(tree_position(&t, &CampNode::Pc(3)), None);
    let p = CampNode::Placeholder { section: CampSection::Pcs, msg: "(no PCs yet — press n to add)" };
    assert_eq!(tree_position(&t, &p), Some(2));
}

#[test]
fn cursor_keys() {
    assert_eq!(nav_cursor(3, 10, 20, NavKey::Down), 4);
    assert_eq!(nav_cursor(9, 10, 20, NavKey::Down), 9);
    assert_eq!(nav_cursor(0, 10, 20, NavKey::Up), 0);
    assert_eq!(nav_cursor(2, 10, 5, NavKey::PageDown), 5);
    assert_eq!(nav_cursor(8, 10, 5, NavKey::PageDown), 9);
    assert_eq!(nav_cursor(8, 10, 5, NavKey::PageUp), 5);
    assert_eq!(nav_cursor(2, 10, 1, NavKey::PageUp), 1);
    assert_eq!(nav_cursor(2, 10, 5, NavKey::PageUp), 0);
    assert_eq!(nav_cursor(4, 10, 5, NavKey::Home), 0);
    assert_eq!(nav_cursor(4, 10, 5, NavKey::End), 9);
    assert_eq!(nav_cursor(0, 0, 5, NavKey::End), 0);
}

#[test]
fn expand_keys_toggle_and_collapse() {
    let mut c = empty_campaign();
    c.adventures.push(sample_adventure());
    assert_eq!(expand_key_for_node(&c, &CampNode::Section(CampSection::SavedForge)), Some("Forge log".to_string()));
    assert_eq!(expand_key_for_node(&c, &CampNode::Adventure(0)), Some("adv:7".to_string()));
    assert_eq!(expand_key_for_node(&c, &CampNode::AdventureSection(0, 0)), Some("advsec:7:1".to_string()));
    assert_eq!(expand_key_for_node(&c, &CampNode::AdventureSection(0, 1)), None);
    assert_eq!(expand_key_for_node(&c, &CampNode::Pc(0)), None);
    let mut ex = strs(&["PCs", "adv:7"]);
    toggle_key(&mut ex, "PCs".to_string());
    assert_eq!(ex, strs(&["adv:7"]));
    toggle_key(&mut ex, "NPCs".to_string());
    assert_eq!(ex, strs(&["adv:7", "NPCs"]));
    assert!(collapse_key(&mut ex, "adv:7"));
    assert!(!collapse_key(&mut ex, "adv:7"));
    assert_eq!(ex, strs(&["NPCs"]));
}

#[test]
fn parent_rows() {
    let mut c = empty_campaign();
    c.adventures.push(sample_adventure());
    c.pcs.push(PcEntry { name: "Ari".to_string(), level: 3 });
    let ex = strs(&["PCs", "Adventures", "adv:7", "adv:7:Sections", "advsec:7:1"]);
    let t = build_camp_tree(&c, &ex);
    // 0 Calendar, 1 PCs, 2 Ari, 3 Adventures, 4 The Keep, 5 Sections,
    // 6 One, 7 One A, 8 Two, 9 Scenes group, ...
    assert_eq!(t[7].node, CampNode::AdventureSection(0, 1));
    assert_eq!(parent_tree_index(&c, &t, &CampNode::AdventureSection(0, 1)), Some(6));
    assert_eq!(parent_tree_index(&c, &t, &CampNode::AdventureSection(0, 2)), Some(3));
    assert_eq!(parent_tree_index(&c, &t, &CampNode::Pc(0)), Some(1));
    assert_eq!(parent_tree_index(&c, &t, &CampNode::Section(CampSection::Pcs)), None);
    assert_eq!(parent_tree_index(&c, &t, &CampNode::Location(0)), None);
    assert_eq!(parent_tree_index(&c, &t, &CampNode::AdventureSection(0, 9)), None);
}
