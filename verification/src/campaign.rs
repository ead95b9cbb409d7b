//! The Campaign tab's tree: sections, their items and, inside an
//! expanded adventure, its groups of sections and assets — built from the
//! campaign's contents and the set of expanded keys.

use vstd::prelude::*;
use vstd::string::*;
use crate::adventure::{section_has_children, Adventure, AdventureSection};
use crate::combat::{CombatRef, TagPool};
use crate::keyed::{contains_str, first_key, keys_distinct, lemma_first_key, lemma_first_key_bounds, str_views};
use crate::text::{decimal, lowercase, push_decimal};
use crate::search::{match_score, name_match_score};
use crate::ui::{camp_section_id, CampSection};

verus! {

/// What the tree needs of a PC.
#[derive(Debug, Clone)]
pub struct PcEntry {
    pub name: String,
    pub level: u32,
}

/// What the tree needs of a location.
#[derive(Debug, Clone)]
pub struct LocationEntry {
    pub name: String,
    pub kind: String,
}

/// A saved encounter: its name and the names of its NPCs.
#[derive(Debug, Clone)]
pub struct SavedEncounterEntry {
    pub name: String,
    pub npc_names: Vec<String>,
}

/// A saved forge NPC: the entry's name and the generated NPC's own name.
#[derive(Debug, Clone)]
pub struct SavedNpcEntry {
    pub name: String,
    pub npc_name: String,
}

/// The contents of a campaign that its tree shows.
#[derive(Debug, Clone)]
pub struct CampaignOutline {
    pub pcs: Vec<PcEntry>,
    pub npcs: Vec<String>,
    pub adventures: Vec<Adventure>,
    pub locations: Vec<LocationEntry>,
    pub saved_encounters: Vec<SavedEncounterEntry>,
    pub saved_towns: Vec<String>,
    pub saved_weather: Vec<String>,
    pub saved_npcs: Vec<SavedNpcEntry>,
    pub active_adventure_id: Option<u64>,
    pub tagged: TagPool,
}

/// Kind of a saved forge artefact.
#[derive(Debug, Clone, Copy, PartialEq, Eq, Structural)]
pub enum SavedKind {
    Encounter,
    Town,
    Weather,
    Npc,
}

/// A sub-list inside an expanded adventure.
#[derive(Debug, Clone, Copy, PartialEq, Eq, Structural)]
pub enum AdventureGroupKind {
    Sections,
    Scenes,
    Floorplans,
    NpcPortraits,
    NpcDocs,
}

/// Kind of an adventure asset.
#[derive(Debug, Clone, Copy, PartialEq, Eq, Structural)]
pub enum AdventureAssetKind {
    Scene,
    Floorplan,
    NpcPortrait,
    NpcDoc,
}

/// One node of the Campaign tree.
#[derive(Debug, Clone, Copy, PartialEq)]
pub enum CampNode {
    Section(CampSection),
    Pc(usize),
    Adventure(usize),
    Npc(usize),
    Location(usize),
    /// Saved forge artefact: its kind and index in that kind's list.
    SavedForge(SavedKind, usize),
    /// A group header inside an expanded adventure.
    AdventureGroup(usize, AdventureGroupKind),
    /// One parsed heading of an adventure's narrative.
    AdventureSection(usize, usize),
    /// One asset of an adventure.
    AdventureAsset(usize, AdventureAssetKind, usize),
    /// Shown under an expanded section that has no items.
    Placeholder { section: CampSection, msg: &'static str },
}

/// One row of the Campaign tree.
#[derive(Debug, Clone)]
pub struct CampTreeItem {
    pub node: CampNode,
    pub depth: u8,
    pub expandable: bool,
    pub expanded: bool,
}

// ------------------------------------------------------------ the model

/// A tree row.
pub open spec fn tree_row(node: CampNode, depth: u8, expandable: bool, expanded: bool) -> CampTreeItem {
    CampTreeItem { node, depth, expandable, expanded }
}

/// A row that does not expand.
pub open spec fn leaf(node: CampNode, depth: u8) -> CampTreeItem {
    tree_row(node, depth, false, false)
}

/// The sections that expand: PCs, adventures, NPCs, locations and the
/// forge log.
pub open spec fn section_expandable(s: CampSection) -> bool {
    match s {
        CampSection::Pcs | CampSection::Adventures | CampSection::Npcs | CampSection::Locations
        | CampSection::SavedForge => true,
        _ => false,
    }
}

/// Expand-key of an adventure: `adv:<id>`.
pub open spec fn adv_key(id: u64) -> Seq<char> {
    "adv:"@ + decimal(id as nat)
}

/// The name of a group kind, as its `Debug` form writes it.
pub open spec fn group_kind_name(k: AdventureGroupKind) -> &'static str {
    match k {
        AdventureGroupKind::Sections => "Sections",
        AdventureGroupKind::Scenes => "Scenes",
        AdventureGroupKind::Floorplans => "Floorplans",
        AdventureGroupKind::NpcPortraits => "NpcPortraits",
        AdventureGroupKind::NpcDocs => "NpcDocs",
    }
}

/// Expand-key of a group inside an adventure: `adv:<id>:<Kind>`.
pub open spec fn group_key(id: u64, k: AdventureGroupKind) -> Seq<char> {
    adv_key(id) + ":"@ + group_kind_name(k)@
}

/// Expand-key of an adventure section: `advsec:<id>:<line_start>`.
pub open spec fn section_key(id: u64, line_start: usize) -> Seq<char> {
    "advsec:"@ + decimal(id as nat) + ":"@ + decimal(line_start as nat)
}

/// How many items a group of `adv` holds.
pub open spec fn group_count(adv: Adventure, k: AdventureGroupKind) -> nat {
    match k {
        AdventureGroupKind::Sections => adv.sections@.len(),
        AdventureGroupKind::Scenes => adv.scenes@.len(),
        AdventureGroupKind::Floorplans => adv.floorplans@.len(),
        AdventureGroupKind::NpcPortraits => adv.npc_portraits@.len(),
        AdventureGroupKind::NpcDocs => adv.npc_docs@.len(),
    }
}

/// The asset kind listed by an asset group.
pub open spec fn asset_kind_of(k: AdventureGroupKind) -> AdventureAssetKind {
    match k {
        AdventureGroupKind::Floorplans => AdventureAssetKind::Floorplan,
        AdventureGroupKind::NpcPortraits => AdventureAssetKind::NpcPortrait,
        AdventureGroupKind::NpcDocs => AdventureAssetKind::NpcDoc,
        _ => AdventureAssetKind::Scene,
    }
}

/// A section's heading level, at least 2.
pub open spec fn tree_level(s: AdventureSection) -> u8 {
    if s.level >= 2 {
        s.level
    } else {
        2
    }
}

/// Section `k` of `adv` has a deeper section right after it.
pub open spec fn has_children(adv: Adventure, k: int) -> bool {
    k + 1 < adv.sections@.len() && adv.sections@[k + 1].level > adv.sections@[k].level
}

/// `stack` with every entry at `level` or deeper taken off its top.
pub open spec fn popped(stack: Seq<(u8, bool)>, level: u8) -> Seq<(u8, bool)>
    decreases stack.len(),
{
    if stack.len() > 0 && stack.last().0 >= level {
        popped(stack.drop_last(), level)
    } else {
        stack
    }
}

/// Every entry of the stack of open headings is expanded.
pub open spec fn all_open(stack: Seq<(u8, bool)>) -> bool {
    forall|t: int| 0 <= t < stack.len() ==> #[trigger] stack[t].1
}

/// The rows of the first `n` sections of adventure `i`, and the stack of
/// enclosing headings (level, expanded) after them. A section is shown
/// when every heading above it is expanded; it sits at depth level + 1
/// and expands when it has children.
pub open spec fn section_walk(adv: Adventure, i: usize, ex: Seq<Seq<char>>, n: nat) -> (Seq<CampTreeItem>, Seq<(u8, bool)>)
    decreases n,
{
    if n == 0 {
        (Seq::empty(), Seq::empty())
    } else {
        let prev = section_walk(adv, i, ex, (n - 1) as nat);
        let k = n - 1;
        let sec = adv.sections@[k];
        let level = tree_level(sec);
        let st = popped(prev.1, level);
        if !all_open(st) {
            (prev.0, st.push((level, false)))
        } else {
            let open = ex.contains(section_key(adv.id, sec.line_start));
            (
                prev.0.push(tree_row(CampNode::AdventureSection(i, k as usize), (level + 1) as u8, has_children(adv, k), open)),
                st.push((level, open)),
            )
        }
    }
}

/// The leaf rows of asset kind `kind` of adventure `i`: `n` of them, at depth 3.
pub open spec fn asset_rows(i: usize, kind: AdventureAssetKind, n: nat) -> Seq<CampTreeItem> {
    Seq::new(n, |j: int| leaf(CampNode::AdventureAsset(i, kind, j as usize), 3))
}

/// The rows under an expanded group.
pub open spec fn group_leaves(adv: Adventure, i: usize, k: AdventureGroupKind, ex: Seq<Seq<char>>) -> Seq<CampTreeItem> {
    if k == AdventureGroupKind::Sections {
        section_walk(adv, i, ex, adv.sections@.len()).0
    } else {
        asset_rows(i, asset_kind_of(k), group_count(adv, k))
    }
}

/// A group's rows: nothing when it is empty, else its header at depth 2
/// and, when expanded, its items.
pub open spec fn group_rows(adv: Adventure, i: usize, k: AdventureGroupKind, ex: Seq<Seq<char>>) -> Seq<CampTreeItem> {
    if group_count(adv, k) == 0 {
        Seq::empty()
    } else {
        let open = ex.contains(group_key(adv.id, k));
        seq![tree_row(CampNode::AdventureGroup(i, k), 2, true, open)] + if open {
            group_leaves(adv, i, k, ex)
        } else {
            Seq::empty()
        }
    }
}

/// An adventure's rows: its header at depth 1 and, when expanded, its
/// five groups in order.
pub open spec fn adventure_rows(adv: Adventure, i: usize, ex: Seq<Seq<char>>) -> Seq<CampTreeItem> {
    let open = ex.contains(adv_key(adv.id));
    seq![tree_row(CampNode::Adventure(i), 1, true, open)] + if open {
        group_rows(adv, i, AdventureGroupKind::Sections, ex) + group_rows(adv, i, AdventureGroupKind::Scenes, ex)
            + group_rows(adv, i, AdventureGroupKind::Floorplans, ex) + group_rows(
            adv,
            i,
            AdventureGroupKind::NpcPortraits,
            ex,
        ) + group_rows(adv, i, AdventureGroupKind::NpcDocs, ex)
    } else {
        Seq::empty()
    }
}

/// The rows of the first `n` adventures.
pub open spec fn adventures_rows(advs: Seq<Adventure>, ex: Seq<Seq<char>>, n: nat) -> Seq<CampTreeItem>
    decreases n,
{
    if n == 0 {
        Seq::empty()
    } else {
        adventures_rows(advs, ex, (n - 1) as nat) + adventure_rows(advs[n - 1], (n - 1) as usize, ex)
    }
}

/// The node of item `j` of a roster section (PCs, NPCs or locations).
pub open spec fn roster_node(s: CampSection, j: usize) -> CampNode {
    match s {
        CampSection::Pcs => CampNode::Pc(j),
        CampSection::Npcs => CampNode::Npc(j),
        _ => CampNode::Location(j),
    }
}

/// `n` leaf rows of a roster section at depth 1.
pub open spec fn roster_rows(s: CampSection, n: nat) -> Seq<CampTreeItem> {
    Seq::new(n, |j: int| leaf(roster_node(s, j as usize), 1))
}

/// The placeholder row of an empty section.
pub open spec fn placeholder(s: CampSection, msg: &'static str) -> Seq<CampTreeItem> {
    seq![leaf(CampNode::Placeholder { section: s, msg }, 1)]
}

/// The message shown under an empty expanded section.
pub open spec fn empty_message(s: CampSection) -> &'static str {
    match s {
        CampSection::Pcs => "(no PCs yet — press n to add)",
        CampSection::Adventures => "(no adventures — press I to import a directory)",
        CampSection::Npcs => "(persistent NPC roster — v0.4.0)",
        CampSection::Locations => "(no locations yet — press n to add)",
        _ => "(empty — press S on a Forge result to save)",
    }
}

/// Saved-forge leaf rows of kind `k`, `n` of them.
pub open spec fn saved_rows(k: SavedKind, n: nat) -> Seq<CampTreeItem> {
    Seq::new(n, |j: int| leaf(CampNode::SavedForge(k, j as usize), 1))
}

/// The rows under an expanded section.
pub open spec fn section_children(c: CampaignOutline, s: CampSection, ex: Seq<Seq<char>>) -> Seq<CampTreeItem> {
    match s {
        CampSection::Pcs => if c.pcs@.len() == 0 {
            placeholder(s, empty_message(s))
        } else {
            roster_rows(s, c.pcs@.len())
        },
        CampSection::Adventures => if c.adventures@.len() == 0 {
            placeholder(s, empty_message(s))
        } else {
            adventures_rows(c.adventures@, ex, c.adventures@.len())
        },
        CampSection::Npcs => if c.npcs@.len() == 0 {
            placeholder(s, empty_message(s))
        } else {
            roster_rows(s, c.npcs@.len())
        },
        CampSection::Locations => if c.locations@.len() == 0 {
            placeholder(s, empty_message(s))
        } else {
            roster_rows(s, c.locations@.len())
        },
        CampSection::SavedForge => if c.saved_encounters@.len() + c.saved_towns@.len() + c.saved_weather@.len()
            + c.saved_npcs@.len() == 0 {
            placeholder(s, empty_message(s))
        } else {
            saved_rows(SavedKind::Encounter, c.saved_encounters@.len()) + saved_rows(
                SavedKind::Npc,
                c.saved_npcs@.len(),
            ) + saved_rows(SavedKind::Town, c.saved_towns@.len()) + saved_rows(
                SavedKind::Weather,
                c.saved_weather@.len(),
            )
        },
        _ => Seq::empty(),
    }
}

/// A section's rows: its header at depth 0 and, when it expands and its
/// id is among the expanded keys, its children.
pub open spec fn section_rows(c: CampaignOutline, s: CampSection, ex: Seq<Seq<char>>) -> Seq<CampTreeItem> {
    let open = section_expandable(s) && ex.contains(camp_section_id(s)@);
    seq![tree_row(CampNode::Section(s), 0, section_expandable(s), open)] + if open {
        section_children(c, s, ex)
    } else {
        Seq::empty()
    }
}

/// The whole Campaign tree: Calendar, PCs, Adventures, NPCs, Factions and
/// the forge log, in that order.
pub open spec fn camp_tree_rows(c: CampaignOutline, ex: Seq<Seq<char>>) -> Seq<CampTreeItem> {
    section_rows(c, CampSection::Calendar, ex) + section_rows(c, CampSection::Pcs, ex) + section_rows(
        c,
        CampSection::Adventures,
        ex,
    ) + section_rows(c, CampSection::Npcs, ex) + section_rows(c, CampSection::Factions, ex) + section_rows(
        c,
        CampSection::SavedForge,
        ex,
    )
}

/// Every section heading level of every adventure is below 255, so that
/// its tree depth (level + 1) is a `u8`.
pub open spec fn levels_fit(c: CampaignOutline) -> bool {
    forall|a: int, k: int|
        0 <= a < c.adventures@.len() && 0 <= k < c.adventures@[a].sections@.len()
            ==> #[trigger] c.adventures@[a].sections@[k].level < 255
}

// ---------------------------------------------------------- building it

/// The expand-key of an adventure.
pub fn adventure_key(id: u64) -> (r: String)
    ensures
        r@ == adv_key(id),
{
    let mut r = String::new();
    r.append("adv:");
    push_decimal(&mut r, id);
    r
}

fn group_kind_label(k: AdventureGroupKind) -> (r: &'static str)
    ensures
        r == group_kind_name(k),
{
    match k {
        AdventureGroupKind::Sections => "Sections",
        AdventureGroupKind::Scenes => "Scenes",
        AdventureGroupKind::Floorplans => "Floorplans",
        AdventureGroupKind::NpcPortraits => "NpcPortraits",
        AdventureGroupKind::NpcDocs => "NpcDocs",
    }
}

/// The expand-key of a group inside an adventure.
pub fn adventure_group_key(id: u64, k: AdventureGroupKind) -> (r: String)
    ensures
        r@ == group_key(id, k),
{
    let mut r = adventure_key(id);
    r.append(":");
    r.append(group_kind_label(k));
    r
}

/// The expand-key of an adventure section.
pub fn adventure_section_key(id: u64, line_start: usize) -> (r: String)
    ensures
        r@ == section_key(id, line_start),
{
    let mut r = String::new();
    r.append("advsec:");
    push_decimal(&mut r, id);
    r.append(":");
    push_decimal(&mut r, line_start as u64);
    r
}

proof fn lemma_popped_stops(stack: Seq<(u8, bool)>, level: u8)
    requires
        !(stack.len() > 0 && stack.last().0 >= level),
    ensures
        popped(stack, level) == stack,
{
}

/// Appends the rows of adventure `i`'s sections.
fn push_section_rows(out: &mut Vec<CampTreeItem>, adv: &Adventure, i: usize, expanded: &Vec<String>)
    requires
        forall|k: int| 0 <= k < adv.sections@.len() ==> #[trigger] adv.sections@[k].level < 255,
    ensures
        final(out)@ == old(out)@ + section_walk(*adv, i, str_views(expanded@), adv.sections@.len()).0,
{
    let ghost ex = str_views(expanded@);
    let mut stack: Vec<(u8, bool)> = Vec::new();
    let mut j: usize = 0;
    assert(old(out)@ + section_walk(*adv, i, ex, 0).0 =~= old(out)@);
    while j < adv.sections.len()
        invariant
            j <= adv.sections@.len(),
            ex == str_views(expanded@),
            forall|k: int| 0 <= k < adv.sections@.len() ==> #[trigger] adv.sections@[k].level < 255,
            out@ == old(out)@ + section_walk(*adv, i, ex, j as nat).0,
            stack@ == section_walk(*adv, i, ex, j as nat).1,
        decreases adv.sections@.len() - j,
    {
        let ghost prev = section_walk(*adv, i, ex, j as nat);
        let sec = &adv.sections[j];
        let level: u8 = if sec.level >= 2 { sec.level } else { 2 };
        while stack.len() > 0 && stack[stack.len() - 1].0 >= level
            invariant
                popped(stack@, level) == popped(prev.1, level),
            decreases stack@.len(),
        {
            let ghost before = stack@;
            stack.pop();
            assert(stack@ =~= before.drop_last());
        }
        proof {
            lemma_popped_stops(stack@, level);
        }
        let mut t: usize = 0;
        let mut ok = true;
        while t < stack.len()
            invariant
                t <= stack@.len(),
                ok == (forall|u: int| 0 <= u < t ==> #[trigger] stack@[u].1),
            decreases stack@.len() - t,
        {
            if !stack[t].1 {
                ok = false;
            }
            t = t + 1;
        }
        assert(ok == all_open(stack@));
        let ghost old_out = out@;
        if !ok {
            stack.push((level, false));
        } else {
            let key = adventure_section_key(adv.id, sec.line_start);
            let open = contains_str(expanded, key.as_str());
            let item = CampTreeItem {
                node: CampNode::AdventureSection(i, j),
                depth: level + 1,
                expandable: section_has_children(adv, j),
                expanded: open,
            };
            out.push(item);
            stack.push((level, open));
            assert(out@ =~= old(out)@ + section_walk(*adv, i, ex, (j + 1) as nat).0);
        }
        j = j + 1;
    }
}

fn push_asset_rows(out: &mut Vec<CampTreeItem>, i: usize, kind: AdventureAssetKind, n: usize)
    ensures
        final(out)@ == old(out)@ + asset_rows(i, kind, n as nat),
{
    let mut j: usize = 0;
    assert(old(out)@ + asset_rows(i, kind, 0) =~= old(out)@);
    while j < n
        invariant
            j <= n,
            out@ == old(out)@ + asset_rows(i, kind, j as nat),
        decreases n - j,
    {
        out.push(CampTreeItem { node: CampNode::AdventureAsset(i, kind, j), depth: 3, expandable: false, expanded: false });
        j = j + 1;
        assert(out@ =~= old(out)@ + asset_rows(i, kind, j as nat));
    }
}

fn group_len(adv: &Adventure, k: AdventureGroupKind) -> (n: usize)
    ensures
        n == group_count(*adv, k),
{
    match k {
        AdventureGroupKind::Sections => adv.sections.len(),
        AdventureGroupKind::Scenes => adv.scenes.len(),
        AdventureGroupKind::Floorplans => adv.floorplans.len(),
        AdventureGroupKind::NpcPortraits => adv.npc_portraits.len(),
        AdventureGroupKind::NpcDocs => adv.npc_docs.len(),
    }
}

/// Appends the rows of group `k` of adventure `i`.
fn push_group_rows(out: &mut Vec<CampTreeItem>, adv: &Adventure, i: usize, k: AdventureGroupKind, expanded: &Vec<String>)
    requires
        forall|t: int| 0 <= t < adv.sections@.len() ==> #[trigger] adv.sections@[t].level < 255,
    ensures
        final(out)@ == old(out)@ + group_rows(*adv, i, k, str_views(expanded@)),
{
    let n = group_len(adv, k);
    if n == 0 {
        assert(old(out)@ + group_rows(*adv, i, k, str_views(expanded@)) =~= old(out)@);
        return;
    }
    let key = adventure_group_key(adv.id, k);
    let open = contains_str(expanded, key.as_str());
    out.push(CampTreeItem { node: CampNode::AdventureGroup(i, k), depth: 2, expandable: true, expanded: open });
    let ghost mid = out@;
    if open {
        match k {
            AdventureGroupKind::Sections => push_section_rows(out, adv, i, expanded),
            AdventureGroupKind::Scenes => push_asset_rows(out, i, AdventureAssetKind::Scene, n),
            AdventureGroupKind::Floorplans => push_asset_rows(out, i, AdventureAssetKind::Floorplan, n),
            AdventureGroupKind::NpcPortraits => push_asset_rows(out, i, AdventureAssetKind::NpcPortrait, n),
            AdventureGroupKind::NpcDocs => push_asset_rows(out, i, AdventureAssetKind::NpcDoc, n),
        }
    }
    assert(out@ =~= old(out)@ + group_rows(*adv, i, k, str_views(expanded@)));
}

/// Appends the rows of adventure `i`.
fn push_adventure_rows(out: &mut Vec<CampTreeItem>, adv: &Adventure, i: usize, expanded: &Vec<String>)
    requires
        forall|t: int| 0 <= t < adv.sections@.len() ==> #[trigger] adv.sections@[t].level < 255,
    ensures
        final(out)@ == old(out)@ + adventure_rows(*adv, i, str_views(expanded@)),
{
    let ghost ex = str_views(expanded@);
    let key = adventure_key(adv.id);
    let open = contains_str(expanded, key.as_str());
    out.push(CampTreeItem { node: CampNode::Adventure(i), depth: 1, expandable: true, expanded: open });
    let ghost o1 = out@;
    if open {
        push_group_rows(out, adv, i, AdventureGroupKind::Sections, expanded);
        push_group_rows(out, adv, i, AdventureGroupKind::Scenes, expanded);
        push_group_rows(out, adv, i, AdventureGroupKind::Floorplans, expanded);
        push_group_rows(out, adv, i, AdventureGroupKind::NpcPortraits, expanded);
        push_group_rows(out, adv, i, AdventureGroupKind::NpcDocs, expanded);
        assert(out@ =~= o1 + (group_rows(*adv, i, AdventureGroupKind::Sections, ex) + group_rows(
            *adv,
            i,
            AdventureGroupKind::Scenes,
            ex,
        ) + group_rows(*adv, i, AdventureGroupKind::Floorplans, ex) + group_rows(
            *adv,
            i,
            AdventureGroupKind::NpcPortraits,
            ex,
        ) + group_rows(*adv, i, AdventureGroupKind::NpcDocs, ex)));
    }
    assert(out@ =~= old(out)@ + adventure_rows(*adv, i, ex));
}

fn push_roster_rows(out: &mut Vec<CampTreeItem>, s: CampSection, n: usize)
    ensures
        final(out)@ == old(out)@ + roster_rows(s, n as nat),
{
    let mut j: usize = 0;
    assert(old(out)@ + roster_rows(s, 0) =~= old(out)@);
    while j < n
        invariant
            j <= n,
            out@ == old(out)@ + roster_rows(s, j as nat),
        decreases n - j,
    {
        let node = match s {
            CampSection::Pcs => CampNode::Pc(j),
            CampSection::Npcs => CampNode::Npc(j),
            _ => CampNode::Location(j),
        };
        out.push(CampTreeItem { node, depth: 1, expandable: false, expanded: false });
        j = j + 1;
        assert(out@ =~= old(out)@ + roster_rows(s, j as nat));
    }
}

fn push_saved_rows(out: &mut Vec<CampTreeItem>, k: SavedKind, n: usize)
    ensures
        final(out)@ == old(out)@ + saved_rows(k, n as nat),
{
    let mut j: usize = 0;
    assert(old(out)@ + saved_rows(k, 0) =~= old(out)@);
    while j < n
        invariant
            j <= n,
            out@ == old(out)@ + saved_rows(k, j as nat),
        decreases n - j,
    {
        out.push(CampTreeItem { node: CampNode::SavedForge(k, j), depth: 1, expandable: false, expanded: false });
        j = j + 1;
        assert(out@ =~= old(out)@ + saved_rows(k, j as nat));
    }
}

fn push_placeholder(out: &mut Vec<CampTreeItem>, s: CampSection)
    ensures
        final(out)@ == old(out)@ + placeholder(s, empty_message(s)),
{
    let msg = match s {
        CampSection::Pcs => "(no PCs yet — press n to add)",
        CampSection::Adventures => "(no adventures — press I to import a directory)",
        CampSection::Npcs => "(persistent NPC roster — v0.4.0)",
        CampSection::Locations => "(no locations yet — press n to add)",
        _ => "(empty — press S on a Forge result to save)",
    };
    out.push(CampTreeItem { node: CampNode::Placeholder { section: s, msg }, depth: 1, expandable: false, expanded: false });
    assert(out@ =~= old(out)@ + placeholder(s, empty_message(s)));
}

/// Appends the rows of every adventure.
fn push_adventures(out: &mut Vec<CampTreeItem>, camp: &CampaignOutline, expanded: &Vec<String>)
    requires
        levels_fit(*camp),
    ensures
        final(out)@ == old(out)@ + adventures_rows(camp.adventures@, str_views(expanded@), camp.adventures@.len()),
{
    let ghost ex = str_views(expanded@);
    let mut i: usize = 0;
    assert(old(out)@ + adventures_rows(camp.adventures@, ex, 0) =~= old(out)@);
    while i < camp.adventures.len()
        invariant
            i <= camp.adventures@.len(),
            levels_fit(*camp),
            ex == str_views(expanded@),
            out@ == old(out)@ + adventures_rows(camp.adventures@, ex, i as nat),
        decreases camp.adventures@.len() - i,
    {
        let adv = &camp.adventures[i];
        assert forall|t: int| 0 <= t < adv.sections@.len() implies #[trigger] adv.sections@[t].level < 255 by {
            assert(camp.adventures@[i as int].sections@[t].level < 255);
        }
        push_adventure_rows(out, adv, i, expanded);
        i = i + 1;
        assert(out@ =~= old(out)@ + adventures_rows(camp.adventures@, ex, i as nat));
    }
}

/// Appends the rows under expanded section `s`.
fn push_section_children(out: &mut Vec<CampTreeItem>, camp: &CampaignOutline, s: CampSection, expanded: &Vec<String>)
    requires
        levels_fit(*camp),
    ensures
        final(out)@ == old(out)@ + section_children(*camp, s, str_views(expanded@)),
{
    match s {
        CampSection::Pcs => {
            if camp.pcs.len() == 0 {
                push_placeholder(out, s);
            } else {
                push_roster_rows(out, s, camp.pcs.len());
            }
        },
        CampSection::Adventures => {
            if camp.adventures.len() == 0 {
                push_placeholder(out, s);
            } else {
                push_adventures(out, camp, expanded);
            }
        },
        CampSection::Npcs => {
            if camp.npcs.len() == 0 {
                push_placeholder(out, s);
            } else {
                push_roster_rows(out, s, camp.npcs.len());
            }
        },
        CampSection::Locations => {
            if camp.locations.len() == 0 {
                push_placeholder(out, s);
            } else {
                push_roster_rows(out, s, camp.locations.len());
            }
        },
        CampSection::SavedForge => {
            let n_enc = camp.saved_encounters.len();
            let n_town = camp.saved_towns.len();
            let n_wx = camp.saved_weather.len();
            let n_npc = camp.saved_npcs.len();
            if n_enc == 0 && n_town == 0 && n_wx == 0 && n_npc == 0 {
                push_placeholder(out, s);
            } else {
                let ghost o0 = out@;
                push_saved_rows(out, SavedKind::Encounter, n_enc);
                push_saved_rows(out, SavedKind::Npc, n_npc);
                push_saved_rows(out, SavedKind::Town, n_town);
                push_saved_rows(out, SavedKind::Weather, n_wx);
                assert(out@ =~= o0 + (saved_rows(SavedKind::Encounter, n_enc as nat) + saved_rows(
                    SavedKind::Npc,
                    n_npc as nat,
                ) + saved_rows(SavedKind::Town, n_town as nat) + saved_rows(SavedKind::Weather, n_wx as nat)));
            }
        },
        _ => {
            assert(out@ =~= old(out)@ + section_children(*camp, s, str_views(expanded@)));
        },
    }
}

fn is_expandable_section(s: CampSection) -> (b: bool)
    ensures
        b == section_expandable(s),
{
    match s {
        CampSection::Pcs | CampSection::Adventures | CampSection::Npcs | CampSection::Locations
        | CampSection::SavedForge => true,
        _ => false,
    }
}

/// Build the Campaign tree (sections and their items) against the
/// expanded keys. Section order: Calendar · PCs · Adventures · NPCs ·
/// Factions · Forge log; PCs, Adventures, NPCs and the forge log expand,
/// the others are leaves whose detail renders directly when selected.
pub fn build_camp_tree(camp: &CampaignOutline, expanded: &Vec<String>) -> (r: Vec<CampTreeItem>)
    requires
        levels_fit(*camp),
    ensures
        r@ == camp_tree_rows(*camp, str_views(expanded@)),
{
    let ghost ex = str_views(expanded@);
    let mut out: Vec<CampTreeItem> = Vec::new();
    let secs = CampSection::all();
    let mut k: usize = 0;
    let ghost rows_of = seq![
        section_rows(*camp, CampSection::Calendar, ex),
        section_rows(*camp, CampSection::Pcs, ex),
        section_rows(*camp, CampSection::Adventures, ex),
        section_rows(*camp, CampSection::Npcs, ex),
        section_rows(*camp, CampSection::Factions, ex),
        section_rows(*camp, CampSection::SavedForge, ex),
    ];
    assert(out@ =~= rows_of.take(0).flatten());
    while k < 6
        invariant
            k <= 6,
            secs@ == seq![
                CampSection::Calendar,
                CampSection::Pcs,
                CampSection::Adventures,
                CampSection::Npcs,
                CampSection::Factions,
                CampSection::SavedForge,
            ],
            levels_fit(*camp),
            ex == str_views(expanded@),
            rows_of.len() == 6,
            forall|t: int| 0 <= t < 6 ==> #[trigger] rows_of[t] == section_rows(*camp, secs@[t], ex),
            out@ == rows_of.take(k as int).flatten(),
        decreases 6 - k,
    {
        let sec = secs[k];
        let id = sec.id();
        let expandable = is_expandable_section(sec);
        let open = expandable && contains_str(expanded, id);
        let ghost o0 = out@;
        out.push(CampTreeItem { node: CampNode::Section(sec), depth: 0, expandable, expanded: open });
        let ghost o1 = out@;
        if open {
            push_section_children(&mut out, camp, sec, expanded);
        }
        proof {
            assert(out@ =~= o0 + section_rows(*camp, sec, ex));
            assert(rows_of.take(k + 1) =~= rows_of.take(k as int).push(rows_of[k as int]));
            rows_of.take(k as int).lemma_flatten_push(rows_of[k as int]);
        }
        k = k + 1;
    }
    proof {
        assert(rows_of.take(6) =~= rows_of);
        reveal_with_fuel(Seq::flatten, 7);
        assert(rows_of.flatten() =~= camp_tree_rows(*camp, ex));
    }
    out
}

// --------------------------------------------------------------- titles

/// `"<label> (<n>)"`.
pub open spec fn counted(label: Seq<char>, n: nat) -> Seq<char> {
    label + " ("@ + decimal(n) + ")"@
}

/// The label of a group header.
pub open spec fn group_label(k: AdventureGroupKind) -> &'static str {
    match k {
        AdventureGroupKind::Sections => "Sections",
        AdventureGroupKind::Scenes => "Scenes",
        AdventureGroupKind::Floorplans => "Floorplans",
        AdventureGroupKind::NpcPortraits => "NPC portraits",
        AdventureGroupKind::NpcDocs => "NPC docs",
    }
}

/// The glyph of an asset kind.
pub open spec fn asset_glyph(k: AdventureAssetKind) -> &'static str {
    match k {
        AdventureAssetKind::Scene => "\u{1F3DE}",
        AdventureAssetKind::Floorplan => "\u{1F5FA}",
        AdventureAssetKind::NpcPortrait => "\u{1F464}",
        AdventureAssetKind::NpcDoc => "\u{1F4DC}",
    }
}

/// The glyph of a saved-artefact kind.
pub open spec fn saved_glyph(k: SavedKind) -> &'static str {
    match k {
        SavedKind::Encounter => "\u{2694}",
        SavedKind::Npc => "\u{263B}",
        SavedKind::Town => "\u{2302}",
        SavedKind::Weather => "\u{2600}",
    }
}

/// The assets of kind `k` of `adv`.
pub open spec fn assets_of(adv: Adventure, k: AdventureAssetKind) -> Seq<crate::adventure::AdventureAsset> {
    match k {
        AdventureAssetKind::Scene => adv.scenes@,
        AdventureAssetKind::Floorplan => adv.floorplans@,
        AdventureAssetKind::NpcPortrait => adv.npc_portraits@,
        AdventureAssetKind::NpcDoc => adv.npc_docs@,
    }
}

/// The name of saved artefact `idx` of kind `k`, when there is one.
pub open spec fn saved_name(c: CampaignOutline, k: SavedKind, idx: usize) -> Option<Seq<char>> {
    match k {
        SavedKind::Encounter => if idx < c.saved_encounters@.len() {
            Some(c.saved_encounters@[idx as int].name@)
        } else {
            None
        },
        SavedKind::Npc => if idx < c.saved_npcs@.len() {
            Some(c.saved_npcs@[idx as int].name@)
        } else {
            None
        },
        SavedKind::Town => if idx < c.saved_towns@.len() {
            Some(c.saved_towns@[idx as int]@)
        } else {
            None
        },
        SavedKind::Weather => if idx < c.saved_weather@.len() {
            Some(c.saved_weather@[idx as int]@)
        } else {
            None
        },
    }
}

/// How many of `refs` point at an NPC of saved encounter `idx`.
pub open spec fn tagged_in_encounter(refs: Seq<CombatRef>, idx: usize) -> nat
    decreases refs.len(),
{
    if refs.len() == 0 {
        0
    } else {
        tagged_in_encounter(refs.drop_last(), idx) + match refs.last() {
            CombatRef::EncounterNpc { enc_idx, .. } => if enc_idx == idx { 1nat } else { 0nat },
            _ => 0nat,
        }
    }
}

/// The suffix of a saved-artefact row: `"  (<tagged>/<total> tagged)"` on
/// an encounter some of whose NPCs are in the tag pool, else nothing.
pub open spec fn saved_suffix(c: CampaignOutline, k: SavedKind, idx: usize) -> Seq<char> {
    if k == SavedKind::Encounter {
        let total: nat = if idx < c.saved_encounters@.len() {
            c.saved_encounters@[idx as int].npc_names@.len()
        } else {
            0
        };
        let tagged = tagged_in_encounter(c.tagged.refs@, idx);
        if tagged > 0 && total > 0 {
            "  ("@ + decimal(tagged) + "/"@ + decimal(total) + " tagged)"@
        } else {
            Seq::empty()
        }
    } else {
        Seq::empty()
    }
}

/// The title of a tree node in the left pane.
pub open spec fn node_title(c: CampaignOutline, node: CampNode) -> Seq<char> {
    match node {
        CampNode::Section(sec) => match sec {
            CampSection::Pcs => counted("PCs"@, c.pcs@.len()),
            CampSection::Adventures => counted("Adventures"@, c.adventures@.len()),
            CampSection::Npcs => counted("NPCs"@, c.npcs@.len()),
            CampSection::Locations => counted("Locations"@, c.locations@.len()),
            CampSection::Calendar => "Calendar"@,
            CampSection::Factions => "Factions"@,
            CampSection::SavedForge => counted(
                "Forge log"@,
                c.saved_encounters@.len() + c.saved_npcs@.len() + c.saved_towns@.len() + c.saved_weather@.len(),
            ),
        },
        CampNode::Pc(idx) => if idx < c.pcs@.len() {
            c.pcs@[idx as int].name@ + "  L"@ + decimal(c.pcs@[idx as int].level as nat)
        } else {
            "(missing PC)"@
        },
        CampNode::Adventure(idx) => if idx < c.adventures@.len() {
            let a = c.adventures@[idx as int];
            (if c.active_adventure_id == Some(a.id) { "\u{25CF} "@ } else { Seq::empty() }) + a.name@
        } else {
            "(missing adventure)"@
        },
        CampNode::AdventureGroup(a, k) => counted(
            group_label(k)@,
            if a < c.adventures@.len() { group_count(c.adventures@[a as int], k) } else { 0 },
        ),
        CampNode::AdventureSection(a, si) => if a < c.adventures@.len() && si < c.adventures@[a as int].sections@.len() {
            let adv = c.adventures@[a as int];
            (if adv.current_section == Some(si) { "\u{2192} "@ } else { Seq::empty() }) + adv.sections@[si as int].heading@
        } else {
            "(missing section)"@
        },
        CampNode::AdventureAsset(a, k, j) => if a < c.adventures@.len() && j < assets_of(c.adventures@[a as int], k).len() {
            asset_glyph(k)@ + " "@ + assets_of(c.adventures@[a as int], k)[j as int].name@
        } else {
            "(missing asset)"@
        },
        CampNode::Npc(idx) => if idx < c.npcs@.len() {
            c.npcs@[idx as int]@
        } else {
            "(missing NPC)"@
        },
        CampNode::Location(idx) => if idx < c.locations@.len() {
            let l = c.locations@[idx as int];
            if l.kind@.len() == 0 {
                l.name@
            } else {
                l.name@ + "  ("@ + l.kind@ + ")"@
            }
        } else {
            "Location #"@ + decimal((idx + 1) as nat)
        },
        CampNode::SavedForge(k, idx) => match saved_name(c, k, idx) {
            Some(n) => saved_glyph(k)@ + "  "@ + n + saved_suffix(c, k, idx),
            None => "(missing saved item)"@,
        },
        CampNode::Placeholder { msg, .. } => msg@,
    }
}

fn counted_string(label: &str, n: usize) -> (r: String)
    ensures
        r@ == counted(label@, n as nat),
{
    let mut r = String::new();
    r.append(label);
    r.append(" (");
    push_decimal(&mut r, n as u64);
    r.append(")");
    r
}

fn tagged_count(refs: &Vec<CombatRef>, idx: usize) -> (n: usize)
    ensures
        n == tagged_in_encounter(refs@, idx),
{
    let mut n: usize = 0;
    let mut i: usize = 0;
    while i < refs.len()
        invariant
            i <= refs@.len(),
            n == tagged_in_encounter(refs@.take(i as int), idx),
            n <= i,
        decreases refs@.len() - i,
    {
        assert(refs@.take(i + 1).drop_last() =~= refs@.take(i as int));
        match refs[i] {
            CombatRef::EncounterNpc { enc_idx, .. } => {
                if enc_idx == idx {
                    n = n + 1;
                }
            },
            _ => {},
        }
        i = i + 1;
    }
    assert(refs@.take(refs@.len() as int) =~= refs@);
    n
}

fn saved_title(camp: &CampaignOutline, k: SavedKind, idx: usize) -> (r: String)
    ensures
        r@ == match saved_name(*camp, k, idx) {
            Some(n) => saved_glyph(k)@ + "  "@ + n + saved_suffix(*camp, k, idx),
            None => "(missing saved item)"@,
        },
{
    let (glyph, name): (&str, Option<&str>) = match k {
        SavedKind::Encounter => ("\u{2694}", if idx < camp.saved_encounters.len() {
            Some(camp.saved_encounters[idx].name.as_str())
        } else {
            None
        }),
        SavedKind::Npc => ("\u{263B}", if idx < camp.saved_npcs.len() {
            Some(camp.saved_npcs[idx].name.as_str())
        } else {
            None
        }),
        SavedKind::Town => ("\u{2302}", if idx < camp.saved_towns.len() {
            Some(camp.saved_towns[idx].as_str())
        } else {
            None
        }),
        SavedKind::Weather => ("\u{2600}", if idx < camp.saved_weather.len() {
            Some(camp.saved_weather[idx].as_str())
        } else {
            None
        }),
    };
    match name {
        Some(n) => {
            let mut r = String::new();
            r.append(glyph);
            r.append("  ");
            r.append(n);
            let ghost before = r@;
            match k {
                SavedKind::Encounter => {
                    let total = if idx < camp.saved_encounters.len() {
                        camp.saved_encounters[idx].npc_names.len()
                    } else {
                        0
                    };
                    let tagged = tagged_count(&camp.tagged.refs, idx);
                    if tagged > 0 && total > 0 {
                        r.append("  (");
                        push_decimal(&mut r, tagged as u64);
                        r.append("/");
                        push_decimal(&mut r, total as u64);
                        r.append(" tagged)");
                    }
                },
                _ => {},
            }
            assert(r@ =~= saved_glyph(k)@ + "  "@ + n@ + saved_suffix(*camp, k, idx));
            r
        },
        None => String::from_str("(missing saved item)"),
    }
}

/// Title shown in the left pane for one tree node.
pub fn camp_node_title(camp: &CampaignOutline, node: &CampNode) -> (r: String)
    requires
        node matches CampNode::Location(idx) ==> idx < usize::MAX,
        camp.saved_encounters@.len() + camp.saved_npcs@.len() + camp.saved_towns@.len()
            + camp.saved_weather@.len() <= usize::MAX,
    ensures
        r@ == node_title(*camp, *node),
{
    match node {
        CampNode::Section(sec) => match sec {
            CampSection::Pcs => counted_string("PCs", camp.pcs.len()),
            CampSection::Adventures => counted_string("Adventures", camp.adventures.len()),
            CampSection::Npcs => counted_string("NPCs", camp.npcs.len()),
            CampSection::Locations => counted_string("Locations", camp.locations.len()),
            CampSection::Calendar => String::from_str("Calendar"),
            CampSection::Factions => String::from_str("Factions"),
            CampSection::SavedForge => {
                let n = camp.saved_encounters.len() + camp.saved_npcs.len() + camp.saved_towns.len()
                    + camp.saved_weather.len();
                counted_string("Forge log", n)
            },
        },
        CampNode::Pc(idx) => {
            if *idx < camp.pcs.len() {
                let p = &camp.pcs[*idx];
                let mut r = String::new();
                r.append(p.name.as_str());
                r.append("  L");
                push_decimal(&mut r, p.level as u64);
                r
            } else {
                String::from_str("(missing PC)")
            }
        },
        CampNode::Adventure(idx) => {
            if *idx < camp.adventures.len() {
                let a = &camp.adventures[*idx];
                let active = match camp.active_adventure_id {
                    Some(id) => id == a.id,
                    None => false,
                };
                let mut r = String::new();
                if active {
                    r.append("\u{25CF} ");
                }
                r.append(a.name.as_str());
                r
            } else {
                String::from_str("(missing adventure)")
            }
        },
        CampNode::AdventureGroup(a, k) => {
            let count = if *a < camp.adventures.len() {
                group_len(&camp.adventures[*a], *k)
            } else {
                0
            };
            let label = match k {
                AdventureGroupKind::Sections => "Sections",
                AdventureGroupKind::Scenes => "Scenes",
                AdventureGroupKind::Floorplans => "Floorplans",
                AdventureGroupKind::NpcPortraits => "NPC portraits",
                AdventureGroupKind::NpcDocs => "NPC docs",
            };
            counted_string(label, count)
        },
        CampNode::AdventureSection(a, si) => {
            if *a < camp.adventures.len() && *si < camp.adventures[*a].sections.len() {
                let adv = &camp.adventures[*a];
                let current = match adv.current_section {
                    Some(c) => c == *si,
                    None => false,
                };
                let mut r = String::new();
                if current {
                    r.append("\u{2192} ");
                }
                r.append(adv.sections[*si].heading.as_str());
                r
            } else {
                String::from_str("(missing section)")
            }
        },
        CampNode::AdventureAsset(a, k, j) => {
            if *a < camp.adventures.len() {
                let adv = &camp.adventures[*a];
                let (glyph, list) = match k {
                    AdventureAssetKind::Scene => ("\u{1F3DE}", &adv.scenes),
                    AdventureAssetKind::Floorplan => ("\u{1F5FA}", &adv.floorplans),
                    AdventureAssetKind::NpcPortrait => ("\u{1F464}", &adv.npc_portraits),
                    AdventureAssetKind::NpcDoc => ("\u{1F4DC}", &adv.npc_docs),
                };
                if *j < list.len() {
                    let mut r = String::new();
                    r.append(glyph);
                    r.append(" ");
                    r.append(list[*j].name.as_str());
                    return r;
                }
            }
            String::from_str("(missing asset)")
        },
        CampNode::Npc(idx) => {
            if *idx < camp.npcs.len() {
                camp.npcs[*idx].clone()
            } else {
                String::from_str("(missing NPC)")
            }
        },
        CampNode::Location(idx) => {
            if *idx < camp.locations.len() {
                let l = &camp.locations[*idx];
                if l.kind.as_str().unicode_len() == 0 {
                    l.name.clone()
                } else {
                    let mut r = String::new();
                    r.append(l.name.as_str());
                    r.append("  (");
                    r.append(l.kind.as_str());
                    r.append(")");
                    r
                }
            } else {
                let mut r = String::new();
                r.append("Location #");
                push_decimal(&mut r, *idx as u64 + 1);
                r
            }
        },
        CampNode::SavedForge(k, idx) => saved_title(camp, *k, *idx),
        CampNode::Placeholder { msg, .. } => String::from_str(msg),
    }
}

// --------------------------------------------------------------- search

/// A named thing the `/` search can land on: the name it is matched by,
/// the expand-keys that open the path down to it, and its tree node.
#[derive(Debug, Clone)]
pub struct SearchCandidate {
    pub name: String,
    pub keys: Vec<String>,
    pub node: CampNode,
}

/// The best search hit: its score, the matched name, the keys to expand
/// and the node to land on.
#[derive(Debug, Clone)]
pub struct SearchHit {
    pub score: usize,
    pub label: String,
    pub keys: Vec<String>,
    pub node: CampNode,
}

/// A candidate as plain values.
pub open spec fn cand_view(c: SearchCandidate) -> (Seq<char>, Seq<Seq<char>>, CampNode) {
    (c.name@, str_views(c.keys@), c.node)
}

/// Candidates as plain values.
pub open spec fn cand_views(s: Seq<SearchCandidate>) -> Seq<(Seq<char>, Seq<Seq<char>>, CampNode)> {
    Seq::new(s.len(), |k: int| cand_view(s[k]))
}

/// The nearest section before `n` whose level is below `level`.
pub open spec fn shallower_before(secs: Seq<AdventureSection>, n: int, level: u8) -> Option<int>
    decreases n,
{
    if n <= 0 {
        None
    } else if secs[n - 1].level < level {
        Some(n - 1)
    } else {
        shallower_before(secs, n - 1, level)
    }
}

/// The keys that open the path to section `si` of `adv`: the adventures
/// section, the adventure, its sections group and, for a heading deeper
/// than `##`, the nearest shallower heading before it.
pub open spec fn section_search_keys(adv: Adventure, si: int) -> Seq<Seq<char>> {
    let base = seq!["Adventures"@, adv_key(adv.id), group_key(adv.id, AdventureGroupKind::Sections)];
    let level = adv.sections@[si].level;
    if level > 2 {
        match shallower_before(adv.sections@, si, level) {
            Some(pi) => base.push(section_key(adv.id, adv.sections@[pi].line_start)),
            None => base,
        }
    } else {
        base
    }
}

/// The search candidates of one asset group of adventure `i`.
pub open spec fn asset_cands(adv: Adventure, i: usize, g: AdventureGroupKind) -> Seq<(Seq<char>, Seq<Seq<char>>, CampNode)> {
    let kind = asset_kind_of(g);
    Seq::new(
        assets_of(adv, kind).len(),
        |ai: int|
            (
                assets_of(adv, kind)[ai].name@,
                seq!["Adventures"@, adv_key(adv.id), group_key(adv.id, g)],
                CampNode::AdventureAsset(i, kind, ai as usize),
            ),
    )
}

/// The search candidates of adventure `i`: its name, its sections, then
/// its scenes, floorplans, portraits and NPC docs.
pub open spec fn adventure_cands(adv: Adventure, i: usize) -> Seq<(Seq<char>, Seq<Seq<char>>, CampNode)> {
    seq![(adv.name@, seq!["Adventures"@], CampNode::Adventure(i))] + Seq::new(
        adv.sections@.len(),
        |si: int|
            (adv.sections@[si].heading@, section_search_keys(adv, si), CampNode::AdventureSection(i, si as usize)),
    ) + asset_cands(adv, i, AdventureGroupKind::Scenes) + asset_cands(adv, i, AdventureGroupKind::Floorplans)
        + asset_cands(adv, i, AdventureGroupKind::NpcPortraits) + asset_cands(adv, i, AdventureGroupKind::NpcDocs)
}

/// The candidates of the first `n` adventures.
pub open spec fn adventures_cands(advs: Seq<Adventure>, n: nat) -> Seq<(Seq<char>, Seq<Seq<char>>, CampNode)>
    decreases n,
{
    if n == 0 {
        Seq::empty()
    } else {
        adventures_cands(advs, (n - 1) as nat) + adventure_cands(advs[n - 1], (n - 1) as usize)
    }
}

/// The candidates of the first `n` saved encounters: each one's name and
/// the names of its NPCs, all landing on the encounter's row.
pub open spec fn encounter_cands(encs: Seq<SavedEncounterEntry>, n: nat) -> Seq<(Seq<char>, Seq<Seq<char>>, CampNode)>
    decreases n,
{
    if n == 0 {
        Seq::empty()
    } else {
        let e = encs[n - 1];
        let node = CampNode::SavedForge(SavedKind::Encounter, (n - 1) as usize);
        encounter_cands(encs, (n - 1) as nat) + seq![(e.name@, seq!["Forge log"@], node)] + Seq::new(
            e.npc_names@.len(),
            |j: int| (e.npc_names@[j]@, seq!["Forge log"@], node),
        )
    }
}

/// The candidates of the first `n` saved NPCs: the entry's name, then the
/// NPC's own name.
pub open spec fn saved_npc_cands(npcs: Seq<SavedNpcEntry>, n: nat) -> Seq<(Seq<char>, Seq<Seq<char>>, CampNode)>
    decreases n,
{
    if n == 0 {
        Seq::empty()
    } else {
        let e = npcs[n - 1];
        let node = CampNode::SavedForge(SavedKind::Npc, (n - 1) as usize);
        saved_npc_cands(npcs, (n - 1) as nat) + seq![(e.name@, seq!["Forge log"@], node), (e.npc_name@, seq!["Forge log"@], node)]
    }
}

/// The PCs' candidates.
pub open spec fn pc_cands(c: CampaignOutline) -> Seq<(Seq<char>, Seq<Seq<char>>, CampNode)> {
    Seq::new(c.pcs@.len(), |i: int| (c.pcs@[i].name@, seq!["PCs"@], CampNode::Pc(i as usize)))
}

/// The campaign NPCs' candidates.
pub open spec fn npc_cands(c: CampaignOutline) -> Seq<(Seq<char>, Seq<Seq<char>>, CampNode)> {
    Seq::new(c.npcs@.len(), |i: int| (c.npcs@[i]@, seq!["NPCs"@], CampNode::Npc(i as usize)))
}

/// The locations' candidates.
pub open spec fn location_cands(c: CampaignOutline) -> Seq<(Seq<char>, Seq<Seq<char>>, CampNode)> {
    Seq::new(c.locations@.len(), |i: int| (c.locations@[i].name@, seq!["Locations"@], CampNode::Location(i as usize)))
}

/// The saved towns' candidates.
pub open spec fn town_cands(c: CampaignOutline) -> Seq<(Seq<char>, Seq<Seq<char>>, CampNode)> {
    Seq::new(
        c.saved_towns@.len(),
        |i: int| (c.saved_towns@[i]@, seq!["Forge log"@], CampNode::SavedForge(SavedKind::Town, i as usize)),
    )
}

/// Every named thing of the campaign, in search order: PCs, NPCs,
/// adventures (with their sections and assets), locations, saved
/// encounters (with their NPCs), saved towns, saved NPCs.
pub open spec fn search_cands(c: CampaignOutline) -> Seq<(Seq<char>, Seq<Seq<char>>, CampNode)> {
    pc_cands(c) + npc_cands(c) + adventures_cands(c.adventures@, c.adventures@.len()) + location_cands(c)
        + encounter_cands(c.saved_encounters@, c.saved_encounters@.len()) + town_cands(c) + saved_npc_cands(
        c.saved_npcs@,
        c.saved_npcs@.len(),
    )
}

/// The best of the first `n` candidates for query `q`: the (score, index)
/// of the first one with the lowest score, among those that match.
pub open spec fn best_of(q: Seq<char>, cands: Seq<(Seq<char>, Seq<Seq<char>>, CampNode)>, n: nat) -> Option<(int, int)>
    decreases n,
{
    if n == 0 {
        None
    } else {
        let prev = best_of(q, cands, (n - 1) as nat);
        match match_score(q, lowercase(cands[n - 1].0)) {
            None => prev,
            Some(s) => match prev {
                Some((ps, pi)) => if s < ps { Some((s, n - 1)) } else { prev },
                None => Some((s, n - 1)),
            },
        }
    }
}

proof fn lemma_cand_views_push(s: Seq<SearchCandidate>, x: SearchCandidate)
    ensures
        cand_views(s.push(x)) == cand_views(s).push(cand_view(x)),
{
    assert(cand_views(s.push(x)) =~= cand_views(s).push(cand_view(x)));
}

fn push_cand(out: &mut Vec<SearchCandidate>, name: &str, keys: Vec<String>, node: CampNode)
    ensures
        cand_views(final(out)@) == cand_views(old(out)@).push((name@, str_views(keys@), node)),
{
    let c = SearchCandidate { name: String::from_str(name), keys, node };
    proof {
        lemma_cand_views_push(out@, c);
    }
    out.push(c);
}

fn one_key(k: &str) -> (r: Vec<String>)
    ensures
        str_views(r@) == seq![k@],
{
    let r = vec![String::from_str(k)];
    assert(str_views(r@) =~= seq![k@]);
    r
}

fn three_keys(a: &str, b: &str, c: &str) -> (r: Vec<String>)
    ensures
        str_views(r@) == seq![a@, b@, c@],
{
    let r = vec![String::from_str(a), String::from_str(b), String::from_str(c)];
    assert(str_views(r@) =~= seq![a@, b@, c@]);
    r
}

proof fn lemma_shallower_range(secs: Seq<AdventureSection>, n: int, level: u8)
    ensures
        match shallower_before(secs, n, level) {
            Some(p) => 0 <= p < n && secs[p].level < level,
            None => true,
        },
    decreases n,
{
    if n > 0 && secs[n - 1].level >= level {
        lemma_shallower_range(secs, n - 1, level);
    }
}

/// The nearest section before `n` whose level is below `level`.
fn find_shallower(secs: &Vec<AdventureSection>, n: usize, level: u8) -> (r: Option<usize>)
    requires
        n <= secs@.len(),
    ensures
        match shallower_before(secs@, n as int, level) {
            Some(p) => r == Some(p as usize),
            None => r is None,
        },
{
    let mut k: usize = n;
    while k > 0
        invariant
            k <= n <= secs@.len(),
            shallower_before(secs@, n as int, level) == shallower_before(secs@, k as int, level),
        decreases k,
    {
        if secs[k - 1].level < level {
            return Some(k - 1);
        }
        k = k - 1;
    }
    None
}

fn push_section_cands(out: &mut Vec<SearchCandidate>, adv: &Adventure, i: usize)
    ensures
        cand_views(final(out)@) == cand_views(old(out)@) + Seq::new(
            adv.sections@.len(),
            |si: int|
                (adv.sections@[si].heading@, section_search_keys(*adv, si), CampNode::AdventureSection(i, si as usize)),
        ),
{
    let ghost target = Seq::new(
        adv.sections@.len(),
        |si: int| (adv.sections@[si].heading@, section_search_keys(*adv, si), CampNode::AdventureSection(i, si as usize)),
    );
    let advkey = adventure_key(adv.id);
    let seckey = adventure_group_key(adv.id, AdventureGroupKind::Sections);
    let mut si: usize = 0;
    assert(cand_views(old(out)@) + target.take(0) =~= cand_views(old(out)@));
    while si < adv.sections.len()
        invariant
            si <= adv.sections@.len(),
            advkey@ == adv_key(adv.id),
            seckey@ == group_key(adv.id, AdventureGroupKind::Sections),
            target.len() == adv.sections@.len(),
            forall|t: int| 0 <= t < target.len() ==> #[trigger] target[t] == (adv.sections@[t].heading@, section_search_keys(*adv, t), CampNode::AdventureSection(i, t as usize)),
            cand_views(out@) == cand_views(old(out)@) + target.take(si as int),
        decreases adv.sections@.len() - si,
    {
        let sec = &adv.sections[si];
        let mut keys = three_keys("Adventures", advkey.as_str(), seckey.as_str());
        if sec.level > 2 {
            proof {
                lemma_shallower_range(adv.sections@, si as int, sec.level);
            }
            match find_shallower(&adv.sections, si, sec.level) {
                Some(pi) => {
                    let k = adventure_section_key(adv.id, adv.sections[pi].line_start);
                    let ghost before = keys@;
                    keys.push(k);
                    assert(str_views(keys@) =~= str_views(before).push(k@));
                },
                None => {},
            }
        }
        assert(str_views(keys@) == section_search_keys(*adv, si as int));
        push_cand(out, sec.heading.as_str(), keys, CampNode::AdventureSection(i, si));
        assert(target.take(si + 1) =~= target.take(si as int).push(target[si as int]));
        si = si + 1;
    }
    assert(target.take(si as int) =~= target);
}

fn push_asset_cands(out: &mut Vec<SearchCandidate>, adv: &Adventure, i: usize, g: AdventureGroupKind)
    requires
        g != AdventureGroupKind::Sections,
    ensures
        cand_views(final(out)@) == cand_views(old(out)@) + asset_cands(*adv, i, g),
{
    let ghost target = asset_cands(*adv, i, g);
    let (kind, list) = match g {
        AdventureGroupKind::Floorplans => (AdventureAssetKind::Floorplan, &adv.floorplans),
        AdventureGroupKind::NpcPortraits => (AdventureAssetKind::NpcPortrait, &adv.npc_portraits),
        AdventureGroupKind::NpcDocs => (AdventureAssetKind::NpcDoc, &adv.npc_docs),
        _ => (AdventureAssetKind::Scene, &adv.scenes),
    };
    let advkey = adventure_key(adv.id);
    let grpkey = adventure_group_key(adv.id, g);
    let mut ai: usize = 0;
    assert(cand_views(old(out)@) + target.take(0) =~= cand_views(old(out)@));
    while ai < list.len()
        invariant
            ai <= list@.len(),
            kind == asset_kind_of(g),
            list@ == assets_of(*adv, kind),
            advkey@ == adv_key(adv.id),
            grpkey@ == group_key(adv.id, g),
            target == asset_cands(*adv, i, g),
            cand_views(out@) == cand_views(old(out)@) + target.take(ai as int),
        decreases list@.len() - ai,
    {
        let keys = three_keys("Adventures", advkey.as_str(), grpkey.as_str());
        push_cand(out, list[ai].name.as_str(), keys, CampNode::AdventureAsset(i, kind, ai));
        assert(target.take(ai + 1) =~= target.take(ai as int).push(target[ai as int]));
        ai = ai + 1;
    }
    assert(target.take(ai as int) =~= target);
}

fn push_adventure_cands(out: &mut Vec<SearchCandidate>, adv: &Adventure, i: usize)
    ensures
        cand_views(final(out)@) == cand_views(old(out)@) + adventure_cands(*adv, i),
{
    let ghost o0 = cand_views(out@);
    push_cand(out, adv.name.as_str(), one_key("Adventures"), CampNode::Adventure(i));
    push_section_cands(out, adv, i);
    push_asset_cands(out, adv, i, AdventureGroupKind::Scenes);
    push_asset_cands(out, adv, i, AdventureGroupKind::Floorplans);
    push_asset_cands(out, adv, i, AdventureGroupKind::NpcPortraits);
    push_asset_cands(out, adv, i, AdventureGroupKind::NpcDocs);
    assert(cand_views(out@) =~= o0 + adventure_cands(*adv, i));
}

fn push_adventures_cands(out: &mut Vec<SearchCandidate>, camp: &CampaignOutline)
    ensures
        cand_views(final(out)@) == cand_views(old(out)@) + adventures_cands(camp.adventures@, camp.adventures@.len()),
{
    let mut i: usize = 0;
    assert(cand_views(old(out)@) + adventures_cands(camp.adventures@, 0) =~= cand_views(old(out)@));
    while i < camp.adventures.len()
        invariant
            i <= camp.adventures@.len(),
            cand_views(out@) == cand_views(old(out)@) + adventures_cands(camp.adventures@, i as nat),
        decreases camp.adventures@.len() - i,
    {
        push_adventure_cands(out, &camp.adventures[i], i);
        i = i + 1;
        assert(cand_views(out@) =~= cand_views(old(out)@) + adventures_cands(camp.adventures@, i as nat));
    }
}

fn push_encounter_cands(out: &mut Vec<SearchCandidate>, camp: &CampaignOutline)
    ensures
        cand_views(final(out)@) == cand_views(old(out)@) + encounter_cands(
            camp.saved_encounters@,
            camp.saved_encounters@.len(),
        ),
{
    let encs = &camp.saved_encounters;
    let mut i: usize = 0;
    assert(cand_views(old(out)@) + encounter_cands(encs@, 0) =~= cand_views(old(out)@));
    while i < encs.len()
        invariant
            i <= encs@.len(),
            cand_views(out@) == cand_views(old(out)@) + encounter_cands(encs@, i as nat),
        decreases encs@.len() - i,
    {
        let e = &encs[i];
        let node = CampNode::SavedForge(SavedKind::Encounter, i);
        push_cand(out, e.name.as_str(), one_key("Forge log"), node);
        let ghost mid = cand_views(out@);
        let ghost tail = Seq::new(e.npc_names@.len(), |j: int| (e.npc_names@[j]@, seq!["Forge log"@], node));
        let mut j: usize = 0;
        assert(mid + tail.take(0) =~= mid);
        while j < e.npc_names.len()
            invariant
                j <= e.npc_names@.len(),
                tail == Seq::new(e.npc_names@.len(), |t: int| (e.npc_names@[t]@, seq!["Forge log"@], node)),
                cand_views(out@) == mid + tail.take(j as int),
            decreases e.npc_names@.len() - j,
        {
            push_cand(out, e.npc_names[j].as_str(), one_key("Forge log"), node);
            assert(tail.take(j + 1) =~= tail.take(j as int).push(tail[j as int]));
            j = j + 1;
        }
        assert(tail.take(j as int) =~= tail);
        i = i + 1;
        assert(cand_views(out@) =~= cand_views(old(out)@) + encounter_cands(encs@, i as nat));
    }
}

fn push_saved_npc_cands(out: &mut Vec<SearchCandidate>, camp: &CampaignOutline)
    ensures
        cand_views(final(out)@) == cand_views(old(out)@) + saved_npc_cands(camp.saved_npcs@, camp.saved_npcs@.len()),
{
    let npcs = &camp.saved_npcs;
    let mut i: usize = 0;
    assert(cand_views(old(out)@) + saved_npc_cands(npcs@, 0) =~= cand_views(old(out)@));
    while i < npcs.len()
        invariant
            i <= npcs@.len(),
            cand_views(out@) == cand_views(old(out)@) + saved_npc_cands(npcs@, i as nat),
        decreases npcs@.len() - i,
    {
        let node = CampNode::SavedForge(SavedKind::Npc, i);
        push_cand(out, npcs[i].name.as_str(), one_key("Forge log"), node);
        push_cand(out, npcs[i].npc_name.as_str(), one_key("Forge log"), node);
        i = i + 1;
        assert(cand_views(out@) =~= cand_views(old(out)@) + saved_npc_cands(npcs@, i as nat));
    }
}

/// Every named thing of the campaign that the `/` search looks at, in
/// the order it looks.
pub fn search_candidates(camp: &CampaignOutline) -> (r: Vec<SearchCandidate>)
    ensures
        cand_views(r@) == search_cands(*camp),
{
    let mut out: Vec<SearchCandidate> = Vec::new();
    let ghost pcs = pc_cands(*camp);
    let mut i: usize = 0;
    assert(cand_views(out@) =~= pcs.take(0));
    while i < camp.pcs.len()
        invariant
            i <= camp.pcs@.len(),
            pcs == pc_cands(*camp),
            cand_views(out@) == pcs.take(i as int),
        decreases camp.pcs@.len() - i,
    {
        push_cand(&mut out, camp.pcs[i].name.as_str(), one_key("PCs"), CampNode::Pc(i));
        assert(pcs.take(i + 1) =~= pcs.take(i as int).push(pcs[i as int]));
        i = i + 1;
    }
    assert(pcs.take(i as int) =~= pcs);
    let ghost o1 = cand_views(out@);
    let ghost npcs = npc_cands(*camp);
    let mut i: usize = 0;
    assert(o1 + npcs.take(0) =~= o1);
    while i < camp.npcs.len()
        invariant
            i <= camp.npcs@.len(),
            npcs == npc_cands(*camp),
            cand_views(out@) == o1 + npcs.take(i as int),
        decreases camp.npcs@.len() - i,
    {
        push_cand(&mut out, camp.npcs[i].as_str(), one_key("NPCs"), CampNode::Npc(i));
        assert(npcs.take(i + 1) =~= npcs.take(i as int).push(npcs[i as int]));
        i = i + 1;
    }
    assert(npcs.take(i as int) =~= npcs);
    push_adventures_cands(&mut out, camp);
    let ghost o3 = cand_views(out@);
    let ghost locs = location_cands(*camp);
    let mut i: usize = 0;
    assert(o3 + locs.take(0) =~= o3);
    while i < camp.locations.len()
        invariant
            i <= camp.locations@.len(),
            locs == location_cands(*camp),
            cand_views(out@) == o3 + locs.take(i as int),
        decreases camp.locations@.len() - i,
    {
        push_cand(&mut out, camp.locations[i].name.as_str(), one_key("Locations"), CampNode::Location(i));
        assert(locs.take(i + 1) =~= locs.take(i as int).push(locs[i as int]));
        i = i + 1;
    }
    assert(locs.take(i as int) =~= locs);
    push_encounter_cands(&mut out, camp);
    let ghost o5 = cand_views(out@);
    let ghost towns = town_cands(*camp);
    let mut i: usize = 0;
    assert(o5 + towns.take(0) =~= o5);
    while i < camp.saved_towns.len()
        invariant
            i <= camp.saved_towns@.len(),
            towns == town_cands(*camp),
            cand_views(out@) == o5 + towns.take(i as int),
        decreases camp.saved_towns@.len() - i,
    {
        push_cand(&mut out, camp.saved_towns[i].as_str(), one_key("Forge log"), CampNode::SavedForge(SavedKind::Town, i));
        assert(towns.take(i + 1) =~= towns.take(i as int).push(towns[i as int]));
        i = i + 1;
    }
    assert(towns.take(i as int) =~= towns);
    push_saved_npc_cands(&mut out, camp);
    assert(cand_views(out@) =~= search_cands(*camp));
    out
}

/// `/` search over the campaign: the first candidate, in search order,
/// with the lowest closest-name score for the lowercase query `q`, or
/// `None` when nothing matches.
pub fn search_campaign(q: &str, camp: &CampaignOutline) -> (r: Option<SearchHit>)
    ensures
        match best_of(q@, search_cands(*camp), search_cands(*camp).len()) {
            Some((score, i)) => r matches Some(h) && h.score == score && h.label@ == search_cands(*camp)[i].0
                && str_views(h.keys@) == search_cands(*camp)[i].1 && h.node == search_cands(*camp)[i].2,
            None => r is None,
        },
{
    let mut cands = search_candidates(camp);
    let ghost cs = search_cands(*camp);
    let mut best: Option<(usize, usize)> = None;
    let mut k: usize = 0;
    while k < cands.len()
        invariant
            k <= cands@.len(),
            cand_views(cands@) == cs,
            match best_of(q@, cs, k as nat) {
                Some((s, i)) => best == Some((s as usize, i as usize)) && 0 <= i < k && s == s as usize,
                None => best is None,
            },
        decreases cands@.len() - k,
    {
        assert(cs[k as int] == cand_view(cands@[k as int]));
        let sc = name_match_score(q, cands[k].name.as_str());
        match sc {
            Some(s) => {
                let better = match best {
                    Some((bs, _)) => s < bs,
                    None => true,
                };
                if better {
                    best = Some((s, k));
                }
            },
            None => {},
        }
        k = k + 1;
    }
    match best {
        Some((s, i)) => {
            assert(cs[i as int] == cand_view(cands@[i as int]));
            let c = cands.remove(i);
            Some(SearchHit { score: s, label: c.name, keys: c.keys, node: c.node })
        },
        None => None,
    }
}

/// What a world hit lands on: a shared location or a shared NPC.
#[derive(Debug, Clone, Copy, PartialEq, Eq, Structural)]
pub enum WorldTarget {
    Location(usize),
    Npc(usize),
}

/// The best of the first `n` names for query `q`: the (score, index) of
/// the first one with the lowest score, among those that match.
pub open spec fn best_name(q: Seq<char>, names: Seq<Seq<char>>, n: nat) -> Option<(int, int)>
    decreases n,
{
    if n == 0 {
        None
    } else {
        let prev = best_name(q, names, (n - 1) as nat);
        match match_score(q, lowercase(names[n - 1])) {
            None => prev,
            Some(s) => match prev {
                Some((ps, pi)) => if s < ps { Some((s, n - 1)) } else { prev },
                None => Some((s, n - 1)),
            },
        }
    }
}

/// The world hit at index `i` of the locations followed by the NPCs.
pub open spec fn world_target(n_locations: nat, i: int) -> WorldTarget {
    if i < n_locations {
        WorldTarget::Location(i as usize)
    } else {
        WorldTarget::Npc((i - n_locations) as usize)
    }
}

fn best_in(q: &str, names: &Vec<String>, Ghost(all): Ghost<Seq<Seq<char>>>, offset: usize, best: &mut Option<(usize, usize)>)
    requires
        offset + names@.len() <= all.len(),
        offset + names@.len() <= usize::MAX,
        forall|t: int| 0 <= t < names@.len() ==> #[trigger] names@[t]@ == all[offset + t],
        match best_name(q@, all, offset as nat) {
            Some((s, i)) => *old(best) == Some((s as usize, i as usize)) && s == s as usize && 0 <= i < offset,
            None => *old(best) is None,
        },
    ensures
        match best_name(q@, all, (offset + names@.len()) as nat) {
            Some((s, i)) => *final(best) == Some((s as usize, i as usize)) && s == s as usize && 0 <= i < offset + names@.len(),
            None => *final(best) is None,
        },
{
    let mut k: usize = 0;
    while k < names.len()
        invariant
            k <= names@.len(),
            offset + names@.len() <= all.len(),
            offset + names@.len() <= usize::MAX,
            forall|t: int| 0 <= t < names@.len() ==> #[trigger] names@[t]@ == all[offset + t],
            match best_name(q@, all, (offset + k) as nat) {
                Some((s, i)) => *best == Some((s as usize, i as usize)) && s == s as usize && 0 <= i < offset + k,
                None => *best is None,
            },
        decreases names@.len() - k,
    {
        assert(names@[k as int]@ == all[offset + k]);
        match name_match_score(q, names[k].as_str()) {
            Some(s) => {
                let better = match *best {
                    Some((bs, _)) => s < bs,
                    None => true,
                };
                if better {
                    *best = Some((s, offset + k));
                }
            },
            None => {},
        }
        k = k + 1;
    }
}

/// The best hit of query `q` among the shared world's locations and then
/// its NPCs: its score and target, the first of the lowest score.
pub fn best_world_hit(q: &str, locations: &Vec<String>, npcs: &Vec<String>) -> (r: Option<(usize, WorldTarget)>)
    requires
        locations@.len() + npcs@.len() <= usize::MAX,
    ensures
        match best_name(
            q@,
            str_views(locations@) + str_views(npcs@),
            locations@.len() + npcs@.len(),
        ) {
            Some((s, i)) => r == Some((s as usize, world_target(locations@.len(), i))),
            None => r is None,
        },
{
    let ghost all = str_views(locations@) + str_views(npcs@);
    let mut best: Option<(usize, usize)> = None;
    best_in(q, locations, Ghost(all), 0, &mut best);
    best_in(q, npcs, Ghost(all), locations.len(), &mut best);
    match best {
        Some((s, i)) => {
            if i < locations.len() {
                Some((s, WorldTarget::Location(i)))
            } else {
                Some((s, WorldTarget::Npc(i - locations.len())))
            }
        },
        None => None,
    }
}

/// Whether a world hit scoring `world_score` wins over the campaign's
/// best score: unless the campaign has a hit at least as good.
pub fn world_hit_wins(camp_best: Option<usize>, world_score: usize) -> (b: bool)
    ensures
        b == !(camp_best matches Some(c) && c <= world_score),
{
    match camp_best {
        Some(c) => !(c <= world_score),
        None => true,
    }
}

// ------------------------------------------------ search reaches the tree

/// Some row of `rows` is for `node`.
pub open spec fn shows(rows: Seq<CampTreeItem>, node: CampNode) -> bool {
    exists|r: int| 0 <= r < rows.len() && (#[trigger] rows[r]).node == node
}

/// Every key of `keys` is among the expanded keys `ex`.
pub open spec fn all_expanded(keys: Seq<Seq<char>>, ex: Seq<Seq<char>>) -> bool {
    forall|t: int| 0 <= t < keys.len() ==> ex.contains(#[trigger] keys[t])
}

/// A search candidate whose keys are expanded shows up in the tree,
/// except a location (the Locations section is not part of the tree) and
/// a heading deeper than `###` (only its nearest parent is expanded).
pub open spec fn cand_revealed(c: CampaignOutline, ex: Seq<Seq<char>>, x: (Seq<char>, Seq<Seq<char>>, CampNode)) -> bool {
    all_expanded(x.1, ex) && !(x.2 is Location) && (x.2 matches CampNode::AdventureSection(a, si)
        ==> c.adventures@[a as int].sections@[si as int].level <= 3) ==> shows(camp_tree_rows(c, ex), x.2)
}

proof fn lemma_shows_concat(a: Seq<CampTreeItem>, b: Seq<CampTreeItem>, n: CampNode)
    requires
        shows(a, n) || shows(b, n),
    ensures
        shows(a + b, n),
{
    if shows(a, n) {
        let r = choose|r: int| 0 <= r < a.len() && (#[trigger] a[r]).node == n;
        assert((a + b)[r] == a[r]);
    } else {
        let r = choose|r: int| 0 <= r < b.len() && (#[trigger] b[r]).node == n;
        assert((a + b)[a.len() + r] == b[r]);
    }
}

proof fn lemma_section_shows(c: CampaignOutline, s: CampSection, ex: Seq<Seq<char>>, n: CampNode)
    requires
        section_expandable(s),
        s != CampSection::Locations,
        ex.contains(camp_section_id(s)@),
        shows(section_children(c, s, ex), n),
    ensures
        shows(camp_tree_rows(c, ex), n),
{
    let hdr = seq![tree_row(CampNode::Section(s), 0, section_expandable(s), true)];
    lemma_shows_concat(hdr, section_children(c, s, ex), n);
    let r0 = section_rows(c, CampSection::Calendar, ex);
    let r1 = section_rows(c, CampSection::Pcs, ex);
    let r2 = section_rows(c, CampSection::Adventures, ex);
    let r3 = section_rows(c, CampSection::Npcs, ex);
    let r4 = section_rows(c, CampSection::Factions, ex);
    let r5 = section_rows(c, CampSection::SavedForge, ex);
    assert(shows(section_rows(c, s, ex), n));
    if s == CampSection::Pcs {
        lemma_shows_concat(r0, r1, n);
        lemma_shows_concat(r0 + r1, r2, n);
        lemma_shows_concat(r0 + r1 + r2, r3, n);
        lemma_shows_concat(r0 + r1 + r2 + r3, r4, n);
        lemma_shows_concat(r0 + r1 + r2 + r3 + r4, r5, n);
    } else if s == CampSection::Adventures {
        lemma_shows_concat(r0 + r1, r2, n);
        lemma_shows_concat(r0 + r1 + r2, r3, n);
        lemma_shows_concat(r0 + r1 + r2 + r3, r4, n);
        lemma_shows_concat(r0 + r1 + r2 + r3 + r4, r5, n);
    } else if s == CampSection::Npcs {
        lemma_shows_concat(r0 + r1 + r2, r3, n);
        lemma_shows_concat(r0 + r1 + r2 + r3, r4, n);
        lemma_shows_concat(r0 + r1 + r2 + r3 + r4, r5, n);
    } else {
        lemma_shows_concat(r0 + r1 + r2 + r3 + r4, r5, n);
    }
}

proof fn lemma_pcs_npcs_towns_revealed(c: CampaignOutline, ex: Seq<Seq<char>>)
    ensures
        forall|k: int| 0 <= k < pc_cands(c).len() ==> cand_revealed(c, ex, #[trigger] pc_cands(c)[k]),
        forall|k: int| 0 <= k < npc_cands(c).len() ==> cand_revealed(c, ex, #[trigger] npc_cands(c)[k]),
        forall|k: int| 0 <= k < town_cands(c).len() ==> cand_revealed(c, ex, #[trigger] town_cands(c)[k]),
{
    assert forall|k: int| 0 <= k < pc_cands(c).len() implies cand_revealed(c, ex, #[trigger] pc_cands(c)[k]) by {
        let x = pc_cands(c)[k];
        if all_expanded(x.1, ex) {
            assert(ex.contains(x.1[0]));
            let ch = section_children(c, CampSection::Pcs, ex);
            assert(ch[k].node == CampNode::Pc(k as usize));
            lemma_section_shows(c, CampSection::Pcs, ex, x.2);
        }
    }
    assert forall|k: int| 0 <= k < npc_cands(c).len() implies cand_revealed(c, ex, #[trigger] npc_cands(c)[k]) by {
        let x = npc_cands(c)[k];
        if all_expanded(x.1, ex) {
            assert(ex.contains(x.1[0]));
            let ch = section_children(c, CampSection::Npcs, ex);
            assert(ch[k].node == CampNode::Npc(k as usize));
            lemma_section_shows(c, CampSection::Npcs, ex, x.2);
        }
    }
    assert forall|k: int| 0 <= k < town_cands(c).len() implies cand_revealed(c, ex, #[trigger] town_cands(c)[k]) by {
        let x = town_cands(c)[k];
        if all_expanded(x.1, ex) {
            assert(ex.contains(x.1[0]));
            let ne = c.saved_encounters@.len();
            let nn = c.saved_npcs@.len();
            let ch = section_children(c, CampSection::SavedForge, ex);
            let a = saved_rows(SavedKind::Encounter, ne) + saved_rows(SavedKind::Npc, nn);
            let b = saved_rows(SavedKind::Town, c.saved_towns@.len());
            assert(b[k].node == x.2);
            lemma_shows_concat(a, b, x.2);
            lemma_shows_concat(a + b, saved_rows(SavedKind::Weather, c.saved_weather@.len()), x.2);
            lemma_section_shows(c, CampSection::SavedForge, ex, x.2);
        }
    }
}

proof fn lemma_encounters_revealed(c: CampaignOutline, ex: Seq<Seq<char>>, n: nat)
    requires
        n <= c.saved_encounters@.len(),
    ensures
        forall|k: int| 0 <= k < encounter_cands(c.saved_encounters@, n).len()
            ==> cand_revealed(c, ex, #[trigger] encounter_cands(c.saved_encounters@, n)[k]),
    decreases n,
{
    if n > 0 {
        lemma_encounters_revealed(c, ex, (n - 1) as nat);
        let j = (n - 1) as int;
        let node = CampNode::SavedForge(SavedKind::Encounter, j as usize);
        let prev = encounter_cands(c.saved_encounters@, (n - 1) as nat);
        let all = encounter_cands(c.saved_encounters@, n);
        if ex.contains("Forge log"@) {
            let ch = section_children(c, CampSection::SavedForge, ex);
            let a = saved_rows(SavedKind::Encounter, c.saved_encounters@.len());
            let b = saved_rows(SavedKind::Npc, c.saved_npcs@.len()) + saved_rows(SavedKind::Town, c.saved_towns@.len())
                + saved_rows(SavedKind::Weather, c.saved_weather@.len());
            assert(a[j].node == node);
            lemma_shows_concat(a, b, node);
            assert(ch == a + b);
            lemma_section_shows(c, CampSection::SavedForge, ex, node);
        }
        assert forall|k: int| 0 <= k < all.len() implies cand_revealed(c, ex, #[trigger] all[k]) by {
            if k < prev.len() {
                assert(all[k] == prev[k]);
            } else {
                assert(all[k].2 == node);
                assert(all[k].1 == seq!["Forge log"@]);
                if all_expanded(all[k].1, ex) {
                    assert(ex.contains(all[k].1[0]));
                }
            }
        }
    }
}

proof fn lemma_saved_npcs_revealed(c: CampaignOutline, ex: Seq<Seq<char>>, n: nat)
    requires
        n <= c.saved_npcs@.len(),
    ensures
        forall|k: int| 0 <= k < saved_npc_cands(c.saved_npcs@, n).len()
            ==> cand_revealed(c, ex, #[trigger] saved_npc_cands(c.saved_npcs@, n)[k]),
    decreases n,
{
    if n > 0 {
        lemma_saved_npcs_revealed(c, ex, (n - 1) as nat);
        let j = (n - 1) as int;
        let node = CampNode::SavedForge(SavedKind::Npc, j as usize);
        let prev = saved_npc_cands(c.saved_npcs@, (n - 1) as nat);
        let all = saved_npc_cands(c.saved_npcs@, n);
        if ex.contains("Forge log"@) {
            let ch = section_children(c, CampSection::SavedForge, ex);
            let a = saved_rows(SavedKind::Encounter, c.saved_encounters@.len());
            let m = saved_rows(SavedKind::Npc, c.saved_npcs@.len());
            let b = saved_rows(SavedKind::Town, c.saved_towns@.len()) + saved_rows(
                SavedKind::Weather,
                c.saved_weather@.len(),
            );
            assert(m[j].node == node);
            lemma_shows_concat(a, m, node);
            lemma_shows_concat(a + m, b, node);
            assert(ch =~= a + m + b);
            lemma_section_shows(c, CampSection::SavedForge, ex, node);
        }
        assert forall|k: int| 0 <= k < all.len() implies cand_revealed(c, ex, #[trigger] all[k]) by {
            if k < prev.len() {
                assert(all[k] == prev[k]);
            } else {
                assert(all[k].2 == node);
                assert(all[k].1 == seq!["Forge log"@]);
                if all_expanded(all[k].1, ex) {
                    assert(ex.contains(all[k].1[0]));
                }
            }
        }
    }
}

/// The stack of open headings is ordered: levels at least 2, strictly
/// rising from bottom to top.
pub open spec fn stack_ok(st: Seq<(u8, bool)>) -> bool {
    &&& forall|t: int| 0 <= t < st.len() ==> (#[trigger] st[t]).0 >= 2
    &&& forall|t: int, u: int| 0 <= t < u < st.len() ==> st[t].0 < st[u].0
}

proof fn lemma_popped(st: Seq<(u8, bool)>, level: u8)
    ensures
        popped(st, level).len() <= st.len(),
        popped(st, level) == st.take(popped(st, level).len() as int),
        popped(st, level).len() > 0 ==> st[popped(st, level).len() - 1].0 < level,
        st.len() > 0 && st[0].0 < level ==> popped(st, level).len() > 0,
    decreases st.len(),
{
    if st.len() > 0 && st.last().0 >= level {
        lemma_popped(st.drop_last(), level);
        let p = popped(st.drop_last(), level);
        assert(st.drop_last().take(p.len() as int) =~= st.take(p.len() as int));
    } else {
        assert(st.take(st.len() as int) =~= st);
    }
}

proof fn lemma_walk(adv: Adventure, i: usize, ex: Seq<Seq<char>>, n: nat)
    requires
        n <= adv.sections@.len(),
    ensures
        stack_ok(section_walk(adv, i, ex, n).1),
        forall|t: int| 0 <= t < section_walk(adv, i, ex, n).1.len()
            ==> exists|j: int| 0 <= j < n && (#[trigger] section_walk(adv, i, ex, n).1[t]).0 == tree_level(adv.sections@[j]),
    decreases n,
{
    if n > 0 {
        lemma_walk(adv, i, ex, (n - 1) as nat);
        let prev = section_walk(adv, i, ex, (n - 1) as nat);
        let level = tree_level(adv.sections@[n - 1]);
        lemma_popped(prev.1, level);
        let st = popped(prev.1, level);
        let cur = section_walk(adv, i, ex, n).1;
        assert(cur.len() == st.len() + 1);
        assert forall|t: int| 0 <= t < cur.len() implies exists|j: int| 0 <= j < n && (#[trigger] cur[t]).0 == tree_level(adv.sections@[j]) by {
            if t < st.len() {
                assert(cur[t] == prev.1[t]);
                let j = choose|j: int| 0 <= j < n - 1 && (#[trigger] prev.1[t]).0 == tree_level(adv.sections@[j]);
            } else {
                assert(cur[t].0 == tree_level(adv.sections@[n - 1]));
            }
        }
        assert forall|t: int| 0 <= t < cur.len() implies (#[trigger] cur[t]).0 >= 2 by {
            if t < st.len() {
                assert(cur[t] == prev.1[t]);
            }
        }
        assert forall|t: int, u: int| 0 <= t < u < cur.len() implies cur[t].0 < cur[u].0 by {
            assert(cur[t] == prev.1[t]);
            if u < st.len() {
                assert(cur[u] == prev.1[u]);
            } else {
                if t < st.len() - 1 {
                    assert(prev.1[t].0 < prev.1[st.len() - 1].0);
                }
            }
        }
    }
}

proof fn lemma_walk_rows_grow(adv: Adventure, i: usize, ex: Seq<Seq<char>>, m: nat, n: nat, node: CampNode)
    requires
        m <= n <= adv.sections@.len(),
        shows(section_walk(adv, i, ex, m).0, node),
    ensures
        shows(section_walk(adv, i, ex, n).0, node),
    decreases n - m,
{
    if m < n {
        let a = section_walk(adv, i, ex, m).0;
        let b = section_walk(adv, i, ex, m + 1).0;
        let r = choose|r: int| 0 <= r < a.len() && (#[trigger] a[r]).node == node;
        assert(b[r] == a[r]);
        lemma_walk_rows_grow(adv, i, ex, m + 1, n, node);
    }
}

/// Heading `si` shows when every heading above it is expanded: one of
/// level at most `##` always shows, and a `###` one shows once its
/// nearest shallower heading is expanded.
proof fn lemma_section_row_shows(adv: Adventure, i: usize, ex: Seq<Seq<char>>, si: int)
    requires
        0 <= si < adv.sections@.len(),
        adv.sections@[si].level <= 3,
        adv.sections@[si].level > 2 ==> match shallower_before(adv.sections@, si, adv.sections@[si].level) {
            Some(pi) => ex.contains(section_key(adv.id, adv.sections@[pi].line_start)),
            None => true,
        },
    ensures
        shows(section_walk(adv, i, ex, adv.sections@.len()).0, CampNode::AdventureSection(i, si as usize)),
{
    let secs = adv.sections@;
    let level = tree_level(secs[si]);
    lemma_walk(adv, i, ex, si as nat);
    let prev = section_walk(adv, i, ex, si as nat);
    lemma_popped(prev.1, level);
    let st = popped(prev.1, level);
    assert(all_open(st)) by {
        if st.len() > 0 {
            if level == 2 {
                assert(prev.1[0].0 >= 2);
                assert(prev.1[st.len() - 1].0 >= 2);
            } else {
                lemma_bottom_open(adv, i, ex, si);
            }
        }
    }
    let node = CampNode::AdventureSection(i, si as usize);
    let rows = section_walk(adv, i, ex, (si + 1) as nat).0;
    assert(rows[rows.len() - 1].node == node);
    lemma_walk_rows_grow(adv, i, ex, (si + 1) as nat, secs.len(), node);
}

proof fn lemma_shallower(secs: Seq<AdventureSection>, n: int, level: u8)
    requires
        0 <= n <= secs.len(),
    ensures
        match shallower_before(secs, n, level) {
            Some(p) => 0 <= p < n && secs[p].level < level && forall|j: int| p < j < n ==> #[trigger] secs[j].level >= level,
            None => forall|j: int| 0 <= j < n ==> #[trigger] secs[j].level >= level,
        },
    decreases n,
{
    if n > 0 && secs[n - 1].level >= level {
        lemma_shallower(secs, n - 1, level);
    }
}

proof fn lemma_bottom_kept(adv: Adventure, i: usize, ex: Seq<Seq<char>>, pi: int, n: int)
    requires
        0 <= pi < n <= adv.sections@.len(),
        adv.sections@[pi].level < 3,
        forall|j: int| pi < j < n ==> #[trigger] adv.sections@[j].level >= 3,
        ex.contains(section_key(adv.id, adv.sections@[pi].line_start)),
    ensures
        section_walk(adv, i, ex, n as nat).1.len() >= 1,
        section_walk(adv, i, ex, n as nat).1[0] == (2u8, true),
    decreases n,
{
    let secs = adv.sections@;
    let prev = section_walk(adv, i, ex, (n - 1) as nat);
    let level = tree_level(secs[n - 1]);
    lemma_popped(prev.1, level);
    if n - 1 == pi {
        lemma_walk(adv, i, ex, pi as nat);
        assert(level == 2);
        let st = popped(prev.1, level);
        if st.len() > 0 {
            assert(prev.1[st.len() - 1].0 >= 2);
        }
        assert(st.len() == 0);
        assert(all_open(st));
    } else {
        lemma_bottom_kept(adv, i, ex, pi, n - 1);
        assert(secs[n - 1].level >= 3);
        assert(level >= 3);
        let st = popped(prev.1, level);
        assert(st.len() > 0);
        assert(st[0] == prev.1[0]);
    }
}

proof fn lemma_bottom_open(adv: Adventure, i: usize, ex: Seq<Seq<char>>, si: int)
    requires
        0 <= si < adv.sections@.len(),
        adv.sections@[si].level == 3,
        match shallower_before(adv.sections@, si, 3) {
            Some(pi) => ex.contains(section_key(adv.id, adv.sections@[pi].line_start)),
            None => true,
        },
    ensures
        all_open(popped(section_walk(adv, i, ex, si as nat).1, 3)),
{
    let secs = adv.sections@;
    let prev = section_walk(adv, i, ex, si as nat);
    lemma_walk(adv, i, ex, si as nat);
    lemma_popped(prev.1, 3);
    lemma_shallower(secs, si, 3);
    let st = popped(prev.1, 3);
    if st.len() > 0 {
        let top = prev.1[st.len() - 1];
        assert(top.0 < 3);
        match shallower_before(secs, si, 3) {
            Some(pi) => {
                lemma_bottom_kept(adv, i, ex, pi, si);
                if st.len() > 1 {
                    assert(prev.1[0].0 < prev.1[st.len() - 1].0);
                }
                assert(st.len() == 1);
                assert(st[0] == prev.1[0]);
            },
            None => {
                let j = choose|j: int| 0 <= j < si && (#[trigger] prev.1[st.len() - 1]).0 == tree_level(secs[j]);
                assert(secs[j].level >= 3);
            },
        }
    }
}

proof fn lemma_adventures_rows_show(advs: Seq<Adventure>, ex: Seq<Seq<char>>, n: nat, i: int, node: CampNode)
    requires
        0 <= i < n <= advs.len(),
        shows(adventure_rows(advs[i], i as usize, ex), node),
    ensures
        shows(adventures_rows(advs, ex, n), node),
    decreases n,
{
    if i < n - 1 {
        lemma_adventures_rows_show(advs, ex, (n - 1) as nat, i, node);
    }
    lemma_shows_concat(adventures_rows(advs, ex, (n - 1) as nat), adventure_rows(advs[n - 1], (n - 1) as usize, ex), node);
}

proof fn lemma_group_shows(adv: Adventure, i: usize, ex: Seq<Seq<char>>, g: AdventureGroupKind, node: CampNode)
    requires
        ex.contains(adv_key(adv.id)),
        shows(group_rows(adv, i, g, ex), node),
    ensures
        shows(adventure_rows(adv, i, ex), node),
{
    let g0 = group_rows(adv, i, AdventureGroupKind::Sections, ex);
    let g1 = group_rows(adv, i, AdventureGroupKind::Scenes, ex);
    let g2 = group_rows(adv, i, AdventureGroupKind::Floorplans, ex);
    let g3 = group_rows(adv, i, AdventureGroupKind::NpcPortraits, ex);
    let g4 = group_rows(adv, i, AdventureGroupKind::NpcDocs, ex);
    if g == AdventureGroupKind::Sections {
        lemma_shows_concat(g0, g1, node);
    } else if g == AdventureGroupKind::Scenes {
        lemma_shows_concat(g0, g1, node);
    }
    if g == AdventureGroupKind::Sections || g == AdventureGroupKind::Scenes || g == AdventureGroupKind::Floorplans {
        lemma_shows_concat(g0 + g1, g2, node);
    }
    if g != AdventureGroupKind::NpcDocs {
        lemma_shows_concat(g0 + g1 + g2, g3, node);
    }
    lemma_shows_concat(g0 + g1 + g2 + g3, g4, node);
    let hdr = seq![tree_row(CampNode::Adventure(i), 1, true, true)];
    lemma_shows_concat(hdr, g0 + g1 + g2 + g3 + g4, node);
}

/// Adventure `i`'s own rows show `node`, so the tree does once the
/// Adventures section is expanded.
proof fn lemma_in_adventures(c: CampaignOutline, ex: Seq<Seq<char>>, i: int, node: CampNode)
    requires
        0 <= i < c.adventures@.len(),
        ex.contains("Adventures"@),
        shows(adventure_rows(c.adventures@[i], i as usize, ex), node),
    ensures
        shows(camp_tree_rows(c, ex), node),
{
    lemma_adventures_rows_show(c.adventures@, ex, c.adventures@.len(), i, node);
    lemma_section_shows(c, CampSection::Adventures, ex, node);
}

/// Every list of the campaign has a length that fits in `usize`, as the
/// length of a `Vec` does.
pub open spec fn counts_fit(c: CampaignOutline) -> bool {
    &&& c.pcs@.len() <= usize::MAX
    &&& c.npcs@.len() <= usize::MAX
    &&& c.locations@.len() <= usize::MAX
    &&& c.saved_encounters@.len() <= usize::MAX
    &&& c.saved_npcs@.len() <= usize::MAX
    &&& c.saved_towns@.len() <= usize::MAX
    &&& c.adventures@.len() <= usize::MAX
    &&& forall|a: int|
        0 <= a < c.adventures@.len() ==> (#[trigger] c.adventures@[a]).sections@.len() <= usize::MAX
            && c.adventures@[a].scenes@.len() <= usize::MAX && c.adventures@[a].floorplans@.len() <= usize::MAX
            && c.adventures@[a].npc_portraits@.len() <= usize::MAX && c.adventures@[a].npc_docs@.len()
            <= usize::MAX
}

proof fn lemma_adventure_revealed(c: CampaignOutline, ex: Seq<Seq<char>>, i: int)
    requires
        0 <= i < c.adventures@.len(),
        counts_fit(c),
    ensures
        forall|k: int| 0 <= k < adventure_cands(c.adventures@[i], i as usize).len()
            ==> cand_revealed(c, ex, #[trigger] adventure_cands(c.adventures@[i], i as usize)[k]),
{
    let adv = c.adventures@[i];
    let iu = i as usize;
    assert(iu as int == i);
    assert(adv.sections@.len() <= usize::MAX);
    let head = seq![(adv.name@, seq!["Adventures"@], CampNode::Adventure(iu))];
    let secs = Seq::new(
        adv.sections@.len(),
        |si: int| (adv.sections@[si].heading@, section_search_keys(adv, si), CampNode::AdventureSection(iu, si as usize)),
    );
    let a1 = asset_cands(adv, iu, AdventureGroupKind::Scenes);
    let a2 = asset_cands(adv, iu, AdventureGroupKind::Floorplans);
    let a3 = asset_cands(adv, iu, AdventureGroupKind::NpcPortraits);
    let a4 = asset_cands(adv, iu, AdventureGroupKind::NpcDocs);
    let all = adventure_cands(adv, iu);
    assert(all == head + secs + a1 + a2 + a3 + a4);
    assert forall|k: int| 0 <= k < all.len() implies cand_revealed(c, ex, #[trigger] all[k]) by {
        let x = all[k];
        if all_expanded(x.1, ex) && !(x.2 is Location) && (x.2 matches CampNode::AdventureSection(a, si)
            ==> c.adventures@[a as int].sections@[si as int].level <= 3) {
            assert(ex.contains(x.1[0]));
            assert(x.1[0] == "Adventures"@);
            if k == 0 {
                let rows = adventure_rows(adv, iu, ex);
                assert(rows[0].node == x.2);
                lemma_in_adventures(c, ex, i, x.2);
            } else {
                assert(ex.contains(x.1[1]));
                assert(ex.contains(x.1[2]));
                assert(x.1[1] == adv_key(adv.id));
                let g = if k < 1 + secs.len() {
                    AdventureGroupKind::Sections
                } else if k < 1 + secs.len() + a1.len() {
                    AdventureGroupKind::Scenes
                } else if k < 1 + secs.len() + a1.len() + a2.len() {
                    AdventureGroupKind::Floorplans
                } else if k < 1 + secs.len() + a1.len() + a2.len() + a3.len() {
                    AdventureGroupKind::NpcPortraits
                } else {
                    AdventureGroupKind::NpcDocs
                };
                assert(x.1[2] == group_key(adv.id, g));
                let leaves = group_leaves(adv, iu, g, ex);
                if g == AdventureGroupKind::Sections {
                    let si = k - 1;
                    assert(x == secs[si]);
                    assert(x.2 == CampNode::AdventureSection(iu, si as usize));
                    assert(c.adventures@[iu as int].sections@[(si as usize) as int].level <= 3);
                    let lv = adv.sections@[si].level;
                    if lv > 2 {
                        lemma_shallower_range(adv.sections@, si, lv);
                        match shallower_before(adv.sections@, si, lv) {
                            Some(pi) => {
                                assert(x.1.len() == 4);
                                assert(ex.contains(x.1[3]));
                            },
                            None => {},
                        }
                    }
                    lemma_section_row_shows(adv, iu, ex, si);
                } else {
                    let off = if g == AdventureGroupKind::Scenes {
                        1 + secs.len()
                    } else if g == AdventureGroupKind::Floorplans {
                        1 + secs.len() + a1.len()
                    } else if g == AdventureGroupKind::NpcPortraits {
                        1 + secs.len() + a1.len() + a2.len()
                    } else {
                        1 + secs.len() + a1.len() + a2.len() + a3.len()
                    };
                    let ai = k - off;
                    assert(x == asset_cands(adv, iu, g)[ai]);
                    assert(leaves[ai].node == x.2);
                }
                let grp = group_rows(adv, iu, g, ex);
                assert(group_count(adv, g) > 0);
                lemma_shows_concat(seq![tree_row(CampNode::AdventureGroup(iu, g), 2, true, true)], leaves, x.2);
                assert(grp == seq![tree_row(CampNode::AdventureGroup(iu, g), 2, true, true)] + leaves);
                lemma_group_shows(adv, iu, ex, g, x.2);
                lemma_in_adventures(c, ex, i, x.2);
            }
        }
    }
}

proof fn lemma_adventures_revealed(c: CampaignOutline, ex: Seq<Seq<char>>, n: nat)
    requires
        n <= c.adventures@.len(),
        counts_fit(c),
    ensures
        forall|k: int| 0 <= k < adventures_cands(c.adventures@, n).len()
            ==> cand_revealed(c, ex, #[trigger] adventures_cands(c.adventures@, n)[k]),
    decreases n,
{
    if n > 0 {
        lemma_adventures_revealed(c, ex, (n - 1) as nat);
        lemma_adventure_revealed(c, ex, n - 1);
        let prev = adventures_cands(c.adventures@, (n - 1) as nat);
        let last = adventure_cands(c.adventures@[n - 1], (n - 1) as usize);
        let all = adventures_cands(c.adventures@, n);
        assert forall|k: int| 0 <= k < all.len() implies cand_revealed(c, ex, #[trigger] all[k]) by {
            if k < prev.len() {
                assert(all[k] == prev[k]);
            } else {
                assert(all[k] == last[k - prev.len()]);
            }
        }
    }
}

/// The `/` search's promise: expanding the keys of any candidate it can
/// land on puts that candidate's node in the Campaign tree, whatever else
/// is expanded — for every candidate but a location (the tree has no
/// Locations section) and a heading deeper than `###` (its grandparents
/// are not expanded).
pub proof fn lemma_search_keys_reveal(c: CampaignOutline, ex: Seq<Seq<char>>, k: int)
    requires
        counts_fit(c),
        0 <= k < search_cands(c).len(),
        all_expanded(search_cands(c)[k].1, ex),
        !(search_cands(c)[k].2 is Location),
        search_cands(c)[k].2 matches CampNode::AdventureSection(a, si) ==> c.adventures@[a as int].sections@[si as int].level <= 3,
    ensures
        shows(camp_tree_rows(c, ex), search_cands(c)[k].2),
{
    lemma_pcs_npcs_towns_revealed(c, ex);
    lemma_adventures_revealed(c, ex, c.adventures@.len());
    lemma_encounters_revealed(c, ex, c.saved_encounters@.len());
    lemma_saved_npcs_revealed(c, ex, c.saved_npcs@.len());
    let p0 = pc_cands(c);
    let p1 = npc_cands(c);
    let p2 = adventures_cands(c.adventures@, c.adventures@.len());
    let p3 = location_cands(c);
    let p4 = encounter_cands(c.saved_encounters@, c.saved_encounters@.len());
    let p5 = town_cands(c);
    let p6 = saved_npc_cands(c.saved_npcs@, c.saved_npcs@.len());
    let all = search_cands(c);
    assert(all == p0 + p1 + p2 + p3 + p4 + p5 + p6);
    let x = all[k];
    let l0 = p0.len() as int;
    let l1 = l0 + p1.len();
    let l2 = l1 + p2.len();
    let l3 = l2 + p3.len();
    let l4 = l3 + p4.len();
    let l5 = l4 + p5.len();
    if k < l0 {
        assert(x == p0[k]);
    } else if k < l1 {
        assert(x == p1[k - l0]);
    } else if k < l2 {
        assert(x == p2[k - l1]);
    } else if k < l3 {
        assert(x == p3[k - l2]);
    } else if k < l4 {
        assert(x == p4[k - l3]);
    } else if k < l5 {
        assert(x == p5[k - l4]);
    } else {
        assert(x == p6[k - l5]);
    }
}

// ------------------------------------------------------- tree navigation

/// The expand-key of a tree node: a section's id, an adventure's or a
/// group's key, a section's key when it has children; none for any other
/// node or an index out of range.
pub open spec fn node_expand_key(c: CampaignOutline, node: CampNode) -> Option<Seq<char>> {
    match node {
        CampNode::Section(sec) => Some(camp_section_id(sec)@),
        CampNode::Adventure(i) => if i < c.adventures@.len() {
            Some(adv_key(c.adventures@[i as int].id))
        } else {
            None
        },
        CampNode::AdventureGroup(i, k) => if i < c.adventures@.len() {
            Some(group_key(c.adventures@[i as int].id, k))
        } else {
            None
        },
        CampNode::AdventureSection(i, si) => if i < c.adventures@.len() && si < c.adventures@[i as int].sections@.len()
            && has_children(c.adventures@[i as int], si as int) {
            Some(section_key(c.adventures@[i as int].id, c.adventures@[i as int].sections@[si as int].line_start))
        } else {
            None
        },
        _ => None,
    }
}

/// The key that expands or collapses `node`, if it has one.
pub fn expand_key_for_node(camp: &CampaignOutline, node: &CampNode) -> (r: Option<String>)
    ensures
        match r {
            Some(k) => node_expand_key(*camp, *node) == Some(k@),
            None => node_expand_key(*camp, *node) is None,
        },
{
    match node {
        CampNode::Section(sec) => Some(String::from_str(sec.id())),
        CampNode::Adventure(i) => {
            if *i < camp.adventures.len() {
                Some(adventure_key(camp.adventures[*i].id))
            } else {
                None
            }
        },
        CampNode::AdventureGroup(i, k) => {
            if *i < camp.adventures.len() {
                Some(adventure_group_key(camp.adventures[*i].id, *k))
            } else {
                None
            }
        },
        CampNode::AdventureSection(i, si) => {
            if *i < camp.adventures.len() && *si < camp.adventures[*i].sections.len() {
                let adv = &camp.adventures[*i];
                if section_has_children(adv, *si) {
                    Some(adventure_section_key(adv.id, adv.sections[*si].line_start))
                } else {
                    None
                }
            } else {
                None
            }
        },
        _ => None,
    }
}

/// `ex` with each of `keys` that it lacks appended, in order.
pub open spec fn with_keys(ex: Seq<Seq<char>>, keys: Seq<Seq<char>>) -> Seq<Seq<char>>
    decreases keys.len(),
{
    if keys.len() == 0 {
        ex
    } else {
        let e = with_keys(ex, keys.drop_last());
        if e.contains(keys.last()) {
            e
        } else {
            e.push(keys.last())
        }
    }
}

proof fn lemma_with_keys_contains(ex: Seq<Seq<char>>, keys: Seq<Seq<char>>)
    ensures
        forall|x: Seq<char>| #[trigger] with_keys(ex, keys).contains(x) <==> (ex.contains(x) || keys.contains(x)),
    decreases keys.len(),
{
    if keys.len() > 0 {
        lemma_with_keys_contains(ex, keys.drop_last());
        let e = with_keys(ex, keys.drop_last());
        let l = keys.last();
        assert forall|x: Seq<char>| #[trigger] with_keys(ex, keys).contains(x) <==> (ex.contains(x) || keys.contains(x)) by {
            if keys.drop_last().contains(x) {
                let k = choose|k: int| 0 <= k < keys.drop_last().len() && keys.drop_last()[k] == x;
                assert(keys[k] == x);
            }
            if keys.contains(x) && x != l {
                let k = choose|k: int| 0 <= k < keys.len() && keys[k] == x;
                assert(keys.drop_last()[k] == x);
            }
            assert(keys[keys.len() - 1] == l);
            if !e.contains(l) {
                assert(e.push(l)[e.len() as int] == l);
                if e.contains(x) {
                    let k = choose|k: int| 0 <= k < e.len() && e[k] == x;
                    assert(e.push(l)[k] == x);
                }
                if e.push(l).contains(x) && x != l {
                    let k = choose|k: int| 0 <= k < e.len() + 1 && e.push(l)[k] == x;
                    assert(e[k] == x);
                }
            }
        }
    }
}

/// Opens the path to a search hit: appends each of `keys` that
/// `expanded` lacks, in order. Afterwards every key is expanded.
pub fn expand_path(expanded: &mut Vec<String>, keys: &Vec<String>)
    ensures
        str_views(final(expanded)@) == with_keys(str_views(old(expanded)@), str_views(keys@)),
        all_expanded(str_views(keys@), str_views(final(expanded)@)),
{
    let ghost ex0 = str_views(expanded@);
    let ghost ks = str_views(keys@);
    let mut i: usize = 0;
    assert(ks.take(0) =~= Seq::<Seq<char>>::empty());
    while i < keys.len()
        invariant
            i <= keys@.len(),
            ks == str_views(keys@),
            str_views(expanded@) == with_keys(ex0, ks.take(i as int)),
        decreases keys@.len() - i,
    {
        assert(ks.take(i + 1).drop_last() =~= ks.take(i as int));
        assert(ks.take(i + 1).last() == keys@[i as int]@);
        if !contains_str(expanded, keys[i].as_str()) {
            let ghost before = expanded@;
            expanded.push(keys[i].clone());
            assert(str_views(expanded@) =~= str_views(before).push(keys@[i as int]@));
        }
        i = i + 1;
    }
    assert(ks.take(i as int) =~= ks);
    proof {
        lemma_with_keys_contains(ex0, ks);
        assert forall|t: int| 0 <= t < ks.len() implies str_views(expanded@).contains(#[trigger] ks[t]) by {
            assert(ks.contains(ks[t]));
        }
    }
}

/// Two nodes are the same row target: equal, a placeholder's message
/// compared by its text.
pub open spec fn same_node(a: CampNode, b: CampNode) -> bool {
    match (a, b) {
        (CampNode::Placeholder { section: s1, msg: m1 }, CampNode::Placeholder { section: s2, msg: m2 }) => s1
            == s2 && m1@ == m2@,
        _ => a == b,
    }
}

fn nodes_equal(a: &CampNode, b: &CampNode) -> (r: bool)
    ensures
        r == same_node(*a, *b),
{
    match (a, b) {
        (CampNode::Section(x), CampNode::Section(y)) => *x == *y,
        (CampNode::Pc(x), CampNode::Pc(y)) => *x == *y,
        (CampNode::Adventure(x), CampNode::Adventure(y)) => *x == *y,
        (CampNode::Npc(x), CampNode::Npc(y)) => *x == *y,
        (CampNode::Location(x), CampNode::Location(y)) => *x == *y,
        (CampNode::SavedForge(k1, x), CampNode::SavedForge(k2, y)) => *k1 == *k2 && *x == *y,
        (CampNode::AdventureGroup(x, k1), CampNode::AdventureGroup(y, k2)) => *x == *y && *k1 == *k2,
        (CampNode::AdventureSection(x, i), CampNode::AdventureSection(y, j)) => *x == *y && *i == *j,
        (CampNode::AdventureAsset(x, k1, i), CampNode::AdventureAsset(y, k2, j)) => *x == *y && *k1 == *k2 && *i
            == *j,
        (
            CampNode::Placeholder { section: s1, msg: m1 },
            CampNode::Placeholder { section: s2, msg: m2 },
        ) => *s1 == *s2 && crate::text::str_eq(m1, m2),
        _ => false,
    }
}

/// The row of the tree that is for `node`: the first such.
pub fn tree_position(tree: &Vec<CampTreeItem>, node: &CampNode) -> (r: Option<usize>)
    ensures
        match r {
            Some(i) => i < tree@.len() && same_node(tree@[i as int].node, *node) && forall|j: int|
                0 <= j < i ==> !same_node(#[trigger] tree@[j].node, *node),
            None => forall|j: int| 0 <= j < tree@.len() ==> !same_node(#[trigger] tree@[j].node, *node),
        },
{
    let mut i: usize = 0;
    while i < tree.len()
        invariant
            i <= tree@.len(),
            forall|j: int| 0 <= j < i ==> !same_node(#[trigger] tree@[j].node, *node),
        decreases tree@.len() - i,
    {
        if nodes_equal(&tree[i].node, node) {
            return Some(i);
        }
        i = i + 1;
    }
    None
}

/// A cursor or expand key of the tree panes.
#[derive(Debug, Clone, Copy, PartialEq, Eq, Structural)]
pub enum NavKey {
    Down,
    Up,
    PageDown,
    PageUp,
    Home,
    End,
}

/// How far a page key moves the cursor in a pane `h` rows high: the
/// height less two rows of overlap, at least one.
pub open spec fn page_step(h: u16) -> int {
    if h as int - 2 >= 1 {
        h as int - 2
    } else {
        1
    }
}

/// Where the cursor goes on `key` in a tree of `len` rows.
pub open spec fn cursor_after(cursor: int, len: int, h: u16, key: NavKey) -> int {
    let last = if len >= 1 { len - 1 } else { 0 };
    match key {
        NavKey::Down => if cursor + 1 < len { cursor + 1 } else { cursor },
        NavKey::Up => if cursor > 0 { cursor - 1 } else { cursor },
        NavKey::PageDown => if cursor + page_step(h) < last { cursor + page_step(h) } else { last },
        NavKey::PageUp => if cursor - page_step(h) > 0 { cursor - page_step(h) } else { 0 },
        NavKey::Home => 0,
        NavKey::End => last,
    }
}

/// The cursor after `key` in a tree of `len` rows, in a pane `h` rows
/// high.
pub fn nav_cursor(cursor: usize, len: usize, h: u16, key: NavKey) -> (r: usize)
    requires
        key == NavKey::PageDown ==> cursor + page_step(h) <= usize::MAX,
    ensures
        r == cursor_after(cursor as int, len as int, h, key),
{
    let last = if len >= 1 { len - 1 } else { 0 };
    let step: usize = if h >= 3 { (h - 2) as usize } else { 1 };
    match key {
        NavKey::Down => if len >= 1 && cursor < len - 1 { cursor + 1 } else { cursor },
        NavKey::Up => if cursor > 0 { cursor - 1 } else { cursor },
        NavKey::PageDown => if cursor + step < last { cursor + step } else { last },
        NavKey::PageUp => if cursor > step { cursor - step } else { 0 },
        NavKey::Home => 0,
        NavKey::End => last,
    }
}

/// The cursor stays on a row: in a non-empty tree, a cursor on a row
/// lands on a row after any key.
pub proof fn lemma_cursor_stays_in_tree(cursor: int, len: int, h: u16, key: NavKey)
    requires
        0 <= cursor < len,
    ensures
        0 <= cursor_after(cursor, len, h, key) < len,
{
}

/// `ex` with the first copy of `k` taken out when it holds `k`, or with
/// `k` appended when it does not.
pub open spec fn toggled_key(ex: Seq<Seq<char>>, k: Seq<char>) -> Seq<Seq<char>> {
    if ex.contains(k) {
        ex.remove(first_key(ex, k))
    } else {
        ex.push(k)
    }
}

/// Toggles key `k` (space or enter on an expandable row).
pub fn toggle_key(expanded: &mut Vec<String>, k: String)
    ensures
        str_views(final(expanded)@) == toggled_key(str_views(old(expanded)@), k@),
{
    let ghost ex = str_views(expanded@);
    let mut i: usize = 0;
    while i < expanded.len()
        invariant
            i <= expanded@.len(),
            ex == str_views(expanded@),
            expanded@ == old(expanded)@,
            forall|j: int| 0 <= j < i ==> ex[j] != k@,
        decreases expanded@.len() - i,
    {
        if crate::text::str_eq(expanded[i].as_str(), k.as_str()) {
            proof {
                lemma_first_key(ex, k@, i as int);
                assert(ex.contains(k@)) by {
                    assert(ex[i as int] == k@);
                }
            }
            expanded.remove(i);
            assert(str_views(expanded@) =~= ex.remove(i as int));
            return;
        }
        i = i + 1;
    }
    let ghost kv = k@;
    expanded.push(k);
    assert(str_views(expanded@) =~= ex.push(kv));
}

/// Collapses key `k` (left on an open row): takes out its first copy and
/// says whether there was one.
pub fn collapse_key(expanded: &mut Vec<String>, k: &str) -> (collapsed: bool)
    ensures
        collapsed == str_views(old(expanded)@).contains(k@),
        collapsed ==> str_views(final(expanded)@) == str_views(old(expanded)@).remove(
            first_key(str_views(old(expanded)@), k@),
        ),
        !collapsed ==> final(expanded)@ == old(expanded)@,
{
    let ghost ex = str_views(expanded@);
    let mut i: usize = 0;
    while i < expanded.len()
        invariant
            i <= expanded@.len(),
            ex == str_views(expanded@),
            expanded@ == old(expanded)@,
            forall|j: int| 0 <= j < i ==> ex[j] != k@,
        decreases expanded@.len() - i,
    {
        if crate::text::str_eq(expanded[i].as_str(), k) {
            proof {
                lemma_first_key(ex, k@, i as int);
                assert(ex[i as int] == k@);
            }
            expanded.remove(i);
            assert(str_views(expanded@) =~= ex.remove(i as int));
            return true;
        }
        i = i + 1;
    }
    false
}

/// Toggling a key in an expanded list without duplicates flips whether
/// that key is expanded, leaves every other key as it was, and keeps the
/// list without duplicates.
pub proof fn lemma_toggle_key_flips(ex: Seq<Seq<char>>, k: Seq<char>)
    requires
        keys_distinct(ex),
    ensures
        toggled_key(ex, k).contains(k) == !ex.contains(k),
        forall|x: Seq<char>| x != k ==> (#[trigger] toggled_key(ex, k).contains(x) == ex.contains(x)),
        keys_distinct(toggled_key(ex, k)),
{
    let t = toggled_key(ex, k);
    if ex.contains(k) {
        let p = first_key(ex, k);
        lemma_first_key_bounds(ex, k);
        assert(p < ex.len()) by {
            let w = choose|w: int| 0 <= w < ex.len() && ex[w] == k;
            if p >= ex.len() {
                assert(ex[w] != k);
            }
        }
        assert forall|x: Seq<char>| #[trigger] t.contains(x) == (ex.contains(x) && x != k) by {
            if t.contains(x) {
                let w = choose|w: int| 0 <= w < t.len() && t[w] == x;
                if w < p {
                    assert(ex[w] == x);
                } else {
                    assert(ex[w + 1] == x);
                    assert(ex[p] == k);
                }
            }
            if ex.contains(x) && x != k {
                let w = choose|w: int| 0 <= w < ex.len() && ex[w] == x;
                if w < p {
                    assert(t[w] == x);
                } else {
                    assert(w != p);
                    assert(t[w - 1] == x);
                }
            }
        }
        assert forall|a: int, b: int| 0 <= a < b < t.len() implies t[a] != t[b] by {
            let a2 = if a < p { a } else { a + 1 };
            let b2 = if b < p { b } else { b + 1 };
            assert(t[a] == ex[a2] && t[b] == ex[b2]);
        }
    } else {
        assert(t[ex.len() as int] == k);
        assert forall|x: Seq<char>| x != k implies (#[trigger] t.contains(x) == ex.contains(x)) by {
            if t.contains(x) {
                let w = choose|w: int| 0 <= w < t.len() && t[w] == x;
                assert(ex[w] == x);
            }
            if ex.contains(x) {
                let w = choose|w: int| 0 <= w < ex.len() && ex[w] == x;
                assert(t[w] == x);
            }
        }
        assert forall|a: int, b: int| 0 <= a < b < t.len() implies t[a] != t[b] by {
            if b == ex.len() {
                assert(t[a] == ex[a]);
                assert(ex.contains(ex[a]));
            } else {
                assert(t[a] == ex[a] && t[b] == ex[b]);
            }
        }
    }
}

/// The first row, from row `i` on, that is for `node`.
pub open spec fn first_row_from(tree: Seq<CampTreeItem>, node: CampNode, i: int) -> Option<int>
    decreases tree.len() - i,
{
    if i < 0 || i >= tree.len() {
        None
    } else if same_node(tree[i].node, node) {
        Some(i)
    } else {
        first_row_from(tree, node, i + 1)
    }
}

proof fn lemma_first_row(tree: Seq<CampTreeItem>, node: CampNode, i: int, r: Option<int>)
    requires
        0 <= i <= tree.len(),
        forall|j: int| i <= j < tree.len() && (r matches Some(x) ==> j < x) ==> !same_node(#[trigger] tree[j].node, node),
        r matches Some(x) ==> i <= x < tree.len() && same_node(tree[x].node, node),
    ensures
        first_row_from(tree, node, i) == r,
    decreases tree.len() - i,
{
    if i < tree.len() {
        if !(r matches Some(x) && x == i) {
            lemma_first_row(tree, node, i + 1, r);
        }
    }
}

fn first_row(tree: &Vec<CampTreeItem>, node: &CampNode) -> (r: Option<usize>)
    ensures
        match first_row_from(tree@, *node, 0) {
            Some(x) => r == Some(x as usize),
            None => r is None,
        },
{
    let r = tree_position(tree, node);
    proof {
        match r {
            Some(x) => lemma_first_row(tree@, *node, 0, Some(x as int)),
            None => lemma_first_row(tree@, *node, 0, None),
        }
    }
    r
}

/// The top-level section a node sits under; none for a section header.
pub open spec fn parent_section_of(node: CampNode) -> Option<CampSection> {
    match node {
        CampNode::Section(_) => None,
        CampNode::Pc(_) => Some(CampSection::Pcs),
        CampNode::Npc(_) => Some(CampSection::Npcs),
        CampNode::Location(_) => Some(CampSection::Locations),
        CampNode::SavedForge(_, _) => Some(CampSection::SavedForge),
        CampNode::Placeholder { section, .. } => Some(section),
        _ => Some(CampSection::Adventures),
    }
}

/// The row the cursor jumps to when it leaves `node` for its parent: for
/// a heading deeper than `##`, the row of its nearest shallower heading
/// when that is shown; otherwise the row of the top-level section the
/// node sits under. None for a section header, a heading that does not
/// exist, or a parent that has no row.
pub open spec fn parent_row(c: CampaignOutline, tree: Seq<CampTreeItem>, node: CampNode) -> Option<int> {
    match node {
        CampNode::AdventureSection(a, si) => if a < c.adventures@.len() && si < c.adventures@[a as int].sections@.len() {
            let secs = c.adventures@[a as int].sections@;
            let level = secs[si as int].level;
            let up = if level > 2 {
                match shallower_before(secs, si as int, level) {
                    Some(p) => first_row_from(tree, CampNode::AdventureSection(a, p as usize), 0),
                    None => None,
                }
            } else {
                None
            };
            match up {
                Some(r) => Some(r),
                None => first_row_from(tree, CampNode::Section(CampSection::Adventures), 0),
            }
        } else {
            None
        },
        _ => match parent_section_of(node) {
            Some(s) => first_row_from(tree, CampNode::Section(s), 0),
            None => None,
        },
    }
}

/// The row of `node`'s parent in `tree` (see `parent_row`).
pub fn parent_tree_index(camp: &CampaignOutline, tree: &Vec<CampTreeItem>, node: &CampNode) -> (r: Option<usize>)
    ensures
        match parent_row(*camp, tree@, *node) {
            Some(x) => r == Some(x as usize),
            None => r is None,
        },
{
    let target = match node {
        CampNode::Section(_) => {
            return None;
        },
        CampNode::Pc(_) => CampSection::Pcs,
        CampNode::Npc(_) => CampSection::Npcs,
        CampNode::Location(_) => CampSection::Locations,
        CampNode::SavedForge(_, _) => CampSection::SavedForge,
        CampNode::Placeholder { section, .. } => *section,
        CampNode::AdventureSection(a, si) => {
            if *a >= camp.adventures.len() || *si >= camp.adventures[*a].sections.len() {
                return None;
            }
            let secs = &camp.adventures[*a].sections;
            let level = secs[*si].level;
            if level > 2 {
                proof {
                    lemma_shallower_range(secs@, *si as int, level);
                }
                match find_shallower(secs, *si, level) {
                    Some(p) => {
                        match first_row(tree, &CampNode::AdventureSection(*a, p)) {
                            Some(x) => {
                                return Some(x);
                            },
                            None => {},
                        }
                    },
                    None => {},
                }
            }
            CampSection::Adventures
        },
        _ => CampSection::Adventures,
    };
    first_row(tree, &CampNode::Section(target))
}

/// The labels of the Campaign tree as the program gives them: the group
/// headers and the expand-key names of the groups, the asset and
/// saved-artefact glyphs, the messages under empty sections, and which
/// sections expand.
pub proof fn lemma_tree_labels()
    ensures
        group_label(AdventureGroupKind::Sections)@ == "Sections"@,
        group_label(AdventureGroupKind::Scenes)@ == "Scenes"@,
        group_label(AdventureGroupKind::Floorplans)@ == "Floorplans"@,
        group_label(AdventureGroupKind::NpcPortraits)@ == "NPC portraits"@,
        group_label(AdventureGroupKind::NpcDocs)@ == "NPC docs"@,
        group_kind_name(AdventureGroupKind::Sections)@ == "Sections"@,
        group_kind_name(AdventureGroupKind::Scenes)@ == "Scenes"@,
        group_kind_name(AdventureGroupKind::Floorplans)@ == "Floorplans"@,
        group_kind_name(AdventureGroupKind::NpcPortraits)@ == "NpcPortraits"@,
        group_kind_name(AdventureGroupKind::NpcDocs)@ == "NpcDocs"@,
        asset_glyph(AdventureAssetKind::Scene)@ == "\u{1F3DE}"@,
        asset_glyph(AdventureAssetKind::Floorplan)@ == "\u{1F5FA}"@,
        asset_glyph(AdventureAssetKind::NpcPortrait)@ == "\u{1F464}"@,
        asset_glyph(AdventureAssetKind::NpcDoc)@ == "\u{1F4DC}"@,
        saved_glyph(SavedKind::Encounter)@ == "\u{2694}"@,
        saved_glyph(SavedKind::Npc)@ == "\u{263B}"@,
        saved_glyph(SavedKind::Town)@ == "\u{2302}"@,
        saved_glyph(SavedKind::Weather)@ == "\u{2600}"@,
        empty_message(CampSection::Pcs)@ == "(no PCs yet — press n to add)"@,
        empty_message(CampSection::Adventures)@ == "(no adventures — press I to import a directory)"@,
        empty_message(CampSection::Npcs)@ == "(persistent NPC roster — v0.4.0)"@,
        empty_message(CampSection::Locations)@ == "(no locations yet — press n to add)"@,
        empty_message(CampSection::SavedForge)@ == "(empty — press S on a Forge result to save)"@,
        section_expandable(CampSection::Pcs),
        section_expandable(CampSection::Adventures),
        section_expandable(CampSection::Npcs),
        section_expandable(CampSection::Locations),
        section_expandable(CampSection::SavedForge),
        !section_expandable(CampSection::Calendar),
        !section_expandable(CampSection::Factions),
{
}

/// The Campaign tree lists its sections in a fixed order — Calendar,
/// PCs, Adventures, NPCs, Factions, Forge log — each header at depth 0,
/// and a collapsed tree is just those six headers.
pub proof fn lemma_tree_sections(c: CampaignOutline)
    ensures
        camp_tree_rows(c, Seq::empty()).len() == 6,
        forall|k: int| 0 <= k < 6 ==> (#[trigger] camp_tree_rows(c, Seq::empty())[k]).depth == 0
            && !camp_tree_rows(c, Seq::empty())[k].expanded,
        camp_tree_rows(c, Seq::empty())[0].node == CampNode::Section(CampSection::Calendar),
        camp_tree_rows(c, Seq::empty())[1].node == CampNode::Section(CampSection::Pcs),
        camp_tree_rows(c, Seq::empty())[2].node == CampNode::Section(CampSection::Adventures),
        camp_tree_rows(c, Seq::empty())[3].node == CampNode::Section(CampSection::Npcs),
        camp_tree_rows(c, Seq::empty())[4].node == CampNode::Section(CampSection::Factions),
        camp_tree_rows(c, Seq::empty())[5].node == CampNode::Section(CampSection::SavedForge),
{
    let ex = Seq::<Seq<char>>::empty();
    let t = camp_tree_rows(c, ex);
    assert(t =~= seq![
        tree_row(CampNode::Section(CampSection::Calendar), 0, false, false),
        tree_row(CampNode::Section(CampSection::Pcs), 0, true, false),
        tree_row(CampNode::Section(CampSection::Adventures), 0, true, false),
        tree_row(CampNode::Section(CampSection::Npcs), 0, true, false),
        tree_row(CampNode::Section(CampSection::Factions), 0, false, false),
        tree_row(CampNode::Section(CampSection::SavedForge), 0, true, false),
    ]);
}

} // verus!
