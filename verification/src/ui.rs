//! Screen-layout and navigation rules of the terminal front end: tabs,
//! campaign-tree sections, pane widths, scrolling and small formatters.

use vstd::prelude::*;
use vstd::string::*;
use vstd::utf8::is_char_boundary;
use crate::text::{chars_of, decimal, has_prefix, push_char, push_decimal, str_eq, string_of};
use crate::keyed::{contains_str, set_insert, sorted_keys, str_views};

verus! {

#[derive(Debug, Clone, Copy, PartialEq, Eq, Structural)]
pub enum Tab {
    /// The shared world: locations + the major NPCs.
    World,
    Forge,
    Campaign,
    Lore,
    Inspire,
    /// Combat — populated from the tag pool + active campaign PCs.
    Combat,
}

/// Title of a tab.
pub open spec fn tab_title(t: Tab) -> &'static str {
    match t {
        Tab::World => "World",
        Tab::Forge => "Forge",
        Tab::Campaign => "Campaign",
        Tab::Lore => "Lore",
        Tab::Inspire => "Inspire",
        Tab::Combat => "Combat",
    }
}

/// The tabs shown in the tab bar, in order.
pub open spec fn shown_tabs() -> Seq<Tab> {
    seq![Tab::World, Tab::Campaign, Tab::Combat, Tab::Lore]
}

/// Position of `t` in the tab bar (0 for tabs not shown there).
pub open spec fn tab_position(t: Tab) -> int {
    match t {
        Tab::World => 0,
        Tab::Campaign => 1,
        Tab::Combat => 2,
        Tab::Lore => 3,
        _ => 0,
    }
}

impl Tab {
    pub fn name(self) -> (r: &'static str)
        ensures
            r == tab_title(self),
    {
        match self {
            Tab::World => "World",
            Tab::Forge => "Forge",
            Tab::Campaign => "Campaign",
            Tab::Lore => "Lore",
            Tab::Inspire => "Inspire",
            Tab::Combat => "Combat",
        }
    }

    /// The tabs of the tab bar: World, Campaign, Combat, Lore.
    pub fn all() -> (r: [Tab; 4])
        ensures
            r@ == shown_tabs(),
    {
        [Tab::World, Tab::Campaign, Tab::Combat, Tab::Lore]
    }

    fn position(self) -> (i: usize)
        ensures
            i == tab_position(self),
    {
        let all = Tab::all();
        let mut i: usize = 0;
        while i < 4
            invariant
                all@ == shown_tabs(),
                i <= 4,
                forall|k: int| 0 <= k < i ==> all@[k] != self,
            decreases 4 - i,
        {
            if all[i] == self {
                return i;
            }
            i = i + 1;
        }
        0
    }

    /// The tab after this one in the tab bar, wrapping around.
    pub fn next(self) -> (r: Tab)
        ensures
            r == tab_after(self),
    {
        let all = Tab::all();
        let i = self.position();
        all[(i + 1) % 4]
    }

    /// The tab before this one in the tab bar, wrapping around.
    pub fn prev(self) -> (r: Tab)
        ensures
            r == tab_before(self),
    {
        let all = Tab::all();
        let i = self.position();
        all[(i + 4 - 1) % 4]
    }
}

/// The tab after `t` on the bar.
pub open spec fn tab_after(t: Tab) -> Tab {
    shown_tabs()[(tab_position(t) + 1) % 4]
}

/// The tab before `t` on the bar.
pub open spec fn tab_before(t: Tab) -> Tab {
    shown_tabs()[(tab_position(t) + 3) % 4]
}

/// On the tab bar, stepping forward then back (or back then forward)
/// returns to the same tab, and four steps forward go all the way round.
pub proof fn lemma_tab_cycle(t: Tab)
    requires
        shown_tabs().contains(t),
    ensures
        tab_before(tab_after(t)) == t,
        tab_after(tab_before(t)) == t,
        tab_after(tab_after(tab_after(tab_after(t)))) == t,
{
    assert(shown_tabs()[0] == Tab::World);
    assert(shown_tabs()[1] == Tab::Campaign);
    assert(shown_tabs()[2] == Tab::Combat);
    assert(shown_tabs()[3] == Tab::Lore);
    let i = choose|i: int| 0 <= i < shown_tabs().len() && shown_tabs()[i] == t;
}

/// Discriminator for the Forge tab's generator list.
#[derive(Debug, Clone, Copy, PartialEq, Eq)]
pub enum ForgeGen {
    WeatherToday,
    WeatherMonth,
    Names,
    Npc,
    Encounter,
    Town,
    /// Placeholder: a generator that is not available yet.
    NotYet(&'static str),
}

/// Which pane of a two-pane tab owns the cursor.
#[derive(Debug, Clone, Copy, PartialEq, Eq, Structural)]
pub enum Focus {
    Left,
    Right,
}

/// Cardinal direction for grid navigation on the Combat tab.
#[derive(Debug, Clone, Copy, PartialEq, Eq, Structural)]
pub enum Dir {
    Left,
    Right,
    Up,
    Down,
}

/// One editable position on a rendered character sheet.
#[derive(Debug, Clone)]
pub struct EditableField {
    pub line: usize,
    pub field_id: String,
    pub label: String,
    pub current: String,
}

/// Sections in the Campaign tree.
#[derive(Debug, Clone, Copy, PartialEq, Eq, Structural)]
pub enum CampSection {
    Pcs,
    Adventures,
    Npcs,
    Locations,
    Calendar,
    Factions,
    /// Saved forge artefacts.
    SavedForge,
}

/// Identifier (and expand-key) of a campaign section.
pub open spec fn camp_section_id(s: CampSection) -> &'static str {
    match s {
        CampSection::Pcs => "PCs",
        CampSection::Adventures => "Adventures",
        CampSection::Npcs => "NPCs",
        CampSection::Locations => "Locations",
        CampSection::Calendar => "Calendar",
        CampSection::Factions => "Factions",
        CampSection::SavedForge => "Forge log",
    }
}

impl CampSection {
    pub fn id(self) -> (r: &'static str)
        ensures
            r == camp_section_id(self),
    {
        match self {
            CampSection::Pcs => "PCs",
            CampSection::Adventures => "Adventures",
            CampSection::Npcs => "NPCs",
            CampSection::Locations => "Locations",
            CampSection::Calendar => "Calendar",
            CampSection::Factions => "Factions",
            CampSection::SavedForge => "Forge log",
        }
    }

    /// The sections of the campaign tree, in display order (Locations live
    /// on the World tab).
    pub fn all() -> (r: [CampSection; 6])
        ensures
            r@ == seq![
                CampSection::Calendar,
                CampSection::Pcs,
                CampSection::Adventures,
                CampSection::Npcs,
                CampSection::Factions,
                CampSection::SavedForge,
            ],
    {
        [
            CampSection::Calendar,
            CampSection::Pcs,
            CampSection::Adventures,
            CampSection::Npcs,
            CampSection::Factions,
            CampSection::SavedForge,
        ]
    }
}

/// Left pane width for a `cols`-wide screen at slider `width` (1-6):
/// `(cols - 4) × width / 10`, at least 20, leaving at least 20 to the
/// right where possible.
pub open spec fn left_width(cols: u16, width: u8) -> int {
    let avail: int = if cols >= 4 { cols - 4 } else { 0 };
    let raw: int = ((avail * width / 10) as u16) as int;
    let right_room: int = if cols >= 20 { cols - 20 } else { 0 };
    let lo: int = if raw >= 20 { raw } else { 20 };
    if lo <= right_room { lo } else { right_room }
}

/// Translate the 1-6 width slider into left / right column counts.
pub fn compute_left_right(cols: u16, width: u8) -> (r: (u16, u16))
    ensures
        r.0 == left_width(cols, width),
        r.1 == if cols >= r.0 { cols - r.0 } else { 0 },
{
    let avail: u32 = if cols >= 4 { (cols - 4) as u32 } else { 0 };
    assert(avail * (width as u32) <= 65535 * 255) by (nonlinear_arith)
        requires
            avail <= 65535,
            width <= 255,
    ;
    let raw = (avail * width as u32 / 10) as u16;
    let right_room: u16 = if cols >= 20 { cols - 20 } else { 0 };
    let lo: u16 = if raw >= 20 { raw } else { 20 };
    let left: u16 = if lo <= right_room { lo } else { right_room };
    let right: u16 = if cols >= left { cols - left } else { 0 };
    (left, right)
}

/// Top-of-pane scroll offset that keeps `idx` near the middle of a pane
/// of `h` rows over `total` rows; 0 when everything fits.
pub open spec fn scroll_top(idx: int, total: int, h: int) -> int {
    if total <= h {
        0
    } else if idx < h / 2 {
        0
    } else if idx + h / 2 >= total {
        total - h
    } else {
        idx - h / 2
    }
}

pub fn scroll_offset(idx: usize, total: usize, h: usize) -> (r: usize)
    ensures
        r == scroll_top(idx as int, total as int, h as int),
{
    if total <= h {
        return 0;
    }
    let half = h / 2;
    if idx < half {
        0
    } else if idx >= total - half {
        total - h
    } else {
        idx - half
    }
}

/// `s` cut to `n` chars with a trailing '…' when longer than `n`.
pub open spec fn truncated(s: Seq<char>, n: int) -> Seq<char> {
    if s.len() <= n {
        s
    } else {
        s.take(if n >= 1 { n - 1 } else { 0 }).push('…')
    }
}

/// Truncate to `n` chars (with an ellipsis when shortened) or return it
/// unchanged.
pub fn truncate_or_pad(s: &str, n: usize) -> (r: String)
    ensures
        r@ == truncated(s@, n as int),
{
    let v = chars_of(s);
    if v.len() <= n {
        return string_of(&v, 0, v.len());
    }
    let keep = if n >= 1 { n - 1 } else { 0 };
    let mut r = string_of(&v, 0, keep);
    push_char(&mut r, '…');
    assert(v@.subrange(0, keep as int) =~= v@.take(keep as int));
    r
}

/// Colour of an encounter attitude.
pub open spec fn attitude_hue(a: Seq<char>) -> u8 {
    if a == "HOSTILE"@ {
        196
    } else if a == "ANTAGONISTIC"@ {
        208
    } else if a == "NEUTRAL"@ {
        244
    } else if a == "POSITIVE"@ {
        76
    } else if a == "FRIENDLY"@ {
        46
    } else {
        252
    }
}

pub fn attitude_color(a: &str) -> (c: u8)
    ensures
        c == attitude_hue(a@),
{
    if str_eq(a, "HOSTILE") {
        196
    } else if str_eq(a, "ANTAGONISTIC") {
        208
    } else if str_eq(a, "NEUTRAL") {
        244
    } else if str_eq(a, "POSITIVE") {
        76
    } else if str_eq(a, "FRIENDLY") {
        46
    } else {
        252
    }
}

/// A number with a unit suffix ("12 m"), blank for 0.
pub fn fmt_opt_num(n: u32, unit: &str) -> (r: String)
    ensures
        r@ == if n == 0 { Seq::<char>::empty() } else { decimal(n as nat) + seq![' '] + unit@ },
{
    let mut r = String::new();
    if n != 0 {
        push_decimal(&mut r, n as u64);
        push_char(&mut r, ' ');
        r.append(unit);
    }
    r
}

/// One-line description shown for an unexpanded canon category.
pub open spec fn blurb_of(cat: Seq<char>) -> Option<&'static str> {
    if cat == "Spells"@ {
        Some("Active casting via the Casting attribute. Each spell has a domain (Fire, Water, Earth, Air, Life, Black, Ice, Lava, Magic, Perception, Protection, Summoning), a DR, a Mental Fortitude cost, and an Encumbrance value that limits how many spells can be active at once.")
    } else if cat == "Rituals"@ {
        Some("Slow, ingredient-driven magic resolved with the Magick Rituals skill (under MIND -> Nature Knowledge). The wiki currently lists 11 rituals.")
    } else if cat == "Potions"@ {
        Some("Alchemy: brewed in ~1 hour, last ~1 hour, resolved with the Alchemy skill (under MIND -> Nature Knowledge). The wiki currently lists 9 potions.")
    } else {
        None
    }
}

pub fn category_blurb(cat: &str) -> (r: Option<&'static str>)
    ensures
        r == blurb_of(cat@),
{
    if str_eq(cat, "Spells") {
        Some("Active casting via the Casting attribute. Each spell has a domain (Fire, Water, Earth, Air, Life, Black, Ice, Lava, Magic, Perception, Protection, Summoning), a DR, a Mental Fortitude cost, and an Encumbrance value that limits how many spells can be active at once.")
    } else if str_eq(cat, "Rituals") {
        Some("Slow, ingredient-driven magic resolved with the Magick Rituals skill (under MIND -> Nature Knowledge). The wiki currently lists 11 rituals.")
    } else if str_eq(cat, "Potions") {
        Some("Alchemy: brewed in ~1 hour, last ~1 hour, resolved with the Alchemy skill (under MIND -> Nature Knowledge). The wiki currently lists 9 potions.")
    } else {
        None
    }
}

/// `needle` occurs in `bytes` at index `j`.
pub open spec fn bytes_at(bytes: Seq<u8>, needle: Seq<u8>, j: int) -> bool {
    0 <= j && j + needle.len() <= bytes.len() && bytes.subrange(j, j + needle.len()) == needle
}

/// The first index at or after `from` where `needle` occurs in `bytes`.
pub fn find_close(bytes: &[u8], from: usize, needle: &[u8]) -> (r: Option<usize>)
    ensures
        match r {
            Some(i) => from <= i && bytes_at(bytes@, needle@, i as int) && forall|j: int|
                from <= j < i ==> !#[trigger] bytes_at(bytes@, needle@, j),
            None => forall|j: int| from <= j ==> !#[trigger] bytes_at(bytes@, needle@, j),
        },
{
    let mut i = from;
    while i <= bytes.len() && needle.len() <= bytes.len() - i
        invariant
            from <= i,
            forall|j: int| from <= j < i ==> !#[trigger] bytes_at(bytes@, needle@, j),
        decreases bytes@.len() + 1 - i,
    {
        let mut k: usize = 0;
        let mut same = true;
        while k < needle.len()
            invariant
                i + needle@.len() <= bytes@.len(),
                bytes@.len() == bytes.len(),
                k <= needle@.len(),
                same == forall|t: int| 0 <= t < k ==> bytes@[i + t] == needle@[t],
            decreases needle@.len() - k,
        {
            if bytes[i + k] != needle[k] {
                same = false;
            }
            k = k + 1;
        }
        if same {
            assert(bytes@.subrange(i as int, i + needle@.len()) =~= needle@);
            return Some(i);
        }
        proof {
            if bytes_at(bytes@, needle@, i as int) {
                let t = choose|t: int| 0 <= t < needle@.len() && bytes@[i + t] != needle@[t];
                assert(bytes@.subrange(i as int, i + needle@.len())[t] == bytes@[i + t]);
            }
        }
        i = i + 1;
    }
    None
}

/// The byte index of the next char boundary after `from` in `line` (the
/// string's byte length when there is none before it).
pub fn next_char_boundary(line: &str, from: usize) -> (r: usize)
    requires
        from < usize::MAX,
    ensures
        r <= (line.spec_bytes().len() as usize),
        r == (line.spec_bytes().len() as usize) || (r >= from + 1 && is_char_boundary(line.spec_bytes(), r as int)),
        forall|j: int| from + 1 <= j < r ==> !is_char_boundary(line.spec_bytes(), j),
        from + 1 <= (line.spec_bytes().len() as usize) ==> from + 1 <= r,
{
    let n = line.len();
    let mut j = from + 1;
    while j < n && !line.is_char_boundary(j)
        invariant
            n == (line.spec_bytes().len() as usize),
            from + 1 <= j,
            forall|k: int| from + 1 <= k < j ==> !is_char_boundary(line.spec_bytes(), k),
        decreases n - j,
    {
        j = j + 1;
    }
    if j < n { j } else { n }
}

/// The largest of `ids` (0 for none).
pub open spec fn max_id(ids: Seq<u64>) -> u64
    decreases ids.len(),
{
    if ids.len() == 0 {
        0
    } else {
        let m = max_id(ids.drop_last());
        if ids.last() > m { ids.last() } else { m }
    }
}

proof fn lemma_max_id(ids: Seq<u64>)
    ensures
        forall|i: int| 0 <= i < ids.len() ==> ids[i] <= max_id(ids),
        ids.len() > 0 ==> exists|i: int| 0 <= i < ids.len() && ids[i] == max_id(ids),
    decreases ids.len(),
{
    if ids.len() > 0 {
        lemma_max_id(ids.drop_last());
        let d = ids.drop_last();
        assert forall|i: int| 0 <= i < ids.len() implies ids[i] <= max_id(ids) by {
            if i < ids.len() - 1 {
                assert(ids[i] == d[i]);
            }
        }
        if ids.last() <= max_id(d) && d.len() > 0 {
            let i = choose|i: int| 0 <= i < d.len() && d[i] == max_id(d);
            assert(ids[i] == d[i]);
        }
    }
}

/// One past the highest id in use, so a new entry never reuses a
/// deleted one's id; 1 when there are none.
pub fn next_id(ids: &Vec<u64>) -> (r: u64)
    requires
        forall|i: int| 0 <= i < ids@.len() ==> ids@[i] < u64::MAX,
    ensures
        r == (if ids@.len() == 0 { 1 } else { max_id(ids@) + 1 }),
        forall|i: int| 0 <= i < ids@.len() ==> ids@[i] < r,
{
    proof {
        lemma_max_id(ids@);
    }
    if ids.len() == 0 {
        return 1;
    }
    let mut m: u64 = 0;
    let mut i: usize = 0;
    while i < ids.len()
        invariant
            i <= ids@.len(),
            m == max_id(ids@.take(i as int)),
        decreases ids@.len() - i,
    {
        assert(ids@.take(i + 1).drop_last() =~= ids@.take(i as int));
        if ids[i] > m {
            m = ids[i];
        }
        i = i + 1;
    }
    assert(ids@.take(ids@.len() as int) =~= ids@);
    assert(m < u64::MAX) by {
        let k = choose|k: int| 0 <= k < ids@.len() && ids@[k] == max_id(ids@);
        assert(ids@[k] < u64::MAX);
    }
    m + 1
}

} // verus!

verus! {

// ------------------------------------------------------- inline markdown

/// How a span of a markdown line is shown.
#[derive(Debug, Clone, Copy, PartialEq, Eq, Structural)]
pub enum MdStyle {
    Plain,
    Bold,
    Italic,
    Code,
}

/// One span of a markdown line: its style and its byte range.
#[derive(Debug, Clone, Copy, PartialEq, Eq, Structural)]
pub struct MdSpan {
    pub style: MdStyle,
    pub start: usize,
    pub end: usize,
}

/// The first index at or after `from` where `needle` occurs in `b`.
#[verifier::opaque]
pub open spec fn first_from(b: Seq<u8>, needle: Seq<u8>, from: int) -> Option<int> {
    if exists|j: int| from <= j && bytes_at(b, needle, j) {
        Some(choose|j: int| from <= j && bytes_at(b, needle, j) && forall|k: int| from <= k < j ==> !bytes_at(b, needle, k))
    } else {
        None
    }
}

/// The first char boundary of `b` at or after `j` (its length when there
/// is none).
pub open spec fn boundary_from(b: Seq<u8>, j: int) -> int
    decreases b.len() - j,
{
    if j >= b.len() {
        b.len() as int
    } else if is_char_boundary(b, j) {
        j
    } else {
        boundary_from(b, j + 1)
    }
}

/// `u8::is_ascii_whitespace`.
pub open spec fn ascii_ws(x: u8) -> bool {
    x == 32 || x == 9 || x == 10 || x == 12 || x == 13
}

/// The spans of the markdown line with bytes `b`, from byte `i`: `**bold**`,
/// `*italic*` (not opened by `* `), `` `code` `` where a closing mark
/// follows, and otherwise one char at a time as plain text.
pub open spec fn md_spans(b: Seq<u8>, i: int) -> Seq<(MdStyle, int, int)>
    decreases b.len() - i,
{
    if i < 0 || i >= b.len() {
        Seq::empty()
    } else if i + 1 < b.len() && b[i] == 42 && b[i + 1] == 42 && first_from(b, seq![42u8, 42u8], i + 2) is Some {
        let e = first_from(b, seq![42u8, 42u8], i + 2).unwrap();
        if i < e + 2 <= b.len() {
            seq![(MdStyle::Bold, i + 2, e)] + md_spans(b, e + 2)
        } else {
            Seq::empty()
        }
    } else if b[i] == 42 && i + 1 < b.len() && !ascii_ws(b[i + 1]) && first_from(b, seq![42u8], i + 1) is Some {
        let e = first_from(b, seq![42u8], i + 1).unwrap();
        if i < e + 1 <= b.len() {
            seq![(MdStyle::Italic, i + 1, e)] + md_spans(b, e + 1)
        } else {
            Seq::empty()
        }
    } else if b[i] == 96 && first_from(b, seq![96u8], i + 1) is Some {
        let e = first_from(b, seq![96u8], i + 1).unwrap();
        if i < e + 1 <= b.len() {
            seq![(MdStyle::Code, i + 1, e)] + md_spans(b, e + 1)
        } else {
            Seq::empty()
        }
    } else {
        let n = boundary_from(b, i + 1);
        if i < n <= b.len() {
            seq![(MdStyle::Plain, i, n)] + md_spans(b, n)
        } else {
            Seq::empty()
        }
    }
}

/// `find_close` as `first_from`.
fn find_first_from(b: &[u8], from: usize, needle: &[u8]) -> (r: Option<usize>)
    ensures
        match r {
            Some(i) => first_from(b@, needle@, from as int) == Some(i as int) && from <= i && i + needle@.len()
                <= b@.len(),
            None => first_from(b@, needle@, from as int) is None,
        },
{
    reveal(first_from);
    let r = find_close(b, from, needle);
    match r {
        Some(i) => {
            proof {
                let c = choose|j: int|
                    from <= j && bytes_at(b@, needle@, j) && forall|k: int| from <= k < j ==> !bytes_at(b@, needle@, k);
                assert(from <= i && bytes_at(b@, needle@, i as int));
                if c < i {
                    assert(!bytes_at(b@, needle@, c));
                } else if c > i {
                    assert(!bytes_at(b@, needle@, i as int));
                }
            }
            Some(i)
        },
        None => None,
    }
}

proof fn lemma_boundary_from(b: Seq<u8>, j: int, r: int)
    requires
        j <= r <= b.len(),
        r == b.len() || is_char_boundary(b, r),
        forall|k: int| j <= k < r ==> !is_char_boundary(b, k),
    ensures
        boundary_from(b, j) == r,
    decreases r - j,
{
    if j < r {
        lemma_boundary_from(b, j + 1, r);
    }
}

/// The spans of a markdown line: bold, italic, code and plain text, in
/// order, as byte ranges of `line`.
pub fn inline_md(line: &str) -> (r: Vec<MdSpan>)
    ensures
        r@.len() == md_spans(line.spec_bytes(), 0).len(),
        forall|k: int|
            0 <= k < r@.len() ==> {
                let (s, a, e) = md_spans(line.spec_bytes(), 0)[k];
                &&& (#[trigger] r@[k]).style == s
                &&& r@[k].start == a
                &&& r@[k].end == e
            },
{
    let bytes = line.as_bytes();
    let ghost b = line.spec_bytes();
    let n = bytes.len();
    let bb: Vec<u8> = vec![42u8, 42u8];
    let star: Vec<u8> = vec![42u8];
    let tick: Vec<u8> = vec![96u8];
    assert(bb@ =~= seq![42u8, 42u8]);
    assert(star@ =~= seq![42u8]);
    assert(tick@ =~= seq![96u8]);
    let mut out: Vec<MdSpan> = Vec::new();
    let mut i: usize = 0;
    let ghost done: Seq<(MdStyle, int, int)> = Seq::empty();
    while i < n
        invariant
            bytes@ == b,
            b == line.spec_bytes(),
            n == b.len(),
            bb@ == seq![42u8, 42u8],
            star@ == seq![42u8],
            tick@ == seq![96u8],
            i <= n,
            done + md_spans(b, i as int) == md_spans(b, 0),
            out@.len() == done.len(),
            forall|k: int|
                0 <= k < out@.len() ==> {
                    let (s, a, e) = done[k];
                    &&& (#[trigger] out@[k]).style == s
                    &&& out@[k].start == a
                    &&& out@[k].end == e
                },
        decreases n - i,
    {
        if n - i > 1 && bytes[i] == 42 && bytes[i + 1] == 42 {
            match find_first_from(bytes, i + 2, bb.as_slice()) {
                Some(end) => {
                    let sp = MdSpan { style: MdStyle::Bold, start: i + 2, end };
                    proof {
                        done = done.push((MdStyle::Bold, i + 2, end as int));
                    }
                    out.push(sp);
                    i = end + 2;
                    continue;
                },
                None => {},
            }
        }
        if bytes[i] == 42 && n - i > 1 && !(bytes[i + 1] == 32 || bytes[i + 1] == 9 || bytes[i + 1] == 10
            || bytes[i + 1] == 12 || bytes[i + 1] == 13) {
            match find_first_from(bytes, i + 1, star.as_slice()) {
                Some(end) => {
                    let sp = MdSpan { style: MdStyle::Italic, start: i + 1, end };
                    proof {
                        done = done.push((MdStyle::Italic, i + 1, end as int));
                    }
                    out.push(sp);
                    i = end + 1;
                    continue;
                },
                None => {},
            }
        }
        if bytes[i] == 96 {
            match find_first_from(bytes, i + 1, tick.as_slice()) {
                Some(end) => {
                    let sp = MdSpan { style: MdStyle::Code, start: i + 1, end };
                    proof {
                        done = done.push((MdStyle::Code, i + 1, end as int));
                    }
                    out.push(sp);
                    i = end + 1;
                    continue;
                },
                None => {},
            }
        }
        let next = next_char_boundary(line, i);
        proof {
            assert(b.len() as usize == n);
            assert(i + 1 <= next);
            assert(next <= b.len());
            lemma_boundary_from(b, i + 1, next as int);
        }
        let sp = MdSpan { style: MdStyle::Plain, start: i, end: next };
        proof {
            done = done.push((MdStyle::Plain, i as int, next as int));
        }
        out.push(sp);
        i = next;
    }
    assert(md_spans(b, i as int) =~= Seq::<(MdStyle, int, int)>::empty());
    assert(done =~= md_spans(b, 0));
    out
}

} // verus!

verus! {

// --------------------------------------------------------------- regions

/// The six kingdom districts, in canonical wiki order.
pub open spec fn district_names() -> Seq<Seq<char>> {
    seq!["Amaronir"@, "Rauinir"@, "Aleresir"@, "Feronir"@, "Calaronir"@, "Mieronir"@]
}

/// The six kingdom districts, in canonical wiki order.
pub fn districts() -> (r: [&'static str; 6])
    ensures
        r@.len() == 6,
        forall|i: int| 0 <= i < 6 ==> (#[trigger] r@[i])@ == district_names()[i],
{
    ["Amaronir", "Rauinir", "Aleresir", "Feronir", "Calaronir", "Mieronir"]
}

/// The districts among `ds` that occur in `items`, in the order of `ds`.
pub open spec fn present(ds: Seq<Seq<char>>, items: Seq<Seq<char>>) -> Seq<Seq<char>>
    decreases ds.len(),
{
    if ds.len() == 0 {
        Seq::empty()
    } else {
        present(ds.drop_last(), items) + if items.contains(ds.last()) { seq![ds.last()] } else { Seq::empty() }
    }
}

/// The named regions of `items` that are not districts.
pub open spec fn other_regions(items: Seq<Seq<char>>) -> Set<Seq<char>> {
    Set::new(|r: Seq<char>| items.contains(r) && r.len() > 0 && !district_names().contains(r))
}

/// Whether `s` holds a string equal to `x`.
fn holds(v: &Vec<String>, x: &str) -> (b: bool)
    ensures
        b == str_views(v@).contains(x@),
{
    contains_str(v, x)
}

/// Whether `s` is one of the six districts.
fn is_district_name(s: &str) -> (b: bool)
    ensures
        b == district_names().contains(s@),
{
    let ds = districts();
    let mut is_district = false;
    let mut t: usize = 0;
    while t < 6
        invariant
            ds@.len() == 6,
            forall|q: int| 0 <= q < 6 ==> (#[trigger] ds@[q])@ == district_names()[q],
            t <= 6,
            is_district == district_names().take(t as int).contains(s@),
        decreases 6 - t,
    {
        let ghost a = district_names().take(t as int);
        let ghost b2 = district_names().take(t + 1);
        assert(b2 =~= a.push(ds@[t as int]@));
        if str_eq(ds[t], s) {
            is_district = true;
        }
        proof {
            if b2.contains(s@) && !a.contains(s@) {
                let j = choose|j: int| 0 <= j < b2.len() && b2[j] == s@;
                if j < t {
                    assert(a[j] == s@);
                }
            }
            if a.contains(s@) {
                let j = choose|j: int| 0 <= j < a.len() && a[j] == s@;
                assert(b2[j] == s@);
            }
            if ds@[t as int]@ == s@ {
                assert(b2[t as int] == s@);
            }
        }
        t = t + 1;
    }
    assert(district_names().take(6) =~= district_names());
    is_district
}

/// Region headers for the World tab: the districts that occur, in wiki
/// order; then the other named regions, sorted, each once; then the
/// empty region ("any region") last, if it occurs.
pub fn region_order(items: &Vec<String>) -> (r: Vec<String>)
    ensures
        ({
            let its = str_views(items@);
            let v = str_views(r@);
            let d = present(district_names(), its);
            let tail = if its.contains(Seq::<char>::empty()) { 1int } else { 0int };
            let m = v.len() - d.len() - tail;
            &&& v.len() >= d.len() + tail
            &&& v.take(d.len() as int) == d
            &&& sorted_keys(v.subrange(d.len() as int, d.len() + m))
            &&& v.subrange(d.len() as int, d.len() + m).to_set() == other_regions(its)
            &&& tail == 1 ==> v.last() == Seq::<char>::empty()
        }),
{
    let ghost its = str_views(items@);
    let ds = districts();
    let mut out: Vec<String> = Vec::new();
    let mut k: usize = 0;
    while k < 6
        invariant
            its == str_views(items@),
            ds@.len() == 6,
            forall|i: int| 0 <= i < 6 ==> (#[trigger] ds@[i])@ == district_names()[i],
            k <= 6,
            str_views(out@) == present(district_names().take(k as int), its),
        decreases 6 - k,
    {
        assert(district_names().take(k + 1).drop_last() =~= district_names().take(k as int));
        assert(district_names().take(k + 1).last() == ds@[k as int]@);
        if holds(items, ds[k]) {
            let ghost before = str_views(out@);
            let s = String::from_str(ds[k]);
            let ghost sv = s@;
            out.push(s);
            assert(str_views(out@) =~= before.push(sv));
        } else {
            assert(present(district_names().take(k + 1), its) =~= present(district_names().take(k as int), its));
        }
        k = k + 1;
    }
    assert(district_names().take(6) =~= district_names());
    let ghost dn = str_views(out@);
    let mut others: Vec<String> = Vec::new();
    assert(str_views(others@).to_set() =~= Set::<Seq<char>>::empty());
    let mut has_empty = false;
    let mut i: usize = 0;
    while i < items.len()
        invariant
            its == str_views(items@),
            ds@.len() == 6,
            forall|t: int| 0 <= t < 6 ==> (#[trigger] ds@[t])@ == district_names()[t],
            i <= items@.len(),
            sorted_keys(str_views(others@)),
            str_views(others@).to_set() == Set::new(
                |r: Seq<char>| its.take(i as int).contains(r) && r.len() > 0 && !district_names().contains(r),
            ),
            has_empty == its.take(i as int).contains(Seq::<char>::empty()),
        decreases items@.len() - i,
    {
        let ghost x = its[i as int];
        assert(its.take(i + 1) =~= its.take(i as int).push(x));
        let ghost pa = its.take(i as int);
        let ghost pb = its.take(i + 1);
        assert forall|r: Seq<char>| pb.contains(r) <==> (pa.contains(r) || r == x) by {
            if pb.contains(r) {
                let j = choose|j: int| 0 <= j < pb.len() && pb[j] == r;
                if j < i {
                    assert(pa[j] == r);
                }
            }
            if pa.contains(r) {
                let j = choose|j: int| 0 <= j < pa.len() && pa[j] == r;
                assert(pb[j] == r);
            }
            if r == x {
                assert(pb[i as int] == r);
            }
        }
        assert(pb.contains(Seq::<char>::empty()) == (pa.contains(Seq::<char>::empty()) || x == Seq::<char>::empty()));
        let s = items[i].as_str();
        assert(s@ == x);
        if s.is_empty() {
            has_empty = true;
            assert(x =~= Seq::<char>::empty());
            assert(str_views(others@).to_set() =~= Set::new(
                |r: Seq<char>| its.take(i + 1).contains(r) && r.len() > 0 && !district_names().contains(r),
            ));
        } else {
            let is_district = is_district_name(s);
            let ghost before = str_views(others@).to_set();
            if !is_district {
                set_insert(&mut others, String::from_str(s));
            }
            assert(str_views(others@).to_set() =~= Set::new(
                |r: Seq<char>| its.take(i + 1).contains(r) && r.len() > 0 && !district_names().contains(r),
            ));
        }
        i = i + 1;
    }
    assert(its.take(its.len() as int) =~= its);
    let ghost ov = str_views(others@);
    let mut j: usize = 0;
    while j < others.len()
        invariant
            j <= others@.len(),
            ov == str_views(others@),
            str_views(out@) == dn + ov.take(j as int),
        decreases others@.len() - j,
    {
        let ghost before = str_views(out@);
        let s = others[j].clone();
        assert(s@ == ov[j as int]);
        out.push(s);
        assert(str_views(out@) =~= before.push(ov[j as int]));
        assert(ov.take(j + 1) =~= ov.take(j as int).push(ov[j as int]));
        assert(str_views(out@) =~= dn + ov.take(j + 1));
        j = j + 1;
    }
    assert(ov.take(ov.len() as int) =~= ov);
    let ghost mid = str_views(out@);
    if has_empty {
        out.push(String::new());
        assert(str_views(out@) =~= mid.push(Seq::<char>::empty()));
    }
    let ghost v = str_views(out@);
    assert(v.take(dn.len() as int) =~= dn);
    assert(v.subrange(dn.len() as int, (dn.len() + ov.len()) as int) =~= ov);
    out
}

/// Expand a leading `~` of a user-typed path to the home directory
/// `home`: `~/rest` becomes `home/rest`, a lone `~` becomes `home`.
pub fn expand_home(s: &str, home: &str) -> (r: String)
    ensures
        r@ == (if has_prefix(s@, seq!['~', '/']) {
            home@ + seq!['/'] + s@.skip(2)
        } else if s@ == seq!['~'] {
            home@
        } else {
            s@
        }),
{
    let v = chars_of(s);
    if v.len() >= 2 && v[0] == '~' && v[1] == '/' {
        assert(v@.take(2) =~= seq!['~', '/']);
        let mut r = String::from_str(home);
        push_char(&mut r, '/');
        let rest = string_of(&v, 2, v.len());
        r.append(rest.as_str());
        assert(v@.subrange(2, v@.len() as int) =~= v@.skip(2));
        return r;
    }
    proof {
        if has_prefix(v@, seq!['~', '/']) {
            assert(v@.take(2)[0] == v@[0] && v@.take(2)[1] == v@[1]);
        }
    }
    if v.len() == 1 && v[0] == '~' {
        assert(v@ =~= seq!['~']);
        return String::from_str(home);
    }
    proof {
        if v@ == seq!['~'] {
            assert(v@[0] == '~');
        }
    }
    String::from_str(s)
}

// ------------------------------------------------------- combat bands

/// Line `l` of a card, or nothing past its end.
pub open spec fn card_cell(card: Seq<Seq<char>>, l: int) -> Seq<char> {
    if 0 <= l < card.len() {
        card[l]
    } else {
        Seq::empty()
    }
}

/// Line `l` of a row of cards: their lines side by side, one space
/// between neighbours.
pub open spec fn stitched(chunk: Seq<Seq<Seq<char>>>, l: int) -> Seq<char>
    decreases chunk.len(),
{
    if chunk.len() == 0 {
        Seq::empty()
    } else if chunk.len() == 1 {
        card_cell(chunk[0], l)
    } else {
        stitched(chunk.drop_last(), l) + seq![' '] + card_cell(chunk.last(), l)
    }
}

/// The height of the tallest card of a row.
pub open spec fn tallest(chunk: Seq<Seq<Seq<char>>>) -> nat
    decreases chunk.len(),
{
    if chunk.len() == 0 {
        0
    } else {
        let t = tallest(chunk.drop_last());
        if chunk.last().len() > t { chunk.last().len() } else { t }
    }
}

/// The lines of one row of cards.
pub open spec fn chunk_lines(chunk: Seq<Seq<Seq<char>>>) -> Seq<Seq<char>> {
    Seq::new(tallest(chunk), |l: int| stitched(chunk, l))
}

/// The lines of a band of cards laid out `cols` to a row.
pub open spec fn band_lines(cards: Seq<Seq<Seq<char>>>, cols: nat) -> Seq<Seq<char>>
    decreases cards.len(),
{
    if cards.len() == 0 || cols == 0 {
        Seq::empty()
    } else if cards.len() <= cols {
        chunk_lines(cards)
    } else {
        chunk_lines(cards.take(cols as int)) + band_lines(cards.skip(cols as int), cols)
    }
}

/// Cards as plain values.
pub open spec fn cards_view(cards: Seq<Vec<String>>) -> Seq<Seq<Seq<char>>> {
    Seq::new(cards.len(), |i: int| str_views(cards[i]@))
}

/// One stitched line of the cards `from..to`.
fn stitch_line(cards: &Vec<Vec<String>>, from: usize, to: usize, l: usize) -> (r: String)
    requires
        from < to <= cards@.len(),
    ensures
        r@ == stitched(cards_view(cards@).subrange(from as int, to as int), l as int),
{
    let ghost cv = cards_view(cards@);
    let mut row = String::new();
    let mut ci: usize = from;
    while ci < to
        invariant
            from <= ci <= to <= cards@.len(),
            cv == cards_view(cards@),
            ci > from ==> row@ == stitched(cv.subrange(from as int, ci as int), l as int),
            ci == from ==> row@.len() == 0,
        decreases to - ci,
    {
        let ghost before = row@;
        if ci > from {
            push_char(&mut row, ' ');
        }
        let card = &cards[ci];
        if l < card.len() {
            row.append(card[l].as_str());
        }
        proof {
            let sub = cv.subrange(from as int, ci + 1);
            assert(sub.drop_last() =~= cv.subrange(from as int, ci as int));
            assert(sub.last() == str_views(cards@[ci as int]@));
            if ci == from {
                assert(sub.len() == 1);
                assert(row@ =~= card_cell(sub[0], l as int));
            } else {
                assert(row@ =~= stitched(sub.drop_last(), l as int) + seq![' '] + card_cell(sub.last(), l as int));
            }
        }
        ci = ci + 1;
    }
    row
}

/// The height of the tallest of the cards `from..to`.
fn tallest_of(cards: &Vec<Vec<String>>, from: usize, to: usize) -> (h: usize)
    requires
        from <= to <= cards@.len(),
    ensures
        h == tallest(cards_view(cards@).subrange(from as int, to as int)),
{
    let ghost cv = cards_view(cards@);
    let mut h: usize = 0;
    let mut ci: usize = from;
    assert(cv.subrange(from as int, from as int).len() == 0);
    while ci < to
        invariant
            from <= ci <= to <= cards@.len(),
            cv == cards_view(cards@),
            h == tallest(cv.subrange(from as int, ci as int)),
        decreases to - ci,
    {
        let sub = Ghost(cv.subrange(from as int, ci + 1));
        assert(sub@.drop_last() =~= cv.subrange(from as int, ci as int));
        assert(sub@.last() == str_views(cards@[ci as int]@));
        if cards[ci].len() > h {
            h = cards[ci].len();
        }
        ci = ci + 1;
    }
    h
}

/// Emit one band of the combat card grid: the cards in rows of `cols`,
/// each row as lines of its cards stitched side by side with one space
/// between, as many lines as its tallest card.
pub fn emit_combat_band(out: &mut Vec<String>, cards: &Vec<Vec<String>>, cols: usize)
    requires
        cols >= 1,
    ensures
        str_views(final(out)@) == str_views(old(out)@) + band_lines(cards_view(cards@), cols as nat),
{
    let ghost cv = cards_view(cards@);
    let mut s: usize = 0;
    assert(cv.skip(0) =~= cv);
    while s < cards.len()
        invariant
            cols >= 1,
            s <= cards@.len(),
            cv == cards_view(cards@),
            str_views(out@) + band_lines(cv.skip(s as int), cols as nat) == str_views(old(out)@) + band_lines(
                cv,
                cols as nat,
            ),
        decreases cards@.len() - s,
    {
        let e = if cards.len() - s <= cols { cards.len() } else { s + cols };
        let h = tallest_of(cards, s, e);
        let ghost chunk = cv.subrange(s as int, e as int);
        let ghost base = str_views(out@);
        let mut l: usize = 0;
        while l < h
            invariant
                s < e <= cards@.len(),
                cv == cards_view(cards@),
                chunk == cv.subrange(s as int, e as int),
                h == tallest(chunk),
                l <= h,
                str_views(out@) == base + chunk_lines(chunk).take(l as int),
            decreases h - l,
        {
            let line = stitch_line(cards, s, e, l);
            let ghost before = out@;
            out.push(line);
            assert(str_views(out@) =~= str_views(before).push(line@));
            assert(chunk_lines(chunk).take(l + 1) =~= chunk_lines(chunk).take(l as int).push(chunk_lines(chunk)[l as int]));
            l = l + 1;
        }
        assert(chunk_lines(chunk).take(h as int) =~= chunk_lines(chunk));
        proof {
            let rest = cv.skip(s as int);
            if rest.len() <= cols {
                assert(rest =~= chunk);
                assert(cv.skip(e as int).len() == 0);
            } else {
                assert(rest.take(cols as int) =~= chunk);
                assert(rest.skip(cols as int) =~= cv.skip(e as int));
            }
            assert(band_lines(cv.skip(e as int), cols as nat) == if e == cards@.len() { Seq::<Seq<char>>::empty() } else { band_lines(cv.skip(e as int), cols as nat) });
        }
        s = e;
    }
    assert(cv.skip(s as int).len() == 0);
    assert(str_views(out@) + band_lines(cv.skip(s as int), cols as nat) =~= str_views(out@));
}

// ------------------------------------------------------------------ laws

/// The scroll offset keeps the selected row in view: when the list does
/// not fit, the pane shows rows `top .. top + h` of the list, never past
/// its end, and the selected row is among them; a list that fits is not
/// scrolled.
pub proof fn lemma_scroll_keeps_selection_visible(idx: int, total: int, h: int)
    requires
        0 <= idx < total,
        h >= 1,
    ensures
        total <= h ==> scroll_top(idx, total, h) == 0,
        0 <= scroll_top(idx, total, h),
        total > h ==> scroll_top(idx, total, h) + h <= total,
        scroll_top(idx, total, h) <= idx < scroll_top(idx, total, h) + h,
{
}

/// The display tables as the program gives them: the tab titles, the
/// campaign sections' ids, the attitude colours (any other attitude is
/// light grey), the kingdom districts in wiki order, and the canon
/// category blurbs (no blurb for any other category).
pub proof fn lemma_display_tables(a: Seq<char>, cat: Seq<char>)
    ensures
        tab_title(Tab::World)@ == "World"@,
        tab_title(Tab::Forge)@ == "Forge"@,
        tab_title(Tab::Campaign)@ == "Campaign"@,
        tab_title(Tab::Lore)@ == "Lore"@,
        tab_title(Tab::Inspire)@ == "Inspire"@,
        tab_title(Tab::Combat)@ == "Combat"@,
        camp_section_id(CampSection::Pcs)@ == "PCs"@,
        camp_section_id(CampSection::Adventures)@ == "Adventures"@,
        camp_section_id(CampSection::Npcs)@ == "NPCs"@,
        camp_section_id(CampSection::Locations)@ == "Locations"@,
        camp_section_id(CampSection::Calendar)@ == "Calendar"@,
        camp_section_id(CampSection::Factions)@ == "Factions"@,
        camp_section_id(CampSection::SavedForge)@ == "Forge log"@,
        attitude_hue("HOSTILE"@) == 196,
        attitude_hue("ANTAGONISTIC"@) == 208,
        attitude_hue("NEUTRAL"@) == 244,
        attitude_hue("POSITIVE"@) == 76,
        attitude_hue("FRIENDLY"@) == 46,
        a != "HOSTILE"@ && a != "ANTAGONISTIC"@ && a != "NEUTRAL"@ && a != "POSITIVE"@ && a != "FRIENDLY"@
            ==> attitude_hue(a) == 252,
        district_names() == seq!["Amaronir"@, "Rauinir"@, "Aleresir"@, "Feronir"@, "Calaronir"@, "Mieronir"@],
        blurb_of("Spells"@) matches Some(t) && t@ == "Active casting via the Casting attribute. Each spell has a domain (Fire, Water, Earth, Air, Life, Black, Ice, Lava, Magic, Perception, Protection, Summoning), a DR, a Mental Fortitude cost, and an Encumbrance value that limits how many spells can be active at once."@,
        blurb_of("Rituals"@) matches Some(t) && t@ == "Slow, ingredient-driven magic resolved with the Magick Rituals skill (under MIND -> Nature Knowledge). The wiki currently lists 11 rituals."@,
        blurb_of("Potions"@) matches Some(t) && t@ == "Alchemy: brewed in ~1 hour, last ~1 hour, resolved with the Alchemy skill (under MIND -> Nature Knowledge). The wiki currently lists 9 potions."@,
        cat != "Spells"@ && cat != "Rituals"@ && cat != "Potions"@ ==> blurb_of(cat) is None,
{
    reveal_strlit("HOSTILE");
    reveal_strlit("ANTAGONISTIC");
    reveal_strlit("NEUTRAL");
    reveal_strlit("POSITIVE");
    reveal_strlit("FRIENDLY");
    reveal_strlit("Spells");
    reveal_strlit("Rituals");
    reveal_strlit("Potions");
    assert("ANTAGONISTIC"@.len() != "HOSTILE"@.len());
    assert("NEUTRAL"@ != "HOSTILE"@) by {
        assert("NEUTRAL"@[0] != "HOSTILE"@[0]);
    }
    assert("NEUTRAL"@.len() != "ANTAGONISTIC"@.len());
    assert("POSITIVE"@.len() != "HOSTILE"@.len());
    assert("POSITIVE"@.len() != "ANTAGONISTIC"@.len());
    assert("POSITIVE"@.len() != "NEUTRAL"@.len());
    assert("FRIENDLY"@.len() != "HOSTILE"@.len());
    assert("FRIENDLY"@.len() != "ANTAGONISTIC"@.len());
    assert("FRIENDLY"@.len() != "NEUTRAL"@.len());
    assert("FRIENDLY"@ != "POSITIVE"@) by {
        assert("FRIENDLY"@[0] != "POSITIVE"@[0]);
    }
    assert("Rituals"@ != "Spells"@) by {
        assert("Rituals"@[0] != "Spells"@[0]);
    }
    assert("Potions"@ != "Spells"@) by {
        assert("Potions"@[0] != "Spells"@[0]);
    }
    assert("Potions"@ != "Rituals"@) by {
        assert("Potions"@[0] != "Rituals"@[0]);
    }
}

/// The two panes share the screen: the left pane takes about `width`
/// tenths of it, but at least 20 columns and never so many that fewer
/// than 20 remain on the right; on a screen of 40 columns or more both
/// panes keep at least 20.
pub proof fn lemma_panes_keep_room(cols: u16, width: u8)
    ensures
        left_width(cols, width) >= 0,
        cols >= 20 ==> left_width(cols, width) <= cols - 20,
        cols >= 40 ==> 20 <= left_width(cols, width) <= cols - 20,
        cols < 20 ==> left_width(cols, width) == 0,
        ({
            let raw = ((if cols >= 4 { cols - 4 } else { 0 }) * width / 10) as u16 as int;
            cols >= 40 && 20 <= raw <= cols - 20 ==> left_width(cols, width) == raw
        }),
{
}

/// Truncating keeps a string that fits and cuts a longer one to exactly
/// `n` chars, its first `n - 1` followed by an ellipsis.
pub proof fn lemma_truncated_fits(s: Seq<char>, n: int)
    requires
        n >= 1,
    ensures
        s.len() <= n ==> truncated(s, n) == s,
        s.len() > n ==> truncated(s, n).len() == n && truncated(s, n).last() == '…' && truncated(s, n).take(n - 1)
            == s.take(n - 1),
{
    if s.len() > n {
        assert(truncated(s, n).take(n - 1) =~= s.take(n - 1));
    }
}

/// The tab bar's order: World, Campaign, Combat, Lore, wrapping round
/// both ways.
pub proof fn lemma_tab_order()
    ensures
        tab_after(Tab::World) == Tab::Campaign,
        tab_after(Tab::Campaign) == Tab::Combat,
        tab_after(Tab::Combat) == Tab::Lore,
        tab_after(Tab::Lore) == Tab::World,
        tab_before(Tab::World) == Tab::Lore,
        tab_before(Tab::Campaign) == Tab::World,
        tab_before(Tab::Combat) == Tab::Campaign,
        tab_before(Tab::Lore) == Tab::Combat,
{
}

} // verus!
