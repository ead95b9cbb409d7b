//! The Amar calendar — 13 months, 4 weeks per month, 7 days per week.
//! Year length: 13 × 4 × 7 = 364 days.

use vstd::prelude::*;
use vstd::string::*;
use crate::text::{
    all_digits, chars_of, decimal, digits_value, has_prefix, is_digit, is_whitespace, is_ws, lowercase,
    parse_digits, push_char, push_decimal, starts_with, to_lower,
};
use crate::keyed::str_views;

verus! {

pub const DAYS_PER_MONTH: u32 = 28;

pub const DAYS_PER_YEAR: u32 = 364;

/// Name of month `m` (1-13).
pub open spec fn month_name_of(m: u32) -> &'static str {
    if m == 1 {
        "Cal Amae"
    } else if m == 2 {
        "Elesi"
    } else if m == 3 {
        "Anashina"
    } else if m == 4 {
        "Gwendyll"
    } else if m == 5 {
        "MacGillan"
    } else if m == 6 {
        "Juba"
    } else if m == 7 {
        "Taroc"
    } else if m == 8 {
        "Man Peggon"
    } else if m == 9 {
        "Maleko"
    } else if m == 10 {
        "Fal Munir"
    } else if m == 11 {
        "Moltan"
    } else if m == 12 {
        "Kraagh"
    } else {
        "Mestronorpha"
    }
}

/// Name of week `w` of a month (1-4).
pub open spec fn week_name_of(w: u32) -> &'static str {
    if w == 1 {
        "InIelina"
    } else if w == 2 {
        "UrIelina"
    } else if w == 3 {
        "AlIelina"
    } else {
        "DeIelina"
    }
}

/// Name of day `d` of a week (1-7).
pub open spec fn day_name_of(d: u32) -> &'static str {
    if d == 1 {
        "Recolar"
    } else if d == 2 {
        "Mailatroz"
    } else if d == 3 {
        "Ztenasi"
    } else if d == 4 {
        "Staari"
    } else if d == 5 {
        "Tsankili"
    } else if d == 6 {
        "Fooradur"
    } else {
        "Liandra"
    }
}

/// Colour (xterm-256) of month `m` (1-13): its god's colour.
pub open spec fn month_color_of(m: u32) -> u8 {
    if m == 1 {
        231
    } else if m == 2 {
        254
    } else if m == 3 {
        34
    } else if m == 4 {
        200
    } else if m == 5 {
        99
    } else if m == 6 {
        202
    } else if m == 7 {
        250
    } else if m == 8 {
        130
    } else if m == 9 {
        179
    } else if m == 10 {
        220
    } else if m == 11 {
        214
    } else if m == 12 {
        244
    } else {
        240
    }
}

fn month_label(m: u32) -> (r: &'static str)
    ensures
        r == month_name_of(m),
{
    if m == 1 {
        "Cal Amae"
    } else if m == 2 {
        "Elesi"
    } else if m == 3 {
        "Anashina"
    } else if m == 4 {
        "Gwendyll"
    } else if m == 5 {
        "MacGillan"
    } else if m == 6 {
        "Juba"
    } else if m == 7 {
        "Taroc"
    } else if m == 8 {
        "Man Peggon"
    } else if m == 9 {
        "Maleko"
    } else if m == 10 {
        "Fal Munir"
    } else if m == 11 {
        "Moltan"
    } else if m == 12 {
        "Kraagh"
    } else {
        "Mestronorpha"
    }
}

fn week_label(w: u32) -> (r: &'static str)
    ensures
        r == week_name_of(w),
{
    if w == 1 {
        "InIelina"
    } else if w == 2 {
        "UrIelina"
    } else if w == 3 {
        "AlIelina"
    } else {
        "DeIelina"
    }
}

fn day_label(d: u32) -> (r: &'static str)
    ensures
        r == day_name_of(d),
{
    if d == 1 {
        "Recolar"
    } else if d == 2 {
        "Mailatroz"
    } else if d == 3 {
        "Ztenasi"
    } else if d == 4 {
        "Staari"
    } else if d == 5 {
        "Tsankili"
    } else if d == 6 {
        "Fooradur"
    } else {
        "Liandra"
    }
}

/// The month (1-13) that `m` clamps to.
pub open spec fn clamp_month(m: u32) -> u32 {
    if m < 1 { 1 } else if m > 13 { 13 } else { m }
}

/// The colour of month `m` (1-13, clamped) — its god's colour.
pub fn month_color(m: u32) -> (c: u8)
    ensures
        c == month_color_of(clamp_month(m)),
{
    let m = if m < 1 { 1 } else if m > 13 { 13 } else { m };
    if m == 1 {
        231
    } else if m == 2 {
        254
    } else if m == 3 {
        34
    } else if m == 4 {
        200
    } else if m == 5 {
        99
    } else if m == 6 {
        202
    } else if m == 7 {
        250
    } else if m == 8 {
        130
    } else if m == 9 {
        179
    } else if m == 10 {
        220
    } else if m == 11 {
        214
    } else if m == 12 {
        244
    } else {
        240
    }
}

/// A holy / special day: a specific date honouring a god.
#[derive(Debug, Clone, Copy, PartialEq, Eq)]
pub struct SpecialDay {
    /// 1-13
    pub month: u32,
    /// 1-28
    pub day: u32,
    pub god: &'static str,
    /// xterm-256 colour for the day's background.
    pub color: u8,
    /// Contrasting foreground on that background.
    pub text: u8,
    pub domain: &'static str,
    /// The power/skill the god grants its followers on this day.
    pub power: &'static str,
}

/// The special day on (`month`, `day`), if any: the thirteen month-gods'
/// days and the five elemental gods' days at the quarters of the year.
pub open spec fn special_day_on(month: u32, day: u32) -> Option<SpecialDay> {
    if month == 1 && day == 9 {
        Some(SpecialDay { month: 1, day: 9, god: "Cal Amae", color: 231, text: 16, domain: "Good Deeds", power: "Melee Defense" })
    } else if month == 2 && day == 2 {
        Some(SpecialDay { month: 2, day: 2, god: "Elesi", color: 254, text: 16, domain: "Creation & Art", power: "Life Magick" })
    } else if month == 3 && day == 4 {
        Some(SpecialDay { month: 3, day: 4, god: "Anashina", color: 34, text: 231, domain: "Nature", power: "Missile Weapons" })
    } else if month == 4 && day == 12 {
        Some(SpecialDay { month: 4, day: 12, god: "Gwendyll", color: 200, text: 16, domain: "Queen of the Gods", power: "Social Skills" })
    } else if month == 5 && day == 13 {
        Some(SpecialDay { month: 5, day: 13, god: "MacGillan", color: 99, text: 231, domain: "King of the Gods", power: "Leadership" })
    } else if month == 6 && day == 10 {
        Some(SpecialDay { month: 6, day: 10, god: "Juba", color: 202, text: 231, domain: "Entertainment", power: "Music & Dance" })
    } else if month == 7 && day == 11 {
        Some(SpecialDay { month: 7, day: 11, god: "Taroc", color: 250, text: 16, domain: "War", power: "Melee Skills" })
    } else if month == 8 && day == 5 {
        Some(SpecialDay { month: 8, day: 5, god: "Man Peggon", color: 130, text: 231, domain: "Strength", power: "Strength" })
    } else if month == 9 && day == 1 {
        Some(SpecialDay { month: 9, day: 1, god: "Maleko", color: 179, text: 16, domain: "Inner Strength", power: "Endurance" })
    } else if month == 10 && day == 7 {
        Some(SpecialDay { month: 10, day: 7, god: "Fal Munir", color: 220, text: 16, domain: "Knowledge & Wisdom", power: "Learning" })
    } else if month == 11 && day == 3 {
        Some(SpecialDay { month: 11, day: 3, god: "Moltan", color: 214, text: 16, domain: "Judgement", power: "Awareness" })
    } else if month == 12 && day == 8 {
        Some(SpecialDay { month: 12, day: 8, god: "Kraagh", color: 244, text: 16, domain: "Death & Reincarnation", power: "Black Magick" })
    } else if month == 13 && day == 6 {
        Some(SpecialDay { month: 13, day: 6, god: "Mestronorpha", color: 240, text: 231, domain: "Evil Deeds", power: "Black Magick" })
    } else if month == 1 && day == 1 {
        Some(SpecialDay { month: 1, day: 1, god: "Walmaer", color: 19, text: 231, domain: "Water & Seas", power: "Water Magick" })
    } else if month == 4 && day == 8 {
        Some(SpecialDay { month: 4, day: 8, god: "Alesia", color: 88, text: 231, domain: "Earth", power: "Earth & Protection Magick" })
    } else if month == 7 && day == 15 {
        Some(SpecialDay { month: 7, day: 15, god: "Ikalio", color: 208, text: 16, domain: "Fire & Sun", power: "Fire Magick" })
    } else if month == 10 && day == 22 {
        Some(SpecialDay { month: 10, day: 22, god: "Shalissa", color: 117, text: 16, domain: "Wind & Freedom", power: "Air Magick" })
    } else if month == 13 && day == 28 {
        Some(SpecialDay { month: 13, day: 28, god: "Ielina", color: 189, text: 16, domain: "Moon & Time", power: "Perception Magick" })
    } else {
        None
    }
}

/// The special day on a given date (month 1-13, day 1-28), if any.
pub fn special_day(month: u32, day: u32) -> (r: Option<SpecialDay>)
    ensures
        r == special_day_on(month, day),
{
    if month == 1 && day == 9 {
        Some(SpecialDay { month: 1, day: 9, god: "Cal Amae", color: 231, text: 16, domain: "Good Deeds", power: "Melee Defense" })
    } else if month == 2 && day == 2 {
        Some(SpecialDay { month: 2, day: 2, god: "Elesi", color: 254, text: 16, domain: "Creation & Art", power: "Life Magick" })
    } else if month == 3 && day == 4 {
        Some(SpecialDay { month: 3, day: 4, god: "Anashina", color: 34, text: 231, domain: "Nature", power: "Missile Weapons" })
    } else if month == 4 && day == 12 {
        Some(SpecialDay { month: 4, day: 12, god: "Gwendyll", color: 200, text: 16, domain: "Queen of the Gods", power: "Social Skills" })
    } else if month == 5 && day == 13 {
        Some(SpecialDay { month: 5, day: 13, god: "MacGillan", color: 99, text: 231, domain: "King of the Gods", power: "Leadership" })
    } else if month == 6 && day == 10 {
        Some(SpecialDay { month: 6, day: 10, god: "Juba", color: 202, text: 231, domain: "Entertainment", power: "Music & Dance" })
    } else if month == 7 && day == 11 {
        Some(SpecialDay { month: 7, day: 11, god: "Taroc", color: 250, text: 16, domain: "War", power: "Melee Skills" })
    } else if month == 8 && day == 5 {
        Some(SpecialDay { month: 8, day: 5, god: "Man Peggon", color: 130, text: 231, domain: "Strength", power: "Strength" })
    } else if month == 9 && day == 1 {
        Some(SpecialDay { month: 9, day: 1, god: "Maleko", color: 179, text: 16, domain: "Inner Strength", power: "Endurance" })
    } else if month == 10 && day == 7 {
        Some(SpecialDay { month: 10, day: 7, god: "Fal Munir", color: 220, text: 16, domain: "Knowledge & Wisdom", power: "Learning" })
    } else if month == 11 && day == 3 {
        Some(SpecialDay { month: 11, day: 3, god: "Moltan", color: 214, text: 16, domain: "Judgement", power: "Awareness" })
    } else if month == 12 && day == 8 {
        Some(SpecialDay { month: 12, day: 8, god: "Kraagh", color: 244, text: 16, domain: "Death & Reincarnation", power: "Black Magick" })
    } else if month == 13 && day == 6 {
        Some(SpecialDay { month: 13, day: 6, god: "Mestronorpha", color: 240, text: 231, domain: "Evil Deeds", power: "Black Magick" })
    } else if month == 1 && day == 1 {
        Some(SpecialDay { month: 1, day: 1, god: "Walmaer", color: 19, text: 231, domain: "Water & Seas", power: "Water Magick" })
    } else if month == 4 && day == 8 {
        Some(SpecialDay { month: 4, day: 8, god: "Alesia", color: 88, text: 231, domain: "Earth", power: "Earth & Protection Magick" })
    } else if month == 7 && day == 15 {
        Some(SpecialDay { month: 7, day: 15, god: "Ikalio", color: 208, text: 16, domain: "Fire & Sun", power: "Fire Magick" })
    } else if month == 10 && day == 22 {
        Some(SpecialDay { month: 10, day: 22, god: "Shalissa", color: 117, text: 16, domain: "Wind & Freedom", power: "Air Magick" })
    } else if month == 13 && day == 28 {
        Some(SpecialDay { month: 13, day: 28, god: "Ielina", color: 189, text: 16, domain: "Moon & Time", power: "Perception Magick" })
    } else {
        None
    }
}


/// The day of month (1-28) that `d` clamps to.
pub open spec fn clamp_day(d: u32) -> u32 {
    if d < 1 {
        1
    } else if d > 28 {
        28
    } else {
        d
    }
}

/// A date: a year and a 0-based day within it (0-363 for a real date).
#[derive(Debug, Clone, Copy, PartialEq, Eq, Structural)]
pub struct AmarDate {
    pub year: u32,
    pub day_of_year: u32,
}

/// Month (1-based) of the 0-based day-of-year `doy`.
pub open spec fn month_of(doy: u32) -> u32 {
    (doy / 28 + 1) as u32
}

/// Day of month (1-28) of the 0-based day-of-year `doy`.
pub open spec fn day_of_month_of(doy: u32) -> u32 {
    (doy % 28 + 1) as u32
}

/// Week of month (1-4) of the 0-based day-of-year `doy`.
pub open spec fn week_of_month_of(doy: u32) -> u32 {
    ((day_of_month_of(doy) - 1) / 7 + 1) as u32
}

/// Day of week (1-7) of the 0-based day-of-year `doy`.
pub open spec fn day_of_week_of(doy: u32) -> u32 {
    (doy % 7 + 1) as u32
}

/// Day count since the start of year 0 of `year` and `doy`, shifted by `days`.
pub open spec fn shifted_total(year: u32, doy: u32, days: i64) -> int {
    year as int * 364 + doy as int + days as int
}

/// The date `days` days after (before, when negative) `year`/`doy`: the
/// Euclidean quotient and remainder of the day count by 364 (the year
/// truncated to 32 bits, as an `as u32` cast does).
pub open spec fn advanced(year: u32, doy: u32, days: i64) -> AmarDate {
    let total = shifted_total(year, doy, days);
    AmarDate { year: (total / 364) as u32, day_of_year: (total % 364) as u32 }
}

impl AmarDate {
    pub fn new(year: u32, day_of_year: u32) -> (r: Self)
        ensures
            r == (AmarDate { year, day_of_year }),
    {
        AmarDate { year, day_of_year }
    }

    /// The date of day `day_of_month` (clamped to 1-28) of month `month`
    /// (clamped to 1-13) in `year`.
    pub fn from_ymd(year: u32, month: u32, day_of_month: u32) -> (r: Self)
        ensures
            r.year == year,
            r.day_of_year == (clamp_month(month) - 1) * 28 + (clamp_day(day_of_month) - 1),
    {
        let m = if month < 1 { 1 } else if month > 13 { 13 } else { month };
        let d = if day_of_month < 1 { 1 } else if day_of_month > DAYS_PER_MONTH { DAYS_PER_MONTH } else { day_of_month };
        AmarDate { year, day_of_year: (m - 1) * DAYS_PER_MONTH + (d - 1) }
    }

    pub fn month(&self) -> (r: u32)
        ensures
            r == month_of(self.day_of_year),
    {
        self.day_of_year / DAYS_PER_MONTH + 1
    }

    pub fn day_of_month(&self) -> (r: u32)
        ensures
            r == day_of_month_of(self.day_of_year),
    {
        self.day_of_year % DAYS_PER_MONTH + 1
    }

    pub fn week_of_month(&self) -> (r: u32)
        ensures
            r == week_of_month_of(self.day_of_year),
            1 <= r <= 4,
    {
        (self.day_of_month() - 1) / 7 + 1
    }

    pub fn day_of_week(&self) -> (r: u32)
        ensures
            r == day_of_week_of(self.day_of_year),
            1 <= r <= 7,
    {
        (self.day_of_year % 7) + 1
    }

    pub fn month_name(&self) -> (r: &'static str)
        requires
            self.day_of_year < DAYS_PER_YEAR,
        ensures
            r == month_name_of(month_of(self.day_of_year)),
    {
        month_label(self.month())
    }

    pub fn week_name(&self) -> (r: &'static str)
        ensures
            r == week_name_of(week_of_month_of(self.day_of_year)),
    {
        week_label(self.week_of_month())
    }

    pub fn day_name(&self) -> (r: &'static str)
        ensures
            r == day_name_of(day_of_week_of(self.day_of_year)),
    {
        day_label(self.day_of_week())
    }

    /// The special (holy) day falling on this exact date, if any.
    pub fn special_day(&self) -> (r: Option<SpecialDay>)
        ensures
            r == special_day_on(month_of(self.day_of_year), day_of_month_of(self.day_of_year)),
    {
        special_day(self.month(), self.day_of_month())
    }

    /// The date `days` days later (earlier when negative).
    pub fn advance(&self, days: i64) -> (r: Self)
        requires
            i64::MIN <= shifted_total(self.year, self.day_of_year, days) <= i64::MAX,
        ensures
            r == advanced(self.year, self.day_of_year, days),
    {
        let total: i64 = self.year as i64 * 364 + self.day_of_year as i64 + days;
        let q = total.checked_div_euclid(364);
        let m = total.checked_rem_euclid(364);
        match (q, m) {
            (Some(q), Some(m)) => AmarDate { year: q as u32, day_of_year: m as u32 },
            _ => {
                proof {
                    assert(false);
                }
                AmarDate { year: 0, day_of_year: 0 }
            },
        }
    }

    /// Compact header date: `15 Juba, Year 354`.
    pub fn fmt_header(&self) -> (r: String)
        requires
            self.day_of_year < DAYS_PER_YEAR,
        ensures
            r@ == decimal(day_of_month_of(self.day_of_year) as nat) + seq![' ']
                + month_name_of(month_of(self.day_of_year))@ + ", Year "@ + decimal(self.year as nat),
    {
        let mut s = String::new();
        push_decimal(&mut s, self.day_of_month() as u64);
        push_char(&mut s, ' ');
        s.append(self.month_name());
        s.append(", Year ");
        push_decimal(&mut s, self.year as u64);
        s
    }

    /// Full ceremonial date: `Liandra, DeIelina (15) Juba, Year 354`.
    pub fn fmt_long(&self) -> (r: String)
        requires
            self.day_of_year < DAYS_PER_YEAR,
        ensures
            r@ == day_name_of(day_of_week_of(self.day_of_year))@ + ", "@
                + week_name_of(week_of_month_of(self.day_of_year))@ + " ("@
                + decimal(day_of_month_of(self.day_of_year) as nat) + ") "@
                + month_name_of(month_of(self.day_of_year))@ + ", Year "@ + decimal(self.year as nat),
    {
        let mut s = String::new();
        s.append(self.day_name());
        s.append(", ");
        s.append(self.week_name());
        s.append(" (");
        push_decimal(&mut s, self.day_of_month() as u64);
        s.append(") ");
        s.append(self.month_name());
        s.append(", Year ");
        push_decimal(&mut s, self.year as u64);
        s
    }
}

impl Default for AmarDate {
    /// Day 1 of Cal Amae, Year 354.
    fn default() -> (r: Self)
        ensures
            r == (AmarDate { year: 354, day_of_year: 0 }),
    {
        Self::from_ymd(354, 1, 1)
    }
}


/// Every real day of the year (0-363) lies in month 1-13, on day 1-28 of
/// that month, in week 1-4 and on weekday 1-7; and `from_ymd` finds it
/// again from its month and day of month.
pub proof fn lemma_year_layout(year: u32, doy: u32)
    requires
        doy < DAYS_PER_YEAR,
    ensures
        1 <= month_of(doy) <= 13,
        1 <= day_of_month_of(doy) <= 28,
        1 <= week_of_month_of(doy) <= 4,
        1 <= day_of_week_of(doy) <= 7,
        (month_of(doy) - 1) * 28 + (day_of_month_of(doy) - 1) == doy,
{
}

/// The names of the calendar as the wiki gives them: month `m` (1-13),
/// week `w` of a month (1-4) and day `d` of a week (1-7); and each
/// month's colour, its god's colour.
pub proof fn lemma_calendar_names(m: u32, w: u32, d: u32)
    requires
        1 <= m <= 13,
        1 <= w <= 4,
        1 <= d <= 7,
    ensures
        month_name_of(m)@ == seq![
            "Cal Amae"@,
            "Elesi"@,
            "Anashina"@,
            "Gwendyll"@,
            "MacGillan"@,
            "Juba"@,
            "Taroc"@,
            "Man Peggon"@,
            "Maleko"@,
            "Fal Munir"@,
            "Moltan"@,
            "Kraagh"@,
            "Mestronorpha"@,
        ][m - 1],
        week_name_of(w)@ == seq![
            "InIelina"@,
            "UrIelina"@,
            "AlIelina"@,
            "DeIelina"@,
        ][w - 1],
        day_name_of(d)@ == seq![
            "Recolar"@,
            "Mailatroz"@,
            "Ztenasi"@,
            "Staari"@,
            "Tsankili"@,
            "Fooradur"@,
            "Liandra"@,
        ][d - 1],
        month_color_of(m) == seq![
            231u8,
            254u8,
            34u8,
            200u8,
            99u8,
            202u8,
            250u8,
            130u8,
            179u8,
            220u8,
            214u8,
            244u8,
            240u8,
        ][m - 1],
{
}

/// The holy days of the year as the wiki gives them: the thirteen
/// month-gods' days and the five elemental gods' days.
pub open spec fn holy_days() -> Seq<SpecialDay> {
    seq![
            SpecialDay { month: 1, day: 9, god: "Cal Amae", color: 231, text: 16, domain: "Good Deeds", power: "Melee Defense" },
            SpecialDay { month: 2, day: 2, god: "Elesi", color: 254, text: 16, domain: "Creation & Art", power: "Life Magick" },
            SpecialDay { month: 3, day: 4, god: "Anashina", color: 34, text: 231, domain: "Nature", power: "Missile Weapons" },
            SpecialDay { month: 4, day: 12, god: "Gwendyll", color: 200, text: 16, domain: "Queen of the Gods", power: "Social Skills" },
            SpecialDay { month: 5, day: 13, god: "MacGillan", color: 99, text: 231, domain: "King of the Gods", power: "Leadership" },
            SpecialDay { month: 6, day: 10, god: "Juba", color: 202, text: 231, domain: "Entertainment", power: "Music & Dance" },
            SpecialDay { month: 7, day: 11, god: "Taroc", color: 250, text: 16, domain: "War", power: "Melee Skills" },
            SpecialDay { month: 8, day: 5, god: "Man Peggon", color: 130, text: 231, domain: "Strength", power: "Strength" },
            SpecialDay { month: 9, day: 1, god: "Maleko", color: 179, text: 16, domain: "Inner Strength", power: "Endurance" },
            SpecialDay { month: 10, day: 7, god: "Fal Munir", color: 220, text: 16, domain: "Knowledge & Wisdom", power: "Learning" },
            SpecialDay { month: 11, day: 3, god: "Moltan", color: 214, text: 16, domain: "Judgement", power: "Awareness" },
            SpecialDay { month: 12, day: 8, god: "Kraagh", color: 244, text: 16, domain: "Death & Reincarnation", power: "Black Magick" },
            SpecialDay { month: 13, day: 6, god: "Mestronorpha", color: 240, text: 231, domain: "Evil Deeds", power: "Black Magick" },
            SpecialDay { month: 1, day: 1, god: "Walmaer", color: 19, text: 231, domain: "Water & Seas", power: "Water Magick" },
            SpecialDay { month: 4, day: 8, god: "Alesia", color: 88, text: 231, domain: "Earth", power: "Earth & Protection Magick" },
            SpecialDay { month: 7, day: 15, god: "Ikalio", color: 208, text: 16, domain: "Fire & Sun", power: "Fire Magick" },
            SpecialDay { month: 10, day: 22, god: "Shalissa", color: 117, text: 16, domain: "Wind & Freedom", power: "Air Magick" },
            SpecialDay { month: 13, day: 28, god: "Ielina", color: 189, text: 16, domain: "Moon & Time", power: "Perception Magick" },
    ]
}

/// Each holy day is found on its own date, and no other date has one.
pub proof fn lemma_holy_days(month: u32, day: u32)
    ensures
        forall|k: int| 0 <= k < holy_days().len() ==> special_day_on(
            #[trigger] holy_days()[k].month,
            holy_days()[k].day,
        ) == Some(holy_days()[k]),
        (forall|k: int| 0 <= k < holy_days().len() ==> !(#[trigger] holy_days()[k].month == month && holy_days()[k].day == day))
            ==> special_day_on(month, day) is None,
{
    let t = holy_days();
    assert forall|k: int| 0 <= k < t.len() implies special_day_on(#[trigger] t[k].month, t[k].day) == Some(t[k]) by {
        if k == 0 {} else if k == 1 {} else if k == 2 {} else if k == 3 {} else if k == 4 {} else if k == 5 {}
        else if k == 6 {} else if k == 7 {} else if k == 8 {} else if k == 9 {} else if k == 10 {} else if k == 11 {}
        else if k == 12 {} else if k == 13 {} else if k == 14 {} else if k == 15 {} else if k == 16 {} else {}
    }
    if special_day_on(month, day) is Some {
        if month == 1 && day == 9 { assert(t[0].month == month && t[0].day == day); }
        else if month == 2 && day == 2 { assert(t[1].month == month && t[1].day == day); }
        else if month == 3 && day == 4 { assert(t[2].month == month && t[2].day == day); }
        else if month == 4 && day == 12 { assert(t[3].month == month && t[3].day == day); }
        else if month == 5 && day == 13 { assert(t[4].month == month && t[4].day == day); }
        else if month == 6 && day == 10 { assert(t[5].month == month && t[5].day == day); }
        else if month == 7 && day == 11 { assert(t[6].month == month && t[6].day == day); }
        else if month == 8 && day == 5 { assert(t[7].month == month && t[7].day == day); }
        else if month == 9 && day == 1 { assert(t[8].month == month && t[8].day == day); }
        else if month == 10 && day == 7 { assert(t[9].month == month && t[9].day == day); }
        else if month == 11 && day == 3 { assert(t[10].month == month && t[10].day == day); }
        else if month == 12 && day == 8 { assert(t[11].month == month && t[11].day == day); }
        else if month == 13 && day == 6 { assert(t[12].month == month && t[12].day == day); }
        else if month == 1 && day == 1 { assert(t[13].month == month && t[13].day == day); }
        else if month == 4 && day == 8 { assert(t[14].month == month && t[14].day == day); }
        else if month == 7 && day == 15 { assert(t[15].month == month && t[15].day == day); }
        else if month == 10 && day == 22 { assert(t[16].month == month && t[16].day == day); }
        else { assert(t[17].month == month && t[17].day == day); }
    }
}

/// A month's weeks are runs of seven days: week `w` holds days
/// `7(w-1)+1` to `7w` of the month (days 1-7 week 1, 8-14 week 2, 15-21
/// week 3, 22-28 week 4), and the day of the week counts the days into
/// that week. Weekdays run 1, 2, … 7, 1, … from the first day of the
/// year, and the next day starts a new week exactly when its weekday
/// is 1.
pub proof fn lemma_weeks_are_seven_days(doy: u32)
    requires
        doy < DAYS_PER_YEAR,
    ensures
        7 * (week_of_month_of(doy) - 1) < day_of_month_of(doy) <= 7 * week_of_month_of(doy),
        day_of_week_of(doy) == day_of_month_of(doy) - 7 * (week_of_month_of(doy) - 1),
        doy == 0 ==> day_of_week_of(doy) == 1,
        doy + 1 < DAYS_PER_YEAR ==> day_of_week_of((doy + 1) as u32) == day_of_week_of(doy) % 7 + 1,
        doy + 1 < DAYS_PER_YEAR ==> (week_of_month_of((doy + 1) as u32) != week_of_month_of(doy)
            <==> day_of_week_of((doy + 1) as u32) == 1),
{
    let d = doy as int;
    assert(d % 7 == (d % 28) % 7) by (nonlinear_arith)
        requires
            d >= 0,
    ;
    if d + 1 < 364 {
        let e = d + 1;
        assert(e % 7 == (e % 28) % 7) by (nonlinear_arith)
            requires
                e >= 0,
        ;
        assert(e % 7 == if d % 7 == 6 { 0 } else { d % 7 + 1 }) by (nonlinear_arith)
            requires
                e == d + 1,
                d >= 0,
        ;
        assert(e % 28 == if d % 28 == 27 { 0 } else { d % 28 + 1 }) by (nonlinear_arith)
            requires
                e == d + 1,
                d >= 0,
        ;
    }
}

/// `from_ymd` and `month` / `day_of_month` are inverse: the date built
/// from month `m` (1-13) and day `d` (1-28) reads back as `m` and `d`,
/// and is a real day of the year.
pub proof fn lemma_from_ymd_roundtrip(m: u32, d: u32)
    requires
        1 <= m <= 13,
        1 <= d <= 28,
    ensures
        ({
            let doy = ((m - 1) * 28 + (d - 1)) as u32;
            &&& doy < DAYS_PER_YEAR
            &&& month_of(doy) == m
            &&& day_of_month_of(doy) == d
        }),
{
    let doy = ((m - 1) * 28 + (d - 1)) as u32;
    assert(doy / 28 == m - 1 && doy % 28 == d - 1) by (nonlinear_arith)
        requires
            doy == (m - 1) * 28 + (d - 1),
            1 <= m <= 13,
            1 <= d <= 28,
    ;
}

/// A month has exactly four weeks, so every month starts on the first day
/// of the week (Recolar).
pub proof fn lemma_months_start_on_first_weekday(m: u32)
    requires
        1 <= m <= 13,
    ensures
        day_of_week_of(((m - 1) * 28) as u32) == 1,
        day_name_of(day_of_week_of(((m - 1) * 28) as u32)) == "Recolar",
{
    let doy = ((m - 1) * 28) as u32;
    assert(doy % 7 == 0) by (nonlinear_arith)
        requires
            doy == (m - 1) * 28,
    ;
}

/// Advancing by `a` days and then by `b` days is advancing by `a + b`
/// days, as long as the intermediate date's year did not leave the
/// `u32` range.
pub proof fn lemma_advance_compose(year: u32, doy: u32, a: i64, b: i64)
    requires
        0 <= shifted_total(year, doy, a) <= i64::MAX,
        shifted_total(year, doy, a) / 364 <= u32::MAX,
        i64::MIN <= a + b <= i64::MAX,
    ensures
        ({
            let mid = advanced(year, doy, a);
            &&& shifted_total(mid.year, mid.day_of_year, b) == shifted_total(year, doy, (a + b) as i64)
            &&& advanced(mid.year, mid.day_of_year, b) == advanced(year, doy, (a + b) as i64)
        }),
{
    let t = shifted_total(year, doy, a);
    let mid = advanced(year, doy, a);
    assert(mid.year == t / 364);
    assert(mid.day_of_year == t % 364);
    assert(t == (t / 364) * 364 + t % 364);
}

/// Advancing `n` days and then `-n` days gives back a real date.
pub proof fn lemma_advance_round_trip(d: AmarDate, n: i64)
    requires
        d.day_of_year < DAYS_PER_YEAR,
        0 <= shifted_total(d.year, d.day_of_year, n) <= i64::MAX,
        shifted_total(d.year, d.day_of_year, n) / 364 <= u32::MAX,
        n > i64::MIN,
    ensures
        advanced(advanced(d.year, d.day_of_year, n).year, advanced(d.year, d.day_of_year, n).day_of_year, (-n) as i64) == d,
{
    lemma_advance_compose(d.year, d.day_of_year, n, (-n) as i64);
    let t = shifted_total(d.year, d.day_of_year, 0);
    assert(t == d.year * 364 + d.day_of_year);
    assert(t / 364 == d.year && t % 364 == d.day_of_year) by (nonlinear_arith)
        requires
            t == d.year * 364 + d.day_of_year,
            0 <= d.day_of_year < 364,
            d.year >= 0,
    ;
}

} // verus!

verus! {

/// What `str::parse::<u32>` gives for `s`: an optional `+`, then one or
/// more ASCII digits whose value fits.
pub open spec fn parsed_u32(s: Seq<char>) -> Option<u32> {
    let d = if s.len() > 0 && s[0] == '+' { s.skip(1) } else { s };
    if d.len() > 0 && all_digits(d) && digits_value(d) <= u32::MAX {
        Some(digits_value(d) as u32)
    } else {
        None
    }
}

/// `str::parse::<u32>`.
pub fn parse_u32(s: &str) -> (r: Option<u32>)
    ensures
        r == parsed_u32(s@),
{
    let v = chars_of(s);
    let start: usize = if v.len() > 0 && v[0] == '+' { 1 } else { 0 };
    let mut d: Vec<char> = Vec::new();
    let mut i = start;
    while i < v.len()
        invariant
            v@ == s@,
            start == (if v@.len() > 0 && v@[0] == '+' { 1int } else { 0int }),
            start <= i <= v@.len(),
            d@ == v@.subrange(start as int, i as int),
        decreases v@.len() - i,
    {
        d.push(v[i]);
        i = i + 1;
        assert(d@ =~= v@.subrange(start as int, i as int));
    }
    assert(d@ =~= (if v@.len() > 0 && v@[0] == '+' { v@.skip(1) } else { v@ }));
    if d.len() == 0 {
        return None;
    }
    let ghost dv = d@;
    let mut k: usize = 0;
    while k < d.len()
        invariant
            dv == d@,
            dv == (if s@.len() > 0 && s@[0] == '+' { s@.skip(1) } else { s@ }),
            k <= d@.len(),
            forall|t: int| 0 <= t < k ==> is_digit(d@[t]),
        decreases d@.len() - k,
    {
        if !('0' <= d[k] && d[k] <= '9') {
            assert(!all_digits(dv)) by {
                assert(!is_digit(dv[k as int]));
            }
            return None;
        }
        k = k + 1;
    }
    parse_digits(&d)
}

/// The whitespace-separated pieces of `s` (`str::split` on whitespace;
/// empty pieces included).
pub open spec fn ws_split(s: Seq<char>) -> Seq<Seq<char>>
    decreases s.len(),
{
    if s.len() == 0 {
        seq![Seq::empty()]
    } else {
        let rest = ws_split(s.drop_last());
        if !is_ws(s.last()) {
            rest.update(rest.len() - 1, rest.last().push(s.last()))
        } else {
            rest.push(Seq::empty())
        }
    }
}

/// The non-empty pieces, in order (`str::split_whitespace`).
pub open spec fn nonempty(ps: Seq<Seq<char>>) -> Seq<Seq<char>>
    decreases ps.len(),
{
    if ps.len() == 0 {
        Seq::empty()
    } else if ps.last().len() > 0 {
        nonempty(ps.drop_last()).push(ps.last())
    } else {
        nonempty(ps.drop_last())
    }
}

/// The words of `s`.
fn words_of(v: &Vec<char>) -> (r: Vec<String>)
    ensures
        str_views(r@) == nonempty(ws_split(v@)),
{
    let mut out: Vec<String> = Vec::new();
    let mut cur = String::new();
    let mut i: usize = 0;
    assert(ws_split(v@.take(0)) =~= seq![Seq::<char>::empty()]);
    assert(seq![Seq::<char>::empty()].drop_last() =~= Seq::<Seq<char>>::empty());
    assert(str_views(out@) =~= Seq::<Seq<char>>::empty());
    while i < v.len()
        invariant
            i <= v@.len(),
            ws_split(v@.take(i as int)).len() > 0,
            cur@ == ws_split(v@.take(i as int)).last(),
            str_views(out@) == nonempty(ws_split(v@.take(i as int)).drop_last()),
        decreases v@.len() - i,
    {
        let ghost before = ws_split(v@.take(i as int));
        assert(v@.take(i + 1).drop_last() =~= v@.take(i as int));
        assert(v@.take(i + 1).last() == v@[i as int]);
        let c = v[i];
        if !is_whitespace(c) {
            push_char(&mut cur, c);
            assert(ws_split(v@.take(i + 1)).drop_last() =~= before.drop_last());
        } else {
            let ghost cv = cur@;
            assert(ws_split(v@.take(i + 1)).drop_last() =~= before);
            assert(before =~= before.drop_last().push(cv));
            assert(before.drop_last().push(cv).drop_last() =~= before.drop_last());
            if !cur.as_str().is_empty() {
                let ghost old_out = out@;
                out.push(cur);
                assert(str_views(out@) =~= str_views(old_out).push(cv));
            }
            cur = String::new();
        }
        i = i + 1;
    }
    let ghost all = ws_split(v@.take(i as int));
    assert(v@.take(v@.len() as int) =~= v@);
    let ghost cv = cur@;
    assert(all =~= all.drop_last().push(cv));
    assert(all.drop_last().push(cv).drop_last() =~= all.drop_last());
    if !cur.as_str().is_empty() {
        let ghost old_out = out@;
        out.push(cur);
        assert(str_views(out@) =~= str_views(old_out).push(cv));
    }
    out
}

/// The month a word names: its number, or else the first month whose
/// lowercased name starts with the lowercased word.
pub open spec fn month_word(w: Seq<char>) -> Option<u32> {
    match parsed_u32(w) {
        Some(m) => Some(m),
        None => first_month_prefixed(lowercase(w), 1),
    }
}

/// The first month from `m` on whose lowercased name starts with `l`.
pub open spec fn first_month_prefixed(l: Seq<char>, m: u32) -> Option<u32>
    decreases 14 - m,
{
    if m < 1 || m > 13 {
        None
    } else if has_prefix(lowercase(month_name_of(m)@), l) {
        Some(m)
    } else {
        first_month_prefixed(l, (m + 1) as u32)
    }
}

/// The (month, day) that a "month day" text names: its first word a
/// month number or name prefix, its second a day number.
pub open spec fn date_words(input: Seq<char>) -> Option<(u32, u32)> {
    let ws = nonempty(ws_split(input));
    if ws.len() < 2 {
        None
    } else {
        match (month_word(ws[0]), parsed_u32(ws[1])) {
            (Some(m), Some(d)) => Some((m, d)),
            _ => None,
        }
    }
}

/// Parse a date typed as "<month> <day>" (month by number or by a
/// prefix of its name, any case) in `year`.
pub fn parse_amar_date(input: &str, year: u32) -> (r: Option<AmarDate>)
    ensures
        match r {
            Some(d) => date_words(input@) matches Some((m, dd)) && d.year == year && d.day_of_year == (
            clamp_month(m) - 1) * 28 + (clamp_day(dd) - 1),
            None => date_words(input@) is None,
        },
{
    let v = chars_of(input);
    let toks = words_of(&v);
    if toks.len() < 2 {
        return None;
    }
    let month = match parse_u32(toks[0].as_str()) {
        Some(m) => m,
        None => {
            let l = to_lower(toks[0].as_str());
            let mut m: u32 = 1;
            let mut found: Option<u32> = None;
            while m <= 13 && found.is_none()
                invariant
                    1 <= m <= 14,
                    found is None ==> first_month_prefixed(l@, 1) == first_month_prefixed(l@, m),
                    found matches Some(x) ==> first_month_prefixed(l@, 1) == Some(x),
                decreases (if found is None { 15 - m } else { 0 }),
            {
                let name = to_lower(month_label(m));
                if starts_with(name.as_str(), l.as_str()) {
                    found = Some(m);
                } else {
                    m = m + 1;
                }
            }
            match found {
                Some(m) => m,
                None => return None,
            }
        },
    };
    let day = match parse_u32(toks[1].as_str()) {
        Some(d) => d,
        None => return None,
    };
    Some(AmarDate::from_ymd(year, month, day))
}

} // verus!
