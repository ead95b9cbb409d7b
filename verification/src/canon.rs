//! The wiki-derived rule data: spells, rituals and potions, indexed by
//! page name and by category.
//!
//! The two indexes are `KeyedMap`s: maps from strings, kept in key order
//! (the order the data file gives them), each key once.

use vstd::prelude::*;
use crate::keyed::{find_key, first_key, pair_keys, KeyedMap};

verus! {

/// One wiki page's parsed record.
pub struct Entry {
    pub name: String,
    pub url: String,
    /// "full" when the page had content, "missing" for a bare name.
    pub details: String,
    pub domains: Vec<String>,
    /// Field name → value, in key order.
    pub fields: Vec<(String, String)>,
}

/// The rule data: category → page names, and page name → entry.
pub struct Canon {
    pub domain_index: KeyedMap<Vec<String>>,
    pub entries: KeyedMap<Entry>,
}

impl View for Entry {
    type V = Entry;

    /// An entry stands for itself.
    open spec fn view(&self) -> Entry {
        *self
    }
}

impl Entry {
    /// The field keys, in order.
    pub open spec fn field_keys(&self) -> Seq<Seq<char>> {
        pair_keys(self.fields@)
    }

    /// The value of field `key`, if the entry has one.
    pub fn field(&self, key: &str) -> (r: Option<&String>)
        ensures
            match r {
                Some(v) => {
                    let i = first_key(self.field_keys(), key@);
                    i < self.fields@.len() && v == &self.fields@[i].1
                },
                None => first_key(self.field_keys(), key@) == self.fields@.len(),
            },
    {
        match find_key(&self.fields, key) {
            Some(i) => Some(&self.fields[i].1),
            None => None,
        }
    }
}

impl Canon {
    /// The page names in category `cat` (empty for an unknown one).
    pub open spec fn category_members(&self, cat: Seq<char>) -> Seq<String> {
        if self.domain_index@.contains_key(cat) {
            self.domain_index@[cat]
        } else {
            Seq::empty()
        }
    }

    /// The entry of page `name`.
    pub fn lookup(&self, name: &str) -> (r: Option<&Entry>)
        ensures
            match r {
                Some(e) => self.entries@.contains_key(name@) && self.entries@[name@] == *e,
                None => !self.entries@.contains_key(name@),
            },
    {
        self.entries.get(name)
    }

    /// The page names filed under category `cat`; empty when the category
    /// is unknown.
    pub fn category(&self, cat: &str) -> (r: &[String])
        ensures
            r@ == self.category_members(cat@),
    {
        match self.domain_index.get(cat) {
            Some(l) => l.as_slice(),
            None => &[],
        }
    }

    /// How many spells the data lists.
    pub fn spell_count(&self) -> (r: usize)
        ensures
            r == self.category_members("Spells"@).len(),
    {
        self.category("Spells").len()
    }

    /// How many rituals the data lists.
    pub fn ritual_count(&self) -> (r: usize)
        ensures
            r == self.category_members("Rituals"@).len(),
    {
        self.category("Rituals").len()
    }

    /// How many potions the data lists.
    pub fn potion_count(&self) -> (r: usize)
        ensures
            r == self.category_members("Potions"@).len(),
    {
        self.category("Potions").len()
    }
}

} // verus!
