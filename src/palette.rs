//! Per-style color tables and the registry that holds one table per style.
use std::collections::HashMap;
use vstd::prelude::*;
use crate::style::STYLE_COUNT;

verus! {

broadcast use vstd::std_specs::hash::group_hash_axioms;

/// A 24-bit color: red, green and blue channels.
#[derive(Clone, Copy, Debug, PartialEq, Eq, Structural)]
pub struct Rgb {
    pub r: u8,
    pub g: u8,
    pub b: u8,
}

/// The color that a tile missing from a table renders as.
pub open spec fn black() -> Rgb {
    Rgb { r: 0, g: 0, b: 0 }
}

/// A mapping from tile identifier to color for one terrain style.
pub struct ColorTable {
    colors: HashMap<u16, Rgb>,
}

impl View for ColorTable {
    type V = Map<u16, Rgb>;

    closed spec fn view(&self) -> Map<u16, Rgb> {
        self.colors@
    }
}

impl ColorTable {
    /// An empty table.
    pub fn new() -> (t: ColorTable)
        ensures
            t@ == Map::<u16, Rgb>::empty(),
    {
        ColorTable { colors: HashMap::new() }
    }

    /// Sets the color of `id`; a later entry for the same tile replaces an earlier one.
    pub fn insert(&mut self, id: u16, color: Rgb)
        ensures
            final(self)@ == old(self)@.insert(id, color),
    {
        self.colors.insert(id, color);
    }

    /// The color of `id`, if the table has one.
    pub fn get(&self, id: u16) -> (r: Option<Rgb>)
        ensures
            r == (if self@.contains_key(id) { Some(self@[id]) } else { None }),
    {
        match self.colors.get(&id) {
            Some(c) => Some(*c),
            None => None,
        }
    }

    /// The number of tiles that have a color.
    pub fn len(&self) -> (n: usize)
        ensures
            n == self@.len(),
    {
        self.colors.len()
    }
}

/// One color table for each terrain style, built once and read thereafter.
pub struct TilesetRegistry {
    tables: Vec<ColorTable>,
}

impl View for TilesetRegistry {
    type V = Seq<Map<u16, Rgb>>;

    closed spec fn view(&self) -> Seq<Map<u16, Rgb>> {
        self.tables@.map_values(|t: ColorTable| t@)
    }
}

impl TilesetRegistry {
    /// Well-formed: exactly one table per terrain style.
    pub open spec fn wf(&self) -> bool {
        self@.len() == STYLE_COUNT
    }

    /// Builds a registry from the tables of styles `0..8`, in order; `None`
    /// unless exactly eight tables are given.
    pub fn from_tables(tables: Vec<ColorTable>) -> (r: Option<TilesetRegistry>)
        ensures
            tables@.len() == STYLE_COUNT <==> r is Some,
            r matches Some(reg) ==> reg.wf() && reg@ == tables@.map_values(|t: ColorTable| t@),
    {
        if tables.len() == STYLE_COUNT as usize {
            Some(TilesetRegistry { tables })
        } else {
            None
        }
    }

    /// The color table of the style that `era` selects.
    pub fn table_for_era(&self, era: u16) -> (t: &ColorTable)
        requires
            self.wf(),
        ensures
            t@ == self@[(era % STYLE_COUNT) as int],
    {
        let style: u16 = era % STYLE_COUNT;
        &self.tables[style as usize]
    }
}

} // verus!
