//! Labeled blocks: manifests, label remapping and macro-tiles.

use std::collections::HashMap;

use vstd::prelude::*;

use crate::error::{pipeline_text, ClassifierError};
use crate::ieee::Real64;
use crate::json::{entries, json_byte_object, read_byte_object};
use crate::preprocessing::config::PreprocessConfig;
use crate::preprocessing::pipeline::BlockMeta;
use crate::text::{
    concat2, decimal, decimal_text, law_decimal_injective, parse_u8_text, unsigned_up_to,
};
use crate::text_map::TextMap;

verus! {

/// Extends [`BlockMeta`] with label file name, class distribution, and
/// macro-tile assignment.
#[derive(Debug, Clone)]
pub struct LabeledBlockMeta {
    pub meta: BlockMeta,
    /// File name of the sibling `.lbl` file.
    pub lbl_file: String,
    /// Macro-tile ID for spatially disjoint splitting.
    pub macro_tile_id: u32,
    /// Per-class point counts, keyed by the decimal model class index.
    pub class_distribution: TextMap<u64>,
}

/// Describes the macro-tile grid applied to the dataset bounding box.
#[derive(Debug, Clone, Copy, PartialEq, Eq, Structural)]
pub struct SpatialTileGrid {
    pub cols: usize,
    pub rows: usize,
    pub bbox_min_x: Real64,
    pub bbox_min_y: Real64,
    pub bbox_max_x: Real64,
    pub bbox_max_y: Real64,
}

/// Top-level `labeled_blocks.json` manifest.
#[derive(Debug, Clone)]
pub struct LabeledBlockManifest {
    pub source: String,
    pub block_size: Real64,
    pub target_points: usize,
    pub min_density: Real64,
    pub search_radius: Real64,
    /// Search radii of multi-scale features; empty means `search_radius` alone.
    pub search_radii: Vec<Real64>,
    pub min_neighbors: usize,
    pub crs_epsg: Option<u32>,
    /// ASPRS code (decimal) to model class index.
    pub label_map: TextMap<u8>,
    pub spatial_tile_grid: SpatialTileGrid,
    pub halo_fraction: Real64,
    pub blocks: Vec<LabeledBlockMeta>,
}

/// Configuration for the labeled preprocessing pipeline.
#[derive(Debug)]
pub struct LabeledPreprocessConfig {
    pub preprocess: PreprocessConfig,
    /// ASPRS code to model class index. Codes absent from the map fall back to
    /// the index of code 1 (Unassigned), or 7.
    pub label_map: HashMap<u8, u8>,
    /// Number of macro-tiles along each side.
    pub tile_grid: usize,
}

// ── Label maps ──────────────────────────────────────────────────────────────

/// The default remapping of ASPRS codes to eight classes: ground, low, medium
/// and high vegetation, building, water, noise, unassigned.
pub open spec fn default_labels() -> Map<u8, u8> {
    map![
        2u8 => 0u8,
        3u8 => 1u8,
        4u8 => 2u8,
        5u8 => 3u8,
        6u8 => 4u8,
        9u8 => 5u8,
        7u8 => 6u8,
        1u8 => 7u8,
    ]
}

impl LabeledPreprocessConfig {
    /// The default remapping of ASPRS codes to eight classes.
    pub fn default_label_map() -> (r: HashMap<u8, u8>)
        ensures
            r@ == default_labels(),
    {
        broadcast use vstd::std_specs::hash::group_hash_axioms;

        let mut m: HashMap<u8, u8> = HashMap::new();
        m.insert(2, 0);
        m.insert(3, 1);
        m.insert(4, 2);
        m.insert(5, 3);
        m.insert(6, 4);
        m.insert(9, 5);
        m.insert(7, 6);
        m.insert(1, 7);
        assert(m@ =~= default_labels());
        m
    }
}

/// The label map that the entries of a JSON object spell out: a key that reads
/// as a byte is an ASPRS code, any other is left out, and of two keys that
/// read the same the later one counts.
pub open spec fn labels_of(e: Seq<(Seq<char>, u8)>) -> Map<u8, u8>
    decreases e.len(),
{
    if e.len() == 0 {
        Map::empty()
    } else {
        let before = labels_of(e.drop_last());
        match unsigned_up_to(e.last().0, 255) {
            Some(code) => before.insert(code as u8, e.last().1),
            None => before,
        }
    }
}

/// The label map of the entries of a JSON object.
pub fn label_map_from(e: &Vec<(String, u8)>) -> (r: HashMap<u8, u8>)
    ensures
        r@ == labels_of(entries(e@)),
{
    broadcast use vstd::std_specs::hash::group_hash_axioms;

    let ghost all = entries(e@);
    let mut m: HashMap<u8, u8> = HashMap::new();
    let mut i: usize = 0;
    assert(all.take(0) =~= Seq::empty());
    assert(m@ =~= labels_of(all.take(0)));
    while i < e.len()
        invariant
            i <= e@.len(),
            all == entries(e@),
            m@ == labels_of(all.take(i as int)),
        decreases e@.len() - i,
    {
        proof {
            assert(all.take(i + 1).drop_last() =~= all.take(i as int));
            assert(all.take(i + 1).last() == (e@[i as int].0@, e@[i as int].1));
        }
        match parse_u8_text(e[i].0.as_str()) {
            Some(code) => {
                m.insert(code, e[i].1);
            },
            None => {},
        }
        i = i + 1;
    }
    assert(all.take(i as int) =~= all);
    m
}

/// Reads the label map of a JSON file with these contents.
pub fn read_label_map(json: &Vec<u8>) -> (r: Result<HashMap<u8, u8>, ClassifierError>)
    ensures
        match r {
            Ok(m) => json_byte_object(json@) matches Ok(e) && m@ == labels_of(e),
            Err(e) => json_byte_object(json@) matches Err(m) && e.text() == pipeline_text(
                "label-map JSON parse: "@ + m,
            ),
        },
{
    match read_byte_object(json) {
        Ok(e) => Ok(label_map_from(&e)),
        Err(m) => Err(ClassifierError::Pipeline(concat2("label-map JSON parse: ", m.as_str()))),
    }
}

/// The class index of codes that the map does not have: that of code 1, or 7.
pub open spec fn unassigned_index(map: Map<u8, u8>) -> u8 {
    if map.dom().contains(1) {
        map[1]
    } else {
        7
    }
}

/// The class index of an ASPRS code.
pub open spec fn remapped(asprs: u8, map: Map<u8, u8>, unassigned: u8) -> u8 {
    if map.dom().contains(asprs) {
        map[asprs]
    } else {
        unassigned
    }
}

/// Remaps an ASPRS classification byte to a model class index.
pub fn remap(asprs: u8, map: &HashMap<u8, u8>, unassigned: u8) -> (r: u8)
    ensures
        r == remapped(asprs, map@, unassigned),
{
    broadcast use vstd::std_specs::hash::group_hash_axioms;

    match map.get(&asprs) {
        Some(v) => *v,
        None => unassigned,
    }
}

/// `t` is the label map `m` with its codes in decimal notation.
pub open spec fn spells(t: Map<Seq<char>, u8>, m: Map<u8, u8>) -> bool {
    &&& forall|c: u8| #[trigger] m.dom().contains(c) ==> t.dom().contains(decimal(c as nat))
        && t[decimal(c as nat)] == m[c]
    &&& forall|k: Seq<char>| #[trigger]
        t.dom().contains(k) ==> exists|c: u8| m.dom().contains(c) && k == #[trigger] decimal(
            c as nat,
        )
}

/// The label map as the manifest carries it.
pub fn label_map_texts(map: &HashMap<u8, u8>) -> (r: TextMap<u8>)
    ensures
        spells(r@, map@),
{
    broadcast use vstd::std_specs::hash::group_hash_axioms;

    let mut out: TextMap<u8> = TextMap::new();
    let mut i: u16 = 0;
    while i < 256
        invariant
            i <= 256,
            forall|c: u8| #[trigger]
                map@.dom().contains(c) && c < i ==> out@.dom().contains(decimal(c as nat))
                    && out@[decimal(c as nat)] == map@[c],
            forall|k: Seq<char>| #[trigger]
                out@.dom().contains(k) ==> exists|c: u8|
                    c < i && map@.dom().contains(c) && k == #[trigger] decimal(c as nat),
        decreases 256 - i,
    {
        let code: u8 = i as u8;
        match map.get(&code) {
            Some(v) => {
                let ghost before = out@;
                let name = decimal_text(code as u64);
                out.insert(name.as_str(), *v);
                proof {
                    assert forall|c: u8| #[trigger]
                        map@.dom().contains(c) && c < i + 1 implies out@.dom().contains(
                        decimal(c as nat),
                    ) && out@[decimal(c as nat)] == map@[c] by {
                        if c != code && decimal(c as nat) == decimal(code as nat) {
                            law_decimal_injective(c as nat, code as nat);
                        }
                    }
                    assert forall|k: Seq<char>| #[trigger]
                        out@.dom().contains(k) implies exists|c: u8|
                        c < i + 1 && map@.dom().contains(c) && k == #[trigger] decimal(
                            c as nat,
                        ) by {
                        if before.dom().contains(k) {
                            let c = choose|c: u8|
                                c < i && map@.dom().contains(c) && k == #[trigger] decimal(
                                    c as nat,
                                );
                            assert(c < i + 1 && map@.dom().contains(c) && k == decimal(c as nat));
                        } else {
                            assert(k == decimal(code as nat));
                            assert(map@.dom().contains(code));
                        }
                    }
                }
            },
            None => {
                assert forall|k: Seq<char>| #[trigger] out@.dom().contains(k) implies exists|c: u8|
                    c < i + 1 && map@.dom().contains(c) && k == #[trigger] decimal(c as nat) by {
                    let c = choose|c: u8|
                        c < i && map@.dom().contains(c) && k == #[trigger] decimal(c as nat);
                    assert(c < i + 1 && map@.dom().contains(c) && k == decimal(c as nat));
                }
            },
        }
        i = i + 1;
    }
    out
}

// ── Macro-tiles ─────────────────────────────────────────────────────────────

/// `x` moved into the range from 0 to `n - 1`.
pub open spec fn clamped(x: int, n: int) -> int {
    if x < 0 {
        0
    } else if x >= n {
        n - 1
    } else {
        x
    }
}

/// The macro-tile of a block: its column and row, as they come out of the
/// division by the tile size, moved into the grid.
pub open spec fn macro_tile(col: int, row: int, tile_grid: int) -> int {
    clamped(row, tile_grid) * tile_grid + clamped(col, tile_grid)
}

/// The IDs are those of a square grid, and every tile has one of its own.
pub proof fn law_macro_tiles_are_distinct(a: (int, int), b: (int, int), tile_grid: int)
    requires
        0 < tile_grid,
    ensures
        0 <= macro_tile(a.0, a.1, tile_grid) < tile_grid * tile_grid,
        macro_tile(a.0, a.1, tile_grid) == macro_tile(b.0, b.1, tile_grid) ==> clamped(
            a.0,
            tile_grid,
        ) == clamped(b.0, tile_grid) && clamped(a.1, tile_grid) == clamped(b.1, tile_grid),
{
    let g = tile_grid;
    let (c, w) = (clamped(a.0, g), clamped(a.1, g));
    let (d, v) = (clamped(b.0, g), clamped(b.1, g));
    assert(0 <= w * g + c <= g * g - 1) by (nonlinear_arith)
        requires
            0 <= w <= g - 1,
            0 <= c <= g - 1,
    ;
    assert(w * g + c == v * g + d ==> w == v) by (nonlinear_arith)
        requires
            0 <= c < g,
            0 <= d < g,
    ;
}

fn clamp(x: i64, n: usize) -> (r: u64)
    requires
        0 < n,
    ensures
        r == clamped(x as int, n as int),
{
    if x < 0 {
        0
    } else if x as u64 >= n as u64 {
        (n - 1) as u64
    } else {
        x as u64
    }
}

/// The macro-tile ID of a block in column `col` and row `row` of the tiles;
/// none where it does not fit 32 bits.
pub fn fitting_macro_tile_id(col: i64, row: i64, tile_grid: usize) -> (r: Option<u32>)
    requires
        0 < tile_grid,
    ensures
        match r {
            Some(id) => id == macro_tile(col as int, row as int, tile_grid as int),
            None => macro_tile(col as int, row as int, tile_grid as int) > u32::MAX,
        },
{
    let c: u64 = clamp(col, tile_grid);
    let w: u64 = clamp(row, tile_grid);
    let g: u64 = tile_grid as u64;
    assert(0 <= w * g) by (nonlinear_arith);
    let base: u64 = match w.checked_mul(g) {
        Some(b) => b,
        None => {
            return None;
        },
    };
    match base.checked_add(c) {
        Some(id) => if id <= 0xFFFF_FFFF {
            Some(id as u32)
        } else {
            None
        },
        None => None,
    }
}

/// The macro-tile ID of a block in column `col` and row `row` of the tiles.
pub fn compute_macro_tile_id(col: i64, row: i64, tile_grid: usize) -> (r: u32)
    requires
        0 < tile_grid,
        macro_tile(col as int, row as int, tile_grid as int) <= u32::MAX,
    ensures
        r == macro_tile(col as int, row as int, tile_grid as int),
{
    match fitting_macro_tile_id(col, row, tile_grid) {
        Some(id) => id,
        None => 0,
    }
}

/// Inside the grid a macro-tile's ID counts the tiles row by row: it says the
/// row and the column. A block west, east, south or north of the grid is in the
/// tile at that edge.
pub proof fn law_macro_tiles_count_row_by_row(col: int, row: int, tile_grid: int)
    requires
        0 < tile_grid,
    ensures
        0 <= col < tile_grid && 0 <= row < tile_grid ==> macro_tile(col, row, tile_grid) / tile_grid
            == row && macro_tile(col, row, tile_grid) % tile_grid == col,
        col < 0 ==> macro_tile(col, row, tile_grid) == macro_tile(0, row, tile_grid),
        col >= tile_grid ==> macro_tile(col, row, tile_grid) == macro_tile(
            tile_grid - 1,
            row,
            tile_grid,
        ),
        row < 0 ==> macro_tile(col, row, tile_grid) == macro_tile(col, 0, tile_grid),
        row >= tile_grid ==> macro_tile(col, row, tile_grid) == macro_tile(
            col,
            tile_grid - 1,
            tile_grid,
        ),
{
    if 0 <= col < tile_grid && 0 <= row < tile_grid {
        vstd::arithmetic::div_mod::lemma_fundamental_div_mod_converse(
            macro_tile(col, row, tile_grid),
            tile_grid,
            row,
            col,
        );
    }
}

/// Of the keys that spell a code, the last one says its class.
pub proof fn law_last_key_counts(e: Seq<(Seq<char>, u8)>, code: u8, i: int)
    requires
        0 <= i < e.len(),
        unsigned_up_to(e[i].0, 255) == Some(code as nat),
        forall|j: int|
            i < j < e.len() ==> unsigned_up_to((#[trigger] e[j]).0, 255) != Some(code as nat),
    ensures
        labels_of(e).dom().contains(code),
        labels_of(e)[code] == e[i].1,
    decreases e.len(),
{
    if i < e.len() - 1 {
        let d = e.drop_last();
        assert(unsigned_up_to(e[e.len() - 1].0, 255) != Some(code as nat));
        assert forall|j: int| i < j < d.len() implies unsigned_up_to((#[trigger] d[j]).0, 255)
            != Some(code as nat) by {
            assert(e[j] == d[j]);
        }
        law_last_key_counts(d, code, i);
    }
}

/// A code that no key spells is not in the label map.
pub proof fn law_other_codes_are_left_out(e: Seq<(Seq<char>, u8)>, code: u8)
    requires
        forall|j: int|
            0 <= j < e.len() ==> unsigned_up_to((#[trigger] e[j]).0, 255) != Some(code as nat),
    ensures
        !labels_of(e).dom().contains(code),
    decreases e.len(),
{
    if e.len() > 0 {
        let d = e.drop_last();
        assert(unsigned_up_to(e[e.len() - 1].0, 255) != Some(code as nat));
        assert forall|j: int| 0 <= j < d.len() implies unsigned_up_to((#[trigger] d[j]).0, 255)
            != Some(code as nat) by {
            assert(e[j] == d[j]);
        }
        law_other_codes_are_left_out(d, code);
    }
}

/// A code takes the class that was last entered for it, and no class is entered
/// for another code by that. A code without a class is unassigned.
pub proof fn law_codes_go_by_their_entry(
    code: u8,
    other: u8,
    class: u8,
    map: Map<u8, u8>,
    unassigned: u8,
)
    requires
        other != code,
    ensures
        remapped(code, map.insert(code, class), unassigned) == class,
        remapped(code, map.remove(code), unassigned) == unassigned,
        remapped(other, map.insert(code, class), unassigned) == remapped(other, map, unassigned),
        remapped(other, map.remove(code), unassigned) == remapped(other, map, unassigned),
{
}

/// Ground, the vegetation heights and buildings take the first classes in the
/// order of their codes, water and noise the next two, and every other code the
/// class of the unclassified points.
pub proof fn law_default_classes(code: u8)
    ensures
        2 <= code <= 6 ==> remapped(code, default_labels(), default_labels()[1]) == code - 2,
        code == 9 ==> remapped(code, default_labels(), default_labels()[1]) == 5,
        code == 7 ==> remapped(code, default_labels(), default_labels()[1]) == 6,
        !(2 <= code <= 7) && code != 9 ==> remapped(
            code,
            default_labels(),
            default_labels()[1],
        ) == 7,
{
}

} // verus!
