//! Preprocessing: shared constants, block identity and file-name rules.

pub mod block_assembly;
pub mod block_partitioner;
pub mod cell_index;
pub mod config;
pub mod dataset_split;
pub mod eigen_prepass;
pub mod feat_file;
pub mod feature_extractor;
pub mod label_inverse;
pub mod labeled_pipeline;
pub mod labels;
pub mod lite_point;
pub mod normalizer;
pub mod outlier_filter;
pub mod pipeline;
pub mod real_order;
pub mod scalar_features;
pub mod spatial_index;
pub mod split_assign;
pub mod split_laws;
pub mod subset;
pub mod tile_counts;

use vstd::prelude::*;

use crate::error::{pipeline_text, ClassifierError};
use crate::text::{chars_of, concat3};

verus! {

/// Current `.feat` format version. Version 2 adds the halo row count.
pub const FEAT_VERSION: u8 = 2;

/// The first `.feat` format version, still readable.
pub const FEAT_VERSION_V1: u8 = 1;

/// Number of scalar (non-eigenvalue) features per point.
pub const N_SCALAR_FEATURES: usize = 7;

/// Number of eigenvalue-derived features computed per search radius.
pub const N_EIGEN_FEATURES_PER_RADIUS: usize = 5;

/// Number of features per point: the scalar ones and ten eigenvalue features.
pub const N_FEATURES: usize = 17;

/// High-water mark for the in-flight block accumulator (bytes).
pub const SPILL_HIGH_WATER_BYTES: usize = 536_870_912;

/// Maximum allowed size (in bytes) of a single `.feat` file's data payload.
pub const MAX_FEAT_PAYLOAD_BYTES: usize = 536_870_912;

/// Total feature count for a given number of search radii.
pub fn n_features_for_radii(n_radii: usize) -> (r: usize)
    requires
        7 + 5 * n_radii <= usize::MAX,
    ensures
        r == 7 + 5 * n_radii,
{
    N_SCALAR_FEATURES + N_EIGEN_FEATURES_PER_RADIUS * n_radii
}

/// Whether two dots stand next to each other.
pub open spec fn has_double_dot(s: Seq<char>) -> bool {
    exists|i: int| 0 <= i < s.len() - 1 && #[trigger] s[i] == '.' && s[i + 1] == '.'
}

/// Whether a manifest may name this file: no `..`, no path separator.
pub open spec fn is_bare_name(s: Seq<char>) -> bool {
    !has_double_dot(s) && !s.contains('/') && !s.contains('\\')
}

/// The message on a file name that a manifest may not carry.
pub open spec fn bad_name_message(name: Seq<char>) -> Seq<char> {
    "manifest file name '"@ + name
        + "' is not a valid bare file name (path separators and '..' are rejected — Stage 20 security hardening)"@
}

/// Rejects manifest-supplied file names that could escape the dataset
/// directory via path traversal (`..`) or an embedded path separator.
pub fn validate_block_filename(name: &str) -> (r: Result<(), ClassifierError>)
    ensures
        r is Ok <==> is_bare_name(name@),
        r matches Err(e) ==> e.text() == pipeline_text(bad_name_message(name@)),
{
    let chars = chars_of(name);
    let mut i: usize = 0;
    let mut ok: bool = true;
    while i < chars.len()
        invariant
            i <= chars@.len(),
            ok ==> forall|k: int|
                0 <= k < i ==> (#[trigger] chars@[k]) != '/' && chars@[k] != '\\',
            ok ==> forall|k: int|
                0 <= k < i && k < chars@.len() - 1 ==> !(#[trigger] chars@[k] == '.' && chars@[k + 1]
                    == '.'),
            !ok ==> !is_bare_name(chars@),
        decreases chars@.len() - i,
    {
        let c: char = chars[i];
        assert(chars@[i as int] == c);
        if c == '/' || c == '\\' {
            ok = false;
        }
        if c == '.' && i + 1 < chars.len() && chars[i + 1] == '.' {
            ok = false;
        }
        i = i + 1;
    }
    if ok {
        Ok(())
    } else {
        Err(
            ClassifierError::Pipeline(
                concat3(
                    "manifest file name '",
                    name,
                    "' is not a valid bare file name (path separators and '..' are rejected — Stage 20 security hardening)",
                ),
            ),
        )
    }
}

/// The flat block number of grid cell (`row`, `col`), modulo two to the 64.
pub open spec fn block_number(row: int, col: int, grid_cols: int) -> int {
    (row * grid_cols + col) % 0x1_0000_0000_0000_0000
}

proof fn lemma_as_u64(x: i64)
    ensures
        (x as u64) as int == (x as int) % 0x1_0000_0000_0000_0000,
{
    if x >= 0 {
        assert(x as u64 == x);
    } else {
        assert(x < 0 ==> (x as u64) as int == x as int + 0x1_0000_0000_0000_0000) by (bit_vector);
    }
}

/// The flat block ID of grid cell (`row`, `col`).
///
/// `grid_cols` is the header-derived number of columns, never one re-derived
/// from the blocks that a density filter left.
pub fn block_id(row: i64, col: i64, grid_cols: i64) -> (r: u64)
    ensures
        r == block_number(row as int, col as int, grid_cols as int),
{
    let product: u64 = (row as u64).wrapping_mul(grid_cols as u64);
    let r: u64 = product.wrapping_add(col as u64);
    proof {
        let m: int = 0x1_0000_0000_0000_0000;
        lemma_as_u64(row);
        lemma_as_u64(col);
        lemma_as_u64(grid_cols);
        let (a, b, c) = (row as int, grid_cols as int, col as int);
        vstd::arithmetic::div_mod::lemma_mul_mod_noop(a, b, m);
        assert(product == (a * b) % m);
        vstd::arithmetic::div_mod::lemma_add_mod_noop(a * b, c, m);
        assert(r == ((a * b) % m + c % m) % m);
    }
    r
}

/// Two cells of one grid never share a block ID.
pub proof fn law_block_ids_are_distinct(
    row1: int,
    col1: int,
    row2: int,
    col2: int,
    grid_cols: int,
    grid_rows: int,
)
    requires
        0 < grid_cols <= u32::MAX,
        0 < grid_rows <= u32::MAX,
        0 <= col1 < grid_cols,
        0 <= col2 < grid_cols,
        0 <= row1 < grid_rows,
        0 <= row2 < grid_rows,
        block_number(row1, col1, grid_cols) == block_number(row2, col2, grid_cols),
    ensures
        row1 == row2,
        col1 == col2,
{
    let m: int = 0x1_0000_0000_0000_0000;
    let a = row1 * grid_cols + col1;
    let b = row2 * grid_cols + col2;
    assert(0 <= a < m) by (nonlinear_arith)
        requires
            0 <= row1 < 0xFFFF_FFFF,
            0 < grid_cols <= 0xFFFF_FFFF,
            0 <= col1 < grid_cols,
            a == row1 * grid_cols + col1,
            m == 0x1_0000_0000_0000_0000,
    ;
    assert(0 <= b < m) by (nonlinear_arith)
        requires
            0 <= row2 < 0xFFFF_FFFF,
            0 < grid_cols <= 0xFFFF_FFFF,
            0 <= col2 < grid_cols,
            b == row2 * grid_cols + col2,
            m == 0x1_0000_0000_0000_0000,
    ;
    vstd::arithmetic::div_mod::lemma_small_mod(a as nat, m as nat);
    vstd::arithmetic::div_mod::lemma_small_mod(b as nat, m as nat);
    assert(a == b);
    vstd::arithmetic::div_mod::lemma_fundamental_div_mod_converse(a, grid_cols, row1, col1);
    vstd::arithmetic::div_mod::lemma_fundamental_div_mod_converse(a, grid_cols, row2, col2);
}

/// Inside a grid a block's ID counts the cells row by row: it says the row and
/// the column.
pub proof fn law_block_ids_count_row_by_row(row: int, col: int, grid_cols: int, grid_rows: int)
    requires
        0 < grid_cols <= u32::MAX,
        0 < grid_rows <= u32::MAX,
        0 <= col < grid_cols,
        0 <= row < grid_rows,
    ensures
        0 <= block_number(row, col, grid_cols) < grid_cols * grid_rows,
        block_number(row, col, grid_cols) / grid_cols == row,
        block_number(row, col, grid_cols) % grid_cols == col,
{
    let k = row * grid_cols + col;
    assert(0 <= k < grid_cols * grid_rows) by (nonlinear_arith)
        requires
            k == row * grid_cols + col,
            0 <= col < grid_cols,
            0 <= row <= grid_rows - 1,
    ;
    assert(grid_cols * grid_rows <= 0xFFFF_FFFF * 0xFFFF_FFFF) by (nonlinear_arith)
        requires
            0 < grid_cols <= 0xFFFF_FFFF,
            0 < grid_rows <= 0xFFFF_FFFF,
    ;
    assert(k % 0x1_0000_0000_0000_0000 == k);
    vstd::arithmetic::div_mod::lemma_fundamental_div_mod_converse(k, grid_cols, row, col);
}

/// A bare file name has no separator, and no two dots in a row.
pub proof fn law_bare_names_stay_in_their_directory(s: Seq<char>)
    ensures
        is_bare_name(s) <==> forall|i: int|
            0 <= i < s.len() ==> #[trigger] s[i] != '/' && s[i] != '\\' && !(s[i] == '.' && i + 1
                < s.len() && s[i + 1] == '.'),
{
    if is_bare_name(s) {
        assert forall|i: int| 0 <= i < s.len() implies #[trigger] s[i] != '/' && s[i] != '\\' && !(
        s[i] == '.' && i + 1 < s.len() && s[i + 1] == '.') by {
            assert(s.contains(s[i]));
        }
    }
}

} // verus!
