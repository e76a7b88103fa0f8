//! Configuration of the preprocessing pipeline.

use vstd::prelude::*;

use crate::ieee::Real64;
use crate::ordering::{law_sorted_by, sorted_by};
use crate::preprocessing::real_order::{no_nan, real_key, sort_reals};

verus! {

/// The pattern of `50.0`.
pub const FIFTY: u64 = 0x4049_0000_0000_0000;

/// The pattern of `2.0`.
pub const TWO: u64 = 0x4000_0000_0000_0000;

/// The pattern of `1.0`.
pub const ONE: u64 = 0x3FF0_0000_0000_0000;

/// Default fixed reference height of height-above-ground normalisation: the
/// pattern of `50.0`.
pub const DEFAULT_HAG_MAX_METERS: u64 = 0x4049_0000_0000_0000;

/// Default cell size of the auto-generated ground model: the pattern of `1.0`.
pub const DEFAULT_DTM_RESOLUTION: u64 = 0x3FF0_0000_0000_0000;

/// Default memory budget of the eigenvalue pre-pass, in bytes.
pub const DEFAULT_EIGEN_BUDGET_BYTES: usize = 2_147_483_648;

/// How raw height above ground is brought into the range from 0 to 1.
#[derive(Debug, Clone, Copy, PartialEq, Eq, Structural)]
pub enum HagNormalization {
    /// Divide by a fixed reference height.
    FixedMeters(Real64),
    /// Divide by the 99th percentile of the block's own heights.
    BlockPercentile99,
}

impl Default for HagNormalization {
    fn default() -> (r: Self)
        ensures
            r == HagNormalization::FixedMeters((Real64 { bits: DEFAULT_HAG_MAX_METERS })),
    {
        HagNormalization::FixedMeters(Real64 { bits: DEFAULT_HAG_MAX_METERS })
    }
}

/// Configuration for the full preprocessing pipeline.
#[derive(Debug)]
pub struct PreprocessConfig {
    /// Path to the input LAS/LAZ/COPC file.
    pub input: String,
    /// Directory where `.feat` blocks and `blocks.json` will be written.
    pub output_dir: String,
    /// 2-D cell edge length in projection units.
    pub block_size: Real64,
    /// Fixed number of points per block after density-gated sampling.
    pub target_points: usize,
    /// Minimum point density required to retain a block.
    pub min_density: Real64,
    /// Base radius for eigenvalue neighbourhood queries.
    pub search_radius: Real64,
    /// Search radii of multi-scale extraction; empty means `search_radius`.
    pub search_radii: Vec<Real64>,
    /// Minimum neighbour count required.
    pub min_neighbors: usize,
    /// Path to an external ground model raster.
    pub hag_model: Option<String>,
    /// Thread pool size; `None` for the system default.
    pub threads: Option<usize>,
    /// Emit a `.csv` file alongside each `.feat` file.
    pub debug_csv: bool,
    /// Remove outliers before block partitioning.
    pub outlier_removal: bool,
    /// Neighbourhood radius of outlier removal.
    pub outlier_radius: Real64,
    /// Elevation residual threshold of outlier removal.
    pub outlier_elev_diff: Real64,
    /// Use the neighbourhood median instead of the mean.
    pub outlier_use_median: bool,
    /// Overlap radius added to each block; zero disables it.
    pub block_overlap: Real64,
    /// Standard deviation of the jitter of padding points; zero disables it.
    pub oversample_jitter: Real64,
    /// How height above ground is normalised.
    pub hag_normalization: HagNormalization,
    /// Normalise `z` by each block's own range instead of the file's.
    pub z_norm_use_block_relative: bool,
    /// Generate a ground model where none is given.
    pub auto_dtm: bool,
    /// Cell size of the generated ground model.
    pub auto_dtm_resolution: Real64,
    /// Keep the generated ground model.
    pub keep_auto_dtm: bool,
    /// Fraction of each block's rows reserved for halo samples.
    pub halo_fraction: Real64,
    /// Memory budget of the eigenvalue pre-pass, in bytes.
    pub eigen_memory_budget_bytes: usize,
}

impl PreprocessConfig {
    /// The fields that no flag sets hold their defaults.
    pub open spec fn rest_is_default(self) -> bool {
        let zero = Real64 { bits: 0 };
        &&& self.oversample_jitter == zero
        &&& self.hag_normalization == HagNormalization::FixedMeters(
            (Real64 { bits: DEFAULT_HAG_MAX_METERS }),
        )
        &&& !self.z_norm_use_block_relative
        &&& self.auto_dtm
        &&& self.auto_dtm_resolution == (Real64 { bits: DEFAULT_DTM_RESOLUTION })
        &&& !self.keep_auto_dtm
        &&& self.halo_fraction == zero
        &&& self.eigen_memory_budget_bytes == DEFAULT_EIGEN_BUDGET_BYTES
    }

    /// Every field holds its default.
    pub open spec fn is_default(self) -> bool {
        let zero = Real64 { bits: 0 };
        &&& self.rest_is_default()
        &&& self.input@ == ""@
        &&& self.output_dir@ == ""@
        &&& self.block_size == (Real64 { bits: FIFTY })
        &&& self.target_points == 1024
        &&& self.min_density == (Real64 { bits: ONE })
        &&& self.search_radius == (Real64 { bits: ONE })
        &&& self.search_radii@ == Seq::<Real64>::empty()
        &&& self.min_neighbors == 8
        &&& self.hag_model is None
        &&& self.threads is None
        &&& !self.debug_csv
        &&& !self.outlier_removal
        &&& self.outlier_radius == (Real64 { bits: TWO })
        &&& self.outlier_elev_diff == (Real64 { bits: FIFTY })
        &&& !self.outlier_use_median
        &&& self.block_overlap == zero
    }
}

impl Default for PreprocessConfig {
    fn default() -> (r: Self)
        ensures
            r.is_default(),
    {
        let zero = Real64 { bits: 0 };
        PreprocessConfig {
            input: "".to_owned(),
            output_dir: "".to_owned(),
            block_size: Real64 { bits: FIFTY },
            target_points: 1024,
            min_density: Real64 { bits: ONE },
            search_radius: Real64 { bits: ONE },
            search_radii: Vec::new(),
            min_neighbors: 8,
            hag_model: None,
            threads: None,
            debug_csv: false,
            outlier_removal: false,
            outlier_radius: Real64 { bits: TWO },
            outlier_elev_diff: Real64 { bits: FIFTY },
            outlier_use_median: false,
            block_overlap: zero,
            oversample_jitter: zero,
            hag_normalization: HagNormalization::FixedMeters(Real64 { bits: DEFAULT_HAG_MAX_METERS }),
            z_norm_use_block_relative: false,
            auto_dtm: true,
            auto_dtm_resolution: Real64 { bits: DEFAULT_DTM_RESOLUTION },
            keep_auto_dtm: false,
            halo_fraction: zero,
            eigen_memory_budget_bytes: DEFAULT_EIGEN_BUDGET_BYTES,
        }
    }
}

// ── Search radii ────────────────────────────────────────────────────────────

impl PreprocessConfig {
    /// The radii in effect: the list, or the single radius where it is empty.
    pub open spec fn radii(self) -> Seq<Real64> {
        if self.search_radii@.len() == 0 {
            seq![self.search_radius]
        } else {
            self.search_radii@
        }
    }

    /// The effective list of eigenvalue search radii, in ascending order.
    /// A list with NaN in it has no order.
    pub fn search_radii_effective(&self) -> (r: Vec<Real64>)
        requires
            no_nan(self.radii()),
        ensures
            r@ == sorted_by(self.radii(), real_key()),
    {
        if self.search_radii.len() == 0 {
            let single: Vec<Real64> = vec![self.search_radius];
            assert(single@ =~= self.radii());
            sort_reals(&single)
        } else {
            sort_reals(&self.search_radii)
        }
    }
}

/// The radii in use are those given, or the one radius where none are, from the
/// least to the greatest.
pub proof fn law_radii_ascend(c: PreprocessConfig)
    ensures
        ({
            let r = sorted_by(c.radii(), real_key());
            &&& c.search_radii@.len() == 0 ==> r.to_multiset() == seq![c.search_radius].to_multiset()
            &&& c.search_radii@.len() > 0 ==> r.to_multiset() == c.search_radii@.to_multiset()
            &&& forall|i: int, j: int|
                0 <= i <= j < r.len() ==> (#[trigger] r[i]).key() <= (#[trigger] r[j]).key()
        }),
{
    law_sorted_by(c.radii(), real_key());
}

} // verus!
