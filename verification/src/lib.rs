//! A bucketed 3D spatial index: points are binned into a grid, sorted by bin
//! for locality, and chained per bin in intrusive linked lists so that a
//! radius search can claim (remove) every point within reach of a query and a
//! reset can restore the structure to its freshly built state.

use vstd::prelude::*;

mod geom;
mod grid;
mod laws;
mod pointbin;
mod sort;
mod utils;

pub use geom::dist2;
pub use geom::pt_bounded;
pub use geom::Point3;
pub use geom::COORD_LIMIT;
pub use grid::origin_of;
pub use grid::seq_max;
pub use grid::seq_min;
pub use grid::shape_x;
pub use grid::shape_y;
pub use grid::shape_z;
pub use grid::volume_of;
pub use laws::found_ints;
pub use laws::found_origs;
pub use laws::lemma_boundary_inclusive;
pub use laws::lemma_complete_session_covers_all;
pub use laws::lemma_found_count_le_points;
pub use laws::lemma_match_is_order_free;
pub use laws::lemma_reset_idempotent;
pub use laws::lemma_search_deterministic;
pub use pointbin::dims_ok;
pub use pointbin::inv;
pub use pointbin::mkey;
pub use pointbin::pts_of;
pub use pointbin::search_lt;
pub use pointbin::sorted_at;
pub use pointbin::w_of;
pub use pointbin::BinError;
pub use pointbin::BinModel;
pub use pointbin::PointBin3D;
pub use utils::axis_column;
pub use utils::max_along_axis0;
pub use utils::max_along_axis0_i64;
pub use utils::min_along_axis0;
