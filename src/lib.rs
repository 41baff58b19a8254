//! Shapley-value attribution of joined rows to the sellers who own the
//! source rows, with an exact brute-force scheme, a permutation-sampling
//! scheme, and a scheme that reasons per row over minimal sufficient
//! coalitions.

pub mod dataset;
pub mod non_linear_comb;
pub mod non_linear_lookup;
pub mod permutation;
pub mod proposed;
pub mod seller;
pub mod subset_utility;
pub mod subsets;
pub mod synthesis;
pub mod synthesis_sv;
pub mod traditional;
pub mod utils;

pub use dataset::{DataSet, RowId, ShapleyError, Table};
pub use seller::{SellerId, SellerSet};
pub use synthesis::Synthesis;
pub use synthesis_sv::{cal_sv_linear, cal_sv_non_linear, Scale, Share};
