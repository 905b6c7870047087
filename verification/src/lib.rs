//! Core of a live memory scanner: a typed predicate language over fixed-width
//! numeric values, a first-pass scan over raw region bytes, a re-scan that
//! narrows a previous result set against fresh memory, and a candidate
//! location store that keeps the surviving `(address, value)` pairs in the
//! cheapest of several encodings.

use vstd::prelude::*;

mod region;
mod rough;
mod scan;
mod scan_meta;
mod scannable;
mod session;

pub use region::Location;
pub use region::LocationsStyle;
pub use region::Region;
pub use region::RegionInfo;
pub use scan::Scan;
pub use scan_meta::IntoScan;
pub use scan_meta::ScanInfo;
pub use scan_meta::ScanType;
pub use scan_meta::ScanValue;
pub use scan_meta::ValueType;
pub use rough::f32_roughly_eq_bits;
pub use rough::f64_roughly_eq_bits;
pub use scannable::Scannable;
pub use session::is_writable_region;
pub use session::locations_window;
pub use session::ProcessView;


