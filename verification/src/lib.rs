//! Core of a screen-overlay companion tool: matches a catalog of small
//! reference images ("templates") against captured frames, aggregates the
//! detected catalog ids, and tracks which ids stay visible under a
//! trailing time window.
//!
//! The pipeline of one cycle: a frame and the catalog go through the work
//! distributor (`distribute`), which partitions the catalog into per-worker
//! slices and runs the matching engine (`matching`) over every
//! (frame, template) pair; the raw matches reduce to a deduplicated,
//! ascending id set; the presence tracker (`presence`) folds that set into
//! the display state, evicting what has not been seen for too long.

pub mod distribute;
pub mod items;
pub mod matching;
pub mod presence;
pub mod raster;
