//! A verified interval-partition and multi-source refinement engine for
//! per-chromosome genomic signal. A chromosome's signal is a disjoint,
//! sorted, value-bearing partition of integer coordinates; the engine
//! folds scored intervals into such a partition with additive overlap
//! resolution, computes the common refinement of several partitions with
//! an aligned value vector per source, rebins a partition into fixed-size
//! zero-aligned windows, stream-merges pre-binned external sources into
//! unified wide rows while validating their ordering invariants, selects
//! the highest-valued bins, and combines sources linearly. Values are
//! exact rationals; every public operation carries a contract, and the
//! line-oriented file formats and floating-point statistics live outside
//! this crate.

pub mod binning;
pub mod chrom;
pub mod chrom_map;
pub mod error;
pub mod interval;
pub mod merge;
pub mod mixer;
pub mod partition;
pub mod rat;
pub mod refine;
pub mod refinery;
pub mod top_k;
pub mod util;
