//! A diff/patch/merge core for per-source edits to structured game records.
//!
//! Domain records (hero stat blocks, localization tables) flatten into an
//! ordered mapping from structural paths to scalar values. Per-source edits
//! are sparse patches over that flattened space; the merge engine combines
//! many sources' patches into one, classifying each touched path as
//! unambiguous or conflicting; ordered string sequences are encoded as
//! value-keyed successor chains so they patch cleanly under insertion and
//! removal; a resolved patch is finally applied to the typed record.

pub mod chain;
pub mod hero;
pub mod hero_apply;
pub mod hero_load;
pub mod hero_map;
pub mod localization;
pub mod map;
pub mod merge;
pub mod patch;
pub mod raw;
pub mod resolve;
pub mod strnum;
pub mod strutil;
pub mod value;
