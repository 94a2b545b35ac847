//! Gik: a transactional version control library with Git-compatible object
//! formats. The modules here hold the verified core: object encodings, pack
//! and delta decoding, merge analysis, protocol parsing and the decisions that
//! the repository commands take.

pub mod external;
pub mod hash;
pub mod merge;
pub mod objects;
pub mod error;
pub mod pack;
pub mod text;
pub mod textmerge;
pub mod clone;
pub mod network;
pub mod models;
pub mod unpack;
pub mod utils;
pub mod ignore;
pub mod status;
pub mod commit;
pub mod packfile;
pub mod undo;
pub mod workspace;
pub mod treebuild;
pub mod graph;
pub mod config;
pub mod packscan;
pub mod ancestry;
