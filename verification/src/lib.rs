//! Offline decoding of encrypted music containers: KGG, KGM and VPR, KWM, NCM
//! and QMC files, together with the local key database that some of them need.
//!
//! Every module states what its functions compute over mathematical sequences of
//! bytes and characters.
pub mod audio;
pub mod bytes;
pub mod database;
pub mod double;
pub mod ekey;
pub mod formats;
pub mod jobs;
pub mod keys;
pub mod kgg;
pub mod kgm;
pub mod kwm;
pub mod ncm;
pub mod outside;
pub mod qmc;
pub mod qmc_file;
pub mod songs;
pub mod tea;
pub mod text;
pub mod watch;

