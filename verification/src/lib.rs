//! A polling file-change monitor: a scanner that walks a snapshot of a
//! directory tree and reports the files modified after a watermark, pruning
//! excluded names, and a recorder that serialises the detected changes into
//! an append-only, quoted-field log.

pub mod change;
pub mod codec;
pub mod handler;
pub mod parse;
pub mod scan;
