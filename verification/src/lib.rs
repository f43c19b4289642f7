//! Verified core logic of the PIC photo library: format registry, network
//! URI handling, grid chunking and grouping, folder sections, viewer request
//! bookkeeping and recently-used texture caches.

pub mod text;
pub mod grouping;
pub mod chunks;
pub mod dates;
pub mod shares;
pub mod nfs;
pub mod sorting;
pub mod formats;
pub mod listing;
pub mod transport;
pub mod viewer;
pub mod requests;
pub mod cache;
pub mod folders;
pub mod settings;
pub mod home;
pub mod scanner;
pub mod library;
pub mod details;
pub mod picker;
pub mod gallery;
pub mod routing;
pub mod pixels;
pub mod sections;
