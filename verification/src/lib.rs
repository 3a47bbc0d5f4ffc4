//! Verified core of a language server for the klog time-tracking format.
#![allow(unused_imports)]

pub mod text;
pub mod number;
pub mod duration;
pub mod calendar;
pub mod document;
pub mod report;
pub mod project;
pub mod protocol;
pub mod framing;
pub mod completion;
pub mod settings;
pub mod server;
pub mod decimal;
