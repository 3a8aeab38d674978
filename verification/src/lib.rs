use vstd::prelude::*;

pub mod device;
pub mod error;
pub mod payload;
pub mod rtw;
pub mod text;
pub mod wire;
pub mod whitelist;
pub mod tensor;
pub mod registry;
pub mod trust;
pub mod dispatch;
pub mod cli;
pub mod formula;
pub mod graph;
pub mod batch;
pub mod params;
