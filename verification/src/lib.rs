use vstd::prelude::*;

pub mod broker;
pub mod command;
pub mod dto;
pub mod engine;
pub mod error;
pub mod event;
pub mod ids;
pub mod instrument;
pub mod keyed;
pub mod lifecycle;
pub mod money;
pub mod narrate;
pub mod order;
pub mod portfolio;
pub mod position;
pub mod problem;
pub mod scoring;
pub mod service;
pub mod store;
pub mod text;
pub mod time;
pub mod wire;

verus! {

} // verus!
