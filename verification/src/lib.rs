//! peat — agent memory as a fold: the verified core.
pub mod brief;
pub mod civil;
pub mod cli;
pub mod event;
pub mod ladder;
pub mod ledger;
pub mod pipeline;
pub mod reads;
pub mod store;
pub mod text;
pub mod transcript;
pub mod ui;
pub mod window;
pub mod zoom;
