//! Text and JSON logic of a notifier that watches new tokens and reports
//! when their token profile has been paid for.
#![allow(unused_imports)]

pub mod scan;
pub mod json;
pub mod common;
pub mod dexscreen;
pub mod field;
pub mod pumpfun;
pub mod config;
pub mod checker;
