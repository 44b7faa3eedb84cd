use vstd::prelude::*;

pub mod text;
pub mod json;
pub mod python;
pub mod settings;
pub mod model;
pub mod util;
pub mod viewer;
pub mod layout;
pub mod input;
