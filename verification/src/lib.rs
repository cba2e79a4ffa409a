use vstd::prelude::*;

pub mod combinations;
pub mod order;
pub mod min_queue;
pub mod flatmap;
pub mod lru_cache;
pub mod pstack;
pub mod trust;
pub mod mpsc;
pub mod comm;
pub mod prefix;
pub mod itertools;
pub mod conway;
