//! A verified nearest-neighbour fraud scorer.

pub mod bytes;
pub mod layout;
pub mod distance;
pub mod ranked;
pub mod heap;
pub mod select;
pub mod model;
pub mod index;
pub mod exactness;
pub mod search;
pub mod calendar;
pub mod scan;
pub mod tx;
pub mod features;
pub mod score;
pub mod http;
pub mod response;
pub mod conn;
pub mod balancer;
