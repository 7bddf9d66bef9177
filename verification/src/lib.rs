use vstd::prelude::*;

pub mod account;
pub mod account_v2;
pub mod common;
pub mod contract;
pub mod decimal;
pub mod jar;
pub mod jar_v2;
pub mod laws;
pub mod legacy;
pub mod product;
pub mod product_v2;
pub mod signature;
pub mod text;
pub mod view;
pub mod restake;
pub mod roles;
pub mod score;

verus! {

} // verus!
