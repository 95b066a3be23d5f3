//! A bounded-depth combinatorial search over a catalog of ingredients.
//!
//! Every ingredient contributes a five-dimensional resource vector
//! ("magimins") and signed sensory deltas.  The library enumerates
//! multisets of ingredients ("recipes") up to a size bound and judges
//! them against a target profile, either exactly (the combined vector
//! must be an integer multiple of a target ratio) or approximately
//! (minimising a squared-distance score to a scaled target).

pub mod approx;
pub mod attributes;
pub mod catalog;
pub mod engine;
pub mod exact;
pub mod ingredient;
pub mod magimins;
pub mod numbers;
pub mod ratio;
pub mod recipe;
pub mod results;
pub mod solve;

pub use approx::{ApproxOutcome, rms_sq, search_approx, search_approx_from};
pub use attributes::PotionAttributes;
pub use catalog::{filter_catalog, sort_catalog};
pub use engine::{BranchSink, CatalogEntry, enumerate};
pub use exact::{search_exact, search_exact_from};
pub use ingredient::Ingredient;
pub use magimins::Magimins;
pub use numbers::parse_decimal;
pub use ratio::IngredientRatio;
pub use recipe::{Recipe, SolveAlgorithm};
pub use results::PotionRecipe;
pub use solve::{SolveSink, solve, solve_all};
