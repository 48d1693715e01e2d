//! Randomized placement of items on a map.
//!
//! A [`state::Randomizer`] is made of a map, the data of the game and a difficulty. It
//! places a hundred copies of twenty-one items step by step: every step hands out key items
//! until picking them up opens up a location that could not be reached before.
//!
//! How links are followed and what items do is left to an implementation of
//! [`traverse::Traversal`].
pub mod choice;
pub mod counting;
pub mod course;
pub mod doors;
pub mod draws;
pub mod filling;
pub mod flags;
pub mod game_data;
pub mod items;
pub mod journey;
pub mod laws;
pub mod log;
pub mod outcome;
pub mod outside;
pub mod placement;
pub mod randomize;
pub mod reachability;
pub mod selection;
pub mod single;
pub mod spoiler;
pub mod state;
pub mod steady;
pub mod step;
pub mod survey;
pub mod traverse;
pub mod validity;
