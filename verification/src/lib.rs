//! A territory game: the server's rules, the client's state and the messages between them.
pub mod board;
pub mod boxes;
pub mod broadcast;
pub mod capture;
pub mod client;
pub mod codec;
pub mod course;
pub mod drawing;
pub mod edge;
pub mod exact;
pub mod float64;
pub mod game;
pub mod geometry;
pub mod input;
pub mod knowledge;
pub mod laws;
pub mod lines;
pub mod lists;
pub mod motion;
pub mod news;
pub mod outlines;
pub mod places;
pub mod player;
pub mod protocol;
pub mod ranking;
pub mod render;
pub mod reports;
pub mod rounding;
pub mod rounds;
pub mod screen;
pub mod segments;
pub mod sight;
pub mod sizes;
pub mod spatial_hash;
pub mod spawn;
pub mod spoils;
pub mod standing;
pub mod text;
pub mod tick;
pub mod tidings;
pub mod trails;
pub mod trips;
pub mod update;
pub mod wire;
