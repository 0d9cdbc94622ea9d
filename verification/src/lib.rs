//! A rules engine for quantum chess: a chessboard state held as a
//! weighted bag of classical boards (harmonics), evolved by ordinary
//! moves, quantum split moves, per-square measurement, regrouping and
//! degeneracy normalization.
pub mod chess;
pub mod engine;
pub mod parse;
pub mod quantize;
pub mod render;
pub mod rng;
