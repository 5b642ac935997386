//! Seeded maze generation: a square grid of wall and open cells carved by a
//! randomized depth-first backtracker or by recursive spatial division, with
//! a reachable exit pierced through the border and a valid start point, all
//! reproducible from a string seed.

pub mod maze_generator;
