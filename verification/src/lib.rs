//! The tools of the league. `statter` makes statistics out of tournament
//! results: the standings of each tournament, the rankings of the seasons
//! and the records of the teams. `lineupper` reads and writes team rosters.
//! `roster_editor` and `tools` hold what the roster editor and the tool
//! strips work on, `ordering` how lists are put in order, and `text` what
//! the tools need of chars.

pub mod lineupper;
pub mod ordering;
pub mod roster_editor;
pub mod statter;
pub mod text;
pub mod tools;
