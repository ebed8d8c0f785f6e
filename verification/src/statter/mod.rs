//! Tournament statistics: resolves the standings of elimination and group
//! tournaments from their match results and aggregates them into season
//! rankings and lifetime team records.

pub mod date;
pub mod entry;
pub mod fixture;
pub mod groups;
pub mod participants;
pub mod placements;
pub mod playoffs;
pub mod qualification;
pub mod rankings;
pub mod single_elimination;
pub mod stages;
pub mod team;
pub mod tournament;
