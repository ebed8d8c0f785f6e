use vstd::prelude::*;
use crate::lineupper::player::Player;
use crate::lineupper::roster::{roster_text, sorted_players, Roster, RosterView};
use crate::lineupper::{slug, slugify};
use crate::lineupper::player::lower_chars;
use crate::text::{chars_of, lowered, push_str, push_two_digits, same_chars, string_of};
use crate::text::two_digits;

verus! {

/// The form in which a team file is written.
#[derive(Debug, Clone, Copy, PartialEq, Eq, Structural)]
pub enum FormatType {
    TOML,
    MSRF,
}

impl FormatType {
    /// The form that the ending of a file's name stands for.
    pub open spec fn of_extension(extension: Seq<char>) -> Option<FormatType> {
        if lowered(extension) == "msrf"@ {
            Some(FormatType::MSRF)
        } else if lowered(extension) == "toml"@ {
            Some(FormatType::TOML)
        } else {
            None
        }
    }

    /// The form that the ending of a file's name stands for: `msrf` or
    /// `toml`, in either case.
    pub fn from_extension(extension: &str) -> (r: Option<FormatType>)
        ensures
            r == FormatType::of_extension(extension@),
    {
        let low = lower_chars(&chars_of(extension));
        if same_chars(&low, &chars_of("msrf")) {
            Some(FormatType::MSRF)
        } else if same_chars(&low, &chars_of("toml")) {
            Some(FormatType::TOML)
        } else {
            None
        }
    }
}

/// The number of players of a full team.
pub const FULL_TEAM: usize = 23;

/// The name of a team's file: the slug of the team's name and `.toml`.
pub fn team_file_name(team: &str) -> (r: String)
    ensures
        r@ == slug(team@) + ".toml"@,
{
    let mut r = slugify(team);
    r.append(".toml");
    r
}

/// The name of the folder that holds a team's portraits as they come: the
/// slug of the team's name and `_dds`.
pub fn dds_folder_name(team: &str) -> (r: String)
    ensures
        r@ == slug(team@) + "_dds"@,
{
    let mut r = slugify(team);
    r.append("_dds");
    r
}

/// The name of a portrait that has no name of its own: `player_XXX` and the
/// player's number.
pub open spec fn default_portrait(id: u8) -> Seq<char> {
    "player_XXX"@ + two_digits(id)
}

/// The name of the portrait of the player with the number `id` as it comes.
pub fn default_portrait_name(id: u8) -> (r: String)
    ensures
        r@ == default_portrait(id),
{
    let mut name: Vec<char> = Vec::new();
    push_str(&mut name, "player_XXX");
    push_two_digits(&mut name, id);
    string_of(&name)
}

/// The name of the file of the player's portrait as it comes.
pub fn dds_file_name(id: u8) -> (r: String)
    ensures
        r@ == default_portrait(id) + ".dds"@,
{
    let mut r = default_portrait_name(id);
    r.append(".dds");
    r
}

/// The name of the file that the player's portrait is written to: the
/// player's portrait name, or the name the portrait came with, and `.png`.
pub fn png_file_name(player: &Player) -> (r: String)
    ensures
        r@ == (match player@.portrait_name {
            Some(name) => name,
            None => default_portrait(player.id),
        }) + ".png"@,
{
    let mut r = match &player.portrait_name {
        Some(name) => name.clone(),
        None => default_portrait_name(player.id),
    };
    r.append(".png");
    r
}

/// Whether the roster has fewer players than a full team.
pub fn is_short(roster: &Roster) -> (r: bool)
    ensures
        r == (roster@.active.len() + roster@.reserve.len() < FULL_TEAM),
{
    roster.active.len() < FULL_TEAM && roster.reserve.len() < FULL_TEAM - roster.active.len()
}

/// Makes the roster ready to be written as a team file. For the form
/// `MSRF` the text of the file comes back. For the form `TOML` the players
/// are put in order, and the roster itself is what is written.
pub fn prepare_team_file(team: &str, roster: &mut Roster, format_type: FormatType) -> (r: Option<
    String,
>)
    ensures
        match format_type {
            FormatType::MSRF => r is Some && r->0@ == roster_text(team@, old(roster)@)
                && final(roster)@ == old(roster)@,
            FormatType::TOML => r is None && final(roster)@ == (RosterView {
                active: sorted_players(old(roster)@.active),
                reserve: sorted_players(old(roster)@.reserve),
            }),
        },
{
    match format_type {
        FormatType::TOML => {
            roster.sort();
            None
        },
        FormatType::MSRF => Some(Roster::to_msrf_string(team, roster)),
    }
}

} // verus!
