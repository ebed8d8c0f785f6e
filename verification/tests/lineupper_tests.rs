use multitool::lineupper::create::{dds_file_name, dds_folder_name, default_portrait_name};
use multitool::lineupper::create::{is_short, png_file_name, prepare_team_file, team_file_name};
use multitool::lineupper::create::FormatType;
use multitool::lineupper::player::{Medal, Player, PlayerError, PlayerState, Position};
use multitool::lineupper::roster::{is_roster_extension, Roster, RosterFile, RosterFileError};
use multitool::lineupper::slugify;
use std::path::PathBuf;

fn player(id: u8, name: &str, position: Position) -> Player {
    Player { captain: None, id, medal: None, name: String::from(name), portrait_name: None, position }
}

fn read(line: &str) -> Result<PlayerState, PlayerError> {
    PlayerState::from_string(String::from(line))
}

#[test]
fn slug_of_a_name() {
    assert_eq!(slugify("Alpha Space Bros"), "alpha-space-bros");
    assert_eq!(slugify("  HmX Gaming!  "), "hmx-gaming");
    assert_eq!(slugify("a  b"), "a--b");
    assert_eq!(slugify("\tX y\n"), "x-y");
    assert_eq!(slugify("Ünï_code-9"), "ncode-9");
    assert_eq!(slugify(""), "");
    assert_eq!(slugify(" \u{2003} "), "");
    assert_eq!(slugify("a\tb"), "ab");
}

#[test]
fn positions_by_name() {
    assert_eq!(Position::from("GK"), Ok(Position::GK));
    assert_eq!(Position::from("DMF"), Ok(Position::DMF));
    assert_eq!(Position::from("CF"), Ok(Position::CF));
    assert_eq!(Position::from("gk"), Err(PlayerError::InvalidPosition(String::from("gk"))));
    assert_eq!(Position::from(""), Err(PlayerError::InvalidPosition(String::new())));
    assert_eq!(Position::default(), Position::CB);
    for i in 0..13 {
        let p = Position::of_rank(i);
        assert_eq!(p.rank(), i);
        assert_eq!(Position::from(p.as_str()), Ok(p));
        assert_eq!(format!("{:?}", p), p.as_str());
    }
    assert!(Position::GK < Position::LB && Position::SS < Position::CF);
}

#[test]
fn player_state_from_its_parts() {
    let active =
        PlayerState::from(true, 9, Some(Medal::Gold), String::from("Nine"), Position::CF, true);
    assert_eq!(
        active,
        PlayerState::Active(Player {
            captain: Some(true),
            id: 9,
            medal: Some(Medal::Gold),
            name: String::from("Nine"),
            portrait_name: None,
            position: Position::CF,
        })
    );
    let reserve = PlayerState::from(false, 1, None, String::from("One"), Position::GK, false);
    assert_eq!(reserve, PlayerState::Reserve(player(1, "One", Position::GK)));
}

#[test]
fn line_of_a_player() {
    let mut p = player(7, "John Doe", Position::GK);
    p.medal = Some(Medal::Gold);
    p.captain = Some(true);
    assert_eq!(
        PlayerState::Active(p).to_msrf_string(),
        "XXX07 +++ John Doe (a) (g) (c) +++ GK"
    );
    assert_eq!(
        PlayerState::Reserve(player(12, "Jane", Position::CF)).to_msrf_string(),
        "XXX12 +++ Jane +++ CF"
    );
    let mut p = player(3, "Pic", Position::LB);
    p.medal = Some(Medal::Silver);
    p.captain = Some(false);
    p.portrait_name = Some(String::from("my-pic_1"));
    assert_eq!(PlayerState::Reserve(p).to_msrf_string(), "XXX03 +++ Pic (s) [p=my-pic_1] +++ LB");
    assert_eq!(
        PlayerState::Active(player(123, "Big", Position::SS)).to_msrf_string(),
        "XXX123 +++ Big (a) +++ SS"
    );
    assert_eq!(
        PlayerState::Active(player(0, "", Position::CB)).to_msrf_string(),
        "XXX00 +++  (a) +++ CB"
    );
}

#[test]
fn player_of_a_line() {
    assert_eq!(
        read("XXX07 +++ John Doe (a) (g) (c) +++ GK"),
        Ok(PlayerState::Active(Player {
            captain: Some(true),
            id: 7,
            medal: Some(Medal::Gold),
            name: String::from("John Doe"),
            portrait_name: None,
            position: Position::GK,
        }))
    );
    assert_eq!(read("  xxx12+++Jane+++ CF \n"), Ok(PlayerState::Reserve(player(12, "Jane", Position::CF))));
    assert_eq!(
        read("XXX03 +++ Pic (s) [p=my-pic_1] +++ LB"),
        Ok(PlayerState::Reserve(Player {
            captain: None,
            id: 3,
            medal: Some(Medal::Silver),
            name: String::from("Pic"),
            portrait_name: Some(String::from("my-pic_1")),
            position: Position::LB,
        }))
    );
    assert_eq!(read("XxX+7 +++ Seven +++ RWF"), Ok(PlayerState::Reserve(player(7, "Seven", Position::RWF))));
    assert_eq!(
        read("XXX10 +++ (g)Ten(s) (g) +++ AMF +++ more"),
        Ok(PlayerState::Reserve(Player {
            captain: None,
            id: 10,
            medal: Some(Medal::Gold),
            name: String::from("Ten(s)"),
            portrait_name: None,
            position: Position::AMF,
        }))
    );
    assert_eq!(
        read("XXX11 +++ A [p=x] B [p=y] +++ CMF"),
        Ok(PlayerState::Reserve(Player {
            captain: None,
            id: 11,
            medal: None,
            name: String::from("A  B [p=y]"),
            portrait_name: Some(String::from("x")),
            position: Position::CMF,
        }))
    );
}

#[test]
fn line_and_player_go_both_ways() {
    let lines = [
        "XXX01 +++ Keeper (a) +++ GK",
        "XXX02 +++ Left Back (a) (s) +++ LB",
        "XXX23 +++ Sub (g) (c) +++ CF",
    ];
    for line in lines {
        assert_eq!(read(line).unwrap().to_msrf_string(), line);
    }
}

#[test]
fn lines_that_are_no_players() {
    assert_eq!(read("---Team---"), Err(PlayerError::NotAPlayer));
    assert_eq!(read(""), Err(PlayerError::NotAPlayer));
    assert_eq!(read("CURRENT LINE-UP:"), Err(PlayerError::NotAPlayer));
    assert_eq!(read("a +++ b"), Err(PlayerError::NotAPlayer));
    assert_eq!(
        read("XXX01 +++ Name"),
        Err(PlayerError::MissingAttributes(String::from("XXX01 +++ Name")))
    );
    assert_eq!(
        read("XX01 +++ Name +++ GK"),
        Err(PlayerError::InvalidID(String::from("XX01 +++ Name +++ GK")))
    );
    assert_eq!(
        read("XXX1 +++ Name +++ GK"),
        Err(PlayerError::InvalidID(String::from("XXX1 +++ Name +++ GK")))
    );
    assert_eq!(
        read("XXXab +++ Name +++ GK"),
        Err(PlayerError::InvalidID(String::from("XXXab +++ Name +++ GK")))
    );
    assert_eq!(
        read("XXX01 +++ Name +++ ST"),
        Err(PlayerError::InvalidPosition(String::from("ST")))
    );
    assert_eq!(
        read("XXX01 +++ Name [p=bad name] +++ GK"),
        Err(PlayerError::InvalidPortraitName(String::from("bad name")))
    );
    assert_eq!(
        read("XXX01 +++ Name [p=] +++ GK"),
        Err(PlayerError::InvalidPortraitName(String::new()))
    );
}

fn file_lines() -> Vec<String> {
    [
        "---Some Team---",
        "",
        "CURRENT LINE-UP:",
        "",
        "XXX02 +++ Zed (a) +++ CB",
        "XXX01 +++ Keeper (a) (c) +++ GK",
        "XXX04 +++ Abe (a) +++ CB",
        "XXX03 +++ Sub (g) [p=sub] +++ CF",
    ]
    .iter()
    .map(|s| String::from(*s))
    .collect()
}

#[test]
fn roster_of_the_lines_of_a_file() {
    let roster = Roster::from_lines(&file_lines()).unwrap();
    let names: Vec<&str> = roster.active.iter().map(|p| p.name.as_str()).collect();
    assert_eq!(names, vec!["Zed", "Keeper", "Abe"]);
    assert_eq!(roster.reserve.len(), 1);
    assert_eq!(roster.reserve[0].portrait_name, Some(String::from("sub")));
    assert_eq!(roster.player_count(), 4);
    let all: Vec<u8> = roster.players().iter().map(|p| p.id).collect();
    assert_eq!(all, vec![2, 1, 4, 3]);
    assert!(is_short(&roster));
}

#[test]
fn broken_line_stops_the_roster() {
    let mut lines = file_lines();
    lines.insert(5, String::from("XXX09 +++ Nine"));
    lines.push(String::from("XXX10 +++ Ten +++ XX"));
    assert_eq!(
        Roster::from_lines(&lines).unwrap_err(),
        PlayerError::MissingAttributes(String::from("XXX09 +++ Nine"))
    );
}

#[test]
fn players_are_sorted_by_position_and_name() {
    let mut roster = Roster::from_players(
        vec![
            player(1, "Zed", Position::CB),
            player(2, "Abe", Position::CB),
            player(3, "Ab", Position::CB),
            player(4, "Last", Position::CF),
            player(5, "First", Position::GK),
            player(6, "abe", Position::CB),
        ],
        vec![player(7, "B", Position::LB), player(8, "A", Position::LB)],
    );
    roster.sort();
    let ids: Vec<u8> = roster.active.iter().map(|p| p.id).collect();
    assert_eq!(ids, vec![5, 3, 2, 1, 6, 4]);
    let ids: Vec<u8> = roster.reserve.iter().map(|p| p.id).collect();
    assert_eq!(ids, vec![8, 7]);
}

#[test]
fn roster_file_of_a_team() {
    let roster = Roster::from_lines(&file_lines()).unwrap();
    assert_eq!(
        Roster::to_msrf_string("Some Team", &roster),
        "---Some Team---\n\nCURRENT LINE-UP:\n\n\
         XXX01 +++ Keeper (a) (c) +++ GK\n\
         XXX02 +++ Zed (a) +++ CB\n\
         XXX03 +++ Sub (g) +++ CF\n\
         XXX04 +++ Abe (a) +++ CB"
    );
    let empty = Roster::from_players(vec![], vec![]);
    assert_eq!(Roster::to_msrf_string("T", &empty), "---T---\n\nCURRENT LINE-UP:\n\n");
}

#[test]
fn team_file_in_either_form() {
    let mut roster = Roster::from_lines(&file_lines()).unwrap();
    let text = prepare_team_file("Some Team", &mut roster, FormatType::MSRF).unwrap();
    assert!(text.starts_with("---Some Team---"));
    assert_eq!(roster.active[0].id, 2);
    assert!(prepare_team_file("Some Team", &mut roster, FormatType::TOML).is_none());
    let ids: Vec<u8> = roster.active.iter().map(|p| p.id).collect();
    assert_eq!(ids, vec![1, 4, 2]);
}

#[test]
fn head_of_a_roster_file() {
    let file = RosterFile::from_header(PathBuf::from("a/team.msrf"), "---Some Team---\n").unwrap();
    assert_eq!(file.team, "Some Team");
    assert_eq!(file.path, PathBuf::from("a/team.msrf"));
    let file = RosterFile::from_header(PathBuf::new(), "  --- A-Team ---  ").unwrap();
    assert_eq!(file.team, "ATeam");
    for broken in ["Some Team", "--Some Team--", "---Some Team", "------", "--- ---", ""] {
        assert_eq!(
            RosterFile::from_header(PathBuf::new(), broken).unwrap_err(),
            RosterFileError::MissingHeader
        );
    }
}

#[test]
fn ending_of_a_roster_file() {
    assert!(is_roster_extension("msrf"));
    assert!(is_roster_extension("MSRF"));
    assert!(is_roster_extension("MsRf"));
    assert!(!is_roster_extension("toml"));
    assert!(!is_roster_extension("msrf "));
    assert!(!is_roster_extension(""));
}

#[test]
fn names_of_files() {
    assert_eq!(team_file_name("Alpha Space Bros"), "alpha-space-bros.toml");
    assert_eq!(dds_folder_name("Alpha Space Bros"), "alpha-space-bros_dds");
    assert_eq!(default_portrait_name(3), "player_XXX03");
    assert_eq!(default_portrait_name(23), "player_XXX23");
    assert_eq!(default_portrait_name(200), "player_XXX200");
    assert_eq!(dds_file_name(9), "player_XXX09.dds");
    let mut p = player(9, "Nine", Position::CF);
    assert_eq!(png_file_name(&p), "player_XXX09.png");
    p.portrait_name = Some(String::from("nine"));
    assert_eq!(png_file_name(&p), "nine.png");
}

#[test]
fn full_team_is_not_short() {
    let players: Vec<Player> = (1..=23).map(|i| player(i, "P", Position::CB)).collect();
    assert!(!is_short(&Roster::from_players(players, vec![])));
    let players: Vec<Player> = (1..=22).map(|i| player(i, "P", Position::CB)).collect();
    assert!(is_short(&Roster::from_players(vec![], players)));
}

#[test]
fn form_of_a_team_file_by_its_ending() {
    assert_eq!(FormatType::from_extension("msrf"), Some(FormatType::MSRF));
    assert_eq!(FormatType::from_extension("MSRF"), Some(FormatType::MSRF));
    assert_eq!(FormatType::from_extension("Toml"), Some(FormatType::TOML));
    assert_eq!(FormatType::from_extension("txt"), None);
    assert_eq!(FormatType::from_extension(""), None);
}

#[test]
fn slug_of_a_slug_is_the_slug() {
    for name in ["Alpha Space Bros", "  HmX Gaming!  ", "a  b", "-x-", " - ", "Ünï_code-9", ""] {
        let once = slugify(name);
        assert!(once.chars().all(|c| matches!(c, 'a'..='z' | '0'..='9' | '-')));
        assert_eq!(slugify(&once), once);
    }
}

#[test]
fn white_space_at_the_ends_leaves_no_hyphen() {
    let white = [
        '\u{09}', '\u{0a}', '\u{0b}', '\u{0c}', '\u{0d}', '\u{20}', '\u{85}', '\u{a0}', '\u{1680}',
        '\u{2000}', '\u{2001}', '\u{2002}', '\u{2003}', '\u{2004}', '\u{2005}', '\u{2006}',
        '\u{2007}', '\u{2008}', '\u{2009}', '\u{200a}', '\u{2028}', '\u{2029}', '\u{202f}',
        '\u{205f}', '\u{3000}',
    ];
    for c in white {
        assert_eq!(slugify(&format!("a {}", c)), "a", "{:?}", c);
        assert_eq!(slugify(&format!("{} a", c)), "a", "{:?}", c);
    }
    for c in ['\u{08}', '\u{0e}', '\u{1f}', '\u{21}', '\u{84}', '\u{86}', '\u{180e}', '\u{200b}',
        '\u{2060}', '\u{feff}', '_']
    {
        assert_eq!(slugify(&format!("a {}", c)), "a-", "{:?}", c);
        assert_eq!(slugify(&format!("{} a", c)), "-a", "{:?}", c);
    }
}
