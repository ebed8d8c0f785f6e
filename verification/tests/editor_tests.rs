use multitool::lineupper::player::{Player, Position};
use multitool::lineupper::roster::Roster;
use multitool::roster_editor::{Medal, RosterEditor, RosterRow};
use multitool::tools::{ToolItem, Tools};
use std::path::PathBuf;

fn player(id: u8, name: &str) -> Player {
    Player {
        captain: None,
        id,
        medal: None,
        name: String::from(name),
        portrait_name: None,
        position: Position::CMF,
    }
}

#[test]
fn medals_of_the_editor_and_of_the_roster() {
    assert_eq!(Medal::NoMedal.to_lineupper(), None);
    assert_eq!(Medal::Silver.to_lineupper(), Some(multitool::lineupper::player::Medal::Silver));
    assert_eq!(Medal::Gold.to_lineupper(), Some(multitool::lineupper::player::Medal::Gold));
    for medal in [Medal::NoMedal, Medal::Silver, Medal::Gold] {
        assert_eq!(Medal::from_lineupper(medal.to_lineupper()), medal);
    }
    assert_eq!(Medal::default(), Medal::NoMedal);
    assert_eq!(Medal::NoMedal.label(), "No medal");
    assert_eq!(Medal::Gold.label(), "Gold");
}

#[test]
fn row_of_a_player() {
    let mut p = player(5, "Five");
    p.captain = Some(true);
    p.medal = Some(multitool::lineupper::player::Medal::Gold);
    p.portrait_name = Some(String::from("five"));
    assert_eq!(
        RosterRow::from_player(p, true),
        RosterRow {
            id: 5,
            name: String::from("Five"),
            position: Position::CMF,
            medal: Medal::Gold,
            captain: true,
            active: true,
        }
    );
    let mut p = player(6, "Six");
    p.captain = Some(false);
    let row = RosterRow::from_player(p, false);
    assert!(!row.captain && !row.active);
}

#[test]
fn rows_of_a_full_roster_by_number() {
    let active: Vec<Player> = (0..11).map(|i| player(23 - 2 * i, "A")).collect();
    let reserve: Vec<Player> = (0..12).map(|i| player(2 * i + 2, "R")).collect();
    let rows = RosterRow::from_roster(Roster::from_players(active, reserve)).unwrap();
    let ids: Vec<u8> = rows.iter().map(|r| r.id).collect();
    assert_eq!(ids[0..4], [2, 3, 4, 5]);
    assert_eq!(rows.len(), 23);
    assert!(!rows[0].active && rows[1].active);
}

#[test]
fn rows_of_another_number_of_players() {
    let active: Vec<Player> = (1..=22).map(|i| player(i, "A")).collect();
    assert_eq!(RosterRow::from_roster(Roster::from_players(active, vec![])), Err(22));
    let reserve: Vec<Player> = (1..=24).map(|i| player(i, "A")).collect();
    assert_eq!(RosterRow::from_roster(Roster::from_players(vec![], reserve)), Err(24));
}

#[test]
fn roster_of_rows() {
    let rows = vec![
        RosterRow {
            id: 1,
            name: String::from("One"),
            position: Position::GK,
            medal: Medal::Silver,
            captain: true,
            active: true,
        },
        RosterRow {
            id: 2,
            name: String::from("Two"),
            position: Position::CF,
            medal: Medal::NoMedal,
            captain: false,
            active: false,
        },
        RosterRow {
            id: 3,
            name: String::from("Three"),
            position: Position::CB,
            medal: Medal::Gold,
            captain: false,
            active: true,
        },
    ];
    let roster = RosterRow::to_roster(&rows);
    let ids: Vec<u8> = roster.active.iter().map(|p| p.id).collect();
    assert_eq!(ids, vec![1, 3]);
    assert_eq!(roster.active[0].captain, Some(true));
    assert_eq!(roster.active[1].captain, None);
    assert_eq!(roster.active[0].medal, Some(multitool::lineupper::player::Medal::Silver));
    assert_eq!(roster.reserve.len(), 1);
    assert_eq!(roster.reserve[0].name, "Two");
    assert_eq!(roster.reserve[0].medal, None);
}

#[test]
fn editor_starts_with_numbered_rows() {
    let editor = RosterEditor::default();
    assert_eq!(editor.team, "");
    assert_eq!(editor.rows.len(), 23);
    for (i, row) in editor.rows.iter().enumerate() {
        assert_eq!(row.id as usize, i + 1);
        assert_eq!(row.name, "");
        assert_eq!(row.position, Position::CB);
        assert_eq!(row.medal, Medal::NoMedal);
    }
}

#[test]
fn folders_of_the_tools() {
    let mut tools = Tools::default();
    assert!(tools.target(&ToolItem::Statter).is_none());
    tools.set_target(&ToolItem::Statter, PathBuf::from("cups"));
    assert_eq!(tools.target(&ToolItem::Statter), &Some(PathBuf::from("cups")));
    assert!(tools.target(&ToolItem::LineUpper).is_none());
    tools.set_target(&ToolItem::LineUpper, PathBuf::from("rosters"));
    assert_eq!(tools.lineupper_target_path, Some(PathBuf::from("rosters")));
    assert_eq!(ToolItem::LineUpper.label(), "LineUpper");
    assert_eq!(ToolItem::Statter.label(), "Statter");
}
