use vstd::prelude::*;
use crate::text::{chars_of, find, first_from, found_from, has_pattern, is_alphanumeric};
use crate::text::{is_ascii_alphanumeric, lowered, matches_at, occurs_at, parse_two_chars};
use crate::text::{push_chars, push_str, push_two_digits, remove_all, same_chars, slice, split};
use crate::text::{split_by, starts_with, string_of, to_lower, trim, trim_end, trimmed};
use crate::text::{trimmed_end, two_char_number, two_digits, without};

verus! {

/// The medal of a player.
#[derive(Debug, Clone, Copy, PartialEq, Eq, Structural)]
pub enum Medal {
    Silver,
    Gold,
}

/// The position of a player.
#[derive(Debug, Clone, Copy, PartialEq, Eq, PartialOrd, Ord, Structural)]
pub enum Position {
    GK,
    LB,
    CB,
    RB,
    DMF,
    LMF,
    CMF,
    RMF,
    AMF,
    LWF,
    RWF,
    SS,
    CF,
}

impl Default for Position {
    fn default() -> (p: Position)
        ensures
            p == Position::CB,
    {
        Position::CB
    }
}

/// A player of a team.
#[derive(Debug, PartialEq)]
pub struct Player {
    pub captain: Option<bool>,
    pub id: u8,
    pub medal: Option<Medal>,
    pub name: String,
    pub portrait_name: Option<String>,
    pub position: Position,
}

pub struct PlayerView {
    pub captain: Option<bool>,
    pub id: u8,
    pub medal: Option<Medal>,
    pub name: Seq<char>,
    pub portrait_name: Option<Seq<char>>,
    pub position: Position,
}

impl View for Player {
    type V = PlayerView;

    open spec fn view(&self) -> PlayerView {
        PlayerView {
            captain: self.captain,
            id: self.id,
            medal: self.medal,
            name: self.name@,
            portrait_name: match self.portrait_name {
                Some(n) => Some(n@),
                None => None,
            },
            position: self.position,
        }
    }
}

/// A player in the line-up or in reserve.
#[derive(Debug, PartialEq)]
pub enum PlayerState {
    Active(Player),
    Reserve(Player),
}

pub enum PlayerStateView {
    Active(PlayerView),
    Reserve(PlayerView),
}

impl View for PlayerState {
    type V = PlayerStateView;

    open spec fn view(&self) -> PlayerStateView {
        match self {
            PlayerState::Active(p) => PlayerStateView::Active(p@),
            PlayerState::Reserve(p) => PlayerStateView::Reserve(p@),
        }
    }
}

/// Why a line of a roster file is no player.
#[derive(Debug, PartialEq, Eq)]
pub enum PlayerError {
    /// The portrait name is empty or holds a char that is neither a letter
    /// from A to Z, a digit, a hyphen nor an underscore.
    InvalidPortraitName(String),
    /// The line does not start with `XXX` and a number.
    InvalidID(String),
    /// The line starts like a player and has fewer than three parts.
    MissingAttributes(String),
    /// The line is something else.
    NotAPlayer,
    /// The third part names no position.
    InvalidPosition(String),
}

pub enum PlayerErrorView {
    InvalidPortraitName(Seq<char>),
    InvalidID(Seq<char>),
    MissingAttributes(Seq<char>),
    NotAPlayer,
    InvalidPosition(Seq<char>),
}

impl View for PlayerError {
    type V = PlayerErrorView;

    open spec fn view(&self) -> PlayerErrorView {
        match self {
            PlayerError::InvalidPortraitName(s) => PlayerErrorView::InvalidPortraitName(s@),
            PlayerError::InvalidID(s) => PlayerErrorView::InvalidID(s@),
            PlayerError::MissingAttributes(s) => PlayerErrorView::MissingAttributes(s@),
            PlayerError::NotAPlayer => PlayerErrorView::NotAPlayer,
            PlayerError::InvalidPosition(s) => PlayerErrorView::InvalidPosition(s@),
        }
    }
}

impl Position {
    /// The position as it is written.
    pub open spec fn label(self) -> Seq<char> {
        match self {
            Position::GK => "GK"@,
            Position::LB => "LB"@,
            Position::CB => "CB"@,
            Position::RB => "RB"@,
            Position::DMF => "DMF"@,
            Position::LMF => "LMF"@,
            Position::CMF => "CMF"@,
            Position::RMF => "RMF"@,
            Position::AMF => "AMF"@,
            Position::LWF => "LWF"@,
            Position::RWF => "RWF"@,
            Position::SS => "SS"@,
            Position::CF => "CF"@,
        }
    }

    /// The place of the position in the line-up, from the goal forward.
    pub open spec fn ordinal(self) -> int {
        match self {
            Position::GK => 0,
            Position::LB => 1,
            Position::CB => 2,
            Position::RB => 3,
            Position::DMF => 4,
            Position::LMF => 5,
            Position::CMF => 6,
            Position::RMF => 7,
            Position::AMF => 8,
            Position::LWF => 9,
            Position::RWF => 10,
            Position::SS => 11,
            Position::CF => 12,
        }
    }

    /// The position at a place of the line-up.
    pub open spec fn at(i: int) -> Position {
        if i == 0 {
            Position::GK
        } else if i == 1 {
            Position::LB
        } else if i == 2 {
            Position::CB
        } else if i == 3 {
            Position::RB
        } else if i == 4 {
            Position::DMF
        } else if i == 5 {
            Position::LMF
        } else if i == 6 {
            Position::CMF
        } else if i == 7 {
            Position::RMF
        } else if i == 8 {
            Position::AMF
        } else if i == 9 {
            Position::LWF
        } else if i == 10 {
            Position::RWF
        } else if i == 11 {
            Position::SS
        } else {
            Position::CF
        }
    }

    /// The first position from place `i` on that is written as `s`.
    pub open spec fn named_from(s: Seq<char>, i: int) -> Option<Position>
        decreases 13 - i,
    {
        if i < 0 || i >= 13 {
            None
        } else if Position::at(i).label() == s {
            Some(Position::at(i))
        } else {
            Position::named_from(s, i + 1)
        }
    }

    /// The position that is written as `s`.
    pub open spec fn named(s: Seq<char>) -> Option<Position> {
        Position::named_from(s, 0)
    }

    /// The position as it is written.
    pub fn as_str(&self) -> (s: &'static str)
        ensures
            s@ == self.label(),
    {
        match self {
            Position::GK => "GK",
            Position::LB => "LB",
            Position::CB => "CB",
            Position::RB => "RB",
            Position::DMF => "DMF",
            Position::LMF => "LMF",
            Position::CMF => "CMF",
            Position::RMF => "RMF",
            Position::AMF => "AMF",
            Position::LWF => "LWF",
            Position::RWF => "RWF",
            Position::SS => "SS",
            Position::CF => "CF",
        }
    }

    /// The place of the position in the line-up, from the goal forward.
    pub fn rank(&self) -> (r: u8)
        ensures
            r == self.ordinal(),
    {
        match self {
            Position::GK => 0,
            Position::LB => 1,
            Position::CB => 2,
            Position::RB => 3,
            Position::DMF => 4,
            Position::LMF => 5,
            Position::CMF => 6,
            Position::RMF => 7,
            Position::AMF => 8,
            Position::LWF => 9,
            Position::RWF => 10,
            Position::SS => 11,
            Position::CF => 12,
        }
    }

    /// The position at a place of the line-up.
    pub fn of_rank(i: u8) -> (p: Position)
        ensures
            p == Position::at(i as int),
    {
        match i {
            0 => Position::GK,
            1 => Position::LB,
            2 => Position::CB,
            3 => Position::RB,
            4 => Position::DMF,
            5 => Position::LMF,
            6 => Position::CMF,
            7 => Position::RMF,
            8 => Position::AMF,
            9 => Position::LWF,
            10 => Position::RWF,
            11 => Position::SS,
            _ => Position::CF,
        }
    }

    /// The position that the chars name.
    pub fn from_chars(s: &Vec<char>) -> (r: Option<Position>)
        ensures
            r == Position::named(s@),
    {
        let mut i: u8 = 0;
        while i < 13
            invariant
                i <= 13,
                Position::named(s@) == Position::named_from(s@, i as int),
            decreases 13 - i,
        {
            let p = Position::of_rank(i);
            let label = chars_of(p.as_str());
            if same_chars(&label, s) {
                return Some(p);
            }
            i += 1;
        }
        None
    }

    /// The position that is written as `str`.
    pub fn from(str: &str) -> (r: Result<Position, PlayerError>)
        ensures
            match Position::named(str@) {
                Some(p) => r == Ok::<Position, PlayerError>(p),
                None => r is Err && r->Err_0@ == PlayerErrorView::InvalidPosition(str@),
            },
    {
        let chars = chars_of(str);
        match Position::from_chars(&chars) {
            Some(p) => Ok(p),
            None => Err(PlayerError::InvalidPosition(string_of(&chars))),
        }
    }
}

/// Whether a char may stand in a portrait name: a letter from A to Z, a
/// digit, a hyphen or an underscore.
pub open spec fn is_portrait_char(c: char) -> bool {
    is_alphanumeric(c) || c == '-' || c == '_'
}

/// Whether the chars can be a portrait name: there is one, and each may
/// stand in a portrait name.
pub open spec fn is_portrait_name(s: Seq<char>) -> bool {
    s.len() > 0 && forall|i: int| 0 <= i < s.len() ==> is_portrait_char(#[trigger] s[i])
}

/// The tags behind a player's name: whether the player is in the line-up,
/// the medal, whether the player is captain, and the portrait name.
pub open spec fn tags_of(p: PlayerView, active: bool) -> Seq<char> {
    (if active {
        " (a) "@
    } else {
        " "@
    }) + (match p.medal {
        Some(Medal::Gold) => "(g) "@,
        Some(Medal::Silver) => "(s) "@,
        None => Seq::empty(),
    }) + (if p.captain == Some(true) {
        "(c) "@
    } else {
        Seq::empty()
    }) + (match p.portrait_name {
        Some(n) => "[p="@ + n + "]"@,
        None => Seq::empty(),
    })
}

/// The line of a player in a roster file: `XXX` and the number, the name
/// with the tags behind it, and the position, with `+++` between them.
pub open spec fn roster_line(p: PlayerView, active: bool) -> Seq<char> {
    "XXX"@ + two_digits(p.id) + " +++ "@ + p.name + trimmed_end(tags_of(p, active)) + " +++ "@
        + p.position.label()
}

/// What is read of the name part of a line.
pub struct NamePart {
    pub medal: Option<Medal>,
    pub captain: Option<bool>,
    pub portrait_name: Option<Seq<char>>,
    pub active: bool,
    pub name: Seq<char>,
}

/// The medal that the name part tells of, and the part without its tag.
pub open spec fn medal_read(part: Seq<char>) -> (Option<Medal>, Seq<char>) {
    if has_pattern(part, "(g)"@) {
        (Some(Medal::Gold), without(part, "(g)"@))
    } else if has_pattern(part, "(s)"@) {
        (Some(Medal::Silver), without(part, "(s)"@))
    } else {
        (None, part)
    }
}

/// Whether the name part has the tag, and the part without it.
pub open spec fn tag_read(part: Seq<char>, tag: Seq<char>) -> (bool, Seq<char>) {
    if has_pattern(part, tag) {
        (true, without(part, tag))
    } else {
        (false, part)
    }
}

/// Whether the name part has a portrait tag: `[p=` with a `]` behind it.
pub open spec fn has_portrait_tag(part: Seq<char>) -> bool {
    has_pattern(part, "[p="@) && found_from(part, "]"@, first_from(part, "[p="@, 0))
}

/// The portrait name in a name part that has a portrait tag.
pub open spec fn portrait_read(part: Seq<char>) -> Seq<char> {
    part.subrange(
        first_from(part, "[p="@, 0) + 3,
        first_from(part, "]"@, first_from(part, "[p="@, 0)),
    )
}

/// The name part without its portrait tag.
pub open spec fn without_portrait(part: Seq<char>) -> Seq<char> {
    part.take(first_from(part, "[p="@, 0)) + part.skip(
        first_from(part, "]"@, first_from(part, "[p="@, 0)) + 1,
    )
}

/// What the name part of a line says: the tags for the medal, the captain,
/// the portrait and the line-up are read and taken out, and what is left,
/// without white space at its ends, is the name. A portrait name that cannot
/// be one is the fault of the part.
pub open spec fn name_part_read(part: Seq<char>) -> Result<NamePart, PlayerErrorView> {
    let (medal, after_medal) = medal_read(part);
    let (captain, after_captain) = tag_read(after_medal, "(c)"@);
    if has_portrait_tag(after_captain) && !is_portrait_name(portrait_read(after_captain)) {
        Err(PlayerErrorView::InvalidPortraitName(portrait_read(after_captain)))
    } else {
        let after_portrait = if has_portrait_tag(after_captain) {
            without_portrait(after_captain)
        } else {
            after_captain
        };
        let (active, after_active) = tag_read(after_portrait, "(a)"@);
        Ok(
            NamePart {
                medal,
                captain: if captain {
                    Some(true)
                } else {
                    None
                },
                portrait_name: if has_portrait_tag(after_captain) {
                    Some(portrait_read(after_captain))
                } else {
                    None
                },
                active,
                name: trimmed(after_active),
            },
        )
    }
}

/// The number of the player that the first part of a line gives: behind
/// `XXX`, in either case, two chars that spell a number.
pub open spec fn id_read(part: Seq<char>) -> Option<u8> {
    if trimmed_end(part).len() >= 5 && part.len() >= 5 && starts_with(lowered(part), "xxx"@) {
        two_char_number(part[3], part[4])
    } else {
        None
    }
}

/// What a line of a roster file says. The line, without white space at its
/// ends, has three parts with `+++` between them: the number, the name with
/// its tags, and the position.
pub open spec fn line_read(s: Seq<char>) -> Result<PlayerStateView, PlayerErrorView> {
    let parts = split_by(trimmed(s), "+++"@);
    if parts.len() < 3 {
        if starts_with(lowered(parts[0]), "xxx"@) {
            Err(PlayerErrorView::MissingAttributes(s))
        } else {
            Err(PlayerErrorView::NotAPlayer)
        }
    } else {
        match id_read(parts[0]) {
            None => Err(PlayerErrorView::InvalidID(s)),
            Some(id) => match Position::named(trimmed(parts[2])) {
                None => Err(PlayerErrorView::InvalidPosition(trimmed(parts[2]))),
                Some(position) => match name_part_read(parts[1]) {
                    Err(e) => Err(e),
                    Ok(read) => {
                        let player = PlayerView {
                            captain: read.captain,
                            id,
                            medal: read.medal,
                            name: read.name,
                            portrait_name: read.portrait_name,
                            position,
                        };
                        if read.active {
                            Ok(PlayerStateView::Active(player))
                        } else {
                            Ok(PlayerStateView::Reserve(player))
                        }
                    },
                },
            },
        }
    }
}

/// The chars in lower case.
pub fn lower_chars(s: &Vec<char>) -> (r: Vec<char>)
    ensures
        r@ == lowered(s@),
{
    let mut r: Vec<char> = Vec::new();
    let mut i: usize = 0;
    while i < s.len()
        invariant
            i <= s.len(),
            r@ == lowered(s@).take(i as int),
        decreases s.len() - i,
    {
        r.push(to_lower(s[i]));
        assert(r@ =~= lowered(s@).take(i + 1));
        i += 1;
    }
    assert(lowered(s@).take(i as int) =~= lowered(s@));
    r
}

/// Whether the chars can be a portrait name.
pub fn can_be_portrait_name(s: &Vec<char>) -> (r: bool)
    ensures
        r == is_portrait_name(s@),
{
    if s.len() == 0 {
        return false;
    }
    let mut i: usize = 0;
    while i < s.len()
        invariant
            i <= s.len(),
            forall|j: int| 0 <= j < i ==> is_portrait_char(#[trigger] s@[j]),
        decreases s.len() - i,
    {
        let c = s[i];
        if !(is_ascii_alphanumeric(c) || c == '-' || c == '_') {
            return false;
        }
        i += 1;
    }
    true
}

/// Takes a tag out of the name part; tells whether it was there.
fn take_tag(part: &mut Vec<char>, tag: &str) -> (found: bool)
    requires
        tag@.len() > 0,
    ensures
        (found, final(part)@) == tag_read(old(part)@, tag@),
{
    let pattern = chars_of(tag);
    match find(part, &pattern, 0) {
        Some(_) => {
            let rest = remove_all(part, &pattern);
            *part = rest;
            true
        },
        None => false,
    }
}

impl PlayerState {
    pub fn from(
        captain: bool,
        id: u8,
        medal: Option<Medal>,
        name: String,
        position: Position,
        active: bool,
    ) -> (r: Self)
        ensures
            r@ == if active {
                PlayerStateView::Active(
                    PlayerView {
                        captain: if captain {
                            Some(true)
                        } else {
                            None
                        },
                        id,
                        medal,
                        name: name@,
                        portrait_name: None,
                        position,
                    },
                )
            } else {
                PlayerStateView::Reserve(
                    PlayerView {
                        captain: if captain {
                            Some(true)
                        } else {
                            None
                        },
                        id,
                        medal,
                        name: name@,
                        portrait_name: None,
                        position,
                    },
                )
            },
    {
        let captain = if captain {
            Some(true)
        } else {
            None
        };
        let player = Player { captain, id, medal, name, portrait_name: None, position };
        if active {
            PlayerState::Active(player)
        } else {
            PlayerState::Reserve(player)
        }
    }

    /// The player, and whether the player is in the line-up.
    pub open spec fn parts(self) -> (PlayerView, bool) {
        match self {
            PlayerState::Active(p) => (p@, true),
            PlayerState::Reserve(p) => (p@, false),
        }
    }

    /// The player's line in a roster file.
    pub fn to_msrf_string(&self) -> (r: String)
        ensures
            r@ == roster_line(self.parts().0, self.parts().1),
    {
        let (player, active) = match self {
            PlayerState::Active(p) => (p, true),
            PlayerState::Reserve(p) => (p, false),
        };
        let mut tags: Vec<char> = Vec::new();
        if active {
            push_str(&mut tags, " (a) ");
        } else {
            push_str(&mut tags, " ");
        }
        match player.medal {
            Some(Medal::Gold) => {
                push_str(&mut tags, "(g) ");
            },
            Some(Medal::Silver) => {
                push_str(&mut tags, "(s) ");
            },
            None => {
                assert(tags@ =~= tags@ + Seq::<char>::empty());
            },
        }
        match player.captain {
            Some(true) => {
                push_str(&mut tags, "(c) ");
            },
            _ => {
                assert(tags@ =~= tags@ + Seq::<char>::empty());
            },
        }
        match &player.portrait_name {
            Some(n) => {
                let ghost before = tags@;
                push_str(&mut tags, "[p=");
                push_str(&mut tags, n.as_str());
                push_str(&mut tags, "]");
                assert(tags@ =~= before + ("[p="@ + n@ + "]"@));
            },
            None => {
                assert(tags@ =~= tags@ + Seq::<char>::empty());
            },
        }
        assert(tags@ == tags_of(player@, active));
        let tags = trim_end(&tags);
        let mut line: Vec<char> = Vec::new();
        push_str(&mut line, "XXX");
        push_two_digits(&mut line, player.id);
        push_str(&mut line, " +++ ");
        push_str(&mut line, player.name.as_str());
        push_chars(&mut line, &tags);
        push_str(&mut line, " +++ ");
        push_str(&mut line, player.position.as_str());
        assert(line@ =~= roster_line(player@, active));
        string_of(&line)
    }

    /// Reads the name part of a line.
    fn read_name_part(part: Vec<char>) -> (r: Result<
        (Option<Medal>, Option<bool>, Option<String>, bool, String),
        PlayerError,
    >)
        ensures
            match name_part_read(part@) {
                Err(e) => r is Err && r->Err_0@ == e,
                Ok(read) => {
                    &&& r is Ok
                    &&& r->Ok_0.0 == read.medal
                    &&& r->Ok_0.1 == read.captain
                    &&& match read.portrait_name {
                        Some(n) => r->Ok_0.2 is Some && r->Ok_0.2->0@ == n,
                        None => r->Ok_0.2 is None,
                    }
                    &&& r->Ok_0.3 == read.active
                    &&& r->Ok_0.4@ == read.name
                },
            },
    {
        proof {
            reveal_strlit("(g)");
            reveal_strlit("(s)");
            reveal_strlit("(c)");
            reveal_strlit("(a)");
            reveal_strlit("[p=");
            reveal_strlit("]");
        }
        let mut name = part;
        let medal = if take_tag(&mut name, "(g)") {
            Some(Medal::Gold)
        } else if take_tag(&mut name, "(s)") {
            Some(Medal::Silver)
        } else {
            None
        };
        let captain = if take_tag(&mut name, "(c)") {
            Some(true)
        } else {
            None
        };
        let ghost after_captain = name@;
        let open = chars_of("[p=");
        let close = chars_of("]");
        let mut portrait_name: Option<String> = None;
        match find(&name, &open, 0) {
            Some(from) => {
                match find(&name, &close, from) {
                    Some(to) => {
                        let len = name.len();
                        assert(occurs_at(name@, open@, from as int));
                        assert(occurs_at(name@, close@, to as int));
                        assert(open@.len() == 3 && close@.len() == 1);
                        assert(from + 3 <= len && to + 1 <= len);
                        assert(name@.subrange(from as int, from + 3)[0] == '[');
                        assert(to != from) by {
                            assert(name@.subrange(to as int, to + 1)[0] == ']');
                        }
                        if to < from + 3 {
                            assert(name@.subrange(from as int, from + 3)[to - from] == open@[to
                                - from]);
                            assert(name@.subrange(to as int, to + 1)[0] == ']');
                            assert(false);
                        }
                        let p_name = slice(&name, from + 3, to);
                        if !can_be_portrait_name(&p_name) {
                            return Err(PlayerError::InvalidPortraitName(string_of(&p_name)));
                        }
                        portrait_name = Some(string_of(&p_name));
                        let mut rest = slice(&name, 0, from);
                        let tail = slice(&name, to + 1, name.len());
                        push_chars(&mut rest, &tail);
                        assert(rest@ =~= without_portrait(after_captain));
                        name = rest;
                    },
                    None => {},
                }
            },
            None => {},
        }
        let active = take_tag(&mut name, "(a)");
        let name = trim(&name);
        Ok((medal, captain, portrait_name, active, string_of(&name)))
    }

    /// Reads a line of a roster file.
    pub fn from_string(s: String) -> (r: Result<PlayerState, PlayerError>)
        ensures
            match line_read(s@) {
                Ok(state) => r is Ok && r->Ok_0@ == state,
                Err(e) => r is Err && r->Err_0@ == e,
            },
    {
        proof {
            reveal_strlit("+++");
            reveal_strlit("xxx");
        }
        let line = trim(&chars_of(s.as_str()));
        let mut parts = split(&line, &chars_of("+++"));
        let ghost read = split_by(trimmed(s@), "+++"@);
        assert(parts@.len() >= 1) by {
            if has_pattern(trimmed(s@), "+++"@) {
            }
        }
        let xxx = chars_of("xxx");
        let marked = matches_at(&lower_chars(&parts[0]), &xxx, 0);
        if parts.len() < 3 {
            if marked {
                return Err(PlayerError::MissingAttributes(s));
            } else {
                return Err(PlayerError::NotAPlayer);
            }
        }
        let first = &parts[0];
        let id = if trim_end(first).len() >= 5 && first.len() >= 5 && marked {
            match parse_two_chars(first[3], first[4]) {
                Some(id) => id,
                None => {
                    return Err(PlayerError::InvalidID(s));
                },
            }
        } else {
            return Err(PlayerError::InvalidID(s));
        };
        let place = trim(&parts[2]);
        let position = match Position::from_chars(&place) {
            Some(p) => p,
            None => {
                return Err(PlayerError::InvalidPosition(string_of(&place)));
            },
        };
        let name_part = parts.swap_remove(1);
        assert(name_part@ == read[1]);
        match PlayerState::read_name_part(name_part) {
            Err(e) => Err(e),
            Ok((medal, captain, portrait_name, active, name)) => {
                let player = Player { captain, id, medal, name, portrait_name, position };
                if active {
                    Ok(PlayerState::Active(player))
                } else {
                    Ok(PlayerState::Reserve(player))
                }
            },
        }
    }
}

} // verus!
