use vstd::prelude::*;

verus! {

/// A calendar date.
#[derive(Debug, Clone, Copy, PartialEq, Eq)]
pub struct Date {
    pub year: u16,
    pub month: u8,
    pub day: u8,
}

/// A time of day.
#[derive(Debug, Clone, Copy, PartialEq, Eq)]
pub struct Time {
    pub hour: u8,
    pub minute: u8,
    pub second: u8,
    pub nanosecond: u32,
}

/// An offset from UTC.
#[derive(Debug, Clone, Copy, PartialEq, Eq)]
pub enum Offset {
    Z,
    Custom { minutes: i16 },
}

/// A point in time as a tournament file gives it: each of its three parts may
/// be absent. Values are ordered part by part, date first, an absent part
/// before any present one.
#[derive(Debug, Clone, Copy, PartialEq, Eq)]
pub struct Datetime {
    pub date: Option<Date>,
    pub time: Option<Time>,
    pub offset: Option<Offset>,
}

impl Date {
    /// A number that orders dates by year, then month, then day.
    pub open spec fn key(self) -> int {
        (self.year as int * 256 + self.month as int) * 256 + self.day as int
    }
}

impl Time {
    /// A number that orders times by hour, minute, second, then nanosecond.
    pub open spec fn key(self) -> int {
        (((self.hour as int * 256 + self.minute as int) * 256 + self.second as int)
            * 0x1_0000_0000) + self.nanosecond as int
    }
}

impl Offset {
    /// A number that orders offsets: `Z` first, then by minutes.
    pub open spec fn key(self) -> int {
        match self {
            Offset::Z => 0,
            Offset::Custom { minutes } => minutes as int + 32769,
        }
    }
}

impl Datetime {
    pub open spec fn date_key(self) -> int {
        match self.date {
            None => -1,
            Some(d) => d.key(),
        }
    }

    pub open spec fn time_key(self) -> int {
        match self.time {
            None => -1,
            Some(t) => t.key(),
        }
    }

    pub open spec fn offset_key(self) -> int {
        match self.offset {
            None => -1,
            Some(o) => o.key(),
        }
    }

    /// `self` comes strictly before `other`.
    pub open spec fn earlier(self, other: Datetime) -> bool {
        self.date_key() < other.date_key() || (self.date_key() == other.date_key() && (
            self.time_key() < other.time_key() || (self.time_key() == other.time_key()
                && self.offset_key() < other.offset_key())))
    }

    /// `self` comes no later than `other`.
    pub open spec fn not_after(self, other: Datetime) -> bool {
        !other.earlier(self)
    }

    fn exec_date_key(&self) -> (k: i64)
        ensures
            k == self.date_key(),
    {
        match self.date {
            None => -1,
            Some(d) => {
                let y: i64 = d.year as i64;
                let m: i64 = d.month as i64;
                let dd: i64 = d.day as i64;
                (y * 256 + m) * 256 + dd
            },
        }
    }

    fn exec_time_key(&self) -> (k: i64)
        ensures
            k == self.time_key(),
    {
        match self.time {
            None => -1,
            Some(t) => {
                let h: i64 = t.hour as i64;
                let m: i64 = t.minute as i64;
                let s: i64 = t.second as i64;
                let n: i64 = t.nanosecond as i64;
                ((h * 256 + m) * 256 + s) * 0x1_0000_0000 + n
            },
        }
    }

    fn exec_offset_key(&self) -> (k: i64)
        ensures
            k == self.offset_key(),
    {
        match self.offset {
            None => -1,
            Some(Offset::Z) => 0,
            Some(Offset::Custom { minutes }) => minutes as i64 + 32769,
        }
    }

    /// One number that orders the values as `earlier` does.
    pub open spec fn order_key(self) -> int {
        ((self.date_key() + 1) * 0x200_0000_0000_0000 + (self.time_key() + 1)) * 0x2_0000 + (
        self.offset_key() + 1)
    }

    /// One number that orders the values as `earlier` does.
    pub fn sort_key(&self) -> (k: u128)
        ensures
            k == self.order_key(),
    {
        let d = (self.exec_date_key() + 1) as u128;
        let t = (self.exec_time_key() + 1) as u128;
        let o = (self.exec_offset_key() + 1) as u128;
        (d * 0x200_0000_0000_0000 + t) * 0x2_0000 + o
    }

    /// Whether `self` comes strictly before `other`.
    pub fn is_before(&self, other: &Datetime) -> (r: bool)
        ensures
            r == self.earlier(*other),
    {
        let d1 = self.exec_date_key();
        let d2 = other.exec_date_key();
        if d1 != d2 {
            return d1 < d2;
        }
        let t1 = self.exec_time_key();
        let t2 = other.exec_time_key();
        if t1 != t2 {
            return t1 < t2;
        }
        self.exec_offset_key() < other.exec_offset_key()
    }
}

/// Two values of which neither is earlier have the same parts.
pub proof fn lemma_neither_earlier_means_equal(a: Datetime, b: Datetime)
    requires
        !a.earlier(b),
        !b.earlier(a),
    ensures
        a == b,
{
    assert(a.date_key() == b.date_key());
    assert(a.time_key() == b.time_key());
    assert(a.offset_key() == b.offset_key());
    assert(a.date == b.date);
    assert(a.time == b.time);
    assert(a.offset == b.offset);
}

/// A value is earlier than another just when its one number is smaller.
pub proof fn lemma_order_key(a: Datetime, b: Datetime)
    ensures
        a.earlier(b) <==> a.order_key() < b.order_key(),
{
}

/// "Earlier" is a strict order: nothing is earlier than itself, and it
/// carries over a middle value.
pub proof fn lemma_earlier_is_strict_order(a: Datetime, b: Datetime, c: Datetime)
    ensures
        !a.earlier(a),
        a.earlier(b) ==> !b.earlier(a),
        a.earlier(b) && b.earlier(c) ==> a.earlier(c),
        a.not_after(b) && b.not_after(c) ==> a.not_after(c),
{
}

} // verus!
