use multitool::statter::date::{Date, Datetime, Offset, Time};

fn date(year: u16, month: u8, day: u8) -> Datetime {
    Datetime { date: Some(Date { year, month, day }), time: None, offset: None }
}

fn at(year: u16, month: u8, day: u8, hour: u8, minute: u8, offset: Option<Offset>) -> Datetime {
    Datetime {
        date: Some(Date { year, month, day }),
        time: Some(Time { hour, minute, second: 0, nanosecond: 0 }),
        offset,
    }
}

#[test]
fn dates_are_ordered_by_year_month_day() {
    assert!(date(2023, 12, 31).is_before(&date(2024, 1, 1)));
    assert!(date(2024, 1, 31).is_before(&date(2024, 2, 1)));
    assert!(date(2024, 2, 1).is_before(&date(2024, 2, 2)));
    assert!(!date(2024, 2, 2).is_before(&date(2024, 2, 2)));
    assert!(!date(2024, 2, 2).is_before(&date(2024, 2, 1)));
}

#[test]
fn absent_parts_come_first() {
    let nothing = Datetime { date: None, time: None, offset: None };
    assert!(nothing.is_before(&date(0, 0, 0)));
    assert!(date(2024, 1, 1).is_before(&at(2024, 1, 1, 0, 0, None)));
    assert!(at(2024, 1, 1, 0, 0, None).is_before(&at(2024, 1, 1, 0, 0, Some(Offset::Z))));
    assert!(at(2024, 1, 1, 0, 0, Some(Offset::Z))
        .is_before(&at(2024, 1, 1, 0, 0, Some(Offset::Custom { minutes: -60 }))));
    assert!(at(2024, 1, 1, 0, 0, Some(Offset::Custom { minutes: -60 }))
        .is_before(&at(2024, 1, 1, 0, 0, Some(Offset::Custom { minutes: 60 }))));
}

#[test]
fn times_are_ordered_within_a_day() {
    assert!(at(2024, 1, 1, 9, 59, None).is_before(&at(2024, 1, 1, 10, 0, None)));
    let early = Datetime {
        date: None,
        time: Some(Time { hour: 1, minute: 2, second: 3, nanosecond: 4 }),
        offset: None,
    };
    let late = Datetime {
        date: None,
        time: Some(Time { hour: 1, minute: 2, second: 3, nanosecond: 5 }),
        offset: None,
    };
    assert!(early.is_before(&late));
    assert!(!late.is_before(&early));
}

#[test]
fn sort_key_orders_as_is_before() {
    let values = [
        Datetime { date: None, time: None, offset: None },
        date(2024, 1, 1),
        at(2024, 1, 1, 0, 0, None),
        at(2024, 1, 1, 0, 0, Some(Offset::Z)),
        at(2024, 1, 1, 0, 0, Some(Offset::Custom { minutes: -1440 })),
        at(2024, 1, 1, 0, 1, None),
        date(2024, 1, 2),
        date(65535, 255, 255),
    ];
    for a in &values {
        for b in &values {
            assert_eq!(a.is_before(b), a.sort_key() < b.sort_key());
        }
    }
    assert_eq!(values[0].sort_key(), 0);
    assert_eq!(date(0, 0, 1).sort_key(), 2u128 << 74);
}
