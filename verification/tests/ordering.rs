use usaco_standings::types::{Division, Graduation, Month, MonthYear};

#[test]
fn test_month_ord() {
    assert!(Month::January < Month::February);
    assert!(Month::December > Month::November);
    assert!(Month::March <= Month::March);
}

#[test]
fn test_monthyear_ord() {
    let my1 = MonthYear { year: 2024, month: Month::January };
    let my2 = MonthYear { year: 2024, month: Month::February };
    let my3 = MonthYear { year: 2025, month: Month::January };

    assert!(my1 < my2);
    assert!(my2 < my3);
    assert!(my1 < my3);
    assert!(my3 > my2);
}

#[test]
fn test_graduation_ord() {
    let hs2024 = Graduation::HighSchool { year: 2024 };
    let hs2025 = Graduation::HighSchool { year: 2025 };
    let observer = Graduation::Observer;

    assert!(hs2024 < hs2025);
    assert!(observer > hs2025);
    assert!(hs2024 <= hs2024);
}

#[test]
fn test_graduation_enum_order() {
    let hs2024 = Graduation::HighSchool { year: 2024 };
    let observer = Graduation::Observer;

    assert!(hs2024 < observer);
}

#[test]
fn test_month_full_declared_order() {
    assert!(Month::February < Month::March);
    assert!(Month::March < Month::Open);
    assert!(Month::Open < Month::November);
}

#[test]
fn test_division_order() {
    assert!(Division::Bronze < Division::Silver);
    assert!(Division::Silver < Division::Gold);
    assert!(Division::Gold < Division::Platinum);
}
