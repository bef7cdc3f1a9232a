use usaco_standings::db::UsacoDb;
use usaco_standings::fetch::{fetch_plan, parse_all, FetchedPage, PageKind};
use usaco_standings::records::{
    Camp, CampParticipant, Contest, ContestParticipant, IntlHistory, IntlParticipant, UsacoData,
};
use usaco_standings::types::{Division, Graduation, IntlMedal, Month, MonthYear, TestcaseResult};

fn contestant(name: &str, score: u16) -> ContestParticipant {
    ContestParticipant {
        country: String::from("USA"),
        graduation: Graduation::HighSchool { year: 2026 },
        name: String::from(name),
        score,
        submission_results: vec![Some(vec![TestcaseResult::Correct])],
    }
}

fn empty_history() -> IntlHistory {
    IntlHistory { ioi: Vec::new(), egoi: Vec::new() }
}

#[test]
fn test_identity_consolidation_two_contests() {
    let data = UsacoData {
        contests: vec![
            Contest {
                time: MonthYear { year: 2025, month: Month::December },
                division: Division::Gold,
                participants: vec![contestant("Alice", 800)],
            },
            Contest {
                time: MonthYear { year: 2026, month: Month::January },
                division: Division::Gold,
                participants: vec![contestant("Alice", 900)],
            },
        ],
        camps: Vec::new(),
        intl_history: empty_history(),
    };
    let db = UsacoDb::from_data(data);
    assert_eq!(db.participants.len(), 1);
    let p = &db.participants[0];
    assert_eq!(p.id.name, "Alice");
    assert_eq!(p.id.country, "USA");
    assert_eq!(p.id.graduation, Graduation::HighSchool { year: 2026 });
    assert_eq!(p.contests.len(), 2);
    assert_eq!(p.contests[0].score, 800);
    assert_eq!(p.contests[0].contest_time, MonthYear { year: 2025, month: Month::December });
    assert_eq!(p.contests[1].score, 900);
    assert_eq!(p.camps.len(), 0);
}

#[test]
fn test_camp_identity_synthesis() {
    let data = UsacoData {
        contests: vec![Contest {
            time: MonthYear { year: 2025, month: Month::Open },
            division: Division::Platinum,
            participants: vec![contestant("Alice", 700)],
        }],
        camps: vec![Camp {
            year: 2025,
            participants: vec![CampParticipant {
                graduation_year: 2026,
                name: String::from("Alice"),
                school: String::from("North HS"),
                state: String::from("CO"),
                is_egoi: false,
            }],
        }],
        intl_history: empty_history(),
    };
    let db = UsacoDb::from_data(data);
    // The camp row synthesizes the same identity: one aggregate with both.
    assert_eq!(db.participants.len(), 1);
    assert_eq!(db.participants[0].contests.len(), 1);
    assert_eq!(db.participants[0].camps.len(), 1);
    assert_eq!(db.participants[0].camps[0].camp_year, 2025);
}

#[test]
fn test_preferred_name_stripped() {
    let data = UsacoData {
        contests: Vec::new(),
        camps: Vec::new(),
        intl_history: IntlHistory {
            ioi: vec![IntlParticipant {
                year: 2018,
                result: IntlMedal::Gold,
                name: String::from("(Janie) Jane Doe"),
            }],
            egoi: Vec::new(),
        },
    };
    let db = UsacoDb::from_data(data);
    let res = db.query_name("jane doe");
    assert_eq!(res.ioi.len(), 1);
    assert_eq!(res.ioi[0].name, "Jane Doe");
    assert_eq!(res.ioi[0].result, IntlMedal::Gold);
}

#[test]
fn test_query_name_normalized_case_insensitive() {
    let data = UsacoData {
        contests: vec![
            Contest {
                time: MonthYear { year: 2026, month: Month::February },
                division: Division::Silver,
                participants: vec![contestant("Alice Smith", 500)],
            },
            Contest {
                time: MonthYear { year: 2025, month: Month::December },
                division: Division::Silver,
                participants: vec![contestant("Alice Smith", 400)],
            },
        ],
        camps: Vec::new(),
        intl_history: empty_history(),
    };
    let db = UsacoDb::from_data(data);
    let res = db.query_name("  aLiCe   sMiTh ");
    assert_eq!(res.participants.len(), 1);
    let p = &res.participants[0];
    // Records come back in chronological order, not insertion order.
    assert_eq!(p.contests.len(), 2);
    assert_eq!(p.contests[0].score, 400);
    assert_eq!(p.contests[1].score, 500);
    let none = db.query_name("alice");
    assert_eq!(none.participants.len(), 0);
}

#[test]
fn test_counts() {
    let data = UsacoData {
        contests: vec![Contest {
            time: MonthYear { year: 2025, month: Month::Open },
            division: Division::Bronze,
            participants: vec![contestant("Alice", 100), contestant("Bob", 200)],
        }],
        camps: vec![Camp {
            year: 2025,
            participants: vec![CampParticipant {
                graduation_year: 2026,
                name: String::from("Alice"),
                school: String::from("North HS"),
                state: String::from("CO"),
                is_egoi: false,
            }],
        }],
        intl_history: IntlHistory {
            ioi: vec![
                IntlParticipant {
                    year: 2018,
                    result: IntlMedal::Gold,
                    name: String::from("Carol"),
                },
                IntlParticipant {
                    year: 2019,
                    result: IntlMedal::Silver,
                    name: String::from("Carol"),
                },
            ],
            egoi: vec![IntlParticipant {
                year: 2022,
                result: IntlMedal::Bronze,
                name: String::from("Dana"),
            }],
        },
    };
    let db = UsacoDb::from_data(data);
    assert_eq!(db.people_count(), 2);
    assert_eq!(db.contest_count(), 2);
    assert_eq!(db.camp_count(), 1);
    assert_eq!(db.ioi_records_count(), 2);
    assert_eq!(db.ioi_people_count(), 1);
    assert_eq!(db.egoi_records_count(), 1);
    assert_eq!(db.egoi_people_count(), 1);
}

#[test]
fn test_default_db_is_empty() {
    let db = UsacoDb::default();
    assert_eq!(db.people_count(), 0);
    assert_eq!(db.contest_count(), 0);
    assert_eq!(db.ioi_records_count(), 0);
}

#[test]
fn test_fetch_plan_2016() {
    let plan = fetch_plan(2016);
    // Seasons 2012 through 2014 run six contests over three divisions, 2015
    // runs four contests over three divisions, 2016 four contests over four
    // divisions; one finalists page per season and one history page.
    assert_eq!(plan.len(), 3 * 19 + 13 + 17 + 1);
    let urls: Vec<&str> = plan.iter().map(|t| t.url.as_str()).collect();
    assert!(urls.contains(&"https://usaco.org/current/data/nov11_bronze_results.html"));
    assert!(urls.contains(&"https://usaco.org/current/data/mar14_gold_results.html"));
    // The reduced schedule of season 2016: December through the open
    // contest, no November and no March.
    assert!(urls.contains(&"https://usaco.org/current/data/dec15_gold_results.html"));
    assert!(urls.contains(&"https://usaco.org/current/data/open16_bronze_results.html"));
    assert!(!urls.contains(&"https://usaco.org/current/data/nov15_bronze_results.html"));
    assert!(!urls.contains(&"https://usaco.org/current/data/mar16_gold_results.html"));
    // Season 2015 still has no fourth division; season 2016 has it.
    assert!(!urls.contains(&"https://usaco.org/current/data/dec14_platinum_results.html"));
    assert!(urls.contains(&"https://usaco.org/current/data/dec15_platinum_results.html"));
    assert!(urls.contains(&"https://usaco.org/index.php?page=finalists16"));
    assert_eq!(plan[plan.len() - 1].url, "https://usaco.org/index.php?page=history");
    assert!(plan[plan.len() - 1].kind == PageKind::History);
    let season_2016_contests = plan
        .iter()
        .filter(|t| match t.kind {
            PageKind::Contest { time, .. } => {
                time.year == 2016 || (time.year == 2015 && time.month == Month::December)
            },
            _ => false,
        })
        .count();
    assert_eq!(season_2016_contests, 16);
}

#[test]
fn test_parse_all_end_to_end() {
    let contest_html = "<table>\
        <tr><th>Country</th><th>Name</th><th>Score</th><th></th><th colspan=\"1\">P1</th></tr>\
        <tr><td>USA</td><td>Alice</td><td>1000</td><td></td><td>*</td></tr>\
        </table>";
    let history_html = "<div class=\"content\"><div><h2>IOI</h2>\
        <div class=\"panel historypanel\">2019 \
        <img src=\"current/images/medal_gold.png\"> Jane Doe</div></div></div>";
    let later = MonthYear { year: 2025, month: Month::February };
    let earlier = MonthYear { year: 2024, month: Month::December };
    let pages = vec![
        FetchedPage {
            kind: PageKind::Contest { time: later, division: Division::Bronze },
            status: 200,
            body: String::from(contest_html),
        },
        FetchedPage {
            kind: PageKind::Contest { time: earlier, division: Division::Bronze },
            status: 200,
            body: String::from(contest_html),
        },
        FetchedPage {
            kind: PageKind::Contest { time: earlier, division: Division::Silver },
            status: 404,
            body: String::new(),
        },
        FetchedPage {
            kind: PageKind::Camp { season: 2025 },
            status: 500,
            body: String::new(),
        },
        FetchedPage { kind: PageKind::History, status: 200, body: String::from(history_html) },
    ];
    let data = parse_all(&pages);
    // The absent pages contribute nothing; contests come back sorted by
    // time even though they were fed out of order.
    assert_eq!(data.contests.len(), 2);
    assert_eq!(data.contests[0].time, earlier);
    assert_eq!(data.contests[1].time, later);
    assert_eq!(data.contests[0].participants.len(), 1);
    assert_eq!(data.contests[0].participants[0].graduation, Graduation::Observer);
    assert_eq!(
        data.contests[0].participants[0].submission_results,
        vec![Some(vec![TestcaseResult::Correct])]
    );
    assert_eq!(data.camps.len(), 0);
    assert_eq!(data.intl_history.ioi.len(), 1);
    assert_eq!(data.intl_history.ioi[0].name, "Jane Doe");
}

#[test]
fn test_file_store_path() {
    let store = usaco_standings::db::FileStore::new_path(String::from("/var/data"));
    assert_eq!(store.path(), "/var/data");
}

#[test]
fn test_participant_id_equality_and_from() {
    let id1 = usaco_standings::db::ParticipantId::from(contestant("Alice", 100));
    let id2 = usaco_standings::db::ParticipantId::from(contestant("Alice", 999));
    assert!(id1 == id2);
    let camper = CampParticipant {
        graduation_year: 2026,
        name: String::from("Alice"),
        school: String::from("North HS"),
        state: String::from("CO"),
        is_egoi: false,
    };
    let id3 = usaco_standings::db::ParticipantId::from(camper);
    assert!(id1 == id3);
    assert_eq!(id3.country, "USA");
}
