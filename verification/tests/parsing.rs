use usaco_standings::camp::{camp_from_tables, parse_camp_page};
use usaco_standings::contest::{contest_from_tables, parse_contest_page};
use usaco_standings::dom::{HeaderCell, HistNode, HistSection, HtmlTable, TableRow, YearBlock};
use usaco_standings::history::{history_from_sections, parse_history_page};
use usaco_standings::records::ContestParticipant;
use usaco_standings::types::{Division, Graduation, IntlMedal, Month, MonthYear, TestcaseResult};

fn th(text: &str, colspan: Option<&str>) -> HeaderCell {
    HeaderCell { text: String::from(text), colspan: colspan.map(String::from) }
}

fn header_row(cells: Vec<HeaderCell>) -> TableRow {
    TableRow { header_cells: cells, data_cells: Vec::new() }
}

fn data_row(cells: Vec<&str>) -> TableRow {
    TableRow { header_cells: Vec::new(), data_cells: cells.into_iter().map(String::from).collect() }
}

fn slot() -> MonthYear {
    MonthYear { year: 2024, month: Month::Open }
}

#[test]
fn test_observer_table_yields_observers() {
    // The second header cell is not "Year": an observer table.
    let table = HtmlTable {
        rows: vec![
            header_row(vec![
                th("Country", None),
                th("Name", None),
                th("Score", None),
                th("", None),
                th("Problem 1", Some("1")),
            ]),
            data_row(vec!["USA", "Alice", "1000", "", "*"]),
        ],
    };
    let contest = contest_from_tables(slot(), Division::Platinum, &vec![table]);
    assert_eq!(contest.participants.len(), 1);
    let p = &contest.participants[0];
    assert_eq!(p.country, "USA");
    assert_eq!(p.graduation, Graduation::Observer);
    assert_eq!(p.name, "Alice");
    assert_eq!(p.score, 1000);
    assert_eq!(p.submission_results, vec![Some(vec![TestcaseResult::Correct])]);
}

#[test]
fn test_year_table_yields_highschoolers() {
    let table = HtmlTable {
        rows: vec![
            header_row(vec![
                th("Country", None),
                th("Year", None),
                th("Name", None),
                th("Score", None),
                th("", None),
                th("Problem 1", Some("3")),
            ]),
            data_row(vec!["USA", "2026", "Bob", "850", "", "*", "x", "t"]),
            data_row(vec!["CAN", "notayear", "Carol", "900", "", "*", "*", "*"]),
        ],
    };
    let contest = contest_from_tables(slot(), Division::Gold, &vec![table]);
    // The second row's year does not parse, so only the first row survives.
    assert_eq!(contest.participants.len(), 1);
    let p = &contest.participants[0];
    assert_eq!(p.graduation, Graduation::HighSchool { year: 2026 });
    assert_eq!(
        p.submission_results,
        vec![Some(vec![TestcaseResult::Correct, TestcaseResult::WrongAnswer, TestcaseResult::Timeout])]
    );
}

#[test]
fn test_no_submission_and_trailing_blank() {
    let table = HtmlTable {
        rows: vec![
            header_row(vec![
                th("Country", None),
                th("Name", None),
                th("Score", None),
                th("", None),
                th("Problem 1", Some("3")),
                th("", None),
                th("Problem 2", Some("2")),
            ]),
            // Problem 1: all blank cells mean no submission. Problem 2: a
            // trailing blank cell is a markup quirk and is dropped.
            data_row(vec!["USA", "Dana", "333", "", "", "", "", "", "!", ""]),
        ],
    };
    let contest = contest_from_tables(slot(), Division::Silver, &vec![table]);
    assert_eq!(contest.participants.len(), 1);
    let p = &contest.participants[0];
    assert_eq!(p.submission_results, vec![None, Some(vec![TestcaseResult::RunTimeError])]);
}

#[test]
fn test_bad_colspan_skips_whole_table() {
    let bad = HtmlTable {
        rows: vec![
            header_row(vec![
                th("Country", None),
                th("Name", None),
                th("Score", None),
                th("", None),
                th("Problem 1", Some("many")),
            ]),
            data_row(vec!["USA", "Eve", "100", "", "*"]),
        ],
    };
    let good = HtmlTable {
        rows: vec![
            header_row(vec![
                th("Country", None),
                th("Name", None),
                th("Score", None),
                th("", None),
                th("Problem 1", Some("1")),
            ]),
            data_row(vec!["USA", "Frank", "200", "", "e"]),
        ],
    };
    let contest = contest_from_tables(slot(), Division::Bronze, &vec![bad, good]);
    assert_eq!(contest.participants.len(), 1);
    assert_eq!(contest.participants[0].name, "Frank");
    assert_eq!(contest.participants[0].submission_results, vec![Some(vec![TestcaseResult::Empty])]);
}

#[test]
fn test_duplicate_rows_across_tables_dedup() {
    let mk = || HtmlTable {
        rows: vec![
            header_row(vec![
                th("Country", None),
                th("Name", None),
                th("Score", None),
                th("", None),
                th("Problem 1", Some("1")),
            ]),
            data_row(vec!["USA", "Grace", "640", "", "c"]),
        ],
    };
    let contest = contest_from_tables(slot(), Division::Gold, &vec![mk(), mk()]);
    assert_eq!(contest.participants.len(), 1);
    assert_eq!(contest.participants[0].name, "Grace");
}

#[test]
fn test_contest_page_from_html() {
    let html = "<html><body><table>\
        <tr><th>Country</th><th>Name</th><th>Score</th><th></th><th colspan=\"1\">P1</th></tr>\
        <tr><td>USA</td><td>Alice</td><td>1000</td><td></td><td>*</td></tr>\
        </table></body></html>";
    let contest = parse_contest_page(slot(), Division::Platinum, html);
    assert_eq!(contest.participants.len(), 1);
    let p = &contest.participants[0];
    assert_eq!(p.graduation, Graduation::Observer);
    assert_eq!(p.name, "Alice");
    assert_eq!(p.submission_results, vec![Some(vec![TestcaseResult::Correct])]);
    let expected = ContestParticipant {
        country: String::from("USA"),
        graduation: Graduation::Observer,
        name: String::from("Alice"),
        score: 1000,
        submission_results: vec![Some(vec![TestcaseResult::Correct])],
    };
    assert!(*p == expected);
}

#[test]
fn test_camp_tables() {
    let main_table = HtmlTable {
        rows: vec![
            header_row(vec![th("Year", None), th("Name", None)]),
            data_row(vec!["2026", "Alice", "North HS", "CO"]),
            data_row(vec![""]),
            data_row(vec!["2027", "Bob", "South HS", "TX", "extra"]),
        ],
    };
    let egoi_table = HtmlTable {
        rows: vec![
            header_row(vec![th("Year", None), th("Name", None)]),
            data_row(vec!["2028", "Carol", "East HS", "NY"]),
        ],
    };
    let ignored = HtmlTable { rows: vec![data_row(vec!["2029", "Dan", "West HS", "WA"])] };
    let camp = camp_from_tables(2025, &vec![main_table, egoi_table, ignored]);
    assert_eq!(camp.year, 2025);
    assert_eq!(camp.participants.len(), 2);
    assert_eq!(camp.participants[0].name, "Alice");
    assert_eq!(camp.participants[0].graduation_year, 2026);
    assert_eq!(camp.participants[0].school, "North HS");
    assert_eq!(camp.participants[0].state, "CO");
    assert!(!camp.participants[0].is_egoi);
    assert_eq!(camp.participants[1].name, "Carol");
    assert!(camp.participants[1].is_egoi);
}

#[test]
fn test_camp_page_from_html() {
    let html = "<html><body><table>\
        <tr><td>Year</td><td>Name</td><td>School</td><td>State</td></tr>\
        <tr><td>2026</td><td>Alice</td><td>North HS</td><td>CO</td></tr>\
        </table></body></html>";
    let camp = parse_camp_page(2025, html);
    assert_eq!(camp.participants.len(), 1);
    assert_eq!(camp.participants[0].name, "Alice");
    assert!(!camp.participants[0].is_egoi);
}

fn text_node(t: &str) -> HistNode {
    HistNode::Text(String::from(t))
}

fn img_node(src: &str) -> HistNode {
    HistNode::Element { src: Some(String::from(src)) }
}

#[test]
fn test_history_sections() {
    let section = HistSection {
        heading: Some(String::from("USA at the IOI")),
        blocks: vec![
            YearBlock {
                text: String::from("2019 results"),
                nodes: vec![
                    text_node("2019 "),
                    img_node("current/images/medal_gold.png"),
                    text_node(" Jane Doe (3rd place)"),
                    HistNode::Other,
                    img_node("current/images/medal_bronze.png"),
                    text_node(" John Roe "),
                    text_node("(*) Visa Victim"),
                    img_node("current/images/medal_unknown.png"),
                    text_node(" Skipped Person"),
                ],
            },
            YearBlock {
                text: String::from("2017 results"),
                nodes: vec![
                    img_node("current/images/medal_none.png"),
                    text_node(" Early Bird"),
                ],
            },
        ],
    };
    let hist = history_from_sections(&vec![section]);
    assert_eq!(hist.egoi.len(), 0);
    // Sorted by year: the 2017 entry first, then the three 2019 entries in
    // document order.
    assert_eq!(hist.ioi.len(), 4);
    assert_eq!(hist.ioi[0].year, 2017);
    assert_eq!(hist.ioi[0].name, "Early Bird");
    assert_eq!(hist.ioi[0].result, IntlMedal::NoMedal);
    assert_eq!(hist.ioi[1].year, 2019);
    assert_eq!(hist.ioi[1].name, "Jane Doe");
    assert_eq!(hist.ioi[1].result, IntlMedal::Gold);
    assert_eq!(hist.ioi[2].name, "John Roe");
    assert_eq!(hist.ioi[2].result, IntlMedal::Bronze);
    assert_eq!(hist.ioi[3].name, "Visa Victim");
    assert_eq!(hist.ioi[3].result, IntlMedal::VisaIssue);
}

#[test]
fn test_history_heading_rules() {
    let both = HistSection {
        heading: Some(String::from("IOI and EGOI")),
        blocks: vec![YearBlock {
            text: String::from("2020"),
            nodes: vec![img_node("current/images/medal_gold.png"), text_node(" Somebody")],
        }],
    };
    let egoi = HistSection {
        heading: Some(String::from("USA at the EGOI")),
        blocks: vec![YearBlock {
            text: String::from("2022"),
            nodes: vec![img_node("current/images/medal_silver.png"), text_node(" Ada")],
        }],
    };
    let hist = history_from_sections(&vec![both, egoi]);
    assert_eq!(hist.ioi.len(), 0);
    assert_eq!(hist.egoi.len(), 1);
    assert_eq!(hist.egoi[0].name, "Ada");
    assert_eq!(hist.egoi[0].result, IntlMedal::Silver);
}

#[test]
fn test_history_page_from_html() {
    let html = "<html><body><div class=\"content\">\
        <div><h2>USA at the IOI</h2>\
        <div class=\"panel historypanel\">2019 \
        <img src=\"current/images/medal_gold.png\"> Jane Doe (3rd place)<br>\
        </div></div></div></body></html>";
    let hist = parse_history_page(html);
    assert_eq!(hist.ioi.len(), 1);
    assert_eq!(hist.ioi[0].year, 2019);
    assert_eq!(hist.ioi[0].name, "Jane Doe");
    assert_eq!(hist.ioi[0].result, IntlMedal::Gold);
    assert_eq!(hist.egoi.len(), 0);
}

#[test]
fn test_history_empty_input() {
    let hist = parse_history_page("");
    assert_eq!(hist.ioi.len(), 0);
    assert_eq!(hist.egoi.len(), 0);
}
