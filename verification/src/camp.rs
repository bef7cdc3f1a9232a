//! Finalists page parser.
//!
//! A finalists page holds up to two meaningful tables: the first lists the
//! main invitees, the second (when present) the all-girls olympiad squad.
//! Later tables are ignored. Each table's first row is a header; a data row
//! must hold exactly four cells, graduation year, name, school and state,
//! and is skipped otherwise. A stray row of one empty cell, present on some
//! years' pages, is skipped the same way.

use vstd::prelude::*;

verus! {

use crate::contest::{norm_cells, strs_view};
use crate::dom::{HtmlTable, HtmlTableV, TableRow, TableRowV, tables_of, tables_view, html_tables};
use crate::records::{Camp, CampParticipant, CampParticipantV, CampV};
use crate::text::{normalize_text, parse_u16, parse_u16_spec};

/// Views of a camp participant list.
pub open spec fn campv_seq(s: Seq<CampParticipant>) -> Seq<CampParticipantV> {
    s.map_values(|p: CampParticipant| p@)
}

/// The invitee one data row denotes: exactly four cells, the first a
/// graduation year; anything else is skipped.
pub open spec fn camp_row_result(cells: Seq<Seq<char>>, is_egoi: bool) -> Option<
    CampParticipantV,
> {
    if cells.len() != 4 {
        None
    } else {
        match parse_u16_spec(cells[0]) {
            Some(y) => Some(
                CampParticipantV {
                    graduation_year: y,
                    name: cells[1],
                    school: cells[2],
                    state: cells[3],
                    is_egoi,
                },
            ),
            None => None,
        }
    }
}

/// The invitees of the given data rows, in order, skipping rows that do not
/// parse.
pub open spec fn camp_rows(rows: Seq<TableRowV>, is_egoi: bool) -> Seq<CampParticipantV>
    decreases rows.len(),
{
    if rows.len() == 0 {
        Seq::empty()
    } else {
        camp_rows(rows.drop_last(), is_egoi) + (match camp_row_result(
            norm_cells(rows.last()),
            is_egoi,
        ) {
            Some(p) => seq![p],
            None => Seq::empty(),
        })
    }
}

/// A table's data rows: everything after the header row.
pub open spec fn data_rows(t: HtmlTableV) -> Seq<TableRowV> {
    if t.rows.len() == 0 {
        Seq::empty()
    } else {
        t.rows.skip(1)
    }
}

/// Everything one finalists page yields: the first table's invitees, then
/// the second table's marked as the all-girls squad; further tables are
/// ignored.
pub open spec fn spec_parse_camp(year: u16, ts: Seq<HtmlTableV>) -> CampV {
    CampV {
        year,
        participants: (if ts.len() >= 1 {
            camp_rows(data_rows(ts[0]), false)
        } else {
            Seq::empty()
        }) + (if ts.len() >= 2 {
            camp_rows(data_rows(ts[1]), true)
        } else {
            Seq::empty()
        }),
    }
}

/// Reads one data row of a finalists table.
fn parse_camp_row(row: &TableRow, is_egoi: bool) -> (r: Option<CampParticipant>)
    ensures
        match r {
            Some(p) => camp_row_result(norm_cells(row@), is_egoi) == Some(p@),
            None => camp_row_result(norm_cells(row@), is_egoi) is None,
        },
{
    let ghost cseq = norm_cells(row@);
    if row.data_cells.len() != 4 {
        return None;
    }
    let year_txt = normalize_text(row.data_cells[0].as_str());
    proof {
        assert(cseq[0] == year_txt@);
        assert(cseq[1] == norm_cells(row@)[1]);
    }
    let year = match parse_u16(year_txt.as_str()) {
        Some(y) => y,
        None => {
            return None;
        },
    };
    let p = CampParticipant {
        graduation_year: year,
        name: normalize_text(row.data_cells[1].as_str()),
        school: normalize_text(row.data_cells[2].as_str()),
        state: normalize_text(row.data_cells[3].as_str()),
        is_egoi,
    };
    proof {
        assert(camp_row_result(cseq, is_egoi) matches Some(e) && e =~= p@);
    }
    Some(p)
}

/// Collects the invitees of one finalists table's data rows.
fn camp_table_rows(t: &HtmlTable, is_egoi: bool, out: &mut Vec<CampParticipant>)
    ensures
        campv_seq(final(out)@) == campv_seq(old(out)@) + camp_rows(data_rows(t@), is_egoi),
{
    let ghost drows = data_rows(t@);
    let ghost before = campv_seq(out@);
    let nr = t.rows.len();
    if nr == 0 {
        proof {
            assert(before + camp_rows(drows, is_egoi) =~= before);
        }
        return ;
    }
    let mut ri: usize = 1;
    while ri < nr
        invariant
            1 <= ri <= nr,
            nr == t.rows@.len(),
            drows == data_rows(t@),
            drows == t@.rows.skip(1),
            drows.len() == nr - 1,
            campv_seq(out@) == before + camp_rows(drows.take(ri - 1), is_egoi),
        decreases nr - ri,
    {
        proof {
            assert(drows[ri - 1] == t@.rows[ri as int]);
            assert(t@.rows[ri as int] == t.rows@[ri as int]@);
            assert(drows.take(ri as int).drop_last() =~= drows.take(ri - 1));
            assert(drows.take(ri as int).last() == drows[ri - 1]);
        }
        match parse_camp_row(&t.rows[ri], is_egoi) {
            Some(p) => {
                let ghost pv = p@;
                let ghost prev = campv_seq(out@);
                out.push(p);
                proof {
                    assert(campv_seq(out@) =~= prev.push(pv));
                    assert(prev + seq![pv] =~= prev.push(pv));
                }
            },
            None => {
                proof {
                    assert(campv_seq(out@) + Seq::<CampParticipantV>::empty() =~= campv_seq(
                        out@,
                    ));
                }
            },
        }
        ri += 1;
    }
    proof {
        assert(drows.take(nr - 1) =~= drows);
    }
}

/// Builds a camp from already-extracted tables.
pub fn camp_from_tables(camp_year: u16, tables: &Vec<HtmlTable>) -> (r: Camp)
    ensures
        r@ == spec_parse_camp(camp_year, tables_view(tables@)),
{
    let ghost tv = tables_view(tables@);
    let mut participants: Vec<CampParticipant> = Vec::new();
    if tables.len() >= 1 {
        proof {
            assert(tv[0] == tables@[0]@);
        }
        camp_table_rows(&tables[0], false, &mut participants);
    }
    if tables.len() >= 2 {
        proof {
            assert(tv[1] == tables@[1]@);
        }
        camp_table_rows(&tables[1], true, &mut participants);
    }
    let r = Camp { year: camp_year, participants };
    proof {
        if tv.len() == 0 {
            assert(r@.participants =~= spec_parse_camp(camp_year, tv).participants);
        } else if tv.len() == 1 {
            assert(r@.participants =~= spec_parse_camp(camp_year, tv).participants);
        } else {
            assert(r@.participants =~= spec_parse_camp(camp_year, tv).participants);
        }
        assert(r@ =~= spec_parse_camp(camp_year, tv));
    }
    r
}

/// Parses one finalists page. Never fails: malformed rows are skipped and
/// tables beyond the second are ignored.
pub fn parse_camp_page(camp_year: u16, html: &str) -> (r: Camp)
    ensures
        r@ == spec_parse_camp(camp_year, tables_of(html@)),
{
    let tables = html_tables(html);
    camp_from_tables(camp_year, &tables)
}

} // verus!
