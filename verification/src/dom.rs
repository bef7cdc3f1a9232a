//! Plain-value model of the scraped markup, and the trusted extraction from
//! real HTML.
//!
//! The parsers work on this model: tables are rows of raw cell texts, and a
//! history section is a heading with year blocks whose child nodes are kept
//! in document order. Only the small indexed lookup functions near the
//! bottom touch the HTML library; the model is assembled from them by
//! verified code, and everything downstream is verified.

use vstd::prelude::*;

verus! {

/// One header cell: its raw text and its `colspan` attribute, if any.
#[derive(Debug, Clone)]
pub struct HeaderCell {
    pub text: String,
    pub colspan: Option<String>,
}

/// View of a [`HeaderCell`].
#[verifier::ext_equal]
pub ghost struct HeaderCellV {
    pub text: Seq<char>,
    pub colspan: Option<Seq<char>>,
}

/// View of an optional string.
pub open spec fn opt_view(o: Option<String>) -> Option<Seq<char>> {
    match o {
        Some(s) => Some(s@),
        None => None,
    }
}

impl View for HeaderCell {
    type V = HeaderCellV;

    open spec fn view(&self) -> HeaderCellV {
        HeaderCellV { text: self.text@, colspan: opt_view(self.colspan) }
    }
}

/// One table row: the raw text of its header cells (with attributes) and of
/// its data cells.
#[derive(Debug, Clone)]
pub struct TableRow {
    pub header_cells: Vec<HeaderCell>,
    pub data_cells: Vec<String>,
}

/// View of a [`TableRow`].
#[verifier::ext_equal]
pub ghost struct TableRowV {
    pub header_cells: Seq<HeaderCellV>,
    pub data_cells: Seq<Seq<char>>,
}

impl View for TableRow {
    type V = TableRowV;

    open spec fn view(&self) -> TableRowV {
        TableRowV {
            header_cells: self.header_cells@.map_values(|c: HeaderCell| c@),
            data_cells: self.data_cells@.map_values(|c: String| c@),
        }
    }
}

/// One table of a page, as a list of rows in document order.
#[derive(Debug, Clone)]
pub struct HtmlTable {
    pub rows: Vec<TableRow>,
}

/// View of an [`HtmlTable`].
#[verifier::ext_equal]
pub ghost struct HtmlTableV {
    pub rows: Seq<TableRowV>,
}

impl View for HtmlTable {
    type V = HtmlTableV;

    open spec fn view(&self) -> HtmlTableV {
        HtmlTableV { rows: self.rows@.map_values(|r: TableRow| r@) }
    }
}

/// View of a table list.
pub open spec fn tables_view(ts: Seq<HtmlTable>) -> Seq<HtmlTableV> {
    ts.map_values(|t: HtmlTable| t@)
}

/// One child node of a year block on the history page: a text node's raw
/// text, an element with its `src` attribute (if any), or any other node.
#[derive(Debug, Clone)]
pub enum HistNode {
    Text(String),
    Element { src: Option<String> },
    Other,
}

/// View of a [`HistNode`].
#[verifier::ext_equal]
pub ghost enum HistNodeV {
    Text(Seq<char>),
    Element { src: Option<Seq<char>> },
    Other,
}

impl View for HistNode {
    type V = HistNodeV;

    open spec fn view(&self) -> HistNodeV {
        match self {
            HistNode::Text(t) => HistNodeV::Text(t@),
            HistNode::Element { src } => HistNodeV::Element { src: opt_view(*src) },
            HistNode::Other => HistNodeV::Other,
        }
    }
}

/// One year block of a history section: its full raw text and its child
/// nodes in document order.
#[derive(Debug, Clone)]
pub struct YearBlock {
    pub text: String,
    pub nodes: Vec<HistNode>,
}

/// View of a [`YearBlock`].
#[verifier::ext_equal]
pub ghost struct YearBlockV {
    pub text: Seq<char>,
    pub nodes: Seq<HistNodeV>,
}

impl View for YearBlock {
    type V = YearBlockV;

    open spec fn view(&self) -> YearBlockV {
        YearBlockV { text: self.text@, nodes: self.nodes@.map_values(|n: HistNode| n@) }
    }
}

/// One top-level section of the history page: the raw text of its first
/// heading, if any, and its year blocks.
#[derive(Debug, Clone)]
pub struct HistSection {
    pub heading: Option<String>,
    pub blocks: Vec<YearBlock>,
}

/// View of a [`HistSection`].
#[verifier::ext_equal]
pub ghost struct HistSectionV {
    pub heading: Option<Seq<char>>,
    pub blocks: Seq<YearBlockV>,
}

impl View for HistSection {
    type V = HistSectionV;

    open spec fn view(&self) -> HistSectionV {
        HistSectionV {
            heading: opt_view(self.heading),
            blocks: self.blocks@.map_values(|b: YearBlock| b@),
        }
    }
}

/// View of a section list.
pub open spec fn sections_view(ss: Seq<HistSection>) -> Seq<HistSectionV> {
    ss.map_values(|s: HistSection| s@)
}

/// The tables of a document, with each row's header and data cell text, as
/// the HTML library extracts them.
pub uninterp spec fn tables_of(html: Seq<char>) -> Seq<HtmlTableV>;

/// The history sections of a document, as the HTML library extracts them.
pub uninterp spec fn history_sections_of(html: Seq<char>) -> Seq<HistSectionV>;

/// Relies on scraper's `Html::parse_document` and the `table` selector: how
/// many tables the document holds.
#[verifier::external_body]
fn table_count(html: &str) -> (n: usize)
    ensures
        n == tables_of(html@).len(),
{
    let doc = scraper::Html::parse_document(html);
    let ts = scraper::Selector::parse("table").unwrap();
    doc.select(&ts).count()
}

/// Relies on scraper's selectors: how many `tr` rows the table at `t` holds.
#[verifier::external_body]
fn row_count(html: &str, t: usize) -> (n: usize)
    ensures
        t < tables_of(html@).len() ==> n == tables_of(html@)[t as int].rows.len(),
{
    let doc = scraper::Html::parse_document(html);
    let ts = scraper::Selector::parse("table").unwrap();
    let tr = scraper::Selector::parse("tr").unwrap();
    doc.select(&ts).nth(t).map_or(0, |tb| tb.select(&tr).count())
}

/// Relies on scraper's selectors and `ElementRef::text`: the text of every
/// `th` cell of the row at `t`, `r`.
#[verifier::external_body]
fn th_texts(html: &str, t: usize, r: usize) -> (out: Vec<String>)
    ensures
        t < tables_of(html@).len() && r < tables_of(html@)[t as int].rows.len() ==> {
            let cells = tables_of(html@)[t as int].rows[r as int].header_cells;
            out@.len() == cells.len() && forall|j: int|
                0 <= j < cells.len() ==> #[trigger] out@[j]@ == cells[j].text
        },
{
    let doc = scraper::Html::parse_document(html);
    let ts = scraper::Selector::parse("table").unwrap();
    let tr = scraper::Selector::parse("tr").unwrap();
    let th = scraper::Selector::parse("th").unwrap();
    match doc.select(&ts).nth(t).and_then(|tb| tb.select(&tr).nth(r)) {
        Some(row) => row.select(&th).map(|c| c.text().collect()).collect(),
        None => Vec::new(),
    }
}

/// Relies on scraper's selectors and `ElementRef::attr`: the `colspan`
/// attribute of every `th` cell of the row at `t`, `r`.
#[verifier::external_body]
fn th_colspans(html: &str, t: usize, r: usize) -> (out: Vec<Option<String>>)
    ensures
        t < tables_of(html@).len() && r < tables_of(html@)[t as int].rows.len() ==> {
            let cells = tables_of(html@)[t as int].rows[r as int].header_cells;
            out@.len() == cells.len() && forall|j: int|
                0 <= j < cells.len() ==> opt_view(#[trigger] out@[j]) == cells[j].colspan
        },
{
    let doc = scraper::Html::parse_document(html);
    let ts = scraper::Selector::parse("table").unwrap();
    let tr = scraper::Selector::parse("tr").unwrap();
    let th = scraper::Selector::parse("th").unwrap();
    match doc.select(&ts).nth(t).and_then(|tb| tb.select(&tr).nth(r)) {
        Some(row) => row.select(&th).map(|c| c.attr("colspan").map(String::from)).collect(),
        None => Vec::new(),
    }
}

/// Relies on scraper's selectors and `ElementRef::text`: the text of every
/// `td` cell of the row at `t`, `r`.
#[verifier::external_body]
fn td_texts(html: &str, t: usize, r: usize) -> (out: Vec<String>)
    ensures
        t < tables_of(html@).len() && r < tables_of(html@)[t as int].rows.len() ==> {
            let cells = tables_of(html@)[t as int].rows[r as int].data_cells;
            out@.len() == cells.len() && forall|j: int|
                0 <= j < cells.len() ==> #[trigger] out@[j]@ == cells[j]
        },
{
    let doc = scraper::Html::parse_document(html);
    let ts = scraper::Selector::parse("table").unwrap();
    let tr = scraper::Selector::parse("tr").unwrap();
    let td = scraper::Selector::parse("td").unwrap();
    match doc.select(&ts).nth(t).and_then(|tb| tb.select(&tr).nth(r)) {
        Some(row) => row.select(&td).map(|c| c.text().collect()).collect(),
        None => Vec::new(),
    }
}

/// Extracts every table of the document into the plain model.
pub fn html_tables(html: &str) -> (r: Vec<HtmlTable>)
    ensures
        tables_view(r@) == tables_of(html@),
{
    let ghost sp = tables_of(html@);
    let nt = table_count(html);
    let mut out: Vec<HtmlTable> = Vec::new();
    let mut t: usize = 0;
    proof {
        assert(tables_view(out@) =~= sp.take(0));
    }
    while t < nt
        invariant
            t <= nt,
            nt == sp.len(),
            sp == tables_of(html@),
            tables_view(out@) == sp.take(t as int),
        decreases nt - t,
    {
        let nr = row_count(html, t);
        let mut rows: Vec<TableRow> = Vec::new();
        let mut r: usize = 0;
        proof {
            assert(rows@.map_values(|x: TableRow| x@) =~= sp[t as int].rows.take(0));
        }
        while r < nr
            invariant
                r <= nr,
                t < sp.len(),
                nr == sp[t as int].rows.len(),
                sp == tables_of(html@),
                rows@.map_values(|x: TableRow| x@) == sp[t as int].rows.take(r as int),
            decreases nr - r,
        {
            let ghost rv = sp[t as int].rows[r as int];
            let texts = th_texts(html, t, r);
            let spans = th_colspans(html, t, r);
            let datas = td_texts(html, t, r);
            let mut hc: Vec<HeaderCell> = Vec::new();
            let m = texts.len();
            let mut j: usize = 0;
            proof {
                assert(hc@.map_values(|c: HeaderCell| c@) =~= rv.header_cells.take(0));
            }
            while j < m
                invariant
                    j <= m,
                    m == rv.header_cells.len(),
                    m == texts@.len(),
                    spans@.len() == rv.header_cells.len(),
                    forall|k: int|
                        0 <= k < rv.header_cells.len() ==> #[trigger] texts@[k]@
                            == rv.header_cells[k].text,
                    forall|k: int|
                        0 <= k < rv.header_cells.len() ==> opt_view(#[trigger] spans@[k])
                            == rv.header_cells[k].colspan,
                    hc@.map_values(|c: HeaderCell| c@) == rv.header_cells.take(j as int),
                decreases m - j,
            {
                let span = match &spans[j] {
                    Some(s) => Some(s.clone()),
                    None => None,
                };
                let cell = HeaderCell { text: texts[j].clone(), colspan: span };
                let ghost cv = cell@;
                let ghost prev = hc@.map_values(|c: HeaderCell| c@);
                proof {
                    assert(cv =~= rv.header_cells[j as int]);
                    assert(rv.header_cells.take(j + 1 as int) =~= rv.header_cells.take(
                        j as int,
                    ).push(rv.header_cells[j as int]));
                }
                hc.push(cell);
                proof {
                    assert(hc@.map_values(|c: HeaderCell| c@) =~= prev.push(cv));
                }
                j += 1;
            }
            proof {
                assert(rv.header_cells.take(m as int) =~= rv.header_cells);
            }
            let row = TableRow { header_cells: hc, data_cells: datas };
            let ghost rowv = row@;
            proof {
                assert(rowv.data_cells =~= rv.data_cells);
                assert(rowv =~= rv);
                assert(sp[t as int].rows.take(r + 1 as int) =~= sp[t as int].rows.take(
                    r as int,
                ).push(rv));
            }
            let ghost prevr = rows@.map_values(|x: TableRow| x@);
            rows.push(row);
            proof {
                assert(rows@.map_values(|x: TableRow| x@) =~= prevr.push(rowv));
            }
            r += 1;
        }
        proof {
            assert(sp[t as int].rows.take(nr as int) =~= sp[t as int].rows);
        }
        let table = HtmlTable { rows };
        let ghost tv = table@;
        proof {
            assert(tv =~= sp[t as int]);
            assert(sp.take(t + 1 as int) =~= sp.take(t as int).push(sp[t as int]));
        }
        let ghost prevt = tables_view(out@);
        out.push(table);
        proof {
            assert(tables_view(out@) =~= prevt.push(tv));
        }
        t += 1;
    }
    proof {
        assert(sp.take(nt as int) =~= sp);
    }
    out
}

/// Relies on scraper's `.content > div` selector: how many top-level
/// sections the history page holds.
#[verifier::external_body]
fn section_count(html: &str) -> (n: usize)
    ensures
        n == history_sections_of(html@).len(),
{
    let doc = scraper::Html::parse_document(html);
    let outer = scraper::Selector::parse(".content > div").unwrap();
    doc.select(&outer).count()
}

/// Relies on scraper's selectors and `ElementRef::text`: the text of the
/// first `h2` heading of the section at `s`, if any.
#[verifier::external_body]
fn section_heading(html: &str, s: usize) -> (out: Option<String>)
    ensures
        s < history_sections_of(html@).len() ==> opt_view(out) == history_sections_of(
            html@,
        )[s as int].heading,
{
    let doc = scraper::Html::parse_document(html);
    let outer = scraper::Selector::parse(".content > div").unwrap();
    let h2 = scraper::Selector::parse("h2").unwrap();
    doc.select(&outer).nth(s).and_then(|o| o.select(&h2).next()).map(|h| h.text().collect())
}

/// Relies on scraper's `div.panel.historypanel` selector: how many year
/// blocks the section at `s` holds.
#[verifier::external_body]
fn block_count(html: &str, s: usize) -> (n: usize)
    ensures
        s < history_sections_of(html@).len() ==> n == history_sections_of(
            html@,
        )[s as int].blocks.len(),
{
    let doc = scraper::Html::parse_document(html);
    let outer = scraper::Selector::parse(".content > div").unwrap();
    let inner = scraper::Selector::parse("div.panel.historypanel").unwrap();
    doc.select(&outer).nth(s).map_or(0, |o| o.select(&inner).count())
}

/// Relies on scraper's selectors and `ElementRef::text`: the full text of
/// the year block at `s`, `b`.
#[verifier::external_body]
fn block_text(html: &str, s: usize, b: usize) -> (out: String)
    ensures
        s < history_sections_of(html@).len() && b < history_sections_of(
            html@,
        )[s as int].blocks.len() ==> out@ == history_sections_of(
            html@,
        )[s as int].blocks[b as int].text,
{
    let doc = scraper::Html::parse_document(html);
    let outer = scraper::Selector::parse(".content > div").unwrap();
    let inner = scraper::Selector::parse("div.panel.historypanel").unwrap();
    match doc.select(&outer).nth(s).and_then(|o| o.select(&inner).nth(b)) {
        Some(d) => d.text().collect(),
        None => String::new(),
    }
}

/// Relies on scraper's node tree: the child nodes of the year block at `s`,
/// `b`, in document order — each a text node's text, an element with its
/// `src` attribute, or something else.
#[verifier::external_body]
fn block_nodes(html: &str, s: usize, b: usize) -> (out: Vec<HistNode>)
    ensures
        s < history_sections_of(html@).len() && b < history_sections_of(
            html@,
        )[s as int].blocks.len() ==> {
            let nodes = history_sections_of(html@)[s as int].blocks[b as int].nodes;
            out@.len() == nodes.len() && forall|j: int|
                0 <= j < nodes.len() ==> #[trigger] out@[j]@ == nodes[j]
        },
{
    let doc = scraper::Html::parse_document(html);
    let outer = scraper::Selector::parse(".content > div").unwrap();
    let inner = scraper::Selector::parse("div.panel.historypanel").unwrap();
    match doc.select(&outer).nth(s).and_then(|o| o.select(&inner).nth(b)) {
        Some(d) => d.children().map(|c| match c.value() {
            scraper::Node::Text(t) => HistNode::Text(t.text.to_string()),
            scraper::Node::Element(e) => HistNode::Element { src: e.attr("src").map(String::from) },
            _ => HistNode::Other,
        }).collect(),
        None => Vec::new(),
    }
}

/// Extracts every history section of the document into the plain model.
pub fn history_sections(html: &str) -> (r: Vec<HistSection>)
    ensures
        sections_view(r@) == history_sections_of(html@),
{
    let ghost sp = history_sections_of(html@);
    let ns = section_count(html);
    let mut out: Vec<HistSection> = Vec::new();
    let mut s: usize = 0;
    proof {
        assert(sections_view(out@) =~= sp.take(0));
    }
    while s < ns
        invariant
            s <= ns,
            ns == sp.len(),
            sp == history_sections_of(html@),
            sections_view(out@) == sp.take(s as int),
        decreases ns - s,
    {
        let heading = section_heading(html, s);
        let nb = block_count(html, s);
        let mut blocks: Vec<YearBlock> = Vec::new();
        let mut b: usize = 0;
        proof {
            assert(blocks@.map_values(|x: YearBlock| x@) =~= sp[s as int].blocks.take(0));
        }
        while b < nb
            invariant
                b <= nb,
                s < sp.len(),
                nb == sp[s as int].blocks.len(),
                sp == history_sections_of(html@),
                blocks@.map_values(|x: YearBlock| x@) == sp[s as int].blocks.take(b as int),
            decreases nb - b,
        {
            let ghost bv = sp[s as int].blocks[b as int];
            let text = block_text(html, s, b);
            let nodes = block_nodes(html, s, b);
            let block = YearBlock { text, nodes };
            let ghost blockv = block@;
            proof {
                assert(blockv.nodes =~= bv.nodes);
                assert(blockv =~= bv);
                assert(sp[s as int].blocks.take(b + 1 as int) =~= sp[s as int].blocks.take(
                    b as int,
                ).push(bv));
            }
            let ghost prevb = blocks@.map_values(|x: YearBlock| x@);
            blocks.push(block);
            proof {
                assert(blocks@.map_values(|x: YearBlock| x@) =~= prevb.push(blockv));
            }
            b += 1;
        }
        proof {
            assert(sp[s as int].blocks.take(nb as int) =~= sp[s as int].blocks);
        }
        let section = HistSection { heading, blocks };
        let ghost sv = section@;
        proof {
            assert(sv =~= sp[s as int]);
            assert(sp.take(s + 1 as int) =~= sp.take(s as int).push(sp[s as int]));
        }
        let ghost prevs = sections_view(out@);
        out.push(section);
        proof {
            assert(sections_view(out@) =~= prevs.push(sv));
        }
        s += 1;
    }
    proof {
        assert(sp.take(ns as int) =~= sp);
    }
    out
}

} // verus!
