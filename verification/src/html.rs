//! Table rows of an HTML report.

use crate::text;
use vstd::prelude::*;

verus! {

/// A piece of an HTML text.
pub enum Token {
    /// A tag that opens, by its name.
    Open(Seq<char>),
    /// A tag that closes, by its name.
    Close(Seq<char>),
    /// Text between tags.
    Text(Seq<char>),
}

/// Whether `c` is a letter or a digit of ASCII.
pub open spec fn alphanumeric(c: char) -> bool {
    ||| '0' <= c && c <= '9'
    ||| 'A' <= c && c <= 'Z'
    ||| 'a' <= c && c <= 'z'
}

/// The letters and digits at the start of `s`.
pub open spec fn name_prefix(s: Seq<char>) -> Seq<char>
    decreases s.len(),
{
    if s.len() > 0 && alphanumeric(s[0]) {
        seq![s[0]] + name_prefix(s.drop_first())
    } else {
        seq![]
    }
}

/// The name in the tag whose inside is `inside`.
pub open spec fn tag_name(inside: Seq<char>) -> Seq<char> {
    text::ascii_lowercase(name_prefix(text::without_leading(inside, '/')))
}

/// The tag whose inside is `inside`.
pub open spec fn tag(inside: Seq<char>) -> Token {
    if inside.len() > 0 && inside[0] == '/' {
        Token::Close(tag_name(inside))
    } else {
        Token::Open(tag_name(inside))
    }
}

/// Whether `s` starts with a tag: a `<` that some `>` follows.
pub open spec fn at_tag(s: Seq<char>) -> bool {
    s.len() > 0 && s[0] == '<' && text::find(s, '>') < s.len()
}

/// The length of the text that `s` starts with: up to the next `<`.
pub open spec fn text_length(s: Seq<char>) -> nat {
    1 + text::find(s.drop_first(), '<')
}

/// The pieces of `s`. A `<` that no `>` follows is text.
pub open spec fn tokens(s: Seq<char>) -> Seq<Token>
    decreases s.len(),
{
    if s.len() == 0 {
        seq![]
    } else if at_tag(s) {
        let end = text::find(s, '>') as int;
        seq![tag(s.subrange(1, end))] + tokens(s.skip(end + 1))
    } else {
        proof {
            text::lemma_find(s.drop_first(), '<');
        }
        let end = text_length(s) as int;
        seq![Token::Text(s.take(end))] + tokens(s.skip(end))
    }
}

/// What is known of a report after some of its tokens.
pub struct Scan {
    /// Inside a heading.
    pub in_heading: bool,
    /// The text of the current heading.
    pub heading: Seq<char>,
    /// The last heading announced the table, and no table has followed yet.
    pub announced: bool,
    /// How many tables are open.
    pub depth: int,
    /// Inside the announced table.
    pub in_table: bool,
    /// The depth of the announced table.
    pub level: int,
    /// Inside a row of the announced table.
    pub in_row: bool,
    /// The cells of the current row.
    pub cells: Seq<Seq<char>>,
    /// The current row has a data cell.
    pub has_data: bool,
    /// Inside a cell.
    pub in_cell: bool,
    /// The text of the current cell.
    pub cell: Seq<char>,
    /// The rows that are complete.
    pub rows: Seq<Seq<Seq<char>>>,
}

/// What is known before the first token.
pub open spec fn start() -> Scan {
    Scan {
        in_heading: false,
        heading: seq![],
        announced: false,
        depth: 0,
        in_table: false,
        level: 0,
        in_row: false,
        cells: seq![],
        has_data: false,
        in_cell: false,
        cell: seq![],
        rows: seq![],
    }
}

/// Whether `name` is that of a heading.
pub open spec fn is_heading(name: Seq<char>) -> bool {
    name == "h1"@ || name == "h2"@ || name == "h3"@
}

/// Whether a heading announces the table of software power consumers.
pub open spec fn announces(heading: Seq<char>) -> bool {
    text::has(text::unicode_lowercase(text::trimmed(heading)), "software power consumers"@)
}

/// `s` with the entities of HTML decoded, one kind after the other.
pub open spec fn decoded(s: Seq<char>) -> Seq<char> {
    let a = text::replaced(s, "&amp;"@, "&"@);
    let b = text::replaced(a, "&lt;"@, "<"@);
    let c = text::replaced(b, "&gt;"@, ">"@);
    let d = text::replaced(c, "&quot;"@, "\""@);
    let e = text::replaced(d, "&#39;"@, "'"@);
    text::replaced(e, "&nbsp;"@, " "@)
}

/// What is known after one more tag that opens.
pub open spec fn opened(s: Scan, name: Seq<char>) -> Scan {
    if is_heading(name) {
        Scan { in_heading: true, heading: seq![], ..s }
    } else if name == "table"@ {
        if s.announced && !s.in_table {
            Scan {
                depth: s.depth + 1,
                in_table: true,
                level: s.depth + 1,
                announced: false,
                ..s
            }
        } else {
            Scan { depth: s.depth + 1, ..s }
        }
    } else if name == "tr"@ && s.in_table {
        Scan { in_row: true, cells: seq![], has_data: false, ..s }
    } else if (name == "td"@ || name == "th"@) && s.in_row {
        Scan { in_cell: true, cell: seq![], has_data: s.has_data || name == "td"@, ..s }
    } else {
        s
    }
}

/// What is known where the current row ends, if there is one: it is complete, and
/// counts if it has a data cell.
pub open spec fn row_ended(s: Scan) -> Scan {
    if s.in_row {
        Scan {
            in_row: false,
            rows: if s.has_data {
                s.rows.push(s.cells)
            } else {
                s.rows
            },
            ..s
        }
    } else {
        s
    }
}

/// What is known after one more tag that closes. The end of the announced table ends
/// its row and its cell too.
pub open spec fn closed(s: Scan, name: Seq<char>) -> Scan {
    if is_heading(name) {
        if s.in_heading {
            Scan { in_heading: false, announced: announces(s.heading), ..s }
        } else {
            s
        }
    } else if name == "td"@ || name == "th"@ {
        if s.in_cell {
            Scan { in_cell: false, cells: s.cells.push(decoded(text::trimmed(s.cell))), ..s }
        } else {
            s
        }
    } else if name == "tr"@ {
        row_ended(s)
    } else if name == "table"@ {
        if s.in_table && s.depth == s.level {
            Scan { in_table: false, in_cell: false, depth: s.depth - 1, ..row_ended(s) }
        } else {
            Scan { depth: s.depth - 1, ..s }
        }
    } else {
        s
    }
}

/// What is known after one more token.
pub open spec fn step(s: Scan, token: Token) -> Scan {
    match token {
        Token::Open(name) => opened(s, name),
        Token::Close(name) => closed(s, name),
        Token::Text(words) => if s.in_cell {
            Scan { cell: s.cell + words, ..s }
        } else if s.in_heading {
            Scan { heading: s.heading + words, ..s }
        } else {
            s
        },
    }
}

/// What is known after all of `pieces`.
pub open spec fn run(s: Scan, pieces: Seq<Token>) -> Scan
    decreases pieces.len(),
{
    if pieces.len() == 0 {
        s
    } else {
        run(step(s, pieces[0]), pieces.drop_first())
    }
}

/// The rows of the tables that a heading announces, each that has a data cell as the
/// list of its cell texts.
pub open spec fn table_rows(html: Seq<char>) -> Seq<Seq<Seq<char>>> {
    run(start(), tokens(html)).rows
}

/// The state of a scan through a report.
struct Scanner {
    in_heading: bool,
    heading: Vec<char>,
    announced: bool,
    depth: i128,
    in_table: bool,
    level: i128,
    in_row: bool,
    cells: Vec<Vec<char>>,
    has_data: bool,
    in_cell: bool,
    cell: Vec<char>,
    rows: Vec<Vec<Vec<char>>>,
}

/// The cells of each of a row of table rows.
pub open spec fn row_views(v: Seq<Vec<Vec<char>>>) -> Seq<Seq<Seq<char>>> {
    v.map_values(|x: Vec<Vec<char>>| text::views(x@))
}

impl View for Scanner {
    type V = Scan;

    closed spec fn view(&self) -> Scan {
        Scan {
            in_heading: self.in_heading,
            heading: self.heading@,
            announced: self.announced,
            depth: self.depth as int,
            in_table: self.in_table,
            level: self.level as int,
            in_row: self.in_row,
            cells: text::views(self.cells@),
            has_data: self.has_data,
            in_cell: self.in_cell,
            cell: self.cell@,
            rows: row_views(self.rows@),
        }
    }
}

/// A copy of `s`.
fn copy(s: &Vec<char>) -> (r: Vec<char>)
    ensures
        r@ == s@,
{
    let out: Vec<char> = text::part(s.as_slice(), 0, s.len());
    assert(out@ =~= s@);
    out
}

/// The name in the tag whose inside is `inside`.
fn read_name(inside: &[char]) -> (r: Vec<char>)
    ensures
        r@ == tag_name(inside@),
{
    let rest: Vec<char> = text::skip_leading(inside, '/');
    let mut name: Vec<char> = Vec::new();
    let mut i: usize = 0;
    assert(rest@.skip(0) =~= rest@);
    while i < rest.len() && is_alphanumeric(rest[i])
        invariant
            i <= rest.len(),
            name_prefix(rest@) == name@ + name_prefix(rest@.skip(i as int)),
        decreases rest.len() - i,
    {
        let ghost before = name@;
        let ghost tail = rest@.skip(i as int);
        name.push(rest[i]);
        i = i + 1;
        proof {
            assert(tail.drop_first() =~= rest@.skip(i as int));
            assert(before + (seq![tail[0]] + name_prefix(rest@.skip(i as int))) =~= name@
                + name_prefix(rest@.skip(i as int)));
        }
    }
    assert(name_prefix(rest@) =~= name@);
    text::lowercase(name.as_slice())
}

fn is_alphanumeric(c: char) -> (r: bool)
    ensures
        r == alphanumeric(c),
{
    ('0' <= c && c <= '9') || ('A' <= c && c <= 'Z') || ('a' <= c && c <= 'z')
}

/// `s` with the entities of HTML decoded.
pub fn decode_entities(s: &[char]) -> (r: Vec<char>)
    ensures
        r@ == decoded(s@),
{
    proof {
        reveal_strlit("&amp;");
        reveal_strlit("&lt;");
        reveal_strlit("&gt;");
        reveal_strlit("&quot;");
        reveal_strlit("&#39;");
        reveal_strlit("&nbsp;");
    }
    let a: Vec<char> = text::replace(s, "&amp;", "&");
    let b: Vec<char> = text::replace(a.as_slice(), "&lt;", "<");
    let c: Vec<char> = text::replace(b.as_slice(), "&gt;", ">");
    let d: Vec<char> = text::replace(c.as_slice(), "&quot;", "\"");
    let e: Vec<char> = text::replace(d.as_slice(), "&#39;", "'");
    text::replace(e.as_slice(), "&nbsp;", " ")
}

impl Scanner {
    fn new() -> (r: Scanner)
        ensures
            r@ == start(),
    {
        let r: Scanner = Scanner {
            in_heading: false,
            heading: Vec::new(),
            announced: false,
            depth: 0,
            in_table: false,
            level: 0,
            in_row: false,
            cells: Vec::new(),
            has_data: false,
            in_cell: false,
            cell: Vec::new(),
            rows: Vec::new(),
        };
        assert(r@.cells =~= seq![]);
        assert(r@.rows =~= seq![]);
        assert(r@.heading =~= seq![]);
        assert(r@.cell =~= seq![]);
        r
    }

    fn names_heading(name: &Vec<char>) -> (r: bool)
        ensures
            r == is_heading(name@),
    {
        text::is(name.as_slice(), "h1") || text::is(name.as_slice(), "h2") || text::is(
            name.as_slice(),
            "h3",
        )
    }

    fn open(&mut self, name: &Vec<char>)
        requires
            old(self)@.depth < i128::MAX,
        ensures
            final(self)@ == opened(old(self)@, name@),
    {
        let data: bool = text::is(name.as_slice(), "td");
        if Scanner::names_heading(name) {
            self.in_heading = true;
            self.heading = Vec::new();
            assert(self.heading@ =~= seq![]);
        } else if text::is(name.as_slice(), "table") {
            self.depth = self.depth + 1;
            if self.announced && !self.in_table {
                self.in_table = true;
                self.level = self.depth;
                self.announced = false;
            }
        } else if text::is(name.as_slice(), "tr") && self.in_table {
            self.in_row = true;
            self.cells = Vec::new();
            self.has_data = false;
            assert(text::views(self.cells@) =~= seq![]);
        } else if (data || text::is(name.as_slice(), "th")) && self.in_row {
            self.in_cell = true;
            self.cell = Vec::new();
            assert(self.cell@ =~= seq![]);
            if data {
                self.has_data = true;
            }
        }
        assert(self@ =~= opened(old(self)@, name@));
    }

    fn end_row(&mut self)
        ensures
            final(self)@ == row_ended(old(self)@),
    {
        if self.in_row {
            self.in_row = false;
            if self.has_data {
                let ghost before = self.rows@;
                let row: Vec<Vec<char>> = copy_row(&self.cells);
                self.rows.push(row);
                assert(row_views(self.rows@) =~= row_views(before).push(text::views(self.cells@)));
            }
        }
        assert(self@ =~= row_ended(old(self)@));
    }

    fn close(&mut self, name: &Vec<char>)
        requires
            old(self)@.depth > i128::MIN,
        ensures
            final(self)@ == closed(old(self)@, name@),
    {
        proof {
            reveal_strlit("td");
            reveal_strlit("th");
            reveal_strlit("tr");
            reveal_strlit("table");
            reveal_strlit("h1");
            reveal_strlit("h2");
            reveal_strlit("h3");
        }
        if Scanner::names_heading(name) {
            if self.in_heading {
                self.in_heading = false;
                let words: Vec<char> = text::trim(self.heading.as_slice());
                let low: String = text::lower_case(text::string_of(words.as_slice()).as_str());
                self.announced =
                text::contains(text::characters(low.as_str()).as_slice(), "software power consumers");
            }
        } else if text::is(name.as_slice(), "td") || text::is(name.as_slice(), "th") {
            if self.in_cell {
                self.in_cell = false;
                let words: Vec<char> = text::trim(self.cell.as_slice());
                let ghost before = self.cells@;
                self.cells.push(decode_entities(words.as_slice()));
                assert(text::views(self.cells@) =~= text::views(before).push(
                    decoded(text::trimmed(self.cell@)),
                ));
            }
        } else if text::is(name.as_slice(), "tr") {
            self.end_row();
        } else if text::is(name.as_slice(), "table") {
            if self.in_table && self.depth == self.level {
                self.end_row();
                self.in_table = false;
                self.in_cell = false;
            }
            self.depth = self.depth - 1;
        }
        assert(self@ =~= closed(old(self)@, name@));
    }

    fn words(&mut self, s: &[char], from: usize, to: usize)
        requires
            from <= to <= s@.len(),
        ensures
            final(self)@ == step(old(self)@, Token::Text(s@.subrange(from as int, to as int))),
    {
        let mut new_part: Vec<char> = text::part(s, from, to);
        if self.in_cell {
            self.cell.append(&mut new_part);
        } else if self.in_heading {
            self.heading.append(&mut new_part);
        }
    }
}

fn copy_row(cells: &Vec<Vec<char>>) -> (r: Vec<Vec<char>>)
    ensures
        text::views(r@) == text::views(cells@),
{
    let mut out: Vec<Vec<char>> = Vec::new();
    let mut i: usize = 0;
    while i < cells.len()
        invariant
            i <= cells.len(),
            text::views(out@) == text::views(cells@).take(i as int),
        decreases cells.len() - i,
    {
        let ghost before = out@;
        out.push(copy(&cells[i]));
        i = i + 1;
        assert(text::views(out@) =~= text::views(before).push(cells@[i - 1]@));
        assert(text::views(cells@).take(i as int) =~= text::views(cells@).take(i - 1).push(
            cells@[i - 1]@,
        ));
    }
    assert(text::views(cells@).take(i as int) =~= text::views(cells@));
    out
}

/// The rows of the tables that a heading announces, each that has a data cell as the
/// list of its cell texts.
pub fn extract_table_rows(html: &[char]) -> (r: Vec<Vec<Vec<char>>>)
    ensures
        row_views(r@) == table_rows(html@),
{
    let mut scan: Scanner = Scanner::new();
    let mut i: usize = 0;
    assert(html@.skip(0) =~= html@);
    while i < html.len()
        invariant
            i <= html.len(),
            -(i as int) <= scan@.depth <= i,
            run(start(), tokens(html@)) == run(scan@, tokens(html@.skip(i as int))),
        decreases html.len() - i,
    {
        let ghost rest = html@.skip(i as int);
        let ghost before = scan@;
        let end: usize = text::find_from(html, '>', i);
        if html[i] == '<' && end < html.len() {
            let inside: Vec<char> = text::part(html, i + 1, end);
            assert(inside@ =~= rest.subrange(1, end - i));
            let name: Vec<char> = read_name(inside.as_slice());
            if inside.len() > 0 && inside[0] == '/' {
                scan.close(&name);
            } else {
                scan.open(&name);
            }
            proof {
                let tail = html@.skip(end + 1);
                assert(rest.skip(end - i + 1) =~= tail);
                assert(tokens(rest) == seq![tag(inside@)] + tokens(tail));
                assert(tokens(rest).drop_first() =~= tokens(tail));
                assert(scan@ == step(before, tag(inside@)));
            }
            i = end + 1;
        } else {
            let next: usize = text::find_from(html, '<', i + 1);
            scan.words(html, i, next);
            proof {
                let tail = html@.skip(next as int);
                assert(rest.drop_first() =~= html@.skip(i + 1));
                assert(rest.take(next - i) =~= html@.subrange(i as int, next as int));
                assert(rest.skip(next - i) =~= tail);
                assert(tokens(rest) == seq![Token::Text(rest.take(next - i))] + tokens(tail));
                assert(tokens(rest).drop_first() =~= tokens(tail));
            }
            i = next;
        }
    }
    assert(tokens(html@.skip(i as int)) =~= seq![]);
    scan.rows
}

/// Whether a token opens a data cell.
pub open spec fn opens_data(token: Token) -> bool {
    token matches Token::Open(name) && name == "td"@
}

proof fn lemma_run_without_data(s: Scan, pieces: Seq<Token>)
    requires
        !s.has_data,
        forall|i: int| 0 <= i < pieces.len() ==> !opens_data(#[trigger] pieces[i]),
    ensures
        run(s, pieces).rows == s.rows,
    decreases pieces.len(),
{
    if pieces.len() > 0 {
        assert(!opens_data(pieces[0]));
        assert forall|i: int| 0 <= i < pieces.drop_first().len() implies !opens_data(
            #[trigger] pieces.drop_first()[i],
        ) by {
            assert(pieces.drop_first()[i] == pieces[i + 1]);
        }
        lemma_run_without_data(step(s, pieces[0]), pieces.drop_first());
    }
}

/// Rows of header cells alone are left out: a report without data cells yields no
/// rows.
pub proof fn law_header_rows_are_left_out(html: Seq<char>)
    requires
        forall|i: int| 0 <= i < tokens(html).len() ==> !opens_data(#[trigger] tokens(html)[i]),
    ensures
        table_rows(html) == Seq::<Seq<Seq<char>>>::empty(),
{
    lemma_run_without_data(start(), tokens(html));
}

/// A row is yielded where it ends, with all of its cells, if and only if it has a data
/// cell.
pub proof fn law_rows_have_a_data_cell(s: Scan)
    requires
        s.in_row,
    ensures
        step(s, Token::Close("tr"@)).rows == (if s.has_data {
            s.rows.push(s.cells)
        } else {
            s.rows
        }),
        step(s, Token::Open("td"@)).has_data,
        step(s, Token::Open("th"@)).has_data == s.has_data,
{
    lemma_tags_differ();
}

/// What is known before the token `k`.
pub open spec fn state_before(pieces: Seq<Token>, k: int) -> Scan {
    run(start(), pieces.take(k))
}

/// Whether the tokens from behind `j` up to `k` all stand between the tags of one
/// announced table, and so does the token `j`.
pub open spec fn within_table(pieces: Seq<Token>, j: int, k: int) -> bool {
    forall|m: int| j <= m <= k ==> (#[trigger] state_before(pieces, m)).in_table
}

/// Whether a token opens a cell.
pub open spec fn opens_cell(token: Token) -> bool {
    token matches Token::Open(name) && (name == "td"@ || name == "th"@)
}

/// Whether a token opens a row.
pub open spec fn opens_row(token: Token) -> bool {
    token matches Token::Open(name) && name == "tr"@
}

/// Whether the row that is current before the token `k` began with the token `j`, in
/// the same table and without cells.
pub open spec fn row_began(pieces: Seq<Token>, j: int, k: int) -> bool {
    &&& 0 <= j < k
    &&& opens_row(pieces[j])
    &&& within_table(pieces, j, k)
    &&& state_before(pieces, j + 1).cells.len() == 0
}

/// Whether the cell that is current before the token `k` began with the token `j`, in
/// the same table.
pub open spec fn cell_began(pieces: Seq<Token>, j: int, k: int) -> bool {
    &&& 0 <= j < k
    &&& opens_cell(pieces[j])
    &&& within_table(pieces, j, k)
}

proof fn lemma_tags_differ()
    ensures
        "td"@ != "th"@,
        "td"@ != "tr"@,
        "th"@ != "tr"@,
        "table"@ != "tr"@,
        "table"@ != "td"@,
        "table"@ != "th"@,
        !is_heading("tr"@),
        !is_heading("td"@),
        !is_heading("th"@),
        !is_heading("table"@),
{
    reveal_strlit("td");
    reveal_strlit("th");
    reveal_strlit("tr");
    reveal_strlit("table");
    reveal_strlit("h1");
    reveal_strlit("h2");
    reveal_strlit("h3");
    assert("td"@[0] == 't' && "th"@[0] == 't' && "tr"@[0] == 't' && "table"@[0] == 't');
    assert("td"@[1] == 'd' && "th"@[1] == 'h' && "tr"@[1] == 'r' && "table"@[1] == 'a');
    assert("h1"@[0] == 'h' && "h2"@[0] == 'h' && "h3"@[0] == 'h');
}

/// A row and a cell are only ever current in the announced table in which they began.
proof fn lemma_began(pieces: Seq<Token>, k: int)
    requires
        0 <= k <= pieces.len(),
    ensures
        state_before(pieces, k).in_row ==> exists|j: int| row_began(pieces, j, k),
        state_before(pieces, k).in_cell ==> exists|j: int| cell_began(pieces, j, k),
    decreases k,
{
    lemma_tags_differ();
    if k == 0 {
        assert(pieces.take(0) =~= seq![]);
    } else {
        let before = k - 1;
        let s = state_before(pieces, before);
        let t = state_before(pieces, k);
        let token = pieces[k - 1];
        lemma_run_step(start(), pieces, k - 1);
        lemma_began(pieces, k - 1);
        assert(t == step(s, token));
        if s.in_row {
            let j = choose|j: int| row_began(pieces, j, before);
            assert(state_before(pieces, k - 1).in_table);
            if t.in_table {
                assert(within_table(pieces, j, k));
                assert(row_began(pieces, j, k));
            }
        }
        if s.in_cell {
            let j = choose|j: int| cell_began(pieces, j, before);
            assert(state_before(pieces, k - 1).in_table);
            if t.in_table {
                assert(within_table(pieces, j, k));
                assert(cell_began(pieces, j, k));
            }
        }
        if t.in_row && !s.in_row {
            assert(within_table(pieces, k - 1, k));
            assert(row_began(pieces, k - 1, k));
        }
        if t.in_cell && !s.in_cell {
            assert(s.in_table && t.in_table);
            assert(within_table(pieces, k - 1, k));
            assert(cell_began(pieces, k - 1, k));
        }
    }
}

/// Every row and every cell comes from between the tags of one announced table. A
/// token that completes a row yields the cells that were read since the row began, and
/// from there on the table was open throughout. A token that completes a cell does so
/// in the table in which the cell was opened.
pub proof fn law_rows_lie_within_the_announced_table(pieces: Seq<Token>, k: int)
    requires
        0 <= k < pieces.len(),
    ensures
        state_before(pieces, k + 1).rows != state_before(pieces, k).rows ==> {
            &&& state_before(pieces, k + 1).rows == state_before(pieces, k).rows.push(
                state_before(pieces, k).cells,
            )
            &&& exists|j: int| row_began(pieces, j, k)
        },
        state_before(pieces, k + 1).cells.len() > state_before(pieces, k).cells.len()
            ==> exists|j: int| cell_began(pieces, j, k),
{
    lemma_run_step(start(), pieces, k);
    lemma_began(pieces, k);
}

/// Behind the announced table no row and no cell is current: what follows adds nothing
/// to the table's rows.
pub proof fn law_the_end_of_the_table_ends_its_rows(html: Seq<char>, k: int)
    requires
        0 <= k <= tokens(html).len(),
        !state_before(tokens(html), k).in_table,
    ensures
        !state_before(tokens(html), k).in_row,
        !state_before(tokens(html), k).in_cell,
{
    let pieces = tokens(html);
    lemma_began(pieces, k);
    if state_before(pieces, k).in_row {
        let j = choose|j: int| row_began(pieces, j, k);
        assert(state_before(pieces, k).in_table);
    }
    if state_before(pieces, k).in_cell {
        let j = choose|j: int| cell_began(pieces, j, k);
        assert(state_before(pieces, k).in_table);
    }
}

/// Whether the token `i` ends a heading that announces the table.
pub open spec fn announced_at(pieces: Seq<Token>, i: int) -> bool {
    let s = state_before(pieces, i);
    pieces[i] matches Token::Close(name) && is_heading(name) && s.in_heading && announces(s.heading)
}

proof fn lemma_run_step(s: Scan, pieces: Seq<Token>, k: int)
    requires
        0 <= k < pieces.len(),
    ensures
        run(s, pieces.take(k + 1)) == step(run(s, pieces.take(k)), pieces[k]),
    decreases k,
{
    let longer = pieces.take(k + 1);
    reveal_with_fuel(run, 2);
    if k > 0 {
        let later = pieces.drop_first();
        lemma_run_step(step(s, pieces[0]), later, k - 1);
        assert(longer.drop_first() =~= later.take(k));
        assert(pieces.take(k).drop_first() =~= later.take(k - 1));
    } else {
        assert(pieces.take(0) =~= seq![]);
        assert(longer.drop_first() =~= seq![]);
    }
}

proof fn lemma_run_unannounced(pieces: Seq<Token>, k: int)
    requires
        0 <= k <= pieces.len(),
        forall|i: int| 0 <= i < pieces.len() ==> !#[trigger] announced_at(pieces, i),
    ensures
        ({
            let s = run(start(), pieces.take(k));
            !s.announced && !s.in_table && !s.in_row && s.rows.len() == 0
        }),
    decreases k,
{
    if k > 0 {
        lemma_run_unannounced(pieces, k - 1);
        lemma_run_step(start(), pieces, k - 1);
        assert(!announced_at(pieces, k - 1));
    }
}

/// A report in which no heading announces the table yields no rows.
pub proof fn law_no_announcement_no_rows(html: Seq<char>)
    requires
        forall|i: int| 0 <= i < tokens(html).len() ==> !#[trigger] announced_at(tokens(html), i),
    ensures
        table_rows(html) == Seq::<Seq<Seq<char>>>::empty(),
{
    let pieces = tokens(html);
    lemma_run_unannounced(pieces, pieces.len() as int);
    assert(pieces.take(pieces.len() as int) =~= pieces);
    assert(table_rows(html) =~= Seq::<Seq<Seq<char>>>::empty());
}

proof fn lemma_run_joined(s: Scan, front: Seq<Token>, back: Seq<Token>)
    ensures
        run(s, front + back) == run(run(s, front), back),
    decreases front.len(),
{
    if front.len() == 0 {
        assert(front + back =~= back);
    } else {
        assert((front + back).drop_first() =~= front.drop_first() + back);
        assert((front + back)[0] == front[0]);
        lemma_run_joined(step(s, front[0]), front.drop_first(), back);
    }
}

/// A cell of a table, by the name of its tag and its text.
pub type Cell = (Seq<char>, Seq<char>);

/// The tokens of a cell: its tag, its text, and the end of its tag.
pub open spec fn cell_tokens(cell: Cell) -> Seq<Token> {
    seq![Token::Open(cell.0), Token::Text(cell.1), Token::Close(cell.0)]
}

/// The tokens of cells that follow each other.
pub open spec fn cells_tokens(cells: Seq<Cell>) -> Seq<Token>
    decreases cells.len(),
{
    if cells.len() == 0 {
        seq![]
    } else {
        cells_tokens(cells.drop_last()) + cell_tokens(cells.last())
    }
}

/// The tokens of a row.
pub open spec fn row_tokens(cells: Seq<Cell>) -> Seq<Token> {
    seq![Token::Open("tr"@)] + cells_tokens(cells) + seq![Token::Close("tr"@)]
}

/// The tokens of rows that follow each other.
pub open spec fn rows_tokens(rows: Seq<Seq<Cell>>) -> Seq<Token>
    decreases rows.len(),
{
    if rows.len() == 0 {
        seq![]
    } else {
        rows_tokens(rows.drop_last()) + row_tokens(rows.last())
    }
}

/// The tokens of a heading and the table behind it.
pub open spec fn section_tokens(
    heading: Seq<char>,
    title: Seq<char>,
    rows: Seq<Seq<Cell>>,
) -> Seq<Token> {
    seq![
        Token::Open(heading),
        Token::Text(title),
        Token::Close(heading),
        Token::Open("table"@),
    ] + rows_tokens(rows) + seq![Token::Close("table"@)]
}

/// Whether all cells of rows are data or header cells.
pub open spec fn proper(rows: Seq<Seq<Cell>>) -> bool {
    forall|i: int, j: int|
        0 <= i < rows.len() && 0 <= j < rows[i].len() ==> (#[trigger] rows[i][j]).0 == "td"@
            || rows[i][j].0 == "th"@
}

/// Whether one of the cells is a data cell.
pub open spec fn has_data_cell(cells: Seq<Cell>) -> bool {
    exists|j: int| 0 <= j < cells.len() && (#[trigger] cells[j]).0 == "td"@
}

/// The texts of cells, without the white space around them and with their entities
/// decoded.
pub open spec fn cell_texts(cells: Seq<Cell>) -> Seq<Seq<char>> {
    Seq::new(cells.len(), |j: int| decoded(text::trimmed(cells[j].1)))
}

/// What a table yields: the texts of each row that has a data cell.
pub open spec fn yielded(rows: Seq<Seq<Cell>>) -> Seq<Seq<Seq<char>>> {
    rows.filter(|cells: Seq<Cell>| has_data_cell(cells)).map_values(
        |cells: Seq<Cell>| cell_texts(cells),
    )
}

proof fn lemma_run_cells(s: Scan, cells: Seq<Cell>)
    requires
        s.in_row,
        !s.in_cell,
        s.cells.len() == 0,
        !s.has_data,
        forall|j: int|
            0 <= j < cells.len() ==> (#[trigger] cells[j]).0 == "td"@ || cells[j].0 == "th"@,
    ensures
        ({
            let t = run(s, cells_tokens(cells));
            &&& t.cells == cell_texts(cells)
            &&& t.has_data == has_data_cell(cells)
            &&& !t.in_cell
            &&& t == Scan {
                cells: t.cells,
                has_data: t.has_data,
                in_cell: false,
                cell: t.cell,
                ..s
            }
        }),
    decreases cells.len(),
{
    lemma_tags_differ();
    if cells.len() == 0 {
        assert(run(s, cells_tokens(cells)) == s);
        assert(s.cells =~= cell_texts(cells));
    } else {
        let front = cells.drop_last();
        let last = cells.last();
        assert forall|j: int| 0 <= j < front.len() implies (#[trigger] front[j]).0 == "td"@
            || front[j].0 == "th"@ by {
            assert(front[j] == cells[j]);
        }
        lemma_run_cells(s, front);
        lemma_run_joined(s, cells_tokens(front), cell_tokens(last));
        let t = run(s, cells_tokens(front));
        let pieces = cell_tokens(last);
        assert(cells[cells.len() - 1] == last);
        reveal_with_fuel(run, 4);
        assert(pieces.drop_first() =~= seq![Token::Text(last.1), Token::Close(last.0)]);
        assert(pieces.drop_first().drop_first() =~= seq![Token::Close(last.0)]);
        assert(pieces.drop_first().drop_first().drop_first() =~= seq![]);
        let e = step(step(step(t, pieces[0]), pieces[1]), pieces[2]);
        assert(run(t, pieces) == e);
        assert(Seq::<char>::empty() + last.1 =~= last.1);
        assert(e.cells == t.cells.push(decoded(text::trimmed(last.1))));
        assert(e.cells =~= cell_texts(cells));
        assert(e.has_data == has_data_cell(cells)) by {
            if has_data_cell(front) {
                let j = choose|j: int| 0 <= j < front.len() && (#[trigger] front[j]).0 == "td"@;
                assert(cells[j].0 == "td"@);
            }
            if has_data_cell(cells) && last.0 != "td"@ {
                let j = choose|j: int| 0 <= j < cells.len() && (#[trigger] cells[j]).0 == "td"@;
                assert(front[j].0 == "td"@);
            }
        }
    }
}

proof fn lemma_run_row(s: Scan, cells: Seq<Cell>)
    requires
        s.in_table,
        !s.in_row,
        !s.in_cell,
        forall|j: int|
            0 <= j < cells.len() ==> (#[trigger] cells[j]).0 == "td"@ || cells[j].0 == "th"@,
    ensures
        ({
            let t = run(s, row_tokens(cells));
            &&& t.rows == (if has_data_cell(cells) {
                s.rows.push(cell_texts(cells))
            } else {
                s.rows
            })
            &&& t.in_table && !t.in_row && !t.in_cell
            &&& t.depth == s.depth && t.level == s.level
        }),
{
    lemma_tags_differ();
    let open = seq![Token::Open("tr"@)];
    let close = seq![Token::Close("tr"@)];
    let inner = cells_tokens(cells);
    lemma_run_joined(s, open + inner, close);
    lemma_run_joined(s, open, inner);
    reveal_with_fuel(run, 2);
    assert(open.drop_first() =~= seq![]);
    assert(close.drop_first() =~= seq![]);
    let t = run(s, open);
    assert(t == step(s, open[0]));
    lemma_run_cells(t, cells);
    let e = run(t, inner);
    assert(run(e, close) == step(e, close[0]));
}

proof fn lemma_run_rows(s: Scan, rows: Seq<Seq<Cell>>)
    requires
        s.in_table,
        !s.in_row,
        !s.in_cell,
        proper(rows),
    ensures
        ({
            let t = run(s, rows_tokens(rows));
            &&& t.rows == s.rows + yielded(rows)
            &&& t.in_table && !t.in_row && !t.in_cell
            &&& t.depth == s.depth && t.level == s.level
        }),
    decreases rows.len(),
{
    reveal(Seq::filter);
    let wanted = |cells: Seq<Cell>| has_data_cell(cells);
    if rows.len() == 0 {
        assert(run(s, rows_tokens(rows)) == s);
        assert(s.rows + yielded(rows) =~= s.rows);
    } else {
        let front = rows.drop_last();
        let last = rows.last();
        assert(proper(front)) by {
            assert forall|i: int, j: int| 0 <= i < front.len() && 0 <= j < front[i].len() implies (
            #[trigger] front[i][j]).0 == "td"@ || front[i][j].0 == "th"@ by {
                assert(front[i][j] == rows[i][j]);
            }
        }
        lemma_run_rows(s, front);
        lemma_run_joined(s, rows_tokens(front), row_tokens(last));
        assert forall|j: int| 0 <= j < last.len() implies (#[trigger] last[j]).0 == "td"@
            || last[j].0 == "th"@ by {
            assert(rows[rows.len() - 1][j] == last[j]);
        }
        let t = run(s, rows_tokens(front));
        lemma_run_row(t, last);
        if has_data_cell(last) {
            assert(rows.filter(wanted) == front.filter(wanted).push(last));
            assert(yielded(rows) =~= yielded(front).push(cell_texts(last)));
            assert((s.rows + yielded(front)).push(cell_texts(last)) =~= s.rows + yielded(rows));
        } else {
            assert(rows.filter(wanted) == front.filter(wanted));
        }
    }
}

/// A table behind a heading of one of the first three levels that names the software power
/// consumers, in any case, yields each of its rows that has a data cell, in their order:
/// all cells of the row by their texts, without the white space around them and with their
/// entities decoded.
pub proof fn law_a_table_yields_its_cells(
    heading: Seq<char>,
    title: Seq<char>,
    rows: Seq<Seq<Cell>>,
)
    requires
        heading == "h1"@ || heading == "h2"@ || heading == "h3"@,
        text::has(
            text::unicode_lowercase(text::trimmed(title)),
            "software power consumers"@,
        ),
        proper(rows),
    ensures
        run(start(), section_tokens(heading, title, rows)).rows == yielded(rows),
{
    lemma_tags_differ();
    let opening = seq![
        Token::Open(heading),
        Token::Text(title),
        Token::Close(heading),
        Token::Open("table"@),
    ];
    let inner = rows_tokens(rows);
    let close = seq![Token::Close("table"@)];
    lemma_run_joined(start(), opening + inner, close);
    lemma_run_joined(start(), opening, inner);
    reveal_with_fuel(run, 5);
    assert(opening.drop_first() =~= seq![
        Token::Text(title),
        Token::Close(heading),
        Token::Open("table"@),
    ]);
    assert(opening.drop_first().drop_first() =~= seq![
        Token::Close(heading),
        Token::Open("table"@),
    ]);
    assert(opening.drop_first().drop_first().drop_first() =~= seq![Token::Open("table"@)]);
    assert(opening.drop_first().drop_first().drop_first().drop_first() =~= seq![]);
    let s = step(step(step(step(start(), opening[0]), opening[1]), opening[2]), opening[3]);
    assert(run(start(), opening) == s);
    assert(Seq::<char>::empty() + title =~= title);
    assert(s.in_table && !s.in_row && !s.in_cell);
    assert(s.depth == s.level);
    lemma_run_rows(s, rows);
    assert(close.drop_first() =~= seq![]);
    let t = run(s, inner);
    assert(run(t, close) == step(t, close[0]));
    assert(Seq::<Seq<Seq<char>>>::empty() + yielded(rows) =~= yielded(rows));
}

/// A tag is read up to its end: its name are the letters and digits that it starts with, in
/// lower case, and it closes where a slash stands in front of them.
pub proof fn law_tags_are_read_by_their_names(
    name: Seq<char>,
    attributes: Seq<char>,
    rest: Seq<char>,
)
    requires
        name.len() > 0,
        forall|i: int| 0 <= i < name.len() ==> alphanumeric(#[trigger] name[i]),
        attributes.len() > 0 ==> attributes[0] == ' ',
        forall|i: int| 0 <= i < attributes.len() ==> #[trigger] attributes[i] != '>',
    ensures
        tokens(seq!['<'] + name + attributes + seq!['>'] + rest) == seq![
            Token::Open(text::ascii_lowercase(name)),
        ] + tokens(rest),
        tokens(seq!['<', '/'] + name + seq!['>'] + rest) == seq![
            Token::Close(text::ascii_lowercase(name)),
        ] + tokens(rest),
{
    lemma_tag_text(name + attributes, rest);
    assert(seq!['<'] + (name + attributes) + seq!['>'] + rest =~= seq!['<'] + name + attributes
        + seq!['>'] + rest);
    lemma_name_prefix(name, attributes);
    assert((name + attributes)[0] == name[0]);
    assert(alphanumeric(name[0]));
    assert(text::without_leading(name + attributes, '/') == name + attributes);
    let closing = seq!['/'] + name;
    lemma_tag_text(closing, rest);
    assert(seq!['<'] + closing + seq!['>'] + rest =~= seq!['<', '/'] + name + seq!['>'] + rest);
    lemma_name_prefix(name, seq![]);
    assert(name + seq![] =~= name);
    reveal_with_fuel(text::without_leading, 2);
    assert(closing.drop_first() =~= name);
    assert(text::without_leading(closing, '/') == name);
}

proof fn lemma_tag_text(inside: Seq<char>, rest: Seq<char>)
    requires
        forall|i: int| 0 <= i < inside.len() ==> #[trigger] inside[i] != '>',
    ensures
        tokens(seq!['<'] + inside + seq!['>'] + rest) == seq![tag(inside)] + tokens(rest),
{
    let s = seq!['<'] + inside + seq!['>'] + rest;
    let end = inside.len() + 1;
    assert forall|k: int| 0 <= k < end implies s[k] != '>' by {
        if k > 0 {
            assert(s[k] == inside[k - 1]);
        }
    }
    text::lemma_find_is(s, '>', end);
    assert(s.subrange(1, end as int) =~= inside);
    assert(s.skip(end as int + 1) =~= rest);
}

proof fn lemma_name_prefix(name: Seq<char>, attributes: Seq<char>)
    requires
        forall|i: int| 0 <= i < name.len() ==> alphanumeric(#[trigger] name[i]),
        attributes.len() > 0 ==> attributes[0] == ' ',
    ensures
        name_prefix(name + attributes) == name,
    decreases name.len(),
{
    let s = name + attributes;
    if name.len() > 0 {
        let rest = name.drop_first();
        assert forall|i: int| 0 <= i < rest.len() implies alphanumeric(#[trigger] rest[i]) by {
            assert(rest[i] == name[i + 1]);
        }
        lemma_name_prefix(rest, attributes);
        assert(alphanumeric(name[0]));
        assert(s[0] == name[0]);
        assert(s.drop_first() =~= rest + attributes);
        assert(seq![name[0]] + rest =~= name);
    } else {
        assert(s =~= attributes);
        assert(name_prefix(s) =~= name);
    }
}

/// What stands between tags is text, as it is.
pub proof fn law_text_stands_between_tags(words: Seq<char>, rest: Seq<char>)
    requires
        words.len() > 0,
        forall|i: int| 0 <= i < words.len() ==> #[trigger] words[i] != '<',
        rest.len() > 0 ==> rest[0] == '<',
    ensures
        tokens(words + rest) == seq![Token::Text(words)] + tokens(rest),
{
    let s = words + rest;
    let tail = s.drop_first();
    let n = words.len();
    assert(s[0] == words[0]);
    assert(words[0] != '<');
    assert forall|k: int| 0 <= k < n - 1 implies tail[k] != '<' by {
        assert(tail[k] == words[k + 1]);
    }
    if rest.len() > 0 {
        assert(tail[n - 1] == rest[0]);
    }
    text::lemma_find_is(tail, '<', (n - 1) as nat);
    assert(s.take(n as int) =~= words);
    assert(s.skip(n as int) =~= rest);
}

/// The entities for an ampersand, angle brackets, quotes and a space are decoded one kind
/// after the other, that for an ampersand first; a text without an ampersand stays as it
/// is.
pub proof fn law_entities_are_decoded(s: Seq<char>)
    ensures
        decoded(s) == text::replaced(
            text::replaced(
                text::replaced(
                    text::replaced(
                        text::replaced(text::replaced(s, "&amp;"@, "&"@), "&lt;"@, "<"@),
                        "&gt;"@,
                        ">"@,
                    ),
                    "&quot;"@,
                    "\""@,
                ),
                "&#39;"@,
                "'"@,
            ),
            "&nbsp;"@,
            " "@,
        ),
        (forall|i: int| 0 <= i < s.len() ==> #[trigger] s[i] != '&') ==> decoded(s) == s,
{
    if forall|i: int| 0 <= i < s.len() ==> #[trigger] s[i] != '&' {
        reveal_strlit("&amp;");
        reveal_strlit("&lt;");
        reveal_strlit("&gt;");
        reveal_strlit("&quot;");
        reveal_strlit("&#39;");
        reveal_strlit("&nbsp;");
        assert("&amp;"@[0] == '&' && "&lt;"@[0] == '&' && "&gt;"@[0] == '&' && "&quot;"@[0] == '&'
            && "&#39;"@[0] == '&' && "&nbsp;"@[0] == '&');
        lemma_nothing_replaced(s, "&amp;"@, "&"@);
        lemma_nothing_replaced(s, "&lt;"@, "<"@);
        lemma_nothing_replaced(s, "&gt;"@, ">"@);
        lemma_nothing_replaced(s, "&quot;"@, "\""@);
        lemma_nothing_replaced(s, "&#39;"@, "'"@);
        lemma_nothing_replaced(s, "&nbsp;"@, " "@);
    }
}

proof fn lemma_nothing_replaced(s: Seq<char>, from: Seq<char>, to: Seq<char>)
    requires
        from.len() > 0,
        from[0] == '&',
        forall|i: int| 0 <= i < s.len() ==> #[trigger] s[i] != '&',
    ensures
        text::replaced(s, from, to) == s,
    decreases s.len(),
{
    if s.len() >= from.len() {
        if text::starts(s, from) {
            assert(s.take(from.len() as int)[0] == s[0]);
            assert(s[0] != '&');
        }
        let rest = s.drop_first();
        assert forall|i: int| 0 <= i < rest.len() implies #[trigger] rest[i] != '&' by {
            assert(rest[i] == s[i + 1]);
        }
        lemma_nothing_replaced(rest, from, to);
        assert(seq![s[0]] + rest =~= s);
    }
}

} // verus!
