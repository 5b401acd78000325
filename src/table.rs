//! The document model: cells, rows, the table, and how they render back to text.
use vstd::prelude::*;
use crate::text::{chars_of, push_char};

verus! {

/// The text that ends a line.
#[derive(Clone, Copy, Debug, PartialEq, Eq, Structural)]
pub enum LineEnd {
    Cr,
    Lf,
    CrLf,
}

impl LineEnd {
    pub open spec fn spec_text(self) -> Seq<char> {
        match self {
            LineEnd::Cr => seq!['\r'],
            LineEnd::Lf => seq!['\n'],
            LineEnd::CrLf => seq!['\r', '\n'],
        }
    }

    /// The characters of this line end.
    pub fn as_str(self) -> (r: &'static str)
        ensures
            r@ == self.spec_text(),
    {
        match self {
            LineEnd::Cr => {
                proof {
                    reveal_strlit("\r");
                }
                "\r"
            },
            LineEnd::Lf => {
                proof {
                    reveal_strlit("\n");
                }
                "\n"
            },
            LineEnd::CrLf => {
                proof {
                    reveal_strlit("\r\n");
                }
                "\r\n"
            },
        }
    }
}

/// What a cell holds: its value, unescaped, and whether it is written in quotes.
pub struct CellModel {
    pub val: Seq<char>,
    pub quoted: bool,
}

/// A row with the line end that follows it (none for an unterminated last row).
pub type RowEntry = (Seq<CellModel>, Option<LineEnd>);

/// What a table holds: an optional header row with its line end, and the data rows.
pub struct CsvModel {
    pub header: Option<(Seq<CellModel>, LineEnd)>,
    pub rows: Seq<RowEntry>,
}

/// Characters that only a quoted field can hold.
pub open spec fn is_special(c: char) -> bool {
    c == ',' || c == '"' || c == '\r' || c == '\n'
}

pub open spec fn needs_quotes(s: Seq<char>) -> bool {
    exists|i: int| 0 <= i < s.len() && is_special(s[i])
}

/// A cell that is not quoted holds no special character.
pub open spec fn cell_wf(c: CellModel) -> bool {
    !c.quoted ==> !needs_quotes(c.val)
}

pub open spec fn row_wf(r: Seq<CellModel>) -> bool {
    r.len() > 0 && forall|j: int| 0 <= j < r.len() ==> cell_wf(#[trigger] r[j])
}

/// `s` with every double quote doubled.
pub open spec fn escape(s: Seq<char>) -> Seq<char>
    decreases s.len(),
{
    if s.len() == 0 {
        seq![]
    } else {
        escape(s.drop_last()) + if s.last() == '"' {
            seq!['"', '"']
        } else {
            seq![s.last()]
        }
    }
}

pub open spec fn render_cell(c: CellModel) -> Seq<char> {
    if c.quoted {
        seq!['"'] + escape(c.val) + seq!['"']
    } else {
        c.val
    }
}

/// The cells of a row, rendered and joined by commas.
pub open spec fn render_row(r: Seq<CellModel>) -> Seq<char>
    decreases r.len(),
{
    if r.len() == 0 {
        seq![]
    } else if r.len() == 1 {
        render_cell(r[0])
    } else {
        render_row(r.drop_last()) + seq![','] + render_cell(r.last())
    }
}

pub open spec fn end_text(e: Option<LineEnd>) -> Seq<char> {
    match e {
        Some(l) => l.spec_text(),
        None => seq![],
    }
}

pub open spec fn render_rows(rows: Seq<RowEntry>) -> Seq<char>
    decreases rows.len(),
{
    if rows.len() == 0 {
        seq![]
    } else {
        render_rows(rows.drop_last()) + render_row(rows.last().0) + end_text(rows.last().1)
    }
}

/// The largest number of cells in a row; 0 when there is no row.
pub open spec fn max_len(rows: Seq<RowEntry>) -> nat
    decreases rows.len(),
{
    if rows.len() == 0 {
        0
    } else {
        let m = max_len(rows.drop_last());
        if rows.last().0.len() > m {
            rows.last().0.len()
        } else {
            m
        }
    }
}

/// The values at column `col` of the rows that have one, in row order.
pub open spec fn column(rows: Seq<RowEntry>, col: int) -> Seq<Seq<char>>
    decreases rows.len(),
{
    if rows.len() == 0 {
        seq![]
    } else if 0 <= col < rows.last().0.len() {
        column(rows.drop_last(), col).push(rows.last().0[col].val)
    } else {
        column(rows.drop_last(), col)
    }
}

/// The first line end that a data row carries, if any.
pub open spec fn first_end(rows: Seq<RowEntry>) -> Option<LineEnd>
    decreases rows.len(),
{
    if rows.len() == 0 {
        None
    } else if rows[0].1 is Some {
        rows[0].1
    } else {
        first_end(rows.drop_first())
    }
}

pub open spec fn values(r: Seq<CellModel>) -> Seq<Seq<char>> {
    r.map_values(|c: CellModel| c.val)
}

pub open spec fn strs(v: Seq<&str>) -> Seq<Seq<char>> {
    v.map_values(|s: &str| s@)
}

/// A row made of one empty cell, as inserted rows are.
pub open spec fn blank_row() -> Seq<CellModel> {
    seq![CellModel { val: seq![], quoted: false }]
}

/// A row of one empty unquoted cell: it renders as nothing.
pub open spec fn is_bare(r: Seq<CellModel>) -> bool {
    r.len() == 1 && r[0].val.len() == 0 && !r[0].quoted
}

impl CsvModel {
    /// The line end just before data row `i`: the header's for the first row.
    pub open spec fn end_before(self, i: int) -> Option<LineEnd> {
        if i == 0 {
            match self.header {
                Some(h) => Some(h.1),
                None => None,
            }
        } else {
            self.rows[i - 1].1
        }
    }

    /// The one reading of its text that the parser gives: there is a last row; it does not
    /// end with a lone CR (a CR at the very end starts an empty last row); no row made of a
    /// single empty cell ends with LF right after a CR (the two make one CRLF); and an empty
    /// unterminated last row after another row follows a CR.
    pub open spec fn canonical(self) -> bool {
        let n = self.rows.len();
        &&& n > 0
        &&& self.rows[n - 1].1 != Some(LineEnd::Cr)
        &&& forall|i: int|
            0 <= i < n && self.end_before(i) == Some(LineEnd::Cr) ==> !(is_bare(
                #[trigger] self.rows[i].0,
            ) && self.rows[i].1 == Some(LineEnd::Lf))
        &&& (n >= 2 && is_bare(self.rows[n - 1].0) && self.rows[n - 1].1 is None) ==> self.rows[n
            - 2].1 == Some(LineEnd::Cr)
    }

    /// Every row is well formed, and only the last data row may lack a line end.
    pub open spec fn wf(self) -> bool {
        &&& match self.header {
            Some(h) => row_wf(h.0),
            None => true,
        }
        &&& forall|i: int| 0 <= i < self.rows.len() ==> row_wf(#[trigger] self.rows[i].0)
        &&& forall|i: int| 0 <= i < self.rows.len() - 1 ==> (#[trigger] self.rows[i]).1 is Some
    }

    /// The text of the table: the header and its line end, then each row and its line end.
    pub open spec fn render(self) -> Seq<char> {
        match self.header {
            Some(h) => render_row(h.0) + h.1.spec_text() + render_rows(self.rows),
            None => render_rows(self.rows),
        }
    }

    pub open spec fn header_value(self, col: int) -> Option<Seq<char>> {
        match self.header {
            Some(h) => if 0 <= col < h.0.len() {
                Some(h.0[col].val)
            } else {
                None
            },
            None => None,
        }
    }

    /// The line end the document uses: the header's, else the first a row carries, else CRLF.
    pub open spec fn prevailing_end(self) -> LineEnd {
        match self.header {
            Some(h) => h.1,
            None => match first_end(self.rows) {
                Some(e) => e,
                None => LineEnd::CrLf,
            },
        }
    }

    /// The rows after the cell at (`row`, `col`) takes the value `v`; a quoted cell stays
    /// quoted, and one whose new value needs quotes becomes quoted.
    pub open spec fn with_value(self, row: int, col: int, v: Seq<char>) -> CsvModel {
        let old_cell = self.rows[row].0[col];
        let cell = CellModel { val: v, quoted: old_cell.quoted || needs_quotes(v) };
        CsvModel {
            header: self.header,
            rows: self.rows.update(row, (self.rows[row].0.update(col, cell), self.rows[row].1)),
        }
    }

    /// The rows after a blank row is inserted at `at`. It ends with the prevailing line end;
    /// appended after an unterminated last row, that row gets the same line end.
    pub open spec fn with_row_inserted(self, at: int) -> CsvModel {
        let e = self.prevailing_end();
        let n = self.rows.len();
        let rows = if at < n {
            self.rows.insert(at, (blank_row(), Some(e)))
        } else if n > 0 && self.rows[n - 1].1 is None {
            self.rows.update(n - 1, (self.rows[n - 1].0, Some(e))).push((blank_row(), Some(e)))
        } else {
            self.rows.push((blank_row(), Some(e)))
        };
        CsvModel { header: self.header, rows }
    }

    /// The rows after row `at` is removed. When it was the unterminated last row, the row
    /// before it becomes the unterminated last row.
    pub open spec fn with_row_removed(self, at: int) -> CsvModel {
        let n = self.rows.len();
        let rows = if at == n - 1 && at > 0 && self.rows[at].1 is None {
            self.rows.remove(at).update(at - 1, (self.rows[at - 1].0, None))
        } else {
            self.rows.remove(at)
        };
        CsvModel { header: self.header, rows }
    }
}

/// Whether `s` holds a character that only a quoted field can hold.
pub fn contains_special(s: &str) -> (r: bool)
    ensures
        r == needs_quotes(s@),
{
    let cs = chars_of(s);
    let mut i: usize = 0;
    while i < cs.len()
        invariant
            cs@ == s@,
            i <= cs.len(),
            forall|j: int| 0 <= j < i ==> !is_special(#[trigger] cs@[j]),
        decreases cs.len() - i,
    {
        let c = cs[i];
        if c == ',' || c == '"' || c == '\r' || c == '\n' {
            return true;
        }
        i += 1;
    }
    false
}

/// One field of a row.
#[derive(Debug)]
pub struct Cell {
    val: String,
    quoted: bool,
}

impl View for Cell {
    type V = CellModel;

    closed spec fn view(&self) -> CellModel {
        CellModel { val: self.val@, quoted: self.quoted }
    }
}

pub open spec fn concat_strs(v: Seq<&str>) -> Seq<char>
    decreases v.len(),
{
    if v.len() == 0 {
        seq![]
    } else {
        concat_strs(v.drop_last()) + v.last()@
    }
}

impl Cell {
    /// A cell whose value is the pieces of `v` put together.
    pub(crate) fn new(quoted: bool, v: &[&str]) -> (r: Cell)
        ensures
            r@ == (CellModel { val: concat_strs(v@), quoted }),
    {
        let mut val = String::new();
        let mut i: usize = 0;
        while i < v.len()
            invariant
                i <= v@.len(),
                val@ == concat_strs(v@.take(i as int)),
            decreases v@.len() - i,
        {
            val.append(v[i]);
            assert(v@.take(i + 1).drop_last() == v@.take(i as int));
            i += 1;
        }
        assert(v@.take(v@.len() as int) == v@);
        Cell { quoted, val }
    }

    pub fn val(&self) -> (r: &str)
        ensures
            r@ == self@.val,
    {
        self.val.as_str()
    }

    pub fn is_quoted(&self) -> (r: bool)
        ensures
            r == self@.quoted,
    {
        self.quoted
    }

    /// Replaces the value. A quoted cell stays quoted; one whose new value needs quotes
    /// becomes quoted.
    pub fn set_val(&mut self, val: &str)
        ensures
            final(self)@ == (CellModel { val: val@, quoted: old(self)@.quoted || needs_quotes(val@) }),
    {
        if !self.quoted && contains_special(val) {
            self.quoted = true;
        }
        self.val = val.to_string();
    }

    /// The cell as it is written in a document.
    pub fn to_string(&self) -> (r: String)
        ensures
            r@ == render_cell(self@),
    {
        if !self.quoted {
            return self.val.clone();
        }
        let cs = chars_of(self.val.as_str());
        let mut out = String::new();
        push_char(&mut out, '"');
        let mut i: usize = 0;
        while i < cs.len()
            invariant
                cs@ == self.val@,
                i <= cs.len(),
                out@ == seq!['"'] + escape(cs@.take(i as int)),
            decreases cs.len() - i,
        {
            let c = cs[i];
            push_char(&mut out, c);
            if c == '"' {
                push_char(&mut out, '"');
            }
            assert(cs@.take(i + 1).drop_last() == cs@.take(i as int));
            i += 1;
        }
        assert(cs@.take(cs@.len() as int) == cs@);
        push_char(&mut out, '"');
        out
    }
}

/// One record: its cells, in column order.
#[derive(Debug)]
pub struct Row {
    cells: Vec<Cell>,
}

impl View for Row {
    type V = Seq<CellModel>;

    closed spec fn view(&self) -> Seq<CellModel> {
        self.cells@.map_values(|c: Cell| c@)
    }
}

impl Row {
    /// The row made of the cells of `v` followed by `r`.
    pub(crate) fn new(v: Vec<Cell>, r: Cell) -> (row: Row)
        ensures
            row@ == v@.map_values(|c: Cell| c@).push(r@),
    {
        let mut cells = v;
        cells.push(r);
        proof {
            assert(cells@.map_values(|c: Cell| c@) =~= v@.map_values(|c: Cell| c@).push(r@));
        }
        Row { cells }
    }

    /// The number of cells.
    pub fn len(&self) -> (r: usize)
        ensures
            r == self@.len(),
    {
        self.cells.len()
    }

    pub fn cell(&self, col: usize) -> (r: Option<&Cell>)
        ensures
            r is Some == (col < self@.len()),
            r is Some ==> r->0@ == self@[col as int],
    {
        if col < self.cells.len() {
            Some(&self.cells[col])
        } else {
            None
        }
    }

    /// The values of the cells, in column order.
    pub fn vals(&self) -> (r: Vec<&str>)
        ensures
            strs(r@) == values(self@),
    {
        let mut r: Vec<&str> = Vec::new();
        let mut i: usize = 0;
        while i < self.cells.len()
            invariant
                i <= self.cells.len(),
                strs(r@) == values(self@).take(i as int),
            decreases self.cells.len() - i,
        {
            let ghost before = r@;
            let v = self.cells[i].val();
            r.push(v);
            proof {
                assert(v@ == values(self@)[i as int]);
                assert(strs(r@) =~= strs(before).push(v@));
                assert(values(self@).take(i + 1) =~= values(self@).take(i as int).push(v@));
            }
            i += 1;
        }
        proof {
            assert(values(self@).take(i as int) =~= values(self@));
        }
        r
    }

    fn set_val(&mut self, col: usize, val: &str)
        requires
            col < old(self)@.len(),
        ensures
            final(self)@ == old(self)@.update(
                col as int,
                CellModel {
                    val: val@,
                    quoted: old(self)@[col as int].quoted || needs_quotes(val@),
                },
            ),
    {
        self.cells[col].set_val(val);
        proof {
            assert(final(self)@ =~= old(self)@.update(
                col as int,
                CellModel {
                    val: val@,
                    quoted: old(self)@[col as int].quoted || needs_quotes(val@),
                },
            ));
        }
    }

    /// The row as it is written in a document: its cells joined by commas.
    pub fn to_string(&self) -> (r: String)
        ensures
            r@ == render_row(self@),
    {
        let mut out = String::new();
        let mut i: usize = 0;
        while i < self.cells.len()
            invariant
                i <= self.cells.len(),
                out@ == render_row(self@.take(i as int)),
            decreases self.cells.len() - i,
        {
            let s = self.cells[i].to_string();
            if i > 0 {
                push_char(&mut out, ',');
            }
            out.append(s.as_str());
            proof {
                let t = self@.take(i + 1);
                assert(t.drop_last() =~= self@.take(i as int));
                assert(t.last() == self@[i as int]);
                if i == 0 {
                    assert(out@ =~= render_row(t));
                } else {
                    assert(out@ =~= render_row(t));
                }
            }
            i += 1;
        }
        proof {
            assert(self@.take(i as int) =~= self@);
        }
        out
    }
}

/// A parsed document: an optional header row and the data rows, each with the line end
/// that followed it in the text.
#[derive(Debug)]
pub struct Csv {
    header: Option<(Row, LineEnd)>,
    rows: Vec<(Row, Option<LineEnd>)>,
}

pub open spec fn entries_view(v: Seq<(Row, Option<LineEnd>)>) -> Seq<RowEntry> {
    v.map_values(|e: (Row, Option<LineEnd>)| (e.0@, e.1))
}

impl View for Csv {
    type V = CsvModel;

    closed spec fn view(&self) -> CsvModel {
        CsvModel {
            header: match self.header {
                Some(h) => Some((h.0@, h.1)),
                None => None,
            },
            rows: entries_view(self.rows@),
        }
    }
}

impl Csv {
    /// The table without header whose rows are `v` followed by `r`, which ends with `eol`.
    pub(crate) fn new(v: Vec<(Row, Option<LineEnd>)>, r: Row, eol: Option<LineEnd>) -> (c: Csv)
        ensures
            c@ == (CsvModel { header: None, rows: entries_view(v@).push((r@, eol)) }),
    {
        let mut rows = v;
        rows.push((r, eol));
        proof {
            assert(entries_view(rows@) =~= entries_view(v@).push((r@, eol)));
        }
        Csv { header: None, rows }
    }

    /// As [`Csv::new`], with the header `h`.
    pub(crate) fn new_with_header(
        h: (Row, LineEnd),
        v: Vec<(Row, Option<LineEnd>)>,
        r: Row,
        eol: Option<LineEnd>,
    ) -> (c: Csv)
        ensures
            c@ == (CsvModel {
                header: Some((h.0@, h.1)),
                rows: entries_view(v@).push((r@, eol)),
            }),
    {
        let mut rows = v;
        rows.push((r, eol));
        proof {
            assert(entries_view(rows@) =~= entries_view(v@).push((r@, eol)));
        }
        Csv { header: Some(h), rows }
    }

    /// The header's value at column `col`; none without a header or past its last column.
    pub fn header(&self, col: usize) -> (r: Option<&str>)
        ensures
            r is Some == self@.header_value(col as int) is Some,
            r is Some ==> r->0@ == self@.header_value(col as int)->0,
    {
        match &self.header {
            Some(h) => match h.0.cell(col) {
                Some(c) => Some(c.val()),
                None => None,
            },
            None => None,
        }
    }

    /// The number of data rows; the header is not counted.
    pub fn rows(&self) -> (r: usize)
        ensures
            r == self@.rows.len(),
    {
        self.rows.len()
    }

    /// The largest number of cells in a data row; 0 when there is none.
    pub fn max_cols(&self) -> (r: usize)
        ensures
            r == max_len(self@.rows),
    {
        let mut m: usize = 0;
        let mut i: usize = 0;
        while i < self.rows.len()
            invariant
                i <= self.rows.len(),
                m == max_len(self@.rows.take(i as int)),
            decreases self.rows.len() - i,
        {
            let n = self.rows[i].0.len();
            if n > m {
                m = n;
            }
            proof {
                let t = self@.rows.take(i + 1);
                assert(t.drop_last() =~= self@.rows.take(i as int));
            }
            i += 1;
        }
        proof {
            assert(self@.rows.take(i as int) =~= self@.rows);
        }
        m
    }

    /// The values of data row `row`, in column order; empty when there is no such row.
    pub fn vals(&self, row: usize) -> (r: Vec<&str>)
        ensures
            row < self@.rows.len() ==> strs(r@) == values(self@.rows[row as int].0),
            row >= self@.rows.len() ==> r@.len() == 0,
    {
        if row < self.rows.len() {
            self.rows[row].0.vals()
        } else {
            Vec::new()
        }
    }

    /// The values at column `col` of the data rows that have one, in row order.
    pub fn cols(&self, col: usize) -> (r: Vec<&str>)
        ensures
            strs(r@) == column(self@.rows, col as int),
    {
        let mut r: Vec<&str> = Vec::new();
        let mut i: usize = 0;
        while i < self.rows.len()
            invariant
                i <= self.rows.len(),
                strs(r@) == column(self@.rows.take(i as int), col as int),
            decreases self.rows.len() - i,
        {
            let ghost before = r@;
            proof {
                let t = self@.rows.take(i + 1);
                assert(t.drop_last() =~= self@.rows.take(i as int));
            }
            match self.rows[i].0.cell(col) {
                Some(c) => {
                    let v = c.val();
                    r.push(v);
                    proof {
                        assert(strs(r@) =~= strs(before).push(v@));
                    }
                },
                None => {},
            }
            i += 1;
        }
        proof {
            assert(self@.rows.take(i as int) =~= self@.rows);
        }
        r
    }

    /// Gives the cell at (`row`, `col`) the value `val`; false, with nothing changed, when
    /// there is no such cell. A quoted cell stays quoted, and one whose new value holds a
    /// comma, a double quote, CR or LF becomes quoted.
    pub fn set_val(&mut self, row: usize, col: usize, val: &str) -> (r: bool)
        ensures
            r == (row < old(self)@.rows.len() && col < old(self)@.rows[row as int].0.len()),
            r ==> final(self)@ == old(self)@.with_value(row as int, col as int, val@),
            !r ==> final(self)@ == old(self)@,
            old(self)@.wf() ==> final(self)@.wf(),
    {
        if row >= self.rows.len() || col >= self.rows[row].0.len() {
            return false;
        }
        self.rows[row].0.set_val(col, val);
        proof {
            let m = old(self)@.with_value(row as int, col as int, val@);
            assert(entries_view(self.rows@) =~= m.rows);
            if old(self)@.wf() {
                assert forall|i: int| 0 <= i < m.rows.len() implies row_wf(#[trigger] m.rows[i].0) by {
                    if i == row {
                        assert forall|j: int| 0 <= j < m.rows[i].0.len() implies cell_wf(
                            #[trigger] m.rows[i].0[j],
                        ) by {
                            if j != col {
                                assert(cell_wf(old(self)@.rows[i].0[j]));
                            }
                        }
                    }
                }
            }
        }
        true
    }

    fn prevailing_end(&self) -> (r: LineEnd)
        ensures
            r == self@.prevailing_end(),
    {
        if let Some(h) = &self.header {
            return h.1;
        }
        let mut i: usize = 0;
        proof {
            assert(self@.rows.skip(0) =~= self@.rows);
        }
        while i < self.rows.len()
            invariant
                i <= self.rows.len(),
                self.header is None,
                first_end(self@.rows) == first_end(self@.rows.skip(i as int)),
            decreases self.rows.len() - i,
        {
            proof {
                assert(self@.rows.skip(i as int).drop_first() =~= self@.rows.skip(i + 1));
            }
            if let Some(e) = self.rows[i].1 {
                proof {
                    assert(self@.rows.skip(i as int)[0] == self@.rows[i as int]);
                }
                return e;
            }
            i += 1;
        }
        proof {
            assert(self@.rows.skip(i as int).len() == 0);
        }
        LineEnd::CrLf
    }

    /// Inserts a row of one empty cell before data row `at` (after the last row when `at` is
    /// the number of rows), ending with the line end the document uses; false, with nothing
    /// changed, when `at` is past that.
    pub fn insert_row(&mut self, at: usize) -> (r: bool)
        ensures
            r == (at <= old(self)@.rows.len()),
            r ==> final(self)@ == old(self)@.with_row_inserted(at as int),
            !r ==> final(self)@ == old(self)@,
            old(self)@.wf() ==> final(self)@.wf(),
    {
        let n = self.rows.len();
        if at > n {
            return false;
        }
        let e = self.prevailing_end();
        let blank = Row::new(Vec::new(), Cell::new(false, &[]));
        proof {
            assert(concat_strs(Seq::<&str>::empty()) == Seq::<char>::empty());
            assert(blank@ =~= blank_row());
        }
        if at < n {
            self.rows.insert(at, (blank, Some(e)));
        } else {
            if n > 0 && self.rows[n - 1].1.is_none() {
                self.rows[n - 1].1 = Some(e);
            }
            self.rows.push((blank, Some(e)));
        }
        proof {
            let m = old(self)@.with_row_inserted(at as int);
            assert(entries_view(self.rows@) =~= m.rows);
            if old(self)@.wf() {
                assert(row_wf(blank_row()));
                assert forall|i: int| 0 <= i < m.rows.len() implies row_wf(#[trigger] m.rows[i].0) by {
                    if at < n {
                        if i < at {
                            assert(m.rows[i] == old(self)@.rows[i]);
                        } else if i > at {
                            assert(m.rows[i] == old(self)@.rows[i - 1]);
                        }
                    } else if i < n {
                        assert(m.rows[i].0 == old(self)@.rows[i].0);
                    }
                }
                assert forall|i: int| 0 <= i < m.rows.len() - 1 implies (#[trigger] m.rows[i]).1 is Some by {
                    if at < n {
                        if i < at {
                            assert(m.rows[i] == old(self)@.rows[i]);
                        } else if i > at {
                            assert(m.rows[i] == old(self)@.rows[i - 1]);
                        }
                    }
                }
            }
        }
        true
    }

    /// Removes data row `at`; false, with nothing changed, when there is no such row. When
    /// it was the unterminated last row, the row before it loses its line end and becomes
    /// the unterminated last row.
    pub fn remove_row(&mut self, at: usize) -> (r: bool)
        ensures
            r == (at < old(self)@.rows.len()),
            r ==> final(self)@ == old(self)@.with_row_removed(at as int),
            !r ==> final(self)@ == old(self)@,
            old(self)@.wf() ==> final(self)@.wf(),
    {
        let n = self.rows.len();
        if at >= n {
            return false;
        }
        let unterminated = self.rows[at].1.is_none();
        let _removed = self.rows.remove(at);
        if at == n - 1 && at > 0 && unterminated {
            self.rows[at - 1].1 = None;
        }
        proof {
            let m = old(self)@.with_row_removed(at as int);
            assert(entries_view(self.rows@) =~= m.rows);
            if old(self)@.wf() {
                assert forall|i: int| 0 <= i < m.rows.len() implies row_wf(#[trigger] m.rows[i].0) by {
                    if i < at {
                        assert(m.rows[i].0 == old(self)@.rows[i].0);
                    } else {
                        assert(m.rows[i] == old(self)@.rows[i + 1]);
                    }
                }
                assert forall|i: int| 0 <= i < m.rows.len() - 1 implies (#[trigger] m.rows[i]).1 is Some by {
                    if i < at {
                        assert(m.rows[i] == old(self)@.rows[i]);
                    } else {
                        assert(m.rows[i] == old(self)@.rows[i + 1]);
                    }
                }
            }
        }
        true
    }

    /// The document as text: the header and its line end, then each row and its line end.
    pub fn to_string(&self) -> (r: String)
        ensures
            r@ == self@.render(),
    {
        let mut out = String::new();
        if let Some(h) = &self.header {
            let s = h.0.to_string();
            out.append(s.as_str());
            out.append(h.1.as_str());
        }
        let ghost start = out@;
        let mut i: usize = 0;
        while i < self.rows.len()
            invariant
                i <= self.rows.len(),
                out@ == start + render_rows(self@.rows.take(i as int)),
                start == match self@.header {
                    Some(h) => render_row(h.0) + h.1.spec_text(),
                    None => Seq::<char>::empty(),
                },
            decreases self.rows.len() - i,
        {
            let s = self.rows[i].0.to_string();
            out.append(s.as_str());
            if let Some(e) = self.rows[i].1 {
                out.append(e.as_str());
            }
            proof {
                let t = self@.rows.take(i + 1);
                assert(t.drop_last() =~= self@.rows.take(i as int));
                assert(out@ =~= start + render_rows(t));
            }
            i += 1;
        }
        proof {
            assert(self@.rows.take(i as int) =~= self@.rows);
            assert(out@ =~= self@.render());
        }
        out
    }
}

} // verus!
