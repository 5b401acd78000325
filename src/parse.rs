//! The parser: builds a table from the scanner's tokens, with or without a header row.
use vstd::prelude::*;
use crate::lex::{Lexer, Token, first_token, plain_len, token_text, lemma_first_token_text};
use crate::table::{
    Cell, CellModel, Csv, CsvModel, LineEnd, Row, RowEntry, cell_wf, concat_strs, end_text,
    entries_view, escape, is_bare, is_special, needs_quotes, render_cell, render_row, render_rows,
    row_wf,
};
use crate::text::utf8_len;

verus! {

/// Where a field stands after some text: before its first character, inside an unquoted
/// field, inside a quoted field, right after a double quote inside a quoted field (which
/// either closes it or starts an escaped quote), or past a syntax error.
#[derive(Clone, Copy, Debug, PartialEq, Eq, Structural)]
pub enum FieldState {
    Start,
    Plain,
    Quoted,
    QuoteSeen,
    Failed,
}

/// The field state after one more character.
pub open spec fn step(st: FieldState, c: char) -> FieldState {
    match st {
        FieldState::Start | FieldState::Plain => if c == ',' || c == '\r' || c == '\n' {
            FieldState::Start
        } else if c == '"' {
            if st is Start {
                FieldState::Quoted
            } else {
                FieldState::Failed
            }
        } else {
            FieldState::Plain
        },
        FieldState::Quoted => if c == '"' {
            FieldState::QuoteSeen
        } else {
            FieldState::Quoted
        },
        FieldState::QuoteSeen => if c == '"' {
            FieldState::Quoted
        } else if c == ',' || c == '\r' || c == '\n' {
            FieldState::Start
        } else {
            FieldState::Failed
        },
        FieldState::Failed => FieldState::Failed,
    }
}

/// Whether `c` ends a line when read in state `st`, that is outside quotes.
pub open spec fn ends_line(st: FieldState, c: char) -> bool {
    (c == '\r' || c == '\n') && (st is Start || st is Plain || st is QuoteSeen)
}

/// The field state after `s`, and whether a line has ended in it.
pub open spec fn scan(s: Seq<char>) -> (FieldState, bool)
    decreases s.len(),
{
    if s.len() == 0 {
        (FieldState::Start, false)
    } else {
        let (st, e) = scan(s.drop_last());
        (step(st, s.last()), e || ends_line(st, s.last()))
    }
}

/// `s` is well-formed CSV: no double quote inside an unquoted field, nothing but a comma
/// or a line end after a closing quote, no quoted field left open; and with a header, the
/// header row ends with a line end.
pub open spec fn is_valid(s: Seq<char>, header: bool) -> bool {
    let (st, e) = scan(s);
    &&& !(st is Quoted)
    &&& !(st is Failed)
    &&& header ==> e
}

/// The character at `k` is the first at which `s` stops being well-formed.
pub open spec fn fails_at(s: Seq<char>, k: int) -> bool {
    &&& 0 <= k < s.len()
    &&& !(scan(s.take(k)).0 is Failed)
    &&& scan(s.take(k + 1)).0 is Failed
}

pub open spec fn in_quotes(st: FieldState) -> bool {
    st is Quoted || st is QuoteSeen
}

/// The double quote at `q` opens a quoted field that is still open at the end of `s`.
pub open spec fn opens_unclosed(s: Seq<char>, q: int) -> bool {
    &&& 0 <= q < s.len()
    &&& s[q] == '"'
    &&& scan(s.take(q)).0 is Start
    &&& forall|j: int| q < j <= s.len() ==> in_quotes(#[trigger] scan(s.take(j)).0)
}

/// Why a text is not well-formed CSV.
#[derive(Debug)]
pub enum ParseError {
    /// A token that cannot stand where it does, with the byte offsets of its start and end.
    UnexpectedToken { start: usize, token: Token<String>, end: usize },
    /// A quoted field that is never closed, with the byte offset of its opening quote.
    UnclosedQuote { start: usize },
    /// The input ended before the header row did, with the byte offset of its end.
    UnexpectedEof { location: usize },
}

/// `e` is the error that the text `s` gives.
pub open spec fn error_fits(s: Seq<char>, header: bool, e: ParseError) -> bool {
    match e {
        ParseError::UnexpectedToken { start, token, end } => exists|k: int|
            #![trigger s.take(k)]
            {
                let (t, n) = first_token(s.skip(k));
                &&& fails_at(s, k)
                &&& token@ == t
                &&& start == utf8_len(s.take(k))
                &&& end == utf8_len(s.take(k + n))
            },
        ParseError::UnclosedQuote { start } => {
            &&& scan(s).0 is Quoted
            &&& exists|q: int| opens_unclosed(s, q) && start == utf8_len(#[trigger] s.take(q))
        },
        ParseError::UnexpectedEof { location } => {
            &&& header
            &&& !scan(s).1
            &&& !(scan(s).0 is Quoted)
            &&& !(scan(s).0 is Failed)
            &&& location == utf8_len(s)
        },
    }
}

/// What parsing `s` gives: for well-formed text, a well-formed table that renders back to
/// `s`, with a header exactly when one was asked for, in the one reading the scanner's
/// tokens give (see [`CsvModel::canonical`]); otherwise
/// the error that the text gives.
pub open spec fn parsed(s: Seq<char>, header: bool, r: Result<Csv, ParseError>) -> bool {
    match r {
        Ok(c) => {
            &&& is_valid(s, header)
            &&& c@.wf()
            &&& c@.render() == s
            &&& c@.header is Some == header
            &&& c@.canonical()
        },
        Err(e) => !is_valid(s, header) && error_fits(s, header, e),
    }
}

proof fn lemma_scan_push(s: Seq<char>, c: char)
    ensures
        scan(s.push(c)) == (step(scan(s).0, c), scan(s).1 || ends_line(scan(s).0, c)),
{
    assert(s.push(c).drop_last() =~= s);
}

/// The state after a run of characters that are not special.
pub open spec fn after_plain(st: FieldState) -> FieldState {
    match st {
        FieldState::Start | FieldState::Plain => FieldState::Plain,
        FieldState::Quoted => FieldState::Quoted,
        _ => FieldState::Failed,
    }
}

proof fn lemma_scan_plain(s: Seq<char>, t: Seq<char>)
    requires
        t.len() > 0,
        forall|i: int| 0 <= i < t.len() ==> !is_special(#[trigger] t[i]),
    ensures
        scan(s + t) == (after_plain(scan(s).0), scan(s).1),
    decreases t.len(),
{
    let u = t.drop_last();
    assert((s + t) =~= (s + u).push(t.last()));
    lemma_scan_push(s + u, t.last());
    assert(!is_special(t[t.len() - 1]));
    if u.len() > 0 {
        lemma_scan_plain(s, u);
    } else {
        assert(s + u =~= s);
    }
}

pub(crate) proof fn lemma_escape_concat(a: Seq<char>, b: Seq<char>)
    ensures
        escape(a + b) == escape(a) + escape(b),
    decreases b.len(),
{
    if b.len() == 0 {
        assert(a + b =~= a);
        assert(escape(a) + escape(b) =~= escape(a));
    } else {
        assert((a + b).drop_last() =~= a + b.drop_last());
        lemma_escape_concat(a, b.drop_last());
        assert(escape(a + b) =~= escape(a) + escape(b));
    }
}

proof fn lemma_escape_no_quote(t: Seq<char>)
    requires
        forall|i: int| 0 <= i < t.len() ==> #[trigger] t[i] != '"',
    ensures
        escape(t) == t,
    decreases t.len(),
{
    if t.len() > 0 {
        lemma_escape_no_quote(t.drop_last());
        assert(t[t.len() - 1] != '"');
        assert(escape(t) =~= t);
    }
}

pub(crate) proof fn lemma_escape_one(c: char)
    ensures
        escape(seq![c]) == if c == '"' {
            seq!['"', '"']
        } else {
            seq![c]
        },
{
    assert(seq![c].drop_last() =~= Seq::<char>::empty());
    assert(seq![c].last() == c);
    assert(escape(Seq::<char>::empty()) + (if c == '"' {
        seq!['"', '"']
    } else {
        seq![c]
    }) =~= (if c == '"' {
        seq!['"', '"']
    } else {
        seq![c]
    }));
}

proof fn lemma_plain_prefix(s: Seq<char>)
    ensures
        plain_len(s) <= s.len(),
        forall|i: int| 0 <= i < plain_len(s) ==> !is_special(#[trigger] s[i]),
    decreases s.len(),
{
    if s.len() > 0 && !is_special(s[0]) {
        let t = s.drop_first();
        lemma_plain_prefix(t);
        assert forall|i: int| 0 <= i < plain_len(s) implies !is_special(#[trigger] s[i]) by {
            if i > 0 {
                assert(s[i] == t[i - 1]);
            }
        }
    }
}

/// The text of the finished cells of an unfinished row, each followed by its comma.
pub open spec fn pending_cells(cells: Seq<CellModel>) -> Seq<char> {
    if cells.len() == 0 {
        seq![]
    } else {
        render_row(cells) + seq![',']
    }
}

/// The text read so far of an unfinished field whose value so far is `v`.
pub open spec fn pending_field(st: FieldState, v: Seq<char>) -> Seq<char> {
    match st {
        FieldState::Plain => v,
        FieldState::Quoted => seq!['"'] + escape(v),
        FieldState::QuoteSeen => seq!['"'] + escape(v) + seq!['"'],
        _ => seq![],
    }
}

proof fn lemma_render_row_push(cells: Seq<CellModel>, c: CellModel)
    ensures
        render_row(cells.push(c)) == pending_cells(cells) + render_cell(c),
{
    assert(cells.push(c).drop_last() =~= cells);
    if cells.len() == 0 {
        assert(render_row(cells.push(c)) == render_cell(cells.push(c)[0]));
        assert(pending_cells(cells) + render_cell(c) =~= render_cell(c));
    }
}

proof fn lemma_render_rows_push(rows: Seq<RowEntry>, x: RowEntry)
    ensures
        render_rows(rows.push(x)) == render_rows(rows) + render_row(x.0) + end_text(x.1),
{
    assert(rows.push(x).drop_last() =~= rows);
}

proof fn lemma_concat_push(v: Seq<&str>, p: &str)
    ensures
        concat_strs(v.push(p)) == concat_strs(v) + p@,
{
    assert(v.push(p).drop_last() =~= v);
}

proof fn lemma_advance(s: Seq<char>, p: int)
    requires
        0 <= p < s.len(),
    ensures
        p + first_token(s.skip(p)).1 <= s.len(),
        s.take(p + first_token(s.skip(p)).1) == s.take(p) + token_text(first_token(s.skip(p)).0),
{
    let r = s.skip(p);
    lemma_first_token_text(r);
    let n = first_token(r).1 as int;
    assert(s.take(p + n) =~= s.take(p) + r.take(n));
}

/// The table read so far: finished header and rows, the finished cells of the current row,
/// and the pieces of the current field's value.
struct Builder<'a> {
    header: bool,
    hdr: Option<(Row, LineEnd)>,
    rows: Vec<(Row, Option<LineEnd>)>,
    cells: Vec<Cell>,
    pieces: Vec<&'a str>,
    quoted: bool,
    st: FieldState,
    closed: bool,
}

/// Every row is well formed and carries a line end.
#[verifier::opaque]
spec fn rows_ok(rows: Seq<RowEntry>) -> bool {
    forall|i: int| 0 <= i < rows.len() ==> row_wf((#[trigger] rows[i]).0) && rows[i].1 is Some
}

proof fn lemma_rows_ok_push(rows: Seq<RowEntry>, x: RowEntry)
    requires
        rows_ok(rows),
        row_wf(x.0),
        x.1 is Some,
    ensures
        rows_ok(rows.push(x)),
{
    reveal(rows_ok);
    assert forall|i: int| 0 <= i < rows.push(x).len() implies row_wf((#[trigger] rows.push(x)[i]).0)
        && rows.push(x)[i].1 is Some by {
        if i < rows.len() {
            assert(rows.push(x)[i] == rows[i]);
        }
    }
}

/// A table whose rows are `rows` followed by an optional last row `x` is well formed.
proof fn lemma_rows_ok_wf(h: Option<(Seq<CellModel>, LineEnd)>, rows: Seq<RowEntry>, x: RowEntry)
    requires
        rows_ok(rows),
        row_wf(x.0),
        match h {
            Some(hh) => row_wf(hh.0),
            None => true,
        },
    ensures
        (CsvModel { header: h, rows: rows.push(x) }).wf(),
{
    reveal(rows_ok);
    let all = rows.push(x);
    assert forall|i: int| 0 <= i < all.len() implies row_wf(#[trigger] all[i].0) by {
        if i < rows.len() {
            assert(all[i] == rows[i]);
        }
    }
    assert forall|i: int| 0 <= i < all.len() - 1 implies (#[trigger] all[i]).1 is Some by {
        assert(all[i] == rows[i]);
    }
}

/// No row of a single empty cell ends with LF right after a CR.
#[verifier::opaque]
spec fn canon_pairs(m: CsvModel) -> bool {
    forall|i: int|
        0 <= i < m.rows.len() && m.end_before(i) == Some(LineEnd::Cr) ==> !(is_bare(
            #[trigger] m.rows[i].0,
        ) && m.rows[i].1 == Some(LineEnd::Lf))
}

/// The line end of the last row read, the header's when there is no data row.
spec fn last_end_of(m: CsvModel) -> Option<LineEnd> {
    if m.rows.len() > 0 {
        m.rows.last().1
    } else {
        m.end_before(0)
    }
}

proof fn lemma_canon_push(m: CsvModel, x: RowEntry)
    requires
        canon_pairs(m),
        last_end_of(m) == Some(LineEnd::Cr) ==> !(is_bare(x.0) && x.1 == Some(LineEnd::Lf)),
    ensures
        canon_pairs(CsvModel { header: m.header, rows: m.rows.push(x) }),
{
    reveal(canon_pairs);
    let m2 = CsvModel { header: m.header, rows: m.rows.push(x) };
    assert forall|i: int|
        0 <= i < m2.rows.len() && m2.end_before(i) == Some(LineEnd::Cr) implies !(is_bare(
        #[trigger] m2.rows[i].0,
    ) && m2.rows[i].1 == Some(LineEnd::Lf)) by {
        if i < m.rows.len() {
            assert(m2.rows[i] == m.rows[i]);
            assert(m2.end_before(i) == m.end_before(i));
        } else if i > 0 {
            assert(m2.rows[i - 1] == m.rows[i - 1]);
        }
    }
}

spec fn cells_model(v: Seq<Cell>) -> Seq<CellModel> {
    v.map_values(|c: Cell| c@)
}

impl<'a> Builder<'a> {
    spec fn hdr_model(&self) -> Option<(Seq<CellModel>, LineEnd)> {
        match self.hdr {
            Some(h) => Some((h.0@, h.1)),
            None => None,
        }
    }

    spec fn done(&self) -> CsvModel {
        CsvModel { header: self.hdr_model(), rows: entries_view(self.rows@) }
    }

    spec fn value(&self) -> Seq<char> {
        concat_strs(self.pieces@)
    }

    spec fn text(&self) -> Seq<char> {
        self.done().render() + pending_cells(cells_model(self.cells@)) + pending_field(
            self.st,
            self.value(),
        )
    }

    /// Nothing has been read of the current row.
    spec fn fresh(&self) -> bool {
        self.st is Start && self.cells@.len() == 0
    }

    spec fn last_end(&self) -> Option<LineEnd> {
        last_end_of(self.done())
    }

    spec fn lines_ended(&self) -> bool {
        self.hdr is Some || self.rows@.len() > 0
    }

    spec fn inv(&self) -> bool {
        &&& self.header || self.hdr is None
        &&& (self.header && self.hdr is None) ==> self.rows@.len() == 0
        &&& match self.hdr_model() {
            Some(h) => row_wf(h.0),
            None => true,
        }
        &&& rows_ok(entries_view(self.rows@))
        &&& forall|j: int|
            0 <= j < self.cells@.len() ==> cell_wf(#[trigger] cells_model(self.cells@)[j])
        &&& !(self.st is Failed)
        &&& self.st is Start ==> self.pieces@.len() == 0 && !self.quoted
        &&& self.st is Plain ==> !self.quoted && !needs_quotes(self.value()) && self.value().len() > 0
        &&& canon_pairs(self.done())
        &&& self.closed ==> self.last_end() == Some(LineEnd::Lf) || self.last_end() == Some(
            LineEnd::CrLf,
        )
        &&& in_quotes(self.st) ==> self.quoted
        &&& self.closed ==> self.rows@.len() > 0 && self.st is Start && self.cells@.len() == 0
    }

    fn new(header: bool) -> (b: Builder<'a>)
        ensures
            b.inv(),
            b.text() == Seq::<char>::empty(),
            b.st is Start,
            !b.lines_ended(),
            !b.closed,
            b.header == header,
    {
        let b = Builder {
            header,
            hdr: None,
            rows: Vec::new(),
            cells: Vec::new(),
            pieces: Vec::new(),
            quoted: false,
            st: FieldState::Start,
            closed: false,
        };
        proof {
            assert(entries_view(b.rows@) =~= Seq::<RowEntry>::empty());
            reveal(rows_ok);
            reveal(canon_pairs);
            assert(b.text() =~= Seq::<char>::empty());
        }
        b
    }

    /// A run of plain characters, part of the current field.
    fn text_run(&mut self, t: &'a str)
        requires
            old(self).inv(),
            !old(self).closed,
            !(old(self).st is QuoteSeen),
            t@.len() > 0,
            forall|i: int| 0 <= i < t@.len() ==> !is_special(#[trigger] t@[i]),
        ensures
            final(self).inv(),
            !final(self).closed,
            final(self).header == old(self).header,
            final(self).text() == old(self).text() + t@,
            final(self).st == after_plain(old(self).st),
            final(self).lines_ended() == old(self).lines_ended(),
    {
        let ghost v0 = self.value();
        self.pieces.push(t);
        proof {
            lemma_concat_push(old(self).pieces@, t);
            assert forall|i: int| 0 <= i < t@.len() implies #[trigger] t@[i] != '"' by {
                assert(!is_special(t@[i]));
            }
            lemma_escape_no_quote(t@);
            lemma_escape_concat(v0, t@);
        }
        if self.st == FieldState::Start {
            self.st = FieldState::Plain;
            proof {
                assert(v0 == Seq::<char>::empty());
                assert(self.value() =~= t@);
            }
        }
        proof {
            if self.st is Plain {
                assert forall|i: int| 0 <= i < self.value().len() implies !is_special(
                    #[trigger] self.value()[i],
                ) by {
                    if i < v0.len() {
                        assert(self.value()[i] == v0[i]);
                        if is_special(v0[i]) {
                            assert(needs_quotes(v0));
                        }
                    } else {
                        assert(self.value()[i] == t@[i - v0.len()]);
                    }
                }
            }
            assert(self.text() =~= old(self).text() + t@);
        }
    }

    /// A piece of a quoted field's value that holds no double quote.
    fn quoted_piece(&mut self, p: &'a str)
        requires
            old(self).inv(),
            !old(self).closed,
            old(self).st is Quoted,
            forall|i: int| 0 <= i < p@.len() ==> #[trigger] p@[i] != '"',
        ensures
            final(self).inv(),
            !final(self).closed,
            final(self).header == old(self).header,
            final(self).text() == old(self).text() + p@,
            final(self).st is Quoted,
            final(self).lines_ended() == old(self).lines_ended(),
    {
        let ghost v0 = self.value();
        self.pieces.push(p);
        proof {
            lemma_concat_push(old(self).pieces@, p);
            lemma_escape_no_quote(p@);
            lemma_escape_concat(v0, p@);
            assert(self.text() =~= old(self).text() + p@);
        }
    }

    /// A double quote outside an unquoted field.
    fn quote(&mut self)
        requires
            old(self).inv(),
            !old(self).closed,
            !(old(self).st is Plain),
        ensures
            final(self).inv(),
            !final(self).closed,
            final(self).header == old(self).header,
            final(self).text() == old(self).text().push('"'),
            final(self).st == step(old(self).st, '"'),
            final(self).lines_ended() == old(self).lines_ended(),
    {
        let ghost v0 = self.value();
        match self.st {
            FieldState::Start => {
                self.st = FieldState::Quoted;
                self.quoted = true;
                proof {
                    assert(v0 =~= Seq::<char>::empty());
                    assert(escape(v0) =~= Seq::<char>::empty());
                    assert(self.value() == v0);
                    assert(pending_field(self.st, v0) =~= seq!['"']);
                    assert(self.text() =~= old(self).text().push('"'));
                }
            },
            FieldState::Quoted => {
                self.st = FieldState::QuoteSeen;
                proof {
                    assert(self.text() =~= old(self).text().push('"'));
                }
            },
            _ => {
                proof {
                    reveal_strlit("\"");
                }
                self.pieces.push("\"");
                self.st = FieldState::Quoted;
                proof {
                    lemma_concat_push(old(self).pieces@, "\"");
                    lemma_escape_one('"');
                    lemma_escape_concat(v0, seq!['"']);
                    assert("\""@ =~= seq!['"']);
                    assert(old(self).st is QuoteSeen);
                    assert(self.value() =~= v0 + seq!['"']);
                    assert(pending_field(self.st, self.value()) =~= seq!['"'] + escape(v0) + seq![
                        '"',
                        '"',
                    ]);
                    assert(self.text() =~= old(self).text().push('"'));
                }
            },
        }
    }

    /// The current field, as a cell, renders as the text read of it.
    proof fn lemma_field(&self)
        requires
            self.inv(),
            !(self.st is Quoted),
        ensures
            cell_wf(CellModel { val: self.value(), quoted: self.quoted }),
            render_cell(CellModel { val: self.value(), quoted: self.quoted }) == pending_field(
                self.st,
                self.value(),
            ),
    {
        if self.st is Start {
            assert(self.value() =~= Seq::<char>::empty());
        }
    }

    /// A comma outside quotes: the current field ends.
    fn comma(&mut self)
        requires
            old(self).inv(),
            !old(self).closed,
            !(old(self).st is Quoted),
        ensures
            final(self).inv(),
            !final(self).closed,
            final(self).header == old(self).header,
            final(self).text() == old(self).text().push(','),
            final(self).st is Start,
            final(self).cells@.len() > 0,
            final(self).lines_ended() == old(self).lines_ended(),
    {
        let cell = Cell::new(self.quoted, self.pieces.as_slice());
        self.cells.push(cell);
        self.pieces = Vec::new();
        self.quoted = false;
        self.st = FieldState::Start;
        proof {
            let c = CellModel { val: old(self).value(), quoted: old(self).quoted };
            old(self).lemma_field();
            assert(cells_model(self.cells@) =~= cells_model(old(self).cells@).push(c));
            assert forall|j: int| 0 <= j < self.cells@.len() implies cell_wf(
                #[trigger] cells_model(self.cells@)[j],
            ) by {
                if j < old(self).cells@.len() {
                    assert(cells_model(self.cells@)[j] == cells_model(old(self).cells@)[j]);
                }
            }
            lemma_render_row_push(cells_model(old(self).cells@), c);
            assert(self.value() =~= Seq::<char>::empty());
            assert(self.text() =~= old(self).text().push(','));
        }
    }

    /// Closes the current field and row and hands the row out.
    fn take_row(&mut self) -> (row: Row)
        requires
            old(self).inv(),
            !old(self).closed,
            !(old(self).st is Quoted),
        ensures
            final(self).inv(),
            !final(self).closed,
            final(self).header == old(self).header,
            final(self).hdr == old(self).hdr,
            final(self).rows == old(self).rows,
            final(self).st is Start,
            final(self).text() == old(self).done().render(),
            row_wf(row@),
            is_bare(row@) ==> old(self).fresh(),
            render_row(row@) == pending_cells(cells_model(old(self).cells@)) + pending_field(
                old(self).st,
                old(self).value(),
            ),
    {
        let cell = Cell::new(self.quoted, self.pieces.as_slice());
        let mut cells: Vec<Cell> = Vec::new();
        std::mem::swap(&mut cells, &mut self.cells);
        let row = Row::new(cells, cell);
        self.pieces = Vec::new();
        self.quoted = false;
        self.st = FieldState::Start;
        proof {
            let c = CellModel { val: old(self).value(), quoted: old(self).quoted };
            let rm = row@;
            old(self).lemma_field();
            lemma_render_row_push(cells_model(old(self).cells@), c);
            assert(rm == cells_model(old(self).cells@).push(c));
            assert forall|j: int| 0 <= j < rm.len() implies cell_wf(#[trigger] rm[j]) by {
                if j < old(self).cells@.len() {
                    assert(rm[j] == cells_model(old(self).cells@)[j]);
                }
            }
            if is_bare(rm) {
                assert(rm[rm.len() - 1] == c);
            }
            assert(cells_model(self.cells@) =~= Seq::<CellModel>::empty());
            assert(self.value() =~= Seq::<char>::empty());
            assert(self.text() =~= old(self).done().render());
        }
        row
    }

    /// A line end outside quotes: the current row ends. When `eof`, it is the last token.
    #[verifier::rlimit(80)]
    fn line_end(&mut self, e: LineEnd, eof: bool)
        requires
            old(self).inv(),
            !old(self).closed,
            !(old(self).st is Quoted),
            old(self).fresh() && old(self).last_end() == Some(LineEnd::Cr) ==> e != LineEnd::Lf,
            eof ==> e != LineEnd::Cr,
        ensures
            final(self).inv(),
            final(self).header == old(self).header,
            final(self).text() == old(self).text() + e.spec_text(),
            final(self).st is Start,
            final(self).cells@.len() == 0,
            final(self).lines_ended(),
            final(self).last_end() == Some(e),
            !eof ==> !final(self).closed,
            eof && final(self).rows@.len() > 0 ==> final(self).closed,
    {
        let ghost old_text = self.text();
        let row = self.take_row();
        let ghost rm = row@;
        let ghost mid = *self;
        proof {
            assert(old_text == mid.done().render() + render_row(rm));
        }
        if self.header && self.hdr.is_none() {
            self.hdr = Some((row, e));
            proof {
                assert(entries_view(self.rows@) =~= Seq::<RowEntry>::empty());
                reveal(canon_pairs);
                assert(mid.done().render() =~= Seq::<char>::empty());
                assert(self.done().render() == render_row(rm) + e.spec_text() + render_rows(
                    Seq::<RowEntry>::empty(),
                ));
                assert(self.done().render() =~= old_text + e.spec_text());
            }
        } else {
            self.rows.push((row, Some(e)));
            if eof {
                self.closed = true;
            }
            proof {
                let old_rows = entries_view(mid.rows@);
                let new_rows = entries_view(self.rows@);
                assert(new_rows =~= old_rows.push((rm, Some(e))));
                lemma_render_rows_push(old_rows, (rm, Some(e)));
                lemma_rows_ok_push(old_rows, (rm, Some(e)));
                lemma_canon_push(mid.done(), (rm, Some(e)));
                assert(self.done() == CsvModel { header: mid.done().header, rows: old_rows.push((rm, Some(e))) });
                assert(self.done().render() =~= old_text + e.spec_text());
            }
        }
        proof {
            self.lemma_text_idle();
        }
    }

    proof fn lemma_text_idle(&self)
        requires
            self.cells@.len() == 0,
            self.pieces@.len() == 0,
            self.st is Start,
        ensures
            self.text() == self.done().render(),
    {
        assert(cells_model(self.cells@) =~= Seq::<CellModel>::empty());
        assert(self.text() =~= self.done().render());
    }

    /// The table, once the input has ended outside quotes (and after the header, if any).
    fn finish(self) -> (r: Csv)
        requires
            self.inv(),
            !(self.st is Quoted),
            self.header ==> self.hdr is Some,
            self.fresh() && !self.closed && self.rows@.len() > 0 ==> !(self.last_end() == Some(
                LineEnd::Lf,
            ) || self.last_end() == Some(LineEnd::CrLf)),
        ensures
            r@.render() == self.text(),
            r@.wf(),
            r@.header is Some == self.header,
            r@.canonical(),
    {
        let mut b = self;
        let ghost done = b.done();
        let (last, eol) = if b.closed {
            let ghost before = entries_view(b.rows@);
            let x = b.rows.pop().unwrap();
            proof {
                assert(before =~= entries_view(b.rows@).push((x.0@, x.1)));
                reveal(rows_ok);
                let rest = entries_view(b.rows@);
                assert forall|i: int| 0 <= i < rest.len() implies row_wf((#[trigger] rest[i]).0)
                    && rest[i].1 is Some by {
                    assert(rest[i] == before[i]);
                }
                assert(before[before.len() - 1] == (x.0@, x.1));
                assert(self.value() =~= Seq::<char>::empty());
                assert(cells_model(self.cells@) =~= Seq::<CellModel>::empty());
            }
            x
        } else {
            let row = b.take_row();
            proof {
                lemma_render_rows_push(done.rows, (row@, None));
            }
            (row, None)
        };
        proof {
            lemma_rows_ok_wf(self.hdr_model(), entries_view(b.rows@), (last@, eol));
            let m = CsvModel { header: self.hdr_model(), rows: entries_view(b.rows@).push((last@, eol)) };
            if self.closed {
                assert(m == done);
                reveal(canon_pairs);
            } else {
                lemma_canon_push(done, (last@, eol));
                assert(m == CsvModel { header: done.header, rows: done.rows.push((last@, eol)) });
                reveal(rows_ok);
                if done.rows.len() > 0 {
                    assert(done.rows[done.rows.len() - 1].1 is Some);
                    assert(m.rows[m.rows.len() - 2] == done.rows[done.rows.len() - 1]);
                }
                reveal(canon_pairs);
            }
        }
        match b.hdr {
            Some(h) => Csv::new_with_header(h, b.rows, last, eol),
            None => Csv::new(b.rows, last, eol),
        }
    }
}

proof fn lemma_failed_stays(s: Seq<char>, k: int)
    requires
        0 <= k <= s.len(),
        scan(s.take(k)).0 is Failed,
    ensures
        scan(s).0 is Failed,
    decreases s.len() - k,
{
    if k < s.len() {
        assert(s.take(k + 1) =~= s.take(k).push(s[k]));
        lemma_scan_push(s.take(k), s[k]);
        lemma_failed_stays(s, k + 1);
    } else {
        assert(s.take(k) =~= s);
    }
}

/// The builder has read the first `pos` characters of `s`; `q` and `quote_at` locate the
/// quote that opened the current field when it is quoted.
#[verifier::opaque]
spec fn tracks(b: Builder, s: Seq<char>, pos: int, q: int, quote_at: usize) -> bool {
    &&& b.inv()
    &&& 0 <= pos <= s.len()
    &&& b.text() == s.take(pos)
    &&& scan(s.take(pos)) == (b.st, b.lines_ended())
    &&& (b.fresh() && b.last_end() == Some(LineEnd::Cr) && pos < s.len()) ==> s[pos] != '\n'
    &&& (b.fresh() && !b.closed && b.rows@.len() > 0 && (b.last_end() == Some(LineEnd::Lf)
        || b.last_end() == Some(LineEnd::CrLf))) ==> pos < s.len()
    &&& in_quotes(b.st) ==> {
        &&& 0 <= q < pos
        &&& s[q] == '"'
        &&& scan(s.take(q)).0 is Start
        &&& forall|j: int| q < j <= pos ==> in_quotes(#[trigger] scan(s.take(j)).0)
        &&& quote_at == utf8_len(s.take(q))
    }
}

/// Reads the token that starts `at` characters into `s` and spans `start..end` in bytes.
#[verifier::rlimit(40)]
fn read_token<'a>(
    b: &mut Builder<'a>,
    quote_at: &mut usize,
    q: &mut Ghost<int>,
    s: Ghost<Seq<char>>,
    at: Ghost<int>,
    tok: Token<&'a str>,
    start: usize,
    end: usize,
) -> (r: Result<(), ParseError>)
    requires
        tracks(*old(b), s@, at@, old(q)@, *old(quote_at)),
        !old(b).closed,
        at@ < s@.len(),
        tok@ == first_token(s@.skip(at@)).0,
        start == utf8_len(s@.take(at@)),
        end == utf8_len(s@.take(at@ + first_token(s@.skip(at@)).1)),
    ensures
        final(b).header == old(b).header,
        r is Ok ==> tracks(*final(b), s@, at@ + first_token(s@.skip(at@)).1, final(q)@, *final(quote_at)),
        r is Ok && final(b).closed ==> at@ + first_token(s@.skip(at@)).1 == s@.len(),
        r is Err ==> !is_valid(s@, old(b).header) && error_fits(s@, old(b).header, r->Err_0),
{
    let ghost s = s@;
    let ghost at = at@;
    let ghost rest0 = s.skip(at);
    let ghost c0 = s.take(at);
    let ghost n = first_token(rest0).1 as int;
    let ghost after = at + n;
    let ghost tt = token_text(tok@);
    proof {
        reveal(tracks);
        lemma_advance(s, at);
        assert(rest0[0] == s[at]);
        assert(s.take(at + 1) =~= c0.push(s[at]));
    }
    match tok {
        Token::TEXTDATA(t) => {
            proof {
                lemma_plain_prefix(rest0);
                assert forall|i: int| 0 <= i < t@.len() implies !is_special(#[trigger] t@[i]) by {
                    assert(t@[i] == rest0[i]);
                }
                assert(t@.len() > 0);
            }
            if b.st == FieldState::QuoteSeen {
                let err = ParseError::UnexpectedToken { start, token: Token::TEXTDATA(t).to_owned(), end };
                proof {
                    assert(t@[0] == s[at]);
                    lemma_scan_push(c0, s[at]);
                    assert(fails_at(s, at));
                    lemma_failed_stays(s, at + 1);
                    let (ft, fn_) = first_token(s.skip(at));
                    assert(fails_at(s, at) && err->token@ == ft && start == utf8_len(s.take(at))
                        && end == utf8_len(s.take(at + fn_)));
                    assert(error_fits(s, b.header, err));
                }
                return Err(err);
            }
            b.text_run(t);
            proof {
                lemma_scan_plain(c0, t@);
                if in_quotes(b.st) {
                    assert forall|j: int| q@ < j <= after implies in_quotes(
                        #[trigger] scan(s.take(j)).0,
                    ) by {
                        if j > at {
                            let u = t@.take(j - at);
                            assert(s.take(j) =~= c0 + u);
                            assert forall|i: int| 0 <= i < u.len() implies !is_special(
                                #[trigger] u[i],
                            ) by {
                                assert(u[i] == t@[i]);
                            }
                            lemma_scan_plain(c0, u);
                        }
                    }
                }
            }
        },
        Token::DQUOTE => {
            proof {
                lemma_scan_push(c0, '"');
            }
            if b.st == FieldState::Plain {
                let err = ParseError::UnexpectedToken { start, token: Token::DQUOTE, end };
                proof {
                    assert(fails_at(s, at));
                    lemma_failed_stays(s, at + 1);
                    let (ft, fn_) = first_token(s.skip(at));
                    assert(fails_at(s, at) && err->token@ == ft && start == utf8_len(s.take(at))
                        && end == utf8_len(s.take(at + fn_)));
                    assert(error_fits(s, b.header, err));
                }
                return Err(err);
            }
            if b.st == FieldState::Start {
                *quote_at = start;
                proof {
                    *q = Ghost(at);
                }
            }
            b.quote();
            proof {
                assert(b.text() =~= c0 + tt);
            }
        },
        Token::COMMA => {
            proof {
                lemma_scan_push(c0, ',');
                reveal_strlit(",");
            }
            if b.st == FieldState::Quoted {
                b.quoted_piece(",");
            } else {
                b.comma();
            }
            proof {
                assert(b.text() =~= c0 + tt);
            }
        },
        _ => {
            let (e, eof) = match tok {
                Token::CR => (LineEnd::Cr, false),
                Token::LF => (LineEnd::Lf, false),
                Token::CRLF => (LineEnd::CrLf, false),
                Token::LF_BEFORE_EOF => (LineEnd::Lf, true),
                _ => (LineEnd::CrLf, true),
            };
            proof {
                assert(tt == e.spec_text());
                lemma_scan_push(c0, s[at]);
                if e == LineEnd::CrLf {
                    assert(s.take(at + 2) =~= c0.push('\r').push('\n'));
                    lemma_scan_push(c0.push('\r'), '\n');
                }
            }
            if b.st == FieldState::Quoted {
                b.quoted_piece(e.as_str());
            } else {
                proof {
                    if e == LineEnd::Lf {
                        assert(s[at] == '\n');
                    }
                }
                b.line_end(e, eof);
                proof {
                    if e == LineEnd::Cr && after < s.len() {
                        assert(rest0[1] == s[after]);
                    }
                    if !eof && e != LineEnd::Cr {
                        assert(rest0.len() == s.len() - at);
                        assert(after < s.len());
                    }
                }
            }
            proof {
                if e == LineEnd::CrLf {
                    assert(tt =~= seq!['\r', '\n']);
                }
                assert(b.text() =~= c0 + tt);
            }
        },
    }
    proof {
        reveal(tracks);
    }
    Ok(())
}

/// Reads `input` as a CSV document; with `header`, its first row is the header.
#[verifier::rlimit(60)]
fn read_document<'a>(input: &'a str, header: bool) -> (r: Result<Csv, ParseError>)
    ensures
        parsed(input@, header, r),
{
    let ghost s = input@;
    let mut lx = Lexer::new(input);
    let mut b: Builder<'a> = Builder::new(header);
    let mut quote_at: usize = 0;
    let mut q: Ghost<int> = Ghost(0);
    let mut running = true;
    proof {
        assert(s.take(0) =~= Seq::<char>::empty());
        reveal(tracks);
    }
    while running
        invariant
            s == input@,
            lx.wf(),
            lx.source() == s,
            b.header == header,
            tracks(b, s, lx.pos() as int, q@, quote_at),
            b.closed ==> lx.rest().len() == 0,
            !running ==> lx.rest().len() == 0,
        decreases lx.rest().len() + if running {
            1int
        } else {
            0int
        },
    {
        let ghost at = lx.pos() as int;
        proof {
            lx.lemma_pos_bound();
        }
        let next = lx.next();
        match next {
            None => {
                running = false;
            },
            Some((start, tok, end)) => {
                proof {
                    lx.lemma_pos_bound();
                    lemma_first_token_text(s.skip(at));
                    if b.closed {
                        assert(false);
                    }
                }
                let ghost h = b.header;
                let step = read_token(&mut b, &mut quote_at, &mut q, Ghost(s), Ghost(at), tok, start, end);
                if let Err(e) = step {
                    proof {
                        assert(h == header);
                        assert(!is_valid(s, h));
                        assert(error_fits(s, h, e));
                    }
                    return Err(e);
                }
            },
        }
    }
    proof {
        reveal(tracks);
        lx.lemma_pos_bound();
        assert(s.take(lx.pos() as int) =~= s);
    }
    if b.st == FieldState::Quoted {
        proof {
            assert(opens_unclosed(s, q@) && quote_at == utf8_len(s.take(q@)));
        }
        return Err(ParseError::UnclosedQuote { start: quote_at });
    }
    if header && b.hdr.is_none() {
        let location = input.as_bytes().len();
        return Err(ParseError::UnexpectedEof { location });
    }
    Ok(b.finish())
}

impl Csv {
    /// Parses `input` as a CSV document; with `header`, its first row is the header.
    pub fn parse(input: &str, header: bool) -> (r: Result<Csv, ParseError>)
        ensures
            parsed(input@, header, r),
    {
        if header {
            Self::parse_with_header(input)
        } else {
            Self::parse_without_header(input)
        }
    }

    /// Parses `input` as a CSV document whose rows are all data rows.
    pub fn parse_without_header(input: &str) -> (r: Result<Csv, ParseError>)
        ensures
            parsed(input@, false, r),
    {
        read_document(input, false)
    }

    /// Parses `input` as a CSV document whose first row is the header.
    pub fn parse_with_header(input: &str) -> (r: Result<Csv, ParseError>)
        ensures
            parsed(input@, true, r),
    {
        read_document(input, true)
    }
}

} // verus!
