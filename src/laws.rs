//! Properties that hold across the parser, the table's operations and rendering.
use vstd::prelude::*;
use crate::parse::{FieldState, ParseError, ends_line, is_valid, parsed, scan, step};
use crate::table::{
    CellModel, Csv, CsvModel, LineEnd, RowEntry, cell_wf, column, end_text, escape, is_special,
    needs_quotes, render_cell, render_row, render_rows, row_wf,
};

verus! {

/// Round trip: a well-formed text parses, and the table renders back to exactly that text.
pub proof fn lemma_round_trip(s: Seq<char>, header: bool, r: Result<Csv, ParseError>)
    requires
        is_valid(s, header),
        parsed(s, header, r),
    ensures
        r is Ok,
        r->Ok_0@.render() == s,
{
}

/// Idempotence: parsing the rendering of a parsed table, and rendering again, gives the same
/// text.
pub proof fn lemma_idempotent(
    s: Seq<char>,
    header: bool,
    r1: Result<Csv, ParseError>,
    r2: Result<Csv, ParseError>,
)
    requires
        is_valid(s, header),
        parsed(s, header, r1),
        r1 is Ok ==> parsed(r1->Ok_0@.render(), header, r2),
    ensures
        r1 is Ok,
        r2 is Ok,
        r2->Ok_0@.render() == r1->Ok_0@.render(),
{
}

/// Quoting only escalates: after a cell takes a new value, it is quoted exactly when it was
/// quoted before or the new value holds a comma, a double quote, CR or LF.
pub proof fn lemma_quoting_monotonic(m: CsvModel, row: int, col: int, v: Seq<char>)
    requires
        0 <= row < m.rows.len(),
        0 <= col < m.rows[row].0.len(),
    ensures
        m.with_value(row, col, v).rows[row].0[col].quoted == (m.rows[row].0[col].quoted
            || needs_quotes(v)),
        m.rows[row].0[col].quoted ==> m.with_value(row, col, v).rows[row].0[col].quoted,
        m.with_value(row, col, v).rows[row].0[col].val == v,
{
}

/// A column never has more values than the table has rows, whatever the column.
pub proof fn lemma_column_len(m: CsvModel, col: int)
    ensures
        column(m.rows, col).len() <= m.rows.len(),
    decreases m.rows.len(),
{
    if m.rows.len() > 0 {
        lemma_column_len(CsvModel { header: m.header, rows: m.rows.drop_last() }, col);
    }
}

/// A text that does not end in CR or LF parses to a table whose last row has no line end,
/// and whose rendering does not end in CR or LF either.
pub proof fn lemma_final_row_unterminated(s: Seq<char>, header: bool, r: Result<Csv, ParseError>)
    requires
        parsed(s, header, r),
        r is Ok,
        s.len() == 0 || (s.last() != '\r' && s.last() != '\n'),
    ensures
        r->Ok_0@.rows.last().1 is None,
        r->Ok_0@.render().len() == 0 || (r->Ok_0@.render().last() != '\r'
            && r->Ok_0@.render().last() != '\n'),
{
    let m = r->Ok_0@;
    let rows = m.rows;
    let last = rows.last();
    if last.1 is Some {
        let t = end_text(last.1);
        let rr = render_rows(rows);
        assert(rows.drop_last().push(last) =~= rows);
        assert(rr == render_rows(rows.drop_last()) + crate::table::render_row(last.0) + t);
        assert(t.len() > 0);
        assert(rr.last() == t.last());
        match m.header {
            Some(h) => {
                assert(m.render().last() == rr.last());
            },
            None => {},
        }
    }
}

/// The field state and line flag after reading `q` from `x`.
spec fn run(x: (FieldState, bool), q: Seq<char>) -> (FieldState, bool)
    decreases q.len(),
{
    if q.len() == 0 {
        x
    } else {
        let y = run(x, q.drop_last());
        (step(y.0, q.last()), y.1 || ends_line(y.0, q.last()))
    }
}

proof fn lemma_run_concat(x: (FieldState, bool), a: Seq<char>, b: Seq<char>)
    ensures
        run(x, a + b) == run(run(x, a), b),
    decreases b.len(),
{
    if b.len() == 0 {
        assert(a + b =~= a);
    } else {
        assert((a + b).drop_last() =~= a + b.drop_last());
        lemma_run_concat(x, a, b.drop_last());
    }
}

proof fn lemma_scan_is_run(s: Seq<char>)
    ensures
        scan(s) == run((FieldState::Start, false), s),
    decreases s.len(),
{
    if s.len() > 0 {
        lemma_scan_is_run(s.drop_last());
    }
}

proof fn lemma_run_one(x: (FieldState, bool), c: char)
    ensures
        run(x, seq![c]) == (step(x.0, c), x.1 || ends_line(x.0, c)),
{
    assert(seq![c].drop_last() =~= Seq::<char>::empty());
    assert(seq![c].last() == c);
    assert(run(x, Seq::<char>::empty()) == x);
}

/// States in which a field may end.
spec fn can_end(st: FieldState) -> bool {
    st is Start || st is Plain || st is QuoteSeen
}

proof fn lemma_run_plain(f: bool, v: Seq<char>)
    requires
        !needs_quotes(v),
        v.len() > 0,
    ensures
        run((FieldState::Start, f), v) == (FieldState::Plain, f),
    decreases v.len(),
{
    let u = v.drop_last();
    assert(!is_special(v[v.len() - 1]));
    if u.len() > 0 {
        assert(!needs_quotes(u)) by {
            if needs_quotes(u) {
                let i = choose|i: int| 0 <= i < u.len() && is_special(u[i]);
                assert(v[i] == u[i]);
            }
        }
        lemma_run_plain(f, u);
    }
}

proof fn lemma_run_escape(f: bool, v: Seq<char>)
    ensures
        run((FieldState::Quoted, f), escape(v)) == (FieldState::Quoted, f),
    decreases v.len(),
{
    if v.len() > 0 {
        let u = v.drop_last();
        lemma_run_escape(f, u);
        let piece = if v.last() == '"' {
            seq!['"', '"']
        } else {
            seq![v.last()]
        };
        lemma_run_concat((FieldState::Quoted, f), escape(u), piece);
        if v.last() == '"' {
            assert(piece =~= seq!['"'] + seq!['"']);
            lemma_run_concat((FieldState::Quoted, f), seq!['"'], seq!['"']);
            lemma_run_one((FieldState::Quoted, f), '"');
            lemma_run_one((FieldState::QuoteSeen, f), '"');
        } else {
            lemma_run_one((FieldState::Quoted, f), v.last());
        }
    }
}

proof fn lemma_run_cell(f: bool, c: CellModel)
    requires
        cell_wf(c),
    ensures
        can_end(run((FieldState::Start, f), render_cell(c)).0),
        run((FieldState::Start, f), render_cell(c)).1 == f,
{
    if c.quoted {
        lemma_run_concat((FieldState::Start, f), seq!['"'], escape(c.val));
        lemma_run_concat((FieldState::Start, f), seq!['"'] + escape(c.val), seq!['"']);
        lemma_run_one((FieldState::Start, f), '"');
        lemma_run_escape(f, c.val);
        lemma_run_one((FieldState::Quoted, f), '"');
    } else if c.val.len() > 0 {
        lemma_run_plain(f, c.val);
    } else {
        assert(c.val =~= Seq::<char>::empty());
    }
}

proof fn lemma_run_row(f: bool, r: Seq<CellModel>)
    requires
        row_wf(r),
    ensures
        can_end(run((FieldState::Start, f), render_row(r)).0),
        run((FieldState::Start, f), render_row(r)).1 == f,
    decreases r.len(),
{
    if r.len() == 1 {
        lemma_run_cell(f, r[0]);
    } else {
        let u = r.drop_last();
        assert(row_wf(u)) by {
            assert forall|j: int| 0 <= j < u.len() implies cell_wf(#[trigger] u[j]) by {
                assert(u[j] == r[j]);
            }
        }
        assert(cell_wf(r[r.len() - 1]));
        lemma_run_row(f, u);
        let x = run((FieldState::Start, f), render_row(u));
        lemma_run_concat((FieldState::Start, f), render_row(u), seq![',']);
        lemma_run_one(x, ',');
        lemma_run_concat((FieldState::Start, f), render_row(u) + seq![','], render_cell(r.last()));
        lemma_run_cell(f, r.last());
    }
}

proof fn lemma_run_end(x: (FieldState, bool), e: LineEnd)
    requires
        can_end(x.0),
    ensures
        run(x, e.spec_text()) == (FieldState::Start, true),
{
    match e {
        LineEnd::CrLf => {
            assert(e.spec_text() =~= seq!['\r'] + seq!['\n']);
            lemma_run_concat(x, seq!['\r'], seq!['\n']);
            lemma_run_one(x, '\r');
            lemma_run_one((FieldState::Start, true), '\n');
        },
        _ => {
            lemma_run_one(x, e.spec_text()[0]);
            assert(e.spec_text() =~= seq![e.spec_text()[0]]);
        },
    }
}

/// A row and the line end after it, read from the start of a line.
proof fn lemma_run_entry(f: bool, x: RowEntry)
    requires
        row_wf(x.0),
    ensures
        can_end(run((FieldState::Start, f), render_row(x.0) + end_text(x.1)).0),
        run((FieldState::Start, f), render_row(x.0) + end_text(x.1)).1 == (f || x.1 is Some),
        x.1 is Some ==> run((FieldState::Start, f), render_row(x.0) + end_text(x.1)) == (
            FieldState::Start,
            true,
        ),
{
    lemma_run_row(f, x.0);
    lemma_run_concat((FieldState::Start, f), render_row(x.0), end_text(x.1));
    match x.1 {
        Some(e) => lemma_run_end(run((FieldState::Start, f), render_row(x.0)), e),
        None => {
            assert(end_text(x.1) =~= Seq::<char>::empty());
        },
    }
}

proof fn lemma_run_rows(f: bool, rows: Seq<RowEntry>)
    requires
        forall|i: int| 0 <= i < rows.len() ==> row_wf((#[trigger] rows[i]).0) && rows[i].1 is Some,
    ensures
        run((FieldState::Start, f), render_rows(rows)) == (FieldState::Start, f || rows.len() > 0),
    decreases rows.len(),
{
    if rows.len() > 0 {
        let u = rows.drop_last();
        assert forall|i: int| 0 <= i < u.len() implies row_wf((#[trigger] u[i]).0) && u[i].1 is Some by {
            assert(u[i] == rows[i]);
        }
        lemma_run_rows(f, u);
        let last = rows[rows.len() - 1];
        lemma_run_concat((FieldState::Start, f), render_rows(u), render_row(last.0) + end_text(last.1));
        assert(render_rows(rows) == render_rows(u) + (render_row(last.0) + end_text(last.1)));
        lemma_run_entry(f || u.len() > 0, last);
    }
}

/// Exactly the renderings of well-formed tables are well-formed text: the text of a
/// well-formed table is valid, read with a header exactly when the table has one. (A
/// parsed table renders back to its text: see [`lemma_round_trip`].)
pub proof fn lemma_rendering_is_valid(m: CsvModel)
    requires
        m.wf(),
    ensures
        is_valid(m.render(), m.header is Some),
{
    let start = (FieldState::Start, false);
    let rows = m.rows;
    let n = rows.len();
    let body_start = match m.header {
        Some(h) => {
            lemma_run_entry(false, (h.0, Some(h.1)));
            lemma_run_concat(start, render_row(h.0) + h.1.spec_text(), render_rows(rows));
            assert(m.render() == render_row(h.0) + h.1.spec_text() + render_rows(rows));
            (FieldState::Start, true)
        },
        None => start,
    };
    if n == 0 {
        assert(render_rows(rows) =~= Seq::<char>::empty());
    } else {
        let u = rows.drop_last();
        assert forall|i: int| 0 <= i < u.len() implies row_wf((#[trigger] u[i]).0) && u[i].1 is Some by {
            assert(u[i] == rows[i]);
        }
        lemma_run_rows(body_start.1, u);
        let last = rows[n - 1];
        assert(render_rows(rows) == render_rows(u) + (render_row(last.0) + end_text(last.1)));
        lemma_run_concat(body_start, render_rows(u), render_row(last.0) + end_text(last.1));
        lemma_run_entry(body_start.1 || u.len() > 0, last);
    }
    lemma_scan_is_run(m.render());
}

} // verus!
