//! A text has at most one canonical reading: the table that the parser gives is the only
//! well-formed canonical table with that text.
use vstd::prelude::*;
use crate::parse::{lemma_escape_concat, lemma_escape_one};
use crate::table::{
    CellModel, CsvModel, LineEnd, RowEntry, cell_wf, end_text, escape, is_bare, is_special,
    needs_quotes, render_cell, render_row, render_rows, row_wf,
};

verus! {

spec fn delim_or_end(x: Seq<char>) -> bool {
    x.len() == 0 || x[0] == ',' || x[0] == '\r' || x[0] == '\n'
}

spec fn line_or_end(x: Seq<char>) -> bool {
    x.len() == 0 || x[0] == '\r' || x[0] == '\n'
}

proof fn lemma_strip<A>(p: Seq<A>, a: Seq<A>, b: Seq<A>)
    requires
        p + a == p + b,
    ensures
        a == b,
{
    assert((p + a).skip(p.len() as int) =~= a);
    assert((p + b).skip(p.len() as int) =~= b);
}

proof fn lemma_escape_front(v: Seq<char>)
    requires
        v.len() > 0,
    ensures
        escape(v) == (if v[0] == '"' {
            seq!['"', '"']
        } else {
            seq![v[0]]
        }) + escape(v.drop_first()),
{
    assert(v =~= seq![v[0]] + v.drop_first());
    lemma_escape_concat(seq![v[0]], v.drop_first());
    lemma_escape_one(v[0]);
}

proof fn lemma_escape_unique(v: Seq<char>, w: Seq<char>, x: Seq<char>, y: Seq<char>)
    requires
        escape(v) + seq!['"'] + x == escape(w) + seq!['"'] + y,
        x.len() == 0 || x[0] != '"',
        y.len() == 0 || y[0] != '"',
    ensures
        v == w,
        x == y,
    decreases v.len() + w.len(),
{
    let l = escape(v) + seq!['"'] + x;
    if v.len() == 0 && w.len() == 0 {
        assert(escape(v) =~= Seq::<char>::empty());
        assert(escape(w) =~= Seq::<char>::empty());
        lemma_strip(seq!['"'], x, y);
        assert(v =~= w);
    } else if v.len() == 0 {
        assert(escape(v) =~= Seq::<char>::empty());
        lemma_escape_front(w);
        assert(l[0] == '"');
        if w[0] == '"' {
            assert(l[1] == '"');
            assert(l =~= seq!['"'] + x);
        } else {
            assert(l[0] == w[0]);
        }
    } else if w.len() == 0 {
        assert(escape(w) =~= Seq::<char>::empty());
        lemma_escape_front(v);
        let r = escape(w) + seq!['"'] + y;
        assert(r[0] == '"');
        if v[0] == '"' {
            assert(r[1] == '"');
            assert(r =~= seq!['"'] + y);
        } else {
            assert(l[0] == v[0]);
        }
    } else {
        lemma_escape_front(v);
        lemma_escape_front(w);
        let pv = if v[0] == '"' {
            seq!['"', '"']
        } else {
            seq![v[0]]
        };
        let pw = if w[0] == '"' {
            seq!['"', '"']
        } else {
            seq![w[0]]
        };
        assert(l[0] == pv[0]);
        assert(l =~= pv + (escape(v.drop_first()) + seq!['"'] + x));
        assert(escape(w) + seq!['"'] + y =~= pw + (escape(w.drop_first()) + seq!['"'] + y));
        assert(pw[0] == l[0]);
        assert(v[0] == w[0]);
        assert(pv == pw);
        lemma_strip(pv, escape(v.drop_first()) + seq!['"'] + x, escape(w.drop_first()) + seq!['"'] + y);
        lemma_escape_unique(v.drop_first(), w.drop_first(), x, y);
        assert(v =~= seq![v[0]] + v.drop_first());
        assert(w =~= seq![w[0]] + w.drop_first());
    }
}

proof fn lemma_plain_unique(v: Seq<char>, w: Seq<char>, x: Seq<char>, y: Seq<char>)
    requires
        !needs_quotes(v),
        !needs_quotes(w),
        v + x == w + y,
        delim_or_end(x),
        delim_or_end(y),
    ensures
        v == w,
        x == y,
{
    let l = v + x;
    if v.len() < w.len() {
        assert(l[v.len() as int] == x[0]);
        assert(l[v.len() as int] == (w + y)[v.len() as int]);
        assert(!is_special(w[v.len() as int]));
    } else if w.len() < v.len() {
        assert((w + y)[w.len() as int] == y[0]);
        assert(!is_special(v[w.len() as int]));
    } else {
        assert(v =~= l.take(v.len() as int));
        assert(w =~= (w + y).take(w.len() as int));
        assert(x =~= l.skip(v.len() as int));
        assert(y =~= (w + y).skip(w.len() as int));
    }
}

proof fn lemma_cell_unique(c: CellModel, d: CellModel, x: Seq<char>, y: Seq<char>)
    requires
        cell_wf(c),
        cell_wf(d),
        render_cell(c) + x == render_cell(d) + y,
        delim_or_end(x),
        delim_or_end(y),
    ensures
        c == d,
        x == y,
{
    let l = render_cell(c) + x;
    if c.quoted && d.quoted {
        assert(l =~= seq!['"'] + (escape(c.val) + seq!['"'] + x));
        assert(render_cell(d) + y =~= seq!['"'] + (escape(d.val) + seq!['"'] + y));
        lemma_strip(seq!['"'], escape(c.val) + seq!['"'] + x, escape(d.val) + seq!['"'] + y);
        lemma_escape_unique(c.val, d.val, x, y);
    } else if !c.quoted && !d.quoted {
        lemma_plain_unique(c.val, d.val, x, y);
    } else if c.quoted {
        assert(l[0] == '"');
        if d.val.len() > 0 {
            assert(l[0] == d.val[0]);
            assert(!is_special(d.val[0]));
        } else {
            assert(render_cell(d) + y =~= y);
        }
    } else {
        let r = render_cell(d) + y;
        assert(r[0] == '"');
        if c.val.len() > 0 {
            assert(r[0] == c.val[0]);
            assert(!is_special(c.val[0]));
        } else {
            assert(l =~= x);
        }
    }
}

/// The text of a row after its first cell.
spec fn row_tail(r: Seq<CellModel>) -> Seq<char> {
    if r.len() > 1 {
        seq![','] + render_row(r.drop_first())
    } else {
        seq![]
    }
}

proof fn lemma_row_front(r: Seq<CellModel>)
    requires
        r.len() > 0,
    ensures
        render_row(r) == render_cell(r[0]) + row_tail(r),
    decreases r.len(),
{
    if r.len() == 1 {
        assert(render_cell(r[0]) + row_tail(r) =~= render_cell(r[0]));
    } else if r.len() == 2 {
        assert(r.drop_last() =~= seq![r[0]]);
        assert(r.drop_first() =~= seq![r[1]]);
        assert(render_row(seq![r[0]]) == render_cell(r[0]));
        assert(render_row(seq![r[1]]) == render_cell(r[1]));
        assert(r.last() == r[1]);
        assert(render_row(r) == render_row(r.drop_last()) + seq![','] + render_cell(r.last()));
        assert(render_row(r) =~= render_cell(r[0]) + row_tail(r));
    } else {
        let u = r.drop_last();
        lemma_row_front(u);
        assert(u.drop_first() =~= r.drop_first().drop_last());
        assert(render_row(r) =~= render_cell(r[0]) + row_tail(r));
    }
}

proof fn lemma_row_wf_tail(r: Seq<CellModel>)
    requires
        row_wf(r),
        r.len() > 1,
    ensures
        row_wf(r.drop_first()),
        cell_wf(r[0]),
{
    assert forall|j: int| 0 <= j < r.drop_first().len() implies cell_wf(#[trigger] r.drop_first()[j]) by {
        assert(r.drop_first()[j] == r[j + 1]);
    }
}

proof fn lemma_row_unique(r: Seq<CellModel>, t: Seq<CellModel>, x: Seq<char>, y: Seq<char>)
    requires
        row_wf(r),
        row_wf(t),
        render_row(r) + x == render_row(t) + y,
        line_or_end(x),
        line_or_end(y),
    ensures
        r == t,
        x == y,
    decreases r.len(),
{
    lemma_row_front(r);
    lemma_row_front(t);
    assert(cell_wf(r[0]));
    assert(cell_wf(t[0]));
    let xr = row_tail(r) + x;
    let yt = row_tail(t) + y;
    assert(render_row(r) + x =~= render_cell(r[0]) + xr);
    assert(render_row(t) + y =~= render_cell(t[0]) + yt);
    if r.len() > 1 {
        assert(xr[0] == ',');
    }
    if t.len() > 1 {
        assert(yt[0] == ',');
    }
    if r.len() == 1 {
        assert(xr =~= x);
    }
    if t.len() == 1 {
        assert(yt =~= y);
    }
    lemma_cell_unique(r[0], t[0], xr, yt);
    if r.len() > 1 && t.len() > 1 {
        lemma_row_wf_tail(r);
        lemma_row_wf_tail(t);
        assert(xr =~= seq![','] + (render_row(r.drop_first()) + x));
        assert(yt =~= seq![','] + (render_row(t.drop_first()) + y));
        lemma_strip(seq![','], render_row(r.drop_first()) + x, render_row(t.drop_first()) + y);
        lemma_row_unique(r.drop_first(), t.drop_first(), x, y);
        assert(r =~= seq![r[0]] + r.drop_first());
        assert(t =~= seq![t[0]] + t.drop_first());
    } else if r.len() == 1 && t.len() == 1 {
        assert(r =~= t);
    }
}

/// The first character of a row's text is neither CR nor LF, and a row has no text only
/// when it is a single empty cell.
proof fn lemma_row_first(r: Seq<CellModel>)
    requires
        row_wf(r),
    ensures
        (render_row(r).len() == 0) == is_bare(r),
        render_row(r).len() > 0 ==> render_row(r)[0] != '\r' && render_row(r)[0] != '\n',
{
    lemma_row_front(r);
    let c = r[0];
    assert(cell_wf(c));
    if c.quoted {
        assert(render_cell(c)[0] == '"');
    } else if c.val.len() > 0 {
        assert(!is_special(c.val[0]));
    } else if r.len() > 1 {
        assert(render_row(r) =~= row_tail(r));
    } else {
        assert(render_cell(c) =~= Seq::<char>::empty());
    }
}

proof fn lemma_rows_front(rows: Seq<RowEntry>)
    requires
        rows.len() > 0,
    ensures
        render_rows(rows) == render_row(rows[0].0) + end_text(rows[0].1) + render_rows(
            rows.drop_first(),
        ),
    decreases rows.len(),
{
    if rows.len() == 1 {
        assert(rows.drop_last() =~= Seq::<RowEntry>::empty());
        assert(rows.drop_first() =~= Seq::<RowEntry>::empty());
        assert(render_rows(rows) =~= render_row(rows[0].0) + end_text(rows[0].1) + render_rows(
            rows.drop_first(),
        ));
    } else {
        let u = rows.drop_last();
        lemma_rows_front(u);
        assert(u.drop_first() =~= rows.drop_first().drop_last());
        assert(render_rows(rows) =~= render_row(rows[0].0) + end_text(rows[0].1) + render_rows(
            rows.drop_first(),
        ));
    }
}

/// The line end before row `i` of `rows`, where `prev` is the one before the first.
spec fn end_before_in(prev: Option<LineEnd>, rows: Seq<RowEntry>, i: int) -> Option<LineEnd> {
    if i == 0 {
        prev
    } else {
        rows[i - 1].1
    }
}

/// The canonical-form conditions on a run of rows that follows the line end `prev`; with
/// `strict`, that line end belongs to a data row.
#[verifier::opaque]
spec fn rows_canon(prev: Option<LineEnd>, strict: bool, rows: Seq<RowEntry>) -> bool {
    let n = rows.len();
    &&& forall|i: int| 0 <= i < n ==> row_wf(#[trigger] rows[i].0)
    &&& forall|i: int| 0 <= i < n - 1 ==> (#[trigger] rows[i]).1 is Some
    &&& (if n == 0 {
        prev
    } else {
        rows[n - 1].1
    }) != Some(LineEnd::Cr)
    &&& forall|i: int|
        0 <= i < n && end_before_in(prev, rows, i) == Some(LineEnd::Cr) ==> !(is_bare(
            #[trigger] rows[i].0,
        ) && rows[i].1 == Some(LineEnd::Lf))
    &&& (n >= 1 && is_bare(rows[n - 1].0) && rows[n - 1].1 is None && (n >= 2 || strict))
        ==> end_before_in(prev, rows, n - 1) == Some(LineEnd::Cr)
}

/// Rows whose text starts with LF begin with a single empty cell ended by LF.
proof fn lemma_rows_lf_first(rows: Seq<RowEntry>)
    requires
        rows.len() > 0,
        forall|i: int| 0 <= i < rows.len() ==> row_wf(#[trigger] rows[i].0),
        forall|i: int| 0 <= i < rows.len() - 1 ==> (#[trigger] rows[i]).1 is Some,
        render_rows(rows).len() > 0,
        render_rows(rows)[0] == '\n',
    ensures
        is_bare(rows[0].0),
        rows[0].1 == Some(LineEnd::Lf),
{
    lemma_rows_front(rows);
    assert(row_wf(rows[0].0));
    lemma_row_first(rows[0].0);
    let t = render_rows(rows);
    if render_row(rows[0].0).len() > 0 {
        assert(t[0] == render_row(rows[0].0)[0]);
    } else {
        match rows[0].1 {
            Some(e) => {
                assert(t[0] == e.spec_text()[0]);
            },
            None => {
                assert(rows.len() == 1);
                assert(rows.drop_first() =~= Seq::<RowEntry>::empty());
                assert(t =~= Seq::<char>::empty());
            },
        }
    }
}

proof fn lemma_canon_basic(prev: Option<LineEnd>, strict: bool, rows: Seq<RowEntry>)
    requires
        rows_canon(prev, strict, rows),
        rows.len() > 0,
    ensures
        row_wf(rows[0].0),
        rows[0].1 is None ==> rows.len() == 1,
        rows.len() == 1 && rows[0].1 is None && is_bare(rows[0].0) && strict ==> prev == Some(
            LineEnd::Cr,
        ),
        rows.len() == 0 ==> prev != Some(LineEnd::Cr),
{
    reveal(rows_canon);
}

proof fn lemma_canon_empty(prev: Option<LineEnd>, strict: bool, rows: Seq<RowEntry>)
    requires
        rows_canon(prev, strict, rows),
        rows.len() == 0,
    ensures
        prev != Some(LineEnd::Cr),
{
    reveal(rows_canon);
}

/// After a row ended by CR, the text of the rows cannot start with LF.
proof fn lemma_canon_no_cr_lf(prev: Option<LineEnd>, strict: bool, rows: Seq<RowEntry>)
    requires
        rows_canon(prev, strict, rows),
        rows.len() > 1,
        rows[0].1 == Some(LineEnd::Cr),
    ensures
        !(render_rows(rows.drop_first()).len() > 0 && render_rows(rows.drop_first())[0] == '\n'),
{
    lemma_rows_canon_tail(prev, strict, rows);
    reveal(rows_canon);
    let t = rows.drop_first();
    if render_rows(t).len() > 0 && render_rows(t)[0] == '\n' {
        lemma_rows_lf_first(t);
        assert(end_before_in(prev, rows, 1) == Some(LineEnd::Cr));
        assert(rows[1] == t[0]);
    }
}

proof fn lemma_rows_canon_tail(prev: Option<LineEnd>, strict: bool, rows: Seq<RowEntry>)
    requires
        rows_canon(prev, strict, rows),
        rows.len() > 0,
        rows[0].1 is Some,
    ensures
        rows_canon(rows[0].1, true, rows.drop_first()),
{
    reveal(rows_canon);
    let t = rows.drop_first();
    assert forall|i: int| 0 <= i < t.len() implies row_wf(#[trigger] t[i].0) by {
        assert(t[i] == rows[i + 1]);
    }
    assert forall|i: int| 0 <= i < t.len() - 1 implies (#[trigger] t[i]).1 is Some by {
        assert(t[i] == rows[i + 1]);
    }
    assert forall|i: int|
        0 <= i < t.len() && end_before_in(rows[0].1, t, i) == Some(LineEnd::Cr) implies !(is_bare(
        #[trigger] t[i].0,
    ) && t[i].1 == Some(LineEnd::Lf)) by {
        assert(t[i] == rows[i + 1]);
        assert(end_before_in(rows[0].1, t, i) == end_before_in(prev, rows, i + 1));
    }
    if t.len() >= 1 {
        assert(t[t.len() - 1] == rows[rows.len() - 1]);
        assert(end_before_in(rows[0].1, t, t.len() - 1) == end_before_in(prev, rows, rows.len() - 1));
    }
}

/// Two canonical runs of rows whose first rows both end, with the same text from there on,
/// end their first rows alike.
proof fn lemma_rows_ends_agree(prev: Option<LineEnd>, strict: bool, a: Seq<RowEntry>, b: Seq<RowEntry>)
    requires
        rows_canon(prev, strict, a),
        rows_canon(prev, strict, b),
        a.len() > 0,
        b.len() > 0,
        a[0].1 is Some,
        b[0].1 is Some,
        end_text(a[0].1) + render_rows(a.drop_first()) == end_text(b[0].1) + render_rows(
            b.drop_first(),
        ),
    ensures
        a[0].1 == b[0].1,
{
    let ea = a[0].1->0;
    let eb = b[0].1->0;
    let ra = render_rows(a.drop_first());
    let rb = render_rows(b.drop_first());
    let xa = ea.spec_text() + ra;
    let yb = eb.spec_text() + rb;
    if ea == LineEnd::Cr && eb == LineEnd::CrLf {
        assert(xa =~= seq!['\r'] + ra);
        assert(yb =~= seq!['\r'] + (seq!['\n'] + rb));
        lemma_strip(seq!['\r'], ra, seq!['\n'] + rb);
        assert(ra[0] == '\n');
        if a.len() == 1 {
            assert(a.drop_first() =~= Seq::<RowEntry>::empty());
            assert(ra =~= Seq::<char>::empty());
        } else {
            lemma_canon_no_cr_lf(prev, strict, a);
        }
    } else if ea == LineEnd::CrLf && eb == LineEnd::Cr {
        assert(yb =~= seq!['\r'] + rb);
        assert(xa =~= seq!['\r'] + (seq!['\n'] + ra));
        lemma_strip(seq!['\r'], rb, seq!['\n'] + ra);
        assert(rb[0] == '\n');
        if b.len() == 1 {
            assert(b.drop_first() =~= Seq::<RowEntry>::empty());
            assert(rb =~= Seq::<char>::empty());
        } else {
            lemma_canon_no_cr_lf(prev, strict, b);
        }
    } else if ea != eb {
        assert(xa[0] == ea.spec_text()[0]);
        assert(yb[0] == eb.spec_text()[0]);
    }
}

/// Of two canonical runs of rows with the same text, one is empty only if both are.
proof fn lemma_rows_empty_side(prev: Option<LineEnd>, strict: bool, e: Seq<RowEntry>, f: Seq<RowEntry>)
    requires
        rows_canon(prev, strict, e),
        rows_canon(prev, strict, f),
        strict,
        e.len() == 0,
        render_rows(e) == render_rows(f),
    ensures
        f.len() == 0,
{
    if f.len() > 0 {
        lemma_canon_empty(prev, strict, e);
        lemma_canon_basic(prev, strict, f);
        assert(render_rows(e) =~= Seq::<char>::empty());
        lemma_rows_front(f);
        lemma_row_first(f[0].0);
        if f[0].1 is Some {
            assert(end_text(f[0].1).len() > 0);
        }
    }
}

/// Two non-empty canonical runs of rows with the same text start with the same row, and
/// the rest has the same text.
proof fn lemma_rows_first(prev: Option<LineEnd>, strict: bool, a: Seq<RowEntry>, b: Seq<RowEntry>)
    requires
        rows_canon(prev, strict, a),
        rows_canon(prev, strict, b),
        a.len() > 0,
        b.len() > 0,
        render_rows(a) == render_rows(b),
    ensures
        a[0] == b[0],
        render_rows(a.drop_first()) == render_rows(b.drop_first()),
        a[0].1 is None ==> a.len() == 1 && b.len() == 1,
{
    lemma_canon_basic(prev, strict, a);
    lemma_canon_basic(prev, strict, b);
    lemma_rows_front(a);
    lemma_rows_front(b);
    let a0 = a[0];
    let b0 = b[0];
    let ta = a.drop_first();
    let tb = b.drop_first();
    let ra = render_rows(ta);
    let rb = render_rows(tb);
    let xa = end_text(a0.1) + ra;
    let yb = end_text(b0.1) + rb;
    if a0.1 is None {
        assert(ta =~= Seq::<RowEntry>::empty());
        assert(xa =~= Seq::<char>::empty());
    } else {
        assert(xa[0] == a0.1->0.spec_text()[0]);
    }
    if b0.1 is None {
        assert(tb =~= Seq::<RowEntry>::empty());
        assert(yb =~= Seq::<char>::empty());
    } else {
        assert(yb[0] == b0.1->0.spec_text()[0]);
    }
    assert(render_rows(a) =~= render_row(a0.0) + xa);
    assert(render_rows(b) =~= render_row(b0.0) + yb);
    lemma_row_unique(a0.0, b0.0, xa, yb);
    if a0.1 is None || b0.1 is None {
        if a0.1 is None {
            assert(xa.len() == 0);
            assert(b0.1 is None);
        } else {
            assert(yb.len() == 0);
        }
    } else {
        lemma_rows_ends_agree(prev, strict, a, b);
        lemma_strip(a0.1->0.spec_text(), ra, rb);
    }
}

proof fn lemma_rows_unique(prev: Option<LineEnd>, strict: bool, a: Seq<RowEntry>, b: Seq<RowEntry>)
    requires
        rows_canon(prev, strict, a),
        rows_canon(prev, strict, b),
        strict || (a.len() > 0 && b.len() > 0),
        render_rows(a) == render_rows(b),
    ensures
        a == b,
    decreases a.len() + b.len(),
{
    if a.len() == 0 {
        lemma_rows_empty_side(prev, strict, a, b);
        assert(a =~= b);
    } else if b.len() == 0 {
        lemma_rows_empty_side(prev, strict, b, a);
    } else {
        lemma_rows_first(prev, strict, a, b);
        if a[0].1 is None {
            assert(a =~= b);
        } else {
            lemma_rows_canon_tail(prev, strict, a);
            lemma_rows_canon_tail(prev, strict, b);
            lemma_rows_unique(a[0].1, true, a.drop_first(), b.drop_first());
            assert(a =~= seq![a[0]] + a.drop_first());
            assert(b =~= seq![b[0]] + b.drop_first());
        }
    }
}

/// Rows that follow a CR cannot have a text that starts with LF.
proof fn lemma_canon_no_lf_first(strict: bool, rows: Seq<RowEntry>)
    requires
        rows_canon(Some(LineEnd::Cr), strict, rows),
    ensures
        !(render_rows(rows).len() > 0 && render_rows(rows)[0] == '\n'),
{
    reveal(rows_canon);
    if render_rows(rows).len() > 0 && render_rows(rows)[0] == '\n' {
        if rows.len() == 0 {
            assert(render_rows(rows) =~= Seq::<char>::empty());
        } else {
            lemma_rows_lf_first(rows);
            assert(end_before_in(Some(LineEnd::Cr), rows, 0) == Some(LineEnd::Cr));
        }
    }
}

proof fn lemma_model_canon(m: CsvModel)
    requires
        m.wf(),
        m.canonical(),
    ensures
        rows_canon(m.end_before(0), false, m.rows),
{
    reveal(rows_canon);
    assert forall|i: int| 0 <= i < m.rows.len() implies end_before_in(m.end_before(0), m.rows, i)
        == m.end_before(i) by {}
}

/// A text has one canonical reading: two well-formed canonical tables, both with or both
/// without a header, that render to the same text are the same table. So the table that
/// parsing gives is the only one its contract allows.
pub proof fn lemma_one_reading(a: CsvModel, b: CsvModel)
    requires
        a.wf(),
        b.wf(),
        a.canonical(),
        b.canonical(),
        a.header is Some == b.header is Some,
        a.render() == b.render(),
    ensures
        a == b,
{
    lemma_model_canon(a);
    lemma_model_canon(b);
    match (a.header, b.header) {
        (Some(ha), Some(hb)) => {
            let ra = render_rows(a.rows);
            let rb = render_rows(b.rows);
            let xa = ha.1.spec_text() + ra;
            let yb = hb.1.spec_text() + rb;
            assert(a.render() =~= render_row(ha.0) + xa);
            assert(b.render() =~= render_row(hb.0) + yb);
            assert(xa[0] == ha.1.spec_text()[0]);
            assert(yb[0] == hb.1.spec_text()[0]);
            lemma_row_unique(ha.0, hb.0, xa, yb);
            if ha.1 == hb.1 {
                lemma_strip(ha.1.spec_text(), ra, rb);
                lemma_rows_unique(Some(ha.1), false, a.rows, b.rows);
            } else if ha.1 == LineEnd::Cr && hb.1 == LineEnd::CrLf {
                assert(xa =~= seq!['\r'] + ra);
                assert(yb =~= seq!['\r'] + (seq!['\n'] + rb));
                lemma_strip(seq!['\r'], ra, seq!['\n'] + rb);
                assert(ra[0] == '\n');
                lemma_canon_no_lf_first(false, a.rows);
            } else if ha.1 == LineEnd::CrLf && hb.1 == LineEnd::Cr {
                assert(yb =~= seq!['\r'] + rb);
                assert(xa =~= seq!['\r'] + (seq!['\n'] + ra));
                lemma_strip(seq!['\r'], rb, seq!['\n'] + ra);
                assert(rb[0] == '\n');
                lemma_canon_no_lf_first(false, b.rows);
            }
        },
        _ => {
            lemma_rows_unique(None, false, a.rows, b.rows);
        },
    }
}

} // verus!
