//! The dataset parsed from xvg text — attributes plus a flat row-major buffer
//! of 32-bit sample patterns — and the zero-copy column and row views over it.

use vstd::prelude::*;

use crate::attrs::{
    apply_attr_line, empty_attrs, apply_attribute_line, Attributes, AttrsModel, XvgError,
};
use crate::text::{
    lemma_chars_deep_view, lemma_parsed_row_deep_view, lines_of, split_lines, sub_chars, tokenize,
    tokens_of, trim, trim_spec,
};

verus! {

broadcast use lemma_chars_deep_view, lemma_parsed_row_deep_view;

/// What one pass over the input yields: the attributes gathered from the
/// attribute lines, and the tokens of each data line, in order.
#[verifier::ext_equal]
pub ghost struct ScanModel {
    pub attrs: AttrsModel,
    pub rows: Seq<Seq<Seq<char>>>,
}

/// The scan before any line has been read.
pub open spec fn empty_scan() -> ScanModel {
    ScanModel { attrs: empty_attrs(), rows: Seq::empty() }
}

/// One line of the input: a line starting with `#` is a comment and changes
/// nothing; a line starting with `@` is an attribute line, applied to the
/// attributes without its marker and surrounding whitespace; every other line
/// (a blank one included) is a data row whose whitespace-separated tokens are
/// kept. `None` marks the one fatal case, a structurally corrupt attribute
/// line.
pub open spec fn scan_line(st: ScanModel, line: Seq<char>) -> Option<ScanModel> {
    if line.len() > 0 && line[0] == '#' {
        Some(st)
    } else if line.len() > 0 && line[0] == '@' {
        match apply_attr_line(st.attrs, trim_spec(line.skip(1))) {
            None => None,
            Some(a) => Some(ScanModel { attrs: a, ..st }),
        }
    } else {
        Some(ScanModel { rows: st.rows.push(tokens_of(line)), ..st })
    }
}

/// The lines of the input, read in order.
pub open spec fn scan_lines(ls: Seq<Seq<char>>) -> Option<ScanModel>
    decreases ls.len(),
{
    if ls.len() == 0 {
        Some(empty_scan())
    } else {
        match scan_lines(ls.drop_last()) {
            None => None,
            Some(st) => scan_line(st, ls.last()),
        }
    }
}

/// The single pass over the raw input text.
pub open spec fn scan_spec(text: Seq<char>) -> Option<ScanModel> {
    scan_lines(lines_of(text))
}

proof fn lemma_scan_none_persists(ls: Seq<Seq<char>>, k: int)
    requires
        0 <= k <= ls.len(),
        scan_lines(ls.take(k)) is None,
    ensures
        scan_lines(ls) is None,
    decreases ls.len() - k,
{
    if k == ls.len() {
        assert(ls.take(k) =~= ls);
    } else {
        assert(ls.take(k + 1).drop_last() =~= ls.take(k));
        lemma_scan_none_persists(ls, k + 1);
    }
}

/// The result of the scanning pass: attributes, and the tokens of each data
/// row. The numeric reading of the tokens is left to the caller; the dataset
/// is then assembled with [`Data::from_parsed_rows`].
pub struct Scan {
    pub attributes: Attributes,
    pub data_rows: Vec<Vec<Vec<char>>>,
}

impl Scan {
    /// The scan as mathematical values.
    pub open spec fn model(&self) -> ScanModel {
        ScanModel { attrs: self.attributes.model(), rows: self.data_rows.deep_view() }
    }
}

/// Read the xvg text once, gathering attributes and the tokens of every data
/// row, as [`scan_spec`] describes. The only failure is an attribute line
/// whose quoted value is never closed.
pub fn scan_xvg(text: &Vec<char>) -> (r: Result<Scan, XvgError>)
    ensures
        match r {
            Ok(s) => scan_spec(text@) == Some(s.model()),
            Err(e) => scan_spec(text@) is None && e == XvgError::MissingClosingQuote,
        },
{
    let lines = split_lines(text);
    let ghost ls = lines.deep_view();
    let mut attributes = Attributes::new();
    let mut data_rows: Vec<Vec<Vec<char>>> = Vec::new();
    let mut i: usize = 0;
    proof {
        assert(ls.take(0) =~= Seq::<Seq<char>>::empty());
        assert(Some(ScanModel { attrs: attributes.model(), rows: data_rows.deep_view() })
            =~~= scan_lines(ls.take(0)));
    }
    while i < lines.len()
        invariant
            i <= lines@.len(),
            ls == lines.deep_view(),
            ls == lines_of(text@),
            scan_lines(ls.take(i as int)) == Some(
                ScanModel { attrs: attributes.model(), rows: data_rows.deep_view() },
            ),
        decreases lines@.len() - i,
    {
        let ghost st_pre = ScanModel { attrs: attributes.model(), rows: data_rows.deep_view() };
        proof {
            assert(ls.take(i + 1).drop_last() =~= ls.take(i as int));
            assert(ls.take(i + 1).last() == ls[i as int]);
            assert(ls[i as int] == lines@[i as int]@);
        }
        let line = &lines[i];
        if line.len() > 0 && line[0] == '#' {
            // A comment line.
        } else if line.len() > 0 && line[0] == '@' {
            let stripped = sub_chars(line, 1, line.len());
            proof {
                assert(stripped@ =~= line@.skip(1));
            }
            let trimmed = trim(&stripped);
            match apply_attribute_line(&mut attributes, &trimmed) {
                Ok(_) => {
                    proof {
                        assert(scan_line(st_pre, ls[i as int]) =~~= Some(
                            ScanModel {
                                attrs: attributes.model(),
                                rows: data_rows.deep_view(),
                            },
                        ));
                    }
                },
                Err(e) => {
                    proof {
                        assert(scan_lines(ls.take(i + 1)) is None);
                        lemma_scan_none_persists(ls, i + 1);
                    }
                    return Err(e);
                },
            }
        } else {
            let toks = tokenize(line);
            let ghost old_rows = data_rows.deep_view();
            data_rows.push(toks);
            proof {
                assert(data_rows.deep_view() =~~= old_rows.push(tokens_of(ls[i as int])));
            }
        }
        proof {
            assert(scan_lines(ls.take(i + 1)) =~~= Some(
                ScanModel { attrs: attributes.model(), rows: data_rows.deep_view() },
            ));
        }
        i += 1;
    }
    proof {
        assert(ls.take(ls.len() as int) =~= ls);
    }
    Ok(Scan { attributes, data_rows })
}

/// The samples of one data row: the outcomes of its tokens that read as
/// numeric, in order.
pub open spec fn somes(row: Seq<Option<u32>>) -> Seq<u32>
    decreases row.len(),
{
    if row.len() == 0 {
        Seq::empty()
    } else {
        let rest = somes(row.drop_last());
        match row.last() {
            Some(v) => rest.push(v),
            None => rest,
        }
    }
}

/// All samples of all rows, row-major.
pub open spec fn flat_values(rows: Seq<Seq<Option<u32>>>) -> Seq<u32>
    decreases rows.len(),
{
    if rows.len() == 0 {
        Seq::empty()
    } else {
        flat_values(rows.drop_last()) + somes(rows.last())
    }
}

/// The column count, fixed by the first data row.
pub open spec fn cols_of(rows: Seq<Seq<Option<u32>>>) -> nat {
    if rows.len() == 0 {
        0
    } else {
        somes(rows.first()).len()
    }
}

/// A row never yields more samples than it has tokens.
pub proof fn lemma_somes_len(row: Seq<Option<u32>>)
    ensures
        somes(row).len() <= row.len(),
    decreases row.len(),
{
    if row.len() > 0 {
        lemma_somes_len(row.drop_last());
    }
}

/// Whether every data row yields the same number of samples as the first —
/// the shape under which the flat row-major buffer lines up with the declared
/// column and row counts.
pub open spec fn uniform_rows(rows: Seq<Seq<Option<u32>>>) -> bool {
    forall|i: int| 0 <= i < rows.len() ==> somes(#[trigger] rows[i]).len() == cols_of(rows)
}

/// Count the samples a row yields.
fn count_somes(row: &Vec<Option<u32>>) -> (n: usize)
    ensures
        n == somes(row@).len(),
{
    let mut n: usize = 0;
    let mut j: usize = 0;
    proof {
        assert(row@.take(0) =~= Seq::<Option<u32>>::empty());
    }
    while j < row.len()
        invariant
            j <= row@.len(),
            n == somes(row@.take(j as int)).len(),
        decreases row@.len() - j,
    {
        proof {
            assert(row@.take(j + 1).drop_last() =~= row@.take(j as int));
            assert(row@.take(j + 1).last() == row@[j as int]);
            lemma_somes_len(row@.take(j as int));
        }
        if row[j].is_some() {
            n += 1;
        }
        j += 1;
    }
    proof {
        assert(row@.take(row@.len() as int) =~= row@);
    }
    n
}

/// The always-available form of the row-width check: whether every data row
/// yields the same number of samples, so that no row silently shifts the
/// reading frame of the rows after it.
pub fn rows_uniform(parsed: &Vec<Vec<Option<u32>>>) -> (r: bool)
    ensures
        r == uniform_rows(parsed.deep_view()),
{
    let ghost dv = parsed.deep_view();
    if parsed.len() == 0 {
        return true;
    }
    let c0 = count_somes(&parsed[0]);
    proof {
        assert(dv.first() == dv[0]);
        assert(c0 == cols_of(dv));
    }
    let mut i: usize = 0;
    while i < parsed.len()
        invariant
            i <= dv.len(),
            dv == parsed.deep_view(),
            dv.len() > 0,
            c0 as nat == cols_of(dv),
            forall|j: int| 0 <= j < i ==> somes(#[trigger] dv[j]).len() == cols_of(dv),
        decreases dv.len() - i,
    {
        let c = count_somes(&parsed[i]);
        if c != c0 {
            assert(somes(dv[i as int]).len() != cols_of(dv));
            return false;
        }
        i += 1;
    }
    true
}

/// Under uniform rows the buffer holds exactly `cols × rows` samples.
pub proof fn lemma_uniform_flat_len(rows: Seq<Seq<Option<u32>>>)
    requires
        uniform_rows(rows),
    ensures
        flat_values(rows).len() == cols_of(rows) * rows.len(),
{
    if rows.len() > 0 {
        lemma_uniform_rows(rows, cols_of(rows));
    }
}

/// The data from an xvg file that is relevant for graphing: the attributes,
/// the declared column and row counts, and the flat row-major buffer of
/// sample patterns.
#[derive(Debug, Clone)]
pub struct Data {
    pub attributes: Attributes,
    pub cols: usize,
    pub rows: usize,
    pub array: Vec<u32>,
}

impl Data {
    /// Assemble the dataset from the attributes and the per-token parse
    /// outcomes of each data row: `Some` for a token that reads as a numeric
    /// sample, `None` for one that does not. Samples are kept in row order;
    /// the first row fixes the column count; every line counts as a row,
    /// whatever its width.
    pub fn from_parsed_rows(attributes: Attributes, parsed: &Vec<Vec<Option<u32>>>) -> (d: Data)
        ensures
            d.attributes == attributes,
            d.cols as nat == cols_of(parsed.deep_view()),
            d.rows == parsed.deep_view().len(),
            d.array@ == flat_values(parsed.deep_view()),
    {
        let ghost dv = parsed.deep_view();
        let mut cols: Option<usize> = None;
        let mut array: Vec<u32> = Vec::new();
        let mut i: usize = 0;
        proof {
            assert(dv.take(0) =~= Seq::<Seq<Option<u32>>>::empty());
            assert(array@ =~= flat_values(dv.take(0)));
        }
        while i < parsed.len()
            invariant
                i <= parsed@.len(),
                dv == parsed.deep_view(),
                array@ == flat_values(dv.take(i as int)),
                i == 0 <==> cols is None,
                i > 0 ==> (cols matches Some(c) && c as nat == somes(dv[0]).len()),
            decreases parsed@.len() - i,
        {
            let row = &parsed[i];
            let ghost row_s = dv[i as int];
            proof {
                assert(row_s == row@);
            }
            let mut j: usize = 0;
            let mut cnt: usize = 0;
            proof {
                assert(row_s.take(0) =~= Seq::<Option<u32>>::empty());
            }
            while j < row.len()
                invariant
                    j <= row@.len(),
                    row_s == row@,
                    dv == parsed.deep_view(),
                    i < parsed@.len(),
                    array@ == flat_values(dv.take(i as int)) + somes(row_s.take(j as int)),
                    cnt == somes(row_s.take(j as int)).len(),
                decreases row@.len() - j,
            {
                proof {
                    assert(row_s.take(j + 1).drop_last() =~= row_s.take(j as int));
                    assert(row_s.take(j + 1).last() == row_s[j as int]);
                    lemma_somes_len(row_s.take(j as int));
                }
                match row[j] {
                    Some(v) => {
                        array.push(v);
                        cnt += 1;
                    },
                    None => {},
                }
                j += 1;
            }
            proof {
                assert(row_s.take(row_s.len() as int) =~= row_s);
                assert(dv.take(i + 1).drop_last() =~= dv.take(i as int));
                assert(dv.take(i + 1).last() == dv[i as int]);
            }
            if cols.is_none() {
                cols = Some(cnt);
                proof {
                    assert(dv[0] == row_s);
                }
            }
            i += 1;
        }
        let rows = parsed.len();
        proof {
            assert(dv.take(dv.len() as int) =~= dv);
        }
        let cols_val = match cols {
            Some(c) => c,
            None => 0,
        };
        proof {
            if dv.len() > 0 {
                assert(dv.first() == dv[0]);
            }
        }
        Data { attributes, cols: cols_val, rows, array }
    }
}

/// For an input whose data rows all yield the same number of samples, the
/// column count equals that shared count, the row count is the number of data
/// rows, and the buffer holds exactly `cols × rows` samples.
pub proof fn lemma_uniform_rows(rows: Seq<Seq<Option<u32>>>, c: nat)
    requires
        rows.len() > 0,
        forall|i: int| 0 <= i < rows.len() ==> somes(#[trigger] rows[i]).len() == c,
    ensures
        cols_of(rows) == c,
        flat_values(rows).len() == c * rows.len(),
    decreases rows.len(),
{
    if rows.len() == 1 {
        assert(rows.drop_last().len() == 0);
        assert(flat_values(rows.drop_last()) == Seq::<u32>::empty());
        assert(rows.last() == rows[0]);
        assert(somes(rows[0]).len() == c);
        assert(flat_values(rows) == flat_values(rows.drop_last()) + somes(rows.last()));
        assert(flat_values(rows).len() == c);
    } else {
        let head = rows.drop_last();
        assert(forall|i: int| 0 <= i < head.len() ==> somes(#[trigger] head[i]).len() == c);
        assert(head.first() == rows.first());
        lemma_uniform_rows(head, c);
        assert(somes(rows.last()).len() == c);
        assert(c * head.len() + c == c * rows.len()) by (nonlinear_arith)
            requires
                head.len() + 1 == rows.len(),
        ;
    }
}


/// Whether a view walks one column (stepping through the rows) or one row
/// (stepping through the columns).
#[derive(Debug, Clone, Copy)]
pub enum ViewKind {
    Col(usize),
    Row(usize),
}

/// How many steps a view has: a column view is as long as the dataset has
/// rows, a row view as long as it has columns.
pub open spec fn view_len(d: Data, k: ViewKind) -> int {
    match k {
        ViewKind::Col(_) => d.rows as int,
        ViewKind::Row(_) => d.cols as int,
    }
}

/// The buffer position a view reads at step `s`.
pub open spec fn view_pos(d: Data, k: ViewKind, s: int) -> int {
    match k {
        ViewKind::Col(c) => d.cols as int * s + c,
        ViewKind::Row(r) => d.cols as int * r + s,
    }
}

/// The values a view yields from step `s` on: one value per step up to the
/// view's length, ending early at the first step whose buffer position lies
/// outside the stored data.
pub open spec fn produced_from(d: Data, k: ViewKind, s: int) -> Seq<u32>
    decreases view_len(d, k) - s,
{
    if s < view_len(d, k) {
        if 0 <= view_pos(d, k, s) < d.array@.len() {
            seq![d.array@[view_pos(d, k, s)]] + produced_from(d, k, s + 1)
        } else {
            Seq::empty()
        }
    } else {
        Seq::empty()
    }
}

/// A read-only cursor over one column or one row of a [`Data`].
#[derive(Debug, Clone, Copy)]
pub struct DataView<'d> {
    pub data: &'d Data,
    pub kind: ViewKind,
    pub step: usize,
}

impl Data {
    /// Return a column view of this dataset.
    pub fn col(&self, idx: usize) -> (v: DataView<'_>)
        ensures
            v.data == self,
            v.kind == ViewKind::Col(idx),
            v.step == 0,
    {
        DataView::col(self, idx)
    }

    /// Return a row view of this dataset.
    pub fn row(&self, idx: usize) -> (v: DataView<'_>)
        ensures
            v.data == self,
            v.kind == ViewKind::Row(idx),
            v.step == 0,
    {
        DataView::row(self, idx)
    }
}

impl<'d> DataView<'d> {
    /// Create a new column view of `data`.
    pub(crate) fn col(data: &'d Data, idx: usize) -> (v: DataView<'d>)
        ensures
            v.data == data,
            v.kind == ViewKind::Col(idx),
            v.step == 0,
    {
        DataView { data, kind: ViewKind::Col(idx), step: 0 }
    }

    /// Create a new row view of `data`.
    pub(crate) fn row(data: &'d Data, idx: usize) -> (v: DataView<'d>)
        ensures
            v.data == data,
            v.kind == ViewKind::Row(idx),
            v.step == 0,
    {
        DataView { data, kind: ViewKind::Row(idx), step: 0 }
    }

    /// Returns the length of this view.
    pub fn len(&self) -> (n: usize)
        ensures
            n == view_len(*self.data, self.kind),
    {
        match self.kind {
            ViewKind::Col(_) => self.data.rows,
            ViewKind::Row(_) => self.data.cols,
        }
    }

    /// Returns true if this view is empty.
    pub fn is_empty(&self) -> (r: bool)
        ensures
            r == (view_len(*self.data, self.kind) == 0),
    {
        self.len() == 0
    }

    /// Advance the cursor one step: past the view's length nothing changes
    /// and nothing is yielded; otherwise the value at the step's buffer
    /// position is yielded, or nothing when that position lies outside the
    /// stored data.
    pub fn next(&mut self) -> (r: Option<u32>)
        ensures
            old(self).step >= view_len(*old(self).data, old(self).kind) ==> {
                &&& r is None
                &&& *final(self) == *old(self)
            },
            old(self).step < view_len(*old(self).data, old(self).kind) ==> {
                &&& final(self).data == old(self).data
                &&& final(self).kind == old(self).kind
                &&& final(self).step == old(self).step + 1
                &&& r == {
                    let pos = view_pos(*old(self).data, old(self).kind, old(self).step as int);
                    if pos < old(self).data.array@.len() {
                        Some(old(self).data.array@[pos])
                    } else {
                        None::<u32>
                    }
                }
            },
    {
        let buf_len = self.data.array.len();
        match self.kind {
            ViewKind::Col(c) => {
                if self.step >= self.data.rows {
                    return None;
                }
                let v = match self.data.cols.checked_mul(self.step) {
                    Some(p) => match p.checked_add(c) {
                        Some(pos) => {
                            if pos < buf_len {
                                Some(self.data.array[pos])
                            } else {
                                None
                            }
                        },
                        None => None,
                    },
                    None => None,
                };
                self.step += 1;
                v
            },
            ViewKind::Row(r) => {
                if self.step >= self.data.cols {
                    return None;
                }
                let v = match self.data.cols.checked_mul(r) {
                    Some(p) => match p.checked_add(self.step) {
                        Some(pos) => {
                            if pos < buf_len {
                                Some(self.data.array[pos])
                            } else {
                                None
                            }
                        },
                        None => None,
                    },
                    None => None,
                };
                self.step += 1;
                v
            },
        }
    }

    /// The values this view yields from its current position to its end.
    pub fn values(&self) -> (r: Vec<u32>)
        ensures
            r@ == produced_from(*self.data, self.kind, self.step as int),
    {
        let mut out: Vec<u32> = Vec::new();
        let mut cur = *self;
        loop
            invariant_except_break
                cur.data == self.data,
                cur.kind == self.kind,
                self.step <= cur.step,
                produced_from(*self.data, self.kind, self.step as int) == out@ + produced_from(
                    *self.data,
                    self.kind,
                    cur.step as int,
                ),
            ensures
                out@ == produced_from(*self.data, self.kind, self.step as int),
            decreases view_len(*self.data, self.kind) - cur.step,
        {
            let ghost pre_step = cur.step as int;
            match cur.next() {
                Some(x) => {
                    proof {
                        assert(produced_from(*self.data, self.kind, pre_step) == seq![x]
                            + produced_from(*self.data, self.kind, pre_step + 1));
                    }
                    out.push(x);
                    proof {
                        assert(out@ + produced_from(*self.data, self.kind, cur.step as int)
                            =~= produced_from(*self.data, self.kind, self.step as int));
                    }
                },
                None => {
                    proof {
                        assert(produced_from(*self.data, self.kind, pre_step)
                            == Seq::<u32>::empty());
                        assert(out@ =~= out@ + Seq::<u32>::empty());
                    }
                    break;
                },
            }
        }
        out
    }
}

} // verus!
