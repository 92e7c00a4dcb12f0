//! Tables: rows of cells under one another.

use vstd::prelude::*;

use crate::ir::{align, concat, concat3, interleave, separators_stand_between_pieces, Ir, IrList, Layout};
use crate::math::{clamped, clamped_sum};
use crate::syntax::ColAlign;
use crate::text::{lemma_line_end, line_at, line_end, line_stop, lines_from, trim, trimmed};

verus! {

// ---- cells and rows ------------------------------------------------------------------------

/// A cell that spans lines.
#[derive(Debug, PartialEq, Eq)]
pub struct BlockCell {
    /// How far its later lines are indented under the start of the cell.
    pub hang: usize,
    pub ir: Ir,
}

/// A cell of a table.
#[derive(Debug, PartialEq, Eq)]
pub struct Cell {
    pub text: String,
    /// How many columns it takes.
    pub span: usize,
    /// How it is aligned, where it says so itself.
    pub align: Option<ColAlign>,
    pub block: Option<BlockCell>,
}

/// A row of a table.
#[derive(Debug, PartialEq, Eq)]
pub struct AlignRow {
    pub cells: Vec<Cell>,
    /// The line break that ends it.
    pub line_break: Option<String>,
    pub trailing_comment: Option<String>,
}

/// A row, or a line between rows.
#[derive(Debug, PartialEq, Eq)]
pub enum GridItem {
    Row(AlignRow),
    Passthrough(String),
}

/// The mathematical content of a [`BlockCell`].
pub struct Block {
    pub hang: int,
    pub layout: Layout,
}

/// The mathematical content of a [`Cell`].
pub struct Field {
    pub text: Seq<char>,
    pub span: int,
    pub align: Option<ColAlign>,
    pub block: Option<Block>,
}

/// The mathematical content of an [`AlignRow`].
pub struct Record {
    pub cells: Seq<Field>,
    pub line_break: Option<Seq<char>>,
    pub comment: Option<Seq<char>>,
}

/// The mathematical content of a [`GridItem`].
pub enum Strip {
    Row(Record),
    Line(Seq<char>),
}

impl View for Cell {
    type V = Field;

    open spec fn view(&self) -> Field {
        Field {
            text: self.text@,
            span: self.span as int,
            align: self.align,
            block: match self.block {
                Some(b) => Some(Block { hang: b.hang as int, layout: b.ir@ }),
                None => None,
            },
        }
    }
}

pub open spec fn fields(cells: Seq<Cell>) -> Seq<Field> {
    Seq::new(cells.len(), |i: int| cells[i]@)
}

pub open spec fn text_of(text: Option<String>) -> Option<Seq<char>> {
    match text {
        Some(text) => Some(text@),
        None => None,
    }
}

impl View for AlignRow {
    type V = Record;

    open spec fn view(&self) -> Record {
        Record {
            cells: fields(self.cells@),
            line_break: text_of(self.line_break),
            comment: text_of(self.trailing_comment),
        }
    }
}

impl View for GridItem {
    type V = Strip;

    open spec fn view(&self) -> Strip {
        match self {
            GridItem::Row(row) => Strip::Row(row@),
            GridItem::Passthrough(text) => Strip::Line(text@),
        }
    }
}

pub open spec fn strips(items: Seq<GridItem>) -> Seq<Strip> {
    Seq::new(items.len(), |i: int| items[i]@)
}

/// The cells of a table take columns.
pub open spec fn spans_ok(items: Seq<Strip>) -> bool {
    forall|i: int, k: int|
        0 <= i < items.len() && items[i] is Row && 0 <= k < items[i]->Row_0.cells.len()
            ==> (#[trigger] items[i]->Row_0.cells[k]).span >= 1
}

// ---- column widths -------------------------------------------------------------------------

/// The width of column `c`. A column that no cell has set takes no room.
pub open spec fn width_at(widths: Seq<int>, c: int) -> int {
    if 0 <= c < widths.len() {
        widths[c]
    } else {
        0
    }
}

/// The widths once column `c` takes at least `width`.
pub open spec fn widened(widths: Seq<int>, c: int, width: int) -> Seq<int> {
    Seq::new(
        if c + 1 > widths.len() {
            (c + 1) as nat
        } else {
            widths.len()
        },
        |i: int| if i == c && width > width_at(widths, c) {
            width
        } else {
            width_at(widths, i)
        },
    )
}

/// The column in which cell `k` starts.
pub open spec fn column_of(cells: Seq<Field>, k: int) -> int
    decreases k,
{
    if k <= 0 {
        0
    } else {
        clamped(column_of(cells, k - 1) + cells[k - 1].span)
    }
}

/// The widths that the first `k` cells of a row ask for. Cells over several columns and cells
/// over several lines ask for none.
pub open spec fn row_widths(cells: Seq<Field>, k: int, widths: Seq<int>) -> Seq<int>
    decreases k,
{
    if k <= 0 {
        widths
    } else {
        let before = row_widths(cells, k - 1, widths);
        if cells[k - 1].span == 1 && cells[k - 1].block is None {
            widened(before, column_of(cells, k - 1), cells[k - 1].text.len() as int)
        } else {
            before
        }
    }
}

/// The widths that the first `k` items ask for.
pub open spec fn grid_widths(items: Seq<Strip>, k: int) -> Seq<int>
    decreases k,
{
    if k <= 0 {
        Seq::empty()
    } else {
        match items[k - 1] {
            Strip::Row(row) => row_widths(row.cells, row.cells.len() as int, grid_widths(items, k - 1)),
            Strip::Line(_) => grid_widths(items, k - 1),
        }
    }
}

/// The widths of the columns from `lo` up to `hi`, added up.
pub open spec fn width_sum(widths: Seq<int>, lo: int, hi: int) -> int
    decreases hi - lo,
{
    if lo >= hi {
        0
    } else {
        width_sum(widths, lo, hi - 1) + width_at(widths, hi - 1)
    }
}

/// How wide a cell over `span` columns is, with the separators that it covers.
pub open spec fn field_width(widths: Seq<int>, c: int, span: int) -> int {
    clamped(width_sum(widths, c, c + span) + 3 * (span - 1))
}

/// How wide a row is. A first column without content takes no separator's space.
pub open spec fn grid_width(widths: Seq<int>) -> int {
    let n = widths.len() as int;
    let full = clamped(width_sum(widths, 0, n) + if n > 0 {
        3 * (n - 1)
    } else {
        0
    });
    if n > 1 && widths[0] == 0 && full > 0 {
        full - 1
    } else {
        full
    }
}

/// The widths as numbers that a machine holds.
pub open spec fn ints(widths: Seq<usize>) -> Seq<int> {
    Seq::new(widths.len(), |i: int| widths[i] as int)
}

fn widen(widths: Vec<usize>, c: usize, width: usize) -> (r: Vec<usize>)
    ensures
        ints(r@) == widened(ints(widths@), c as int, width as int),
{
    let ghost before = widths@;
    let mut widths = widths;
    while c >= widths.len()
        invariant
            widths@.len() >= before.len(),
            widths@.len() <= before.len() || widths@.len() <= c + 1,
            forall|i: int| 0 <= i < widths@.len() ==> #[trigger] widths@[i] == width_at(ints(before), i),
        decreases c + 1 - widths@.len(),
    {
        widths.push(0);
    }
    assert(widths@[c as int] == width_at(ints(before), c as int));
    if width > widths[c] {
        widths.set(c, width);
    }
    assert(ints(widths@) =~= widened(ints(before), c as int, width as int));
    widths
}

fn count_chars(text: &String) -> (r: usize)
    ensures
        r == text@.len(),
{
    text.as_str().unicode_len()
}

fn collect_row_widths(cells: &Vec<Cell>, start: Vec<usize>) -> (r: Vec<usize>)
    ensures
        ints(r@) == row_widths(fields(cells@), cells@.len() as int, ints(start@)),
{
    let ghost first = ints(start@);
    let mut widths = start;
    let mut c: usize = 0;
    let mut k: usize = 0;
    while k < cells.len()
        invariant
            k <= cells@.len(),
            c == column_of(fields(cells@), k as int),
            ints(widths@) == row_widths(fields(cells@), k as int, first),
        decreases cells@.len() - k,
    {
        let cell = &cells[k];
        assert(fields(cells@)[k as int] == cell@);
        if cell.span == 1 && cell.block.is_none() {
            widths = widen(widths, c, count_chars(&cell.text));
        }
        c = clamped_sum(c, cell.span);
        k = k + 1;
    }
    widths
}

fn collect_widths(items: &Vec<GridItem>) -> (r: Vec<usize>)
    ensures
        ints(r@) == grid_widths(strips(items@), items@.len() as int),
{
    let mut widths: Vec<usize> = Vec::new();
    assert(ints(widths@) =~= Seq::<int>::empty());
    let mut k: usize = 0;
    while k < items.len()
        invariant
            k <= items@.len(),
            ints(widths@) == grid_widths(strips(items@), k as int),
        decreases items@.len() - k,
    {
        assert(strips(items@)[k as int] == items@[k as int]@);
        match &items[k] {
            GridItem::Row(row) => {
                widths = collect_row_widths(&row.cells, widths);
            },
            GridItem::Passthrough(_) => {},
        }
        k = k + 1;
    }
    widths
}

proof fn lemma_width_sum_rest(widths: Seq<int>, lo: int, mid: int, hi: int)
    requires
        lo <= mid <= hi,
        mid >= widths.len(),
    ensures
        width_sum(widths, lo, hi) == width_sum(widths, lo, mid),
    decreases hi - mid,
{
    if mid < hi {
        lemma_width_sum_rest(widths, lo, mid, hi - 1);
    }
}

proof fn lemma_width_sum_grows(widths: Seq<usize>, lo: int, hi: int)
    ensures
        width_sum(ints(widths), lo, hi) >= 0,
    decreases hi - lo,
{
    if lo < hi {
        lemma_width_sum_grows(widths, lo, hi - 1);
    }
}

/// The widths of `span` columns from `c` on, added up.
fn sum_widths(widths: &Vec<usize>, c: usize, span: usize) -> (r: usize)
    ensures
        r == clamped(width_sum(ints(widths@), c as int, c + span)),
{
    let mut sum: usize = 0;
    let mut i: usize = c;
    let mut left: usize = span;
    while left > 0 && i < widths.len()
        invariant
            left <= span,
            i <= widths@.len() || left == span,
            i == c + (span - left),
            sum == clamped(width_sum(ints(widths@), c as int, i as int)),
        decreases left,
    {
        proof {
            lemma_width_sum_grows(widths@, c as int, i as int);
            assert(ints(widths@)[i as int] == widths@[i as int]);
        }
        sum = clamped_sum(sum, widths[i]);
        i = i + 1;
        left = left - 1;
    }
    proof {
        lemma_width_sum_grows(widths@, c as int, i as int);
        if left > 0 {
            lemma_width_sum_rest(ints(widths@), c as int, i as int, c + span);
        }
    }
    sum
}

/// A width with the separators between `count` columns added.
fn with_separators(sum: usize, count: usize) -> (r: usize)
    requires
        count >= 1,
    ensures
        r == clamped(sum + 3 * (count - 1)),
{
    clamped_sum(clamped_sum(clamped_sum(sum, count - 1), count - 1), count - 1)
}

fn measure_field(widths: &Vec<usize>, c: usize, span: usize) -> (r: usize)
    requires
        span >= 1,
    ensures
        r == field_width(ints(widths@), c as int, span as int),
{
    proof {
        lemma_width_sum_grows(widths@, c as int, c + span);
    }
    with_separators(sum_widths(widths, c, span), span)
}

fn measure_grid(widths: &Vec<usize>) -> (r: usize)
    ensures
        r == grid_width(ints(widths@)),
{
    proof {
        lemma_width_sum_grows(widths@, 0, widths@.len() as int);
        if widths@.len() > 0 {
            assert(ints(widths@)[0] == widths@[0]);
        }
    }
    let n: usize = widths.len();
    let sum: usize = sum_widths(widths, 0, n);
    let full: usize = if n > 0 {
        with_separators(sum, n)
    } else {
        sum
    };
    if n > 1 && widths[0] == 0 && full > 0 {
        full - 1
    } else {
        full
    }
}

// ---- rows on lines -------------------------------------------------------------------------

pub open spec fn blanks(n: int) -> Seq<char> {
    Seq::new(
        if n > 0 {
            n as nat
        } else {
            0
        },
        |i: int| ' ',
    )
}

fn push_blanks(line: &mut String, n: usize)
    ensures
        final(line)@ == old(line)@ + blanks(n as int),
{
    let ghost before = line@;
    let mut i: usize = 0;
    assert(before + blanks(0) =~= before);
    proof {
        reveal_strlit(" ");
    }
    while i < n
        invariant
            i <= n,
            " "@ =~= seq![' '],
            line@ == before + blanks(i as int),
        decreases n - i,
    {
        line.append(" ");
        i = i + 1;
        assert(line@ =~= before + blanks(i as int));
    }
}

/// What stands between two cells.
pub open spec fn separator(line: Seq<char>) -> Seq<char> {
    if line.len() == 0 {
        seq!['&', ' ']
    } else {
        seq![' ', '&', ' ']
    }
}

/// The room before and behind a text of `width` in a field.
pub open spec fn padding(field: int, width: int, align: ColAlign) -> (int, int) {
    let pad = if field > width {
        field - width
    } else {
        0
    };
    match align {
        ColAlign::Left => (0, pad),
        ColAlign::Right => (pad, 0),
        ColAlign::Center => (pad / 2, pad - pad / 2),
    }
}

pub open spec fn align_of(cell: Field, aligns: Seq<ColAlign>, c: int) -> ColAlign {
    match cell.align {
        Some(align) => align,
        None => if 0 <= c < aligns.len() {
            aligns[c]
        } else {
            ColAlign::Left
        },
    }
}

/// A line with a cell behind it. The last cell has no room behind it.
pub open spec fn with_cell(line: Seq<char>, cell: Field, c: int, last: bool, widths: Seq<int>, aligns: Seq<ColAlign>) -> Seq<
    char,
> {
    let (before, behind) = padding(
        field_width(widths, c, cell.span),
        cell.text.len() as int,
        align_of(cell, aligns, c),
    );
    line + blanks(before) + cell.text + blanks(
        if last {
            0
        } else {
            behind
        },
    )
}

/// The cells from `k` on behind `line`, up to a cell over several lines.
pub open spec fn cell_line(cells: Seq<Field>, k: int, line: Seq<char>, widths: Seq<int>, aligns: Seq<ColAlign>) -> (
    Seq<char>,
    Option<Layout>,
)
    decreases cells.len() - k,
{
    if k < 0 || k >= cells.len() {
        (line, None)
    } else {
        let line = if k > 0 {
            line + separator(line)
        } else {
            line
        };
        match cells[k].block {
            Some(block) => (line, Some(align(clamped(line.len() + block.hang), block.layout))),
            None => cell_line(
                cells,
                k + 1,
                with_cell(line, cells[k], column_of(cells, k), k == cells.len() - 1, widths, aligns),
                widths,
                aligns,
            ),
        }
    }
}

pub open spec fn behind_space(text: Option<Seq<char>>) -> Seq<char> {
    match text {
        Some(text) => seq![' '] + text,
        None => Seq::empty(),
    }
}

/// A row on its line, with the line break and the comment behind the last column.
pub open spec fn row_line(row: Record, widths: Seq<int>, aligns: Seq<ColAlign>) -> Layout {
    let (line, block) = cell_line(row.cells, 0, Seq::empty(), widths, aligns);
    let tail = behind_space(row.line_break) + behind_space(row.comment);
    match block {
        Some(block) => concat3(Layout::Text(line), block, Layout::Text(tail)),
        None => Layout::Text(
            line + (if row.line_break is Some {
                blanks(grid_width(widths) - line.len())
            } else {
                Seq::empty()
            }) + tail,
        ),
    }
}

/// The lines of a text without white space at their ends.
pub open spec fn text_lines(lines: Seq<Seq<char>>) -> Seq<Layout> {
    Seq::new(lines.len(), |i: int| Layout::Text(trimmed(lines[i])))
}

pub open spec fn strip_layout(item: Strip, widths: Seq<int>, aligns: Seq<ColAlign>) -> Layout {
    match item {
        Strip::Row(row) => row_line(row, widths, aligns),
        Strip::Line(text) => concat(interleave(Layout::HardLine, text_lines(lines_from(text, 0)))),
    }
}

/// A table: each item on lines of its own, the cells of a column under one another.
pub open spec fn table(items: Seq<Strip>, aligns: Seq<ColAlign>) -> Layout {
    let widths = grid_widths(items, items.len() as int);
    concat(
        interleave(Layout::HardLine, Seq::new(items.len(), |i: int| strip_layout(items[i], widths, aligns))),
    )
}

fn push_separator(line: &mut String)
    ensures
        final(line)@ == old(line)@ + separator(old(line)@),
{
    proof {
        reveal_strlit("& ");
        reveal_strlit(" & ");
        assert("& "@ =~= seq!['&', ' ']);
        assert(" & "@ =~= seq![' ', '&', ' ']);
    }
    if line.as_str().unicode_len() == 0 {
        line.append("& ");
    } else {
        line.append(" & ");
    }
}

fn pad_field(field: usize, width: usize, align: ColAlign) -> (r: (usize, usize))
    ensures
        (r.0 as int, r.1 as int) == padding(field as int, width as int, align),
{
    let pad: usize = if field > width {
        field - width
    } else {
        0
    };
    match align {
        ColAlign::Left => (0, pad),
        ColAlign::Right => (pad, 0),
        ColAlign::Center => (pad / 2, pad - pad / 2),
    }
}

fn push_cell(line: &mut String, cell: &Cell, c: usize, last: bool, widths: &Vec<usize>, aligns: &Vec<ColAlign>)
    requires
        cell.span >= 1,
    ensures
        final(line)@ == with_cell(old(line)@, cell@, c as int, last, ints(widths@), aligns@),
{
    let ghost before = line@;
    let align = match cell.align {
        Some(align) => align,
        None => if c < aligns.len() {
            aligns[c]
        } else {
            ColAlign::Left
        },
    };
    let field: usize = measure_field(widths, c, cell.span);
    let (leading, trailing) = pad_field(field, count_chars(&cell.text), align);
    push_blanks(line, leading);
    line.append(cell.text.as_str());
    push_blanks(
        line,
        if last {
            0
        } else {
            trailing
        },
    );
}

fn push_behind_space(tail: &mut String, text: &Option<String>)
    ensures
        final(tail)@ == old(tail)@ + behind_space(text_of(*text)),
{
    let ghost before = tail@;
    proof {
        reveal_strlit(" ");
        assert(" "@ =~= seq![' ']);
    }
    match text {
        Some(text) => {
            tail.append(" ");
            tail.append(text.as_str());
            assert(tail@ =~= before + (seq![' '] + text@));
        },
        None => {
            assert(before + Seq::<char>::empty() =~= before);
        },
    }
}

fn render_cells(cells: &Vec<Cell>, widths: &Vec<usize>, aligns: &Vec<ColAlign>) -> (r: (String, Option<Ir>))
    requires
        forall|k: int| 0 <= k < cells@.len() ==> (#[trigger] cells@[k]).span >= 1,
    ensures
        ({
            let (line, block) = cell_line(fields(cells@), 0, Seq::empty(), ints(widths@), aligns@);
            &&& r.0@ == line
            &&& r.1 is Some == block is Some
            &&& r.1 matches Some(ir) ==> block == Some(ir@)
        }),
{
    let ghost all = cell_line(fields(cells@), 0, Seq::empty(), ints(widths@), aligns@);
    let mut line = String::new();
    let mut c: usize = 0;
    let mut k: usize = 0;
    assert(line@ =~= Seq::<char>::empty());
    while k < cells.len()
        invariant
            k <= cells@.len(),
            forall|k: int| 0 <= k < cells@.len() ==> (#[trigger] cells@[k]).span >= 1,
            c == column_of(fields(cells@), k as int),
            all == cell_line(fields(cells@), 0, Seq::empty(), ints(widths@), aligns@),
            cell_line(fields(cells@), k as int, line@, ints(widths@), aligns@) == all,
        decreases cells@.len() - k,
    {
        let cell = &cells[k];
        assert(fields(cells@)[k as int] == cell@);
        if k > 0 {
            push_separator(&mut line);
        }
        match &cell.block {
            Some(block) => {
                let width: usize = clamped_sum(count_chars(&line), block.hang);
                return (line, Some(Ir::align(width, block.ir.clone())));
            },
            None => {},
        }
        push_cell(&mut line, cell, c, k == cells.len() - 1, widths, aligns);
        c = clamped_sum(c, cell.span);
        k = k + 1;
    }
    (line, None)
}

fn render_row(row: &AlignRow, widths: &Vec<usize>, aligns: &Vec<ColAlign>) -> (r: Ir)
    requires
        forall|k: int| 0 <= k < row.cells@.len() ==> (#[trigger] row.cells@[k]).span >= 1,
    ensures
        r@ == row_line(row@, ints(widths@), aligns@),
{
    let (mut line, block) = render_cells(&row.cells, widths, aligns);
    let mut tail = String::new();
    assert(tail@ =~= Seq::<char>::empty());
    push_behind_space(&mut tail, &row.line_break);
    push_behind_space(&mut tail, &row.trailing_comment);
    let ghost want = behind_space(row@.line_break) + behind_space(row@.comment);
    assert(tail@ =~= want);
    match block {
        Some(block) => Ir::concat3(Ir::Text(line), block, Ir::Text(tail)),
        None => {
            let ghost before = line@;
            if row.line_break.is_some() {
                let full: usize = measure_grid(widths);
                let n: usize = count_chars(&line);
                if full > n {
                    push_blanks(&mut line, full - n);
                } else {
                    assert(line@ =~= before + blanks(full - n));
                }
            } else {
                assert(line@ =~= before + Seq::<char>::empty());
            }
            line.append(tail.as_str());
            Ir::Text(line)
        },
    }
}

fn render_lines(text: &str) -> (r: Ir)
    ensures
        r@ == concat(interleave(Layout::HardLine, text_lines(lines_from(text@, 0)))),
{
    let ghost all = text_lines(lines_from(text@, 0));
    let n: usize = text.unicode_len();
    let mut out = IrList::new();
    let mut i: usize = 0;
    assert(out@ + all =~= all);
    while i < n
        invariant
            n == text@.len(),
            i <= n,
            out@ + text_lines(lines_from(text@, i as int)) == all,
        decreases n - i,
    {
        let ghost before = out@;
        let ghost start = i as int;
        let (line, next) = line_at(text, i);
        out.push(Ir::Text(trim(line).to_owned()));
        proof {
            lemma_line_end(text@, start);
            let first = text@.subrange(start, line_stop(text@, start));
            if line_end(text@, start) < n {
                let rest = lines_from(text@, next as int);
                assert(text_lines(seq![first] + rest) =~= seq![Layout::Text(trimmed(first))] + text_lines(rest));
                assert(out@ + text_lines(rest) =~= before + text_lines(seq![first] + rest));
            } else {
                assert(lines_from(text@, next as int) =~= Seq::<Seq<char>>::empty());
                assert(text_lines(seq![first]) =~= seq![Layout::Text(trimmed(first))]);
                assert(out@ + text_lines(lines_from(text@, next as int)) =~= before + text_lines(seq![first]));
            }
        }
        i = next;
    }
    assert(out@ + text_lines(lines_from(text@, n as int)) =~= out@);
    Ir::join(Ir::HardLine, out)
}

pub fn render_alignment_rows(items: &Vec<GridItem>, aligns: &Vec<ColAlign>) -> (r: Ir)
    requires
        spans_ok(strips(items@)),
    ensures
        r@ == table(strips(items@), aligns@),
{
    let widths = collect_widths(items);
    let ghost all = strips(items@);
    let ghost want = Seq::new(all.len(), |i: int| strip_layout(all[i], ints(widths@), aligns@));
    let mut lines = IrList::new();
    let mut k: usize = 0;
    while k < items.len()
        invariant
            k <= items@.len(),
            all == strips(items@),
            spans_ok(all),
            want == Seq::new(all.len(), |i: int| strip_layout(all[i], ints(widths@), aligns@)),
            lines@ =~= want.take(k as int),
        decreases items@.len() - k,
    {
        assert(all[k as int] == items@[k as int]@);
        let ir = match &items[k] {
            GridItem::Row(row) => {
                assert forall|j: int| 0 <= j < row.cells@.len() implies (#[trigger] row.cells@[j]).span >= 1 by {
                    assert(all[k as int]->Row_0.cells[j].span >= 1);
                }
                render_row(row, &widths, aligns)
            },
            GridItem::Passthrough(text) => render_lines(text.as_str()),
        };
        lines.push(ir);
        k = k + 1;
    }
    assert(lines@ =~= want);
    Ir::join(Ir::HardLine, lines)
}

// ---- laws ----------------------------------------------------------------------------------

proof fn lemma_row_widths_grow(cells: Seq<Field>, k: int, widths: Seq<int>, c: int)
    requires
        0 <= k <= cells.len(),
    ensures
        width_at(row_widths(cells, k, widths), c) >= width_at(widths, c),
    decreases k,
{
    if k > 0 {
        lemma_row_widths_grow(cells, k - 1, widths, c);
    }
}

proof fn lemma_row_widths_hold(cells: Seq<Field>, n: int, widths: Seq<int>, k: int)
    requires
        0 <= k < n <= cells.len(),
        cells[k].span == 1,
        cells[k].block is None,
        column_of(cells, k) >= 0,
    ensures
        width_at(row_widths(cells, n, widths), column_of(cells, k)) >= cells[k].text.len(),
    decreases n,
{
    if k < n - 1 {
        lemma_row_widths_hold(cells, n - 1, widths, k);
    }
}

proof fn lemma_column_of(cells: Seq<Field>, k: int)
    requires
        0 <= k <= cells.len(),
        forall|j: int| 0 <= j < cells.len() ==> (#[trigger] cells[j]).span >= 1,
    ensures
        column_of(cells, k) >= 0,
    decreases k,
{
    if k > 0 {
        lemma_column_of(cells, k - 1);
    }
}

/// A column is as wide as each cell that stands in it alone on one line, in every row.
pub proof fn columns_hold_their_cells(items: Seq<Strip>, n: int, i: int, k: int)
    requires
        spans_ok(items),
        0 <= i < n <= items.len(),
        items[i] is Row,
        0 <= k < items[i]->Row_0.cells.len(),
        items[i]->Row_0.cells[k].span == 1,
        items[i]->Row_0.cells[k].block is None,
    ensures
        width_at(grid_widths(items, n), column_of(items[i]->Row_0.cells, k)) >= items[i]->Row_0.cells[k].text.len(),
    decreases n,
{
    let cells = items[i]->Row_0.cells;
    let c = column_of(cells, k);
    assert forall|j: int| 0 <= j < cells.len() implies (#[trigger] cells[j]).span >= 1 by {
        assert(items[i]->Row_0.cells[j].span >= 1);
    }
    lemma_column_of(cells, k);
    if i < n - 1 {
        columns_hold_their_cells(items, n - 1, i, k);
        match items[n - 1] {
            Strip::Row(row) => {
                lemma_row_widths_grow(row.cells, row.cells.len() as int, grid_widths(items, n - 1), c);
            },
            Strip::Line(_) => {},
        }
    } else {
        lemma_row_widths_hold(cells, cells.len() as int, grid_widths(items, n - 1), k);
    }
}

/// Where column `k` starts: behind the columns before it and their separators.
pub open spec fn column_start(widths: Seq<int>, k: int) -> int
    decreases k,
{
    if k <= 0 {
        0
    } else {
        let end = column_start(widths, k - 1) + width_at(widths, k - 1);
        if end == 0 {
            2
        } else {
            end + 3
        }
    }
}

/// A row whose cells each take one column on one line.
pub open spec fn plain_row(cells: Seq<Field>) -> bool {
    forall|k: int| 0 <= k < cells.len() ==> (#[trigger] cells[k]).span == 1 && cells[k].block is None
}

/// The room before the text of a cell in its column.
pub open spec fn room_before(cells: Seq<Field>, k: int, widths: Seq<int>, aligns: Seq<ColAlign>) -> int {
    padding(width_at(widths, k), cells[k].text.len() as int, align_of(cells[k], aligns, k)).0
}

proof fn lemma_plain_columns(cells: Seq<Field>, k: int)
    requires
        plain_row(cells),
        0 <= k <= cells.len() <= usize::MAX,
    ensures
        column_of(cells, k) == k,
    decreases k,
{
    if k > 0 {
        lemma_plain_columns(cells, k - 1);
        assert(cells[k - 1].span == 1);
    }
}

/// A cell behind a line: the line stays, the text follows its room, and a cell that is not the
/// last one fills its column.
proof fn lemma_with_cell(led: Seq<char>, cell: Field, k: int, last: bool, widths: Seq<int>, aligns: Seq<ColAlign>)
    requires
        cell.span == 1,
        cell.text.len() <= width_at(widths, k) <= usize::MAX,
    ensures
        ({
            let next = with_cell(led, cell, k, last, widths, aligns);
            let before = padding(width_at(widths, k), cell.text.len() as int, align_of(cell, aligns, k)).0;
            let at = led.len() + before;
            &&& before >= 0
            &&& at + cell.text.len() <= next.len()
            &&& next.take(led.len() as int) == led
            &&& next.subrange(at, at + cell.text.len()) == cell.text
            &&& !last ==> next.len() == led.len() + width_at(widths, k)
            &&& forall|q: int| led.len() <= q < at ==> #[trigger] next[q] == ' '
            &&& forall|q: int| at + cell.text.len() <= q < next.len() ==> #[trigger] next[q] == ' '
        }),
{
    assert(width_sum(widths, k, k + 1) == width_sum(widths, k, k) + width_at(widths, k));
    assert(field_width(widths, k, 1) == width_at(widths, k));
    let next = with_cell(led, cell, k, last, widths, aligns);
    let (before, behind) = padding(width_at(widths, k), cell.text.len() as int, align_of(cell, aligns, k));
    let at = led.len() + before;
    assert(before + behind == width_at(widths, k) - cell.text.len());
    assert(next.subrange(at, at + cell.text.len()) =~= cell.text);
    assert(next.take(led.len() as int) =~= led);
}

/// How long the line is before cell `k`.
pub open spec fn line_length(widths: Seq<int>, k: int) -> int {
    if k <= 0 {
        0
    } else {
        column_start(widths, k - 1) + width_at(widths, k - 1)
    }
}

/// What parts cell `k` from what stands before it on the line: nothing in front of the first cell,
/// and an ampersand that has a blank before it unless it starts the line.
pub open spec fn parting(line: Seq<char>, k: int) -> Seq<char> {
    if k == 0 {
        Seq::empty()
    } else if line.len() == 0 {
        seq!['&', ' ']
    } else {
        seq![' ', '&', ' ']
    }
}

/// The line with cell `k` of a plain row behind it.
pub open spec fn line_with(
    cells: Seq<Field>,
    k: int,
    line: Seq<char>,
    widths: Seq<int>,
    aligns: Seq<ColAlign>,
) -> Seq<char> {
    with_cell(
        if k > 0 {
            line + separator(line)
        } else {
            line
        },
        cells[k],
        k,
        k == cells.len() - 1,
        widths,
        aligns,
    )
}

proof fn lemma_line_with(cells: Seq<Field>, k: int, line: Seq<char>, widths: Seq<int>, aligns: Seq<ColAlign>)
    requires
        plain_row(cells),
        0 <= k < cells.len() <= usize::MAX,
        cells[k].text.len() <= width_at(widths, k) <= usize::MAX,
        line.len() == line_length(widths, k),
    ensures
        ({
            let next = line_with(cells, k, line, widths, aligns);
            let at = column_start(widths, k) + room_before(cells, k, widths, aligns);
            &&& cell_line(cells, k, line, widths, aligns) == cell_line(cells, k + 1, next, widths, aligns)
            &&& line.len() <= next.len()
            &&& next.take(line.len() as int) == line
            &&& 0 <= at
            &&& at + cells[k].text.len() <= next.len()
            &&& next.subrange(at, at + cells[k].text.len()) == cells[k].text
            &&& next.len() <= line_length(widths, k + 1)
            &&& k < cells.len() - 1 ==> next.len() == line_length(widths, k + 1)
            &&& column_start(widths, k) <= at
            &&& line + parting(line, k) == next.take(column_start(widths, k))
            &&& forall|q: int| column_start(widths, k) <= q < at ==> #[trigger] next[q] == ' '
            &&& forall|q: int| at + cells[k].text.len() <= q < next.len() ==> #[trigger] next[q] == ' '
        }),
{
    let led = if k > 0 {
        line + separator(line)
    } else {
        line
    };
    let last = k == cells.len() - 1;
    lemma_plain_columns(cells, k);
    assert(cells[k].span == 1 && cells[k].block is None);
    assert(led.len() == column_start(widths, k));
    lemma_with_cell(led, cells[k], k, last, widths, aligns);
    lemma_last_cell(led, cells[k], k, widths, aligns);
    let next = line_with(cells, k, line, widths, aligns);
    assert(next.take(line.len() as int) =~= led.take(line.len() as int));
    assert(led.take(line.len() as int) =~= line);
    assert(led =~= line + parting(line, k));
}

proof fn lemma_cell_line(
    cells: Seq<Field>,
    k: int,
    j: int,
    line: Seq<char>,
    widths: Seq<int>,
    aligns: Seq<ColAlign>,
)
    requires
        plain_row(cells),
        cells.len() <= usize::MAX,
        forall|i: int| 0 <= i < cells.len() ==> (#[trigger] cells[i]).text.len() <= width_at(widths, i) <= usize::MAX,
        0 <= k <= cells.len(),
        0 <= j < cells.len(),
        k < cells.len() ==> line.len() == line_length(widths, k),
        line.len() <= line_length(widths, k),
    ensures
        ({
            let out = cell_line(cells, k, line, widths, aligns).0;
            let at = column_start(widths, j) + room_before(cells, j, widths, aligns);
            &&& cell_line(cells, k, line, widths, aligns).1 is None
            &&& line.len() <= out.len() <= line_length(widths, cells.len() as int)
            &&& out.take(line.len() as int) == line
            &&& k <= j ==> 0 <= at && at + cells[j].text.len() <= out.len() && out.subrange(
                at,
                at + cells[j].text.len(),
            ) == cells[j].text
            &&& k <= j ==> column_start(widths, j) <= at && out.len() >= column_start(widths, j) && out.take(
                column_start(widths, j),
            ) == out.take(line_length(widths, j)) + parting(out.take(line_length(widths, j)), j)
            &&& k <= j ==> forall|q: int| column_start(widths, j) <= q < at ==> #[trigger] out[q] == ' '
            &&& k <= j ==> forall|q: int|
                at + cells[j].text.len() <= q < column_start(widths, j) + width_at(widths, j) && q < out.len()
                    ==> #[trigger] out[q] == ' '
        }),
    decreases cells.len() - k,
{
    if k == cells.len() {
        assert(line.take(line.len() as int) =~= line);
    } else {
        assert(cells[k].text.len() <= width_at(widths, k) <= usize::MAX);
        lemma_line_with(cells, k, line, widths, aligns);
        let next = line_with(cells, k, line, widths, aligns);
        lemma_cell_line(cells, k + 1, j, next, widths, aligns);
        let out = cell_line(cells, k + 1, next, widths, aligns).0;
        assert(out.take(line.len() as int) =~= out.take(next.len() as int).take(line.len() as int));
        if j == k {
            let at = column_start(widths, k) + room_before(cells, k, widths, aligns);
            assert(out.subrange(at, at + cells[k].text.len()) =~= out.take(next.len() as int).subrange(
                at,
                at + cells[k].text.len(),
            ));
            let start = column_start(widths, k);
            assert(out.take(start) =~= out.take(next.len() as int).take(start));
            assert forall|q: int| start <= q < at implies #[trigger] out[q] == ' ' by {
                assert(out.take(next.len() as int)[q] == next[q]);
            }
            assert forall|q: int|
                at + cells[k].text.len() <= q < start + width_at(widths, k) && q < out.len() implies #[trigger] out[q]
                == ' ' by {
                assert(out.take(next.len() as int)[q] == next[q]);
            }
        }
    }
}

/// The text of each cell stands in its column, which starts at the same place in every row: in
/// front of it is only the room that its alignment asks for.
pub proof fn cells_of_a_column_stand_under_one_another(items: Seq<Strip>, aligns: Seq<ColAlign>, i: int, j: int)
    requires
        spans_ok(items),
        0 <= i < items.len(),
        items[i] is Row,
        plain_row(items[i]->Row_0.cells),
        0 <= j < items[i]->Row_0.cells.len() <= usize::MAX,
        forall|c: int| #[trigger] width_at(grid_widths(items, items.len() as int), c) <= usize::MAX,
    ensures
        ({
            let cells = items[i]->Row_0.cells;
            let widths = grid_widths(items, items.len() as int);
            let line = cell_line(cells, 0, Seq::empty(), widths, aligns).0;
            let at = column_start(widths, j) + room_before(cells, j, widths, aligns);
            0 <= at && at + cells[j].text.len() <= line.len() && line.subrange(at, at + cells[j].text.len())
                == cells[j].text
        }),
{
    let cells = items[i]->Row_0.cells;
    let widths = grid_widths(items, items.len() as int);
    assert forall|k: int| 0 <= k < cells.len() implies (#[trigger] cells[k]).text.len() <= width_at(widths, k)
        <= usize::MAX by {
        columns_hold_their_cells(items, items.len() as int, i, k);
        lemma_plain_columns(cells, k);
    }
    lemma_cell_line(cells, 0, j, Seq::empty(), widths, aligns);
}

proof fn lemma_row_widths_reach(cells: Seq<Field>, n: int, widths: Seq<int>)
    requires
        plain_row(cells),
        0 <= n <= cells.len() <= usize::MAX,
        forall|c: int| #[trigger] width_at(widths, c) >= 0,
    ensures
        row_widths(cells, n, widths).len() >= widths.len(),
        row_widths(cells, n, widths).len() >= n,
    decreases n,
{
    if n > 0 {
        lemma_row_widths_reach(cells, n - 1, widths);
        lemma_plain_columns(cells, n - 1);
        assert(cells[n - 1].span == 1 && cells[n - 1].block is None);
    }
}

proof fn lemma_row_widths_len(cells: Seq<Field>, n: int, widths: Seq<int>)
    requires
        0 <= n <= cells.len(),
    ensures
        row_widths(cells, n, widths).len() >= widths.len(),
    decreases n,
{
    if n > 0 {
        lemma_row_widths_len(cells, n - 1, widths);
    }
}

proof fn lemma_widths_positive(items: Seq<Strip>, n: int, c: int)
    requires
        0 <= n <= items.len(),
    ensures
        width_at(grid_widths(items, n), c) >= 0,
    decreases n,
{
    if n > 0 {
        lemma_widths_positive(items, n - 1, c);
        match items[n - 1] {
            Strip::Row(row) => {
                lemma_row_widths_grow(row.cells, row.cells.len() as int, grid_widths(items, n - 1), c);
            },
            Strip::Line(_) => {},
        }
    }
}

proof fn lemma_widths_reach(items: Seq<Strip>, n: int, i: int)
    requires
        0 <= i < n <= items.len(),
        items[i] is Row,
        plain_row(items[i]->Row_0.cells),
        items[i]->Row_0.cells.len() <= usize::MAX,
    ensures
        grid_widths(items, n).len() >= items[i]->Row_0.cells.len(),
    decreases n,
{
    if i < n - 1 {
        lemma_widths_reach(items, n - 1, i);
        match items[n - 1] {
            Strip::Row(row) => {
                lemma_row_widths_len(row.cells, row.cells.len() as int, grid_widths(items, n - 1));
            },
            Strip::Line(_) => {},
        }
    } else {
        let cells = items[i]->Row_0.cells;
        assert forall|c: int| #[trigger] width_at(grid_widths(items, n - 1), c) >= 0 by {
            lemma_widths_positive(items, n - 1, c);
        }
        lemma_row_widths_reach(cells, cells.len() as int, grid_widths(items, n - 1));
    }
}

/// Where a column ends, by the widths of the columns up to it.
proof fn lemma_column_end(widths: Seq<int>, k: int)
    requires
        0 <= k < widths.len(),
        forall|c: int| #[trigger] width_at(widths, c) >= 0,
    ensures
        column_start(widths, k) + width_at(widths, k) == width_sum(widths, 0, k + 1) + 3 * k - (if k >= 1 && widths[0]
            == 0 {
            1int
        } else {
            0
        }),
        k >= 1 ==> column_start(widths, k) >= 2,
        width_sum(widths, 0, k + 1) >= 0,
    decreases k,
{
    assert(width_at(widths, k) >= 0);
    assert(width_sum(widths, 0, k + 1) == width_sum(widths, 0, k) + width_at(widths, k));
    if k > 0 {
        lemma_column_end(widths, k - 1);
        assert(width_at(widths, k - 1) >= 0);
        if k == 1 {
            assert(width_sum(widths, 0, 1) == width_sum(widths, 0, 0) + width_at(widths, 0));
        }
    } else {
        assert(width_sum(widths, 0, 0) == 0);
    }
}

proof fn lemma_column_ends_grow(widths: Seq<int>, k: int, n: int)
    requires
        0 <= k <= n < widths.len(),
        forall|c: int| #[trigger] width_at(widths, c) >= 0,
    ensures
        column_start(widths, k) + width_at(widths, k) <= column_start(widths, n) + width_at(widths, n),
    decreases n - k,
{
    if k < n {
        lemma_column_ends_grow(widths, k, n - 1);
        assert(width_at(widths, n) >= 0);
    }
}

/// The last cell of a row stays in its column.
proof fn lemma_last_cell(led: Seq<char>, cell: Field, k: int, widths: Seq<int>, aligns: Seq<ColAlign>)
    requires
        cell.span == 1,
        cell.text.len() <= width_at(widths, k) <= usize::MAX,
    ensures
        with_cell(led, cell, k, true, widths, aligns).len() <= led.len() + width_at(widths, k),
{
    assert(width_sum(widths, k, k + 1) == width_sum(widths, k, k) + width_at(widths, k));
    assert(field_width(widths, k, 1) == width_at(widths, k));
}

/// The line breaks that end rows stand under one another: a row that has one is as wide as the
/// table before it.
pub proof fn rows_end_under_one_another(items: Seq<Strip>, aligns: Seq<ColAlign>, i: int)
    requires
        spans_ok(items),
        0 <= i < items.len(),
        items[i] is Row,
        items[i]->Row_0.line_break is Some,
        plain_row(items[i]->Row_0.cells),
        0 < items[i]->Row_0.cells.len() <= usize::MAX,
        forall|c: int| #[trigger] width_at(grid_widths(items, items.len() as int), c) <= usize::MAX,
        width_sum(grid_widths(items, items.len() as int), 0, grid_widths(items, items.len() as int).len() as int) + 3
            * grid_widths(items, items.len() as int).len() <= usize::MAX,
    ensures
        ({
            let row = items[i]->Row_0;
            let widths = grid_widths(items, items.len() as int);
            let line = cell_line(row.cells, 0, Seq::empty(), widths, aligns).0;
            let whole = line + blanks(grid_width(widths) - line.len());
            whole.len() == grid_width(widths) && row_line(row, widths, aligns) == Layout::Text(
                whole + (behind_space(row.line_break) + behind_space(row.comment)),
            )
        }),
{
    let row = items[i]->Row_0;
    let cells = row.cells;
    let widths = grid_widths(items, items.len() as int);
    let n = widths.len() as int;
    assert forall|k: int| 0 <= k < cells.len() implies (#[trigger] cells[k]).text.len() <= width_at(widths, k)
        <= usize::MAX by {
        columns_hold_their_cells(items, items.len() as int, i, k);
        lemma_plain_columns(cells, k);
    }
    assert forall|c: int| #[trigger] width_at(widths, c) >= 0 by {
        lemma_widths_positive(items, items.len() as int, c);
    }
    lemma_widths_reach(items, items.len() as int, i);
    lemma_cell_line(cells, 0, 0, Seq::empty(), widths, aligns);
    lemma_column_ends_grow(widths, cells.len() - 1, n - 1);
    lemma_column_end(widths, n - 1);
    assert(width_at(widths, 0) >= 0);
    assert(widths[0] == width_at(widths, 0));
}

/// Whether a cell in column `c` is to be aligned like this: a cell that says so itself comes
/// before its column, and a column that says nothing is on the left.
pub open spec fn asks_for(cell: Field, aligns: Seq<ColAlign>, c: int, wanted: ColAlign) -> bool {
    ||| cell.align == Some(wanted)
    ||| cell.align is None && 0 <= c < aligns.len() && aligns[c] == wanted
    ||| cell.align is None && c >= aligns.len() && wanted == ColAlign::Left
}

/// A text stands at a place in a line.
pub open spec fn stands_at(line: Seq<char>, at: int, text: Seq<char>) -> bool {
    0 <= at && at + text.len() <= line.len() && line.subrange(at, at + text.len()) == text
}

/// A line has nothing but blanks from `lo` up to `hi`.
pub open spec fn blank_between(line: Seq<char>, lo: int, hi: int) -> bool {
    forall|q: int| lo <= q < hi ==> 0 <= q < line.len() && #[trigger] line[q] == ' '
}

/// In every row, the text of a cell on the left starts where its column starts, that of a cell on
/// the right ends where its column ends, and that of a centred cell has the same room on both
/// sides up to one blank. The rest of the column is blank, except that nothing is added behind the
/// last cell of a row without a line break. The columns start at the same places in all rows.
pub proof fn cells_stand_in_their_columns_as_they_are_aligned(items: Seq<Strip>, aligns: Seq<ColAlign>, i: int, j: int)
    requires
        spans_ok(items),
        0 <= i < items.len(),
        items[i] is Row,
        plain_row(items[i]->Row_0.cells),
        0 <= j < items[i]->Row_0.cells.len() <= usize::MAX,
        forall|c: int| #[trigger] width_at(grid_widths(items, items.len() as int), c) <= usize::MAX,
    ensures
        ({
            let row = items[i]->Row_0;
            let cell = row.cells[j];
            let widths = grid_widths(items, items.len() as int);
            let line = strip_layout(items[i], widths, aligns)->Text_0;
            let start = column_start(widths, j);
            let end = start + width_at(widths, j);
            let n = cell.text.len() as int;
            &&& strip_layout(items[i], widths, aligns) is Text
            &&& asks_for(cell, aligns, j, ColAlign::Left) ==> stands_at(line, start, cell.text) && (j < row.cells.len() - 1
                ==> blank_between(line, start + n, end))
            &&& asks_for(cell, aligns, j, ColAlign::Right) ==> stands_at(line, end - n, cell.text) && blank_between(
                line,
                start,
                end - n,
            )
            &&& asks_for(cell, aligns, j, ColAlign::Center) ==> exists|at: int|
                {
                    &&& #[trigger] stands_at(line, at, cell.text)
                    &&& 0 <= at - start <= end - (at + n) <= at - start + 1
                    &&& blank_between(line, start, at)
                    &&& j < row.cells.len() - 1 ==> blank_between(line, at + n, end)
                }
        }),
{
    let row = items[i]->Row_0;
    let cells = row.cells;
    let cell = cells[j];
    let widths = grid_widths(items, items.len() as int);
    assert forall|k: int| 0 <= k < cells.len() implies (#[trigger] cells[k]).text.len() <= width_at(widths, k)
        <= usize::MAX by {
        columns_hold_their_cells(items, items.len() as int, i, k);
        lemma_plain_columns(cells, k);
    }
    lemma_cell_line(cells, 0, j, Seq::empty(), widths, aligns);
    let out = cell_line(cells, 0, Seq::empty(), widths, aligns).0;
    let line = strip_layout(items[i], widths, aligns)->Text_0;
    let start = column_start(widths, j);
    let end = start + width_at(widths, j);
    let n = cell.text.len() as int;
    let at = start + room_before(cells, j, widths, aligns);
    assert(line.subrange(at, at + n) =~= out.subrange(at, at + n));
    assert(start >= 0) by {
        assert forall|c: int| #[trigger] width_at(widths, c) >= 0 by {
            lemma_widths_positive(items, items.len() as int, c);
        }
        lemma_widths_reach(items, items.len() as int, i);
        lemma_column_end(widths, j);
    }
    assert forall|q: int| start <= q < at implies 0 <= q < line.len() && #[trigger] line[q] == ' ' by {
        assert(line[q] == out[q]);
    }
    assert(stands_at(line, at, cell.text));
    if j < cells.len() - 1 {
        lemma_cell_line(cells, 0, j + 1, Seq::empty(), widths, aligns);
        assert(column_start(widths, j + 1) > end || end == 0);
        assert(out.len() >= end);
        assert(blank_between(line, at + n, end));
    }
    assert(blank_between(line, start, at));
}

/// Between two cells of a row stands an ampersand with a blank on either side. Where nothing stands
/// before it on the line, it starts the line.
pub proof fn an_ampersand_parts_two_cells(items: Seq<Strip>, aligns: Seq<ColAlign>, i: int, j: int)
    requires
        spans_ok(items),
        0 <= i < items.len(),
        items[i] is Row,
        plain_row(items[i]->Row_0.cells),
        0 < j < items[i]->Row_0.cells.len() <= usize::MAX,
        forall|c: int| #[trigger] width_at(grid_widths(items, items.len() as int), c) <= usize::MAX,
    ensures
        ({
            let widths = grid_widths(items, items.len() as int);
            let line = strip_layout(items[i], widths, aligns)->Text_0;
            let end = column_start(widths, j - 1) + width_at(widths, j - 1);
            if end == 0 {
                stands_at(line, 0, seq!['&', ' ']) && column_start(widths, j) == 2
            } else {
                stands_at(line, end, seq![' ', '&', ' ']) && column_start(widths, j) == end + 3
            }
        }),
{
    let cells = items[i]->Row_0.cells;
    let widths = grid_widths(items, items.len() as int);
    assert forall|k: int| 0 <= k < cells.len() implies (#[trigger] cells[k]).text.len() <= width_at(widths, k)
        <= usize::MAX by {
        columns_hold_their_cells(items, items.len() as int, i, k);
        lemma_plain_columns(cells, k);
    }
    lemma_cell_line(cells, 0, j, Seq::empty(), widths, aligns);
    lemma_cell_line(cells, 0, j - 1, Seq::empty(), widths, aligns);
    let out = cell_line(cells, 0, Seq::empty(), widths, aligns).0;
    let line = strip_layout(items[i], widths, aligns)->Text_0;
    let end = line_length(widths, j);
    let start = column_start(widths, j);
    assert(cells[j - 1].text.len() <= width_at(widths, j - 1));
    assert(column_start(widths, j - 1) >= 0) by {
        assert forall|c: int| #[trigger] width_at(widths, c) >= 0 by {
            lemma_widths_positive(items, items.len() as int, c);
        }
        lemma_widths_reach(items, items.len() as int, i);
        lemma_column_end(widths, j - 1);
    }
    let head = out.take(start);
    let parts = out.take(end) + parting(out.take(end), j);
    assert(head == parts);
    assert(line.subrange(end, start) =~= head.subrange(end, start));
    assert(parts.subrange(end, start) =~= parting(out.take(end), j));
}

/// A cell over any number of columns takes at least the room of these columns and of the
/// separators between them. The room that its text leaves is in front of it where the cell is on
/// the right, behind it where it is on the left, and on both sides up to one blank where it is
/// centred; the last cell of a row has none behind it.
pub proof fn a_cell_takes_the_room_of_its_columns(
    cells: Seq<Field>,
    k: int,
    line: Seq<char>,
    widths: Seq<int>,
    aligns: Seq<ColAlign>,
)
    requires
        0 <= k < cells.len(),
        cells[k].block is None,
        cells[k].span >= 1,
        width_sum(widths, column_of(cells, k), column_of(cells, k) + cells[k].span) + 3 * (cells[k].span - 1) <= usize::MAX,
    ensures
        exists|before: int, behind: int|
            {
                let cell = cells[k];
                let c = column_of(cells, k);
                let room = width_sum(widths, c, c + cell.span) + 3 * (cell.span - 1);
                let free = if room > cell.text.len() {
                    room - cell.text.len()
                } else {
                    0
                };
                &&& 0 <= before && 0 <= behind
                &&& cell_line(cells, k, line, widths, aligns) == cell_line(
                    cells,
                    k + 1,
                    line + parting(line, k) + #[trigger] blanks(before) + cell.text + #[trigger] blanks(behind),
                    widths,
                    aligns,
                )
                &&& k == cells.len() - 1 ==> behind == 0
                &&& k < cells.len() - 1 ==> before + behind == free
                &&& asks_for(cell, aligns, c, ColAlign::Left) ==> before == 0
                &&& asks_for(cell, aligns, c, ColAlign::Right) ==> before == free
                &&& asks_for(cell, aligns, c, ColAlign::Center) ==> 2 * before <= free <= 2 * before + 1
            },
{
    let cell = cells[k];
    let c = column_of(cells, k);
    let (before, room) = padding(field_width(widths, c, cell.span), cell.text.len() as int, align_of(cell, aligns, c));
    let behind = if k == cells.len() - 1 {
        0
    } else {
        room
    };
    assert(line + parting(line, 0) =~= line);
    let next = line + parting(line, k) + blanks(before) + cell.text + blanks(behind);
    assert(cell_line(cells, k, line, widths, aligns) == cell_line(cells, k + 1, next, widths, aligns));
}

proof fn lemma_row_widths_attained(cells: Seq<Field>, n: int, widths: Seq<int>, c: int)
    requires
        0 <= n <= cells.len(),
        width_at(row_widths(cells, n, widths), c) > width_at(widths, c),
    ensures
        exists|k: int|
            0 <= k < n && (#[trigger] cells[k]).span == 1 && cells[k].block is None && column_of(cells, k) == c
                && cells[k].text.len() == width_at(row_widths(cells, n, widths), c),
    decreases n,
{
    if n > 0 {
        let before = row_widths(cells, n - 1, widths);
        if width_at(row_widths(cells, n, widths), c) == width_at(before, c) {
            lemma_row_widths_attained(cells, n - 1, widths, c);
            let k = choose|k: int|
                0 <= k < n - 1 && (#[trigger] cells[k]).span == 1 && cells[k].block is None && column_of(cells, k) == c
                    && cells[k].text.len() == width_at(before, c);
            assert(cells[k].span == 1);
        } else {
            assert(cells[n - 1].span == 1);
        }
    }
}

/// A column is no wider than the widest cell that stands in it alone on one line.
pub proof fn columns_are_no_wider_than_their_cells(items: Seq<Strip>, n: int, c: int)
    requires
        0 <= n <= items.len(),
        width_at(grid_widths(items, n), c) > 0,
    ensures
        exists|i: int, k: int|
            {
                &&& 0 <= i < n && items[i] is Row && 0 <= k < items[i]->Row_0.cells.len()
                &&& (#[trigger] items[i]->Row_0.cells[k]).span == 1
                &&& items[i]->Row_0.cells[k].block is None
                &&& column_of(items[i]->Row_0.cells, k) == c
                &&& items[i]->Row_0.cells[k].text.len() == width_at(grid_widths(items, n), c)
            },
    decreases n,
{
    if n > 0 {
        let before = grid_widths(items, n - 1);
        if width_at(grid_widths(items, n), c) == width_at(before, c) {
            columns_are_no_wider_than_their_cells(items, n - 1, c);
            let (i, k) = choose|i: int, k: int|
                {
                    &&& 0 <= i < n - 1 && items[i] is Row && 0 <= k < items[i]->Row_0.cells.len()
                    &&& (#[trigger] items[i]->Row_0.cells[k]).span == 1
                    &&& items[i]->Row_0.cells[k].block is None
                    &&& column_of(items[i]->Row_0.cells, k) == c
                    &&& items[i]->Row_0.cells[k].text.len() == width_at(before, c)
                };
            assert(items[i]->Row_0.cells[k].span == 1);
        } else {
            match items[n - 1] {
                Strip::Row(row) => {
                    let count = row.cells.len() as int;
                    lemma_row_widths_grow(row.cells, count, before, c);
                    lemma_row_widths_attained(row.cells, count, before, c);
                    let k = choose|k: int|
                        0 <= k < count && (#[trigger] row.cells[k]).span == 1 && row.cells[k].block is None && column_of(
                            row.cells,
                            k,
                        ) == c && row.cells[k].text.len() == width_at(row_widths(row.cells, count, before), c);
                    assert(items[n - 1]->Row_0.cells[k].span == 1);
                },
                Strip::Line(_) => {},
            }
        }
    }
}

/// Behind the cells of a row stand its line break and then its comment, each behind a blank. The
/// room up to the end of the table is filled before a line break only.
pub proof fn a_row_ends_in_its_line_break_and_its_comment(row: Record, widths: Seq<int>, aligns: Seq<ColAlign>)
    requires
        cell_line(row.cells, 0, Seq::empty(), widths, aligns).1 is None,
    ensures
        ({
            let cells = cell_line(row.cells, 0, Seq::empty(), widths, aligns).0;
            let text = strip_layout(Strip::Row(row), widths, aligns)->Text_0;
            let mark = match row.line_break {
                Some(mark) => seq![' '] + mark,
                None => Seq::empty(),
            };
            let comment = match row.comment {
                Some(comment) => seq![' '] + comment,
                None => Seq::empty(),
            };
            let filled = text.len() - mark.len() - comment.len();
            &&& strip_layout(Strip::Row(row), widths, aligns) is Text
            &&& filled == (if row.line_break is Some && grid_width(widths) > cells.len() {
                grid_width(widths)
            } else {
                cells.len() as int
            })
            &&& stands_at(text, 0, cells)
            &&& blank_between(text, cells.len() as int, filled)
            &&& stands_at(text, filled, mark)
            &&& stands_at(text, filled + mark.len(), comment)
        }),
{
    let cells = cell_line(row.cells, 0, Seq::empty(), widths, aligns).0;
    let text = strip_layout(Strip::Row(row), widths, aligns)->Text_0;
    let mark = behind_space(row.line_break);
    let comment = behind_space(row.comment);
    let filled = text.len() - mark.len() - comment.len();
    assert(text.subrange(0, cells.len() as int) =~= cells);
    assert(text.subrange(filled, filled + mark.len()) =~= mark);
    assert(text.subrange(filled + mark.len(), filled + mark.len() + comment.len()) =~= comment);
}

/// Each row of a table and each line between rows stands on lines of its own, in order: a table
/// is its items with line breaks between them.
pub proof fn items_stand_on_lines_of_their_own(items: Seq<Strip>, aligns: Seq<ColAlign>)
    ensures
        exists|parts: Seq<Layout>|
            {
                let widths = grid_widths(items, items.len() as int);
                &&& #[trigger] concat(parts) == table(items, aligns)
                &&& items.len() > 0 ==> parts.len() == 2 * items.len() - 1
                &&& forall|i: int| 0 <= i < items.len() ==> parts[2 * i] == #[trigger] strip_layout(items[i], widths, aligns)
                &&& forall|j: int| 0 <= j < parts.len() && j % 2 == 1 ==> #[trigger] parts[j] == Layout::HardLine
            },
{
    let widths = grid_widths(items, items.len() as int);
    let rows = Seq::new(items.len(), |i: int| strip_layout(items[i], widths, aligns));
    let parts = interleave(Layout::HardLine, rows);
    separators_stand_between_pieces(Layout::HardLine, rows);
    assert forall|i: int| 0 <= i < items.len() implies parts[2 * i] == #[trigger] strip_layout(items[i], widths, aligns) by {
        assert(rows[i] == parts[2 * i]);
    }
    assert(concat(parts) == table(items, aligns));
}

} // verus!
