use vstd::prelude::*;
use vstd::arithmetic::div_mod::{
    lemma_div_pos_is_pos, lemma_fundamental_div_mod, lemma_fundamental_div_mod_converse,
    lemma_mod_pos_bound, lemma_multiply_divide_lt,
};

verus! {

broadcast use vstd::seq::group_seq_axioms, vstd::std_specs::vec::group_vec_axioms;

/// A grid of cells, addressed `data[row][col]`, with rows of equal length.
#[derive(Debug, PartialEq)]
pub struct Sheet {
    pub data: Vec<Vec<Cell>>,
}

/// True of rows that all have the same length.
pub open spec fn is_rectangular(data: Seq<Vec<Cell>>) -> bool {
    forall|i: int| 0 <= i < data.len() ==> #[trigger] data[i].len() == data[0].len()
}

impl Sheet {
    pub open spec fn wf(&self) -> bool {
        is_rectangular(self.data@)
    }

    /// A sheet without rows.
    pub fn new() -> (r: Sheet)
        ensures
            r.data@.len() == 0,
            r.wf(),
    {
        Sheet { data: Vec::new() }
    }

    /// A sheet of the given rows.
    pub fn from_vec(data: Vec<Vec<Cell>>) -> (r: Sheet)
        requires
            is_rectangular(data@),
        ensures
            r.data == data,
            r.wf(),
    {
        Sheet { data }
    }

    /// The rows, top to bottom.
    pub fn rows(&self) -> (r: &Vec<Vec<Cell>>)
        ensures
            *r == self.data,
    {
        &self.data
    }
}

/// A zero-based (column, row) coordinate of a cell.
#[derive(Clone, Copy, Debug, PartialEq, Eq, Hash, PartialOrd, Ord)]
pub struct CellIndex {
    pub col: usize,
    pub row: usize,
}

impl CellIndex {
    pub fn new(col: usize, row: usize) -> (r: CellIndex)
        ensures
            r.col == col,
            r.row == row,
    {
        CellIndex { col, row }
    }
}

/// An inclusive rectangle of cells, each corner given as zero-based (column, row).
#[derive(Clone, Copy, Debug, PartialEq, Hash)]
pub struct Range {
    pub start: (usize, usize),
    pub end: (usize, usize),
}

impl Range {
    pub fn new(start: (usize, usize), end: (usize, usize)) -> (r: Range)
        ensures
            r.start == start,
            r.end == end,
    {
        Range { start, end }
    }
}

/// A parsed formula expression.
#[derive(Debug, PartialEq)]
pub enum Formula {
    Number(i64),
    Text(String),
    Range(Range),
    /// A call: the function's name and its arguments in order.
    Function(String, Vec<Formula>),
}

/// What a cell of a sheet holds.
#[derive(Debug, PartialEq)]
pub enum Cell {
    Text(String),
    Formula(Formula),
}

/// The mathematical value of a formula: names and texts as character sequences.
pub enum Expr {
    Number(i64),
    Text(Seq<char>),
    Range(Range),
    Function(Seq<char>, Seq<Expr>),
}

/// The mathematical value of a cell.
pub enum CellModel {
    Text(Seq<char>),
    Formula(Expr),
}

pub open spec fn formula_model(f: Formula) -> Expr
    decreases f,
{
    match f {
        Formula::Number(n) => Expr::Number(n),
        Formula::Text(s) => Expr::Text(s@),
        Formula::Range(r) => Expr::Range(r),
        Formula::Function(name, args) => Expr::Function(name@, args_model(args@)),
    }
}

pub open spec fn args_model(args: Seq<Formula>) -> Seq<Expr>
    decreases args,
{
    if args.len() == 0 {
        Seq::empty()
    } else {
        args_model(args.drop_last()).push(formula_model(args.last()))
    }
}

pub open spec fn cell_model(c: Cell) -> CellModel {
    match c {
        Cell::Text(s) => CellModel::Text(s@),
        Cell::Formula(f) => CellModel::Formula(formula_model(f)),
    }
}


/// True of a range whose start is neither right of nor below its end.
pub open spec fn range_is_ordered(r: Range) -> bool {
    r.start.0 <= r.end.0 && r.start.1 <= r.end.1
}

/// The number of columns of an ordered range.
pub open spec fn range_width(r: Range) -> int {
    r.end.0 - r.start.0 + 1
}

/// The number of rows of an ordered range.
pub open spec fn range_height(r: Range) -> int {
    r.end.1 - r.start.1 + 1
}

/// The cells of a range, row by row, each row from left to right; none for a
/// range whose start lies right of or below its end.
pub open spec fn range_deps(r: Range) -> Seq<CellIndex> {
    if range_is_ordered(r) {
        Seq::new(
            (range_width(r) * range_height(r)) as nat,
            |k: int|
                CellIndex {
                    col: (r.start.0 + k % range_width(r)) as usize,
                    row: (r.start.1 + k / range_width(r)) as usize,
                },
        )
    } else {
        Seq::empty()
    }
}

/// The cells that a formula reads, in the order of its arguments.
pub open spec fn expr_deps(e: Expr) -> Seq<CellIndex>
    decreases e,
{
    match e {
        Expr::Number(_) => Seq::empty(),
        Expr::Text(_) => Seq::empty(),
        Expr::Range(r) => range_deps(r),
        Expr::Function(_, args) => args_deps(args),
    }
}

/// The cells that a sequence of arguments reads, one argument after another.
pub open spec fn args_deps(args: Seq<Expr>) -> Seq<CellIndex>
    decreases args,
{
    if args.len() == 0 {
        Seq::empty()
    } else {
        args_deps(args.drop_last()) + expr_deps(args.last())
    }
}

/// The cells that a cell's content reads: none for text.
pub open spec fn cell_deps(c: CellModel) -> Seq<CellIndex> {
    match c {
        CellModel::Text(_) => Seq::empty(),
        CellModel::Formula(e) => expr_deps(e),
    }
}

proof fn lemma_args_prefix(args: Seq<Formula>, i: int)
    requires
        0 <= i < args.len(),
    ensures
        args_model(args.subrange(0, i + 1)) == args_model(args.subrange(0, i)).push(
            formula_model(args[i]),
        ),
        args_deps(args_model(args.subrange(0, i + 1))) == args_deps(args_model(args.subrange(0, i)))
            + expr_deps(formula_model(args[i])),
{
    let a = args.subrange(0, i + 1);
    assert(a.drop_last() =~= args.subrange(0, i));
    let m = args_model(args.subrange(0, i)).push(formula_model(args[i]));
    assert(m.drop_last() =~= args_model(args.subrange(0, i)));
}

proof fn lemma_args_deps_prefix(args: Seq<Formula>, i: int)
    requires
        0 <= i <= args.len(),
    ensures
        args_deps(args_model(args.subrange(0, i))).len() <= args_deps(args_model(args)).len(),
    decreases args.len() - i,
{
    if i < args.len() {
        lemma_args_deps_prefix(args, i + 1);
        lemma_args_prefix(args, i);
    } else {
        assert(args.subrange(0, i) =~= args);
    }
}

proof fn lemma_range_index(r: Range, i: int, j: int)
    requires
        range_is_ordered(r),
        0 <= i < range_height(r),
        0 <= j < range_width(r),
    ensures
        0 <= i * range_width(r) + j < range_width(r) * range_height(r),
        (i * range_width(r) + j) % range_width(r) == j,
        (i * range_width(r) + j) / range_width(r) == i,
{
    let w = range_width(r);
    let h = range_height(r);
    lemma_fundamental_div_mod_converse(i * w + j, w, i, j);
    assert(i * w + j < w * h) by (nonlinear_arith)
        requires
            0 <= i < h,
            0 <= j < w,
    ;
    assert(0 <= i * w) by (nonlinear_arith)
        requires
            0 <= i,
            0 <= w,
    ;
}

/// An ordered range reads as many cells as its width times its height, and no
/// cell twice.
pub proof fn lemma_range_deps_count(r: Range)
    requires
        range_is_ordered(r),
    ensures
        range_deps(r).len() == (r.end.0 - r.start.0 + 1) * (r.end.1 - r.start.1 + 1),
        forall|a: int, b: int|
            0 <= a < b < range_deps(r).len() ==> range_deps(r)[a] != range_deps(r)[b],
{
    let w = range_width(r);
    let h = range_height(r);
    let d = range_deps(r);
    assert(0 <= w * h) by (nonlinear_arith)
        requires
            w >= 1,
            h >= 1,
    ;
    assert forall|a: int, b: int| 0 <= a < b < d.len() implies d[a] != d[b] by {
        lemma_mod_pos_bound(a, w);
        lemma_mod_pos_bound(b, w);
        lemma_div_pos_is_pos(a, w);
        lemma_div_pos_is_pos(b, w);
        lemma_multiply_divide_lt(a, w, h);
        lemma_multiply_divide_lt(b, w, h);
        lemma_fundamental_div_mod(a, w);
        lemma_fundamental_div_mod(b, w);
        if d[a] == d[b] {
            assert(a % w == b % w);
            assert(a / w == b / w);
        }
    }
}

impl Range {
    /// Every cell of the range, row by row.
    pub fn get_dependencies(&self) -> (r: Vec<CellIndex>)
        requires
            range_deps(*self).len() <= usize::MAX,
        ensures
            r@ == range_deps(*self),
    {
        let mut deps: Vec<CellIndex> = Vec::new();
        if self.start.0 <= self.end.0 && self.start.1 <= self.end.1 {
            proof {
                let gw = range_width(*self);
                let gh = range_height(*self);
                assert(gw <= gw * gh && gh <= gw * gh) by (nonlinear_arith)
                    requires
                        gw >= 1,
                        gh >= 1,
                ;
            }
            let w: usize = self.end.0 - self.start.0 + 1;
            let h: usize = self.end.1 - self.start.1 + 1;
            let ghost all = range_deps(*self);
            let mut i: usize = 0;
            while i < h
                invariant
                    range_is_ordered(*self),
                    w == range_width(*self),
                    h == range_height(*self),
                    all == range_deps(*self),
                    all.len() <= usize::MAX,
                    i <= h,
                    deps@ == all.subrange(0, i * w),
                    i * w <= w * h,
                decreases h - i,
            {
                let mut j: usize = 0;
                proof {
                    assert(i * w + w <= w * h) by (nonlinear_arith)
                        requires
                            i < h,
                            w >= 1,
                    ;
                }
                while j < w
                    invariant
                        range_is_ordered(*self),
                        w == range_width(*self),
                        h == range_height(*self),
                        all == range_deps(*self),
                        i < h,
                        j <= w,
                        i * w + w <= w * h,
                        deps@ == all.subrange(0, i * w + j),
                    decreases w - j,
                {
                    proof {
                        lemma_range_index(*self, i as int, j as int);
                    }
                    let c = CellIndex { col: self.start.0 + j, row: self.start.1 + i };
                    let ghost before = deps@;
                    deps.push(c);
                    proof {
                        assert(deps@ =~= all.subrange(0, i * w + j + 1));
                    }
                    j = j + 1;
                }
                proof {
                    assert((i + 1) * w == i * w + w) by (nonlinear_arith);
                    assert((i + 1) * w <= w * h) by (nonlinear_arith)
                        requires
                            i < h,
                            w >= 1,
                    ;
                }
                i = i + 1;
            }
            proof {
                assert(h * w == w * h) by (nonlinear_arith);
                assert(deps@ =~= all);
            }
        } else {
            proof {
                assert(deps@ =~= range_deps(*self));
            }
        }
        deps
    }
}

impl Range {
    /// The number of cells that the range reads, or `None` where no `usize` holds it.
    pub fn dependency_count(&self) -> (r: Option<usize>)
        ensures
            r == (if range_deps(*self).len() <= usize::MAX {
                Some(range_deps(*self).len() as usize)
            } else {
                None::<usize>
            }),
    {
        if self.start.0 <= self.end.0 && self.start.1 <= self.end.1 {
            let w: usize = self.end.0 - self.start.0;
            let h: usize = self.end.1 - self.start.1;
            if w == usize::MAX || h == usize::MAX {
                proof {
                    let gw = range_width(*self);
                    let gh = range_height(*self);
                    assert(gw * gh >= gw && gw * gh >= gh) by (nonlinear_arith)
                        requires
                            gw >= 1,
                            gh >= 1,
                    ;
                }
                return None;
            }
            let w = w + 1;
            let h = h + 1;
            if w > usize::MAX / h {
                proof {
                    assert(w * h > usize::MAX) by (nonlinear_arith)
                        requires
                            w > usize::MAX / h,
                            h >= 1,
                    ;
                }
                None
            } else {
                proof {
                    assert(w * h <= usize::MAX) by (nonlinear_arith)
                        requires
                            w <= usize::MAX / h,
                            h >= 1,
                    ;
                }
                Some(w * h)
            }
        } else {
            Some(0)
        }
    }
}

impl Formula {
    /// The number of cells that the formula reads, counted with repeats, or
    /// `None` where no `usize` holds it.
    pub fn dependency_count(&self) -> (r: Option<usize>)
        ensures
            r == (if expr_deps(formula_model(*self)).len() <= usize::MAX {
                Some(expr_deps(formula_model(*self)).len() as usize)
            } else {
                None::<usize>
            }),
        decreases self,
    {
        match self {
            Formula::Number(_) => Some(0),
            Formula::Text(_) => Some(0),
            Formula::Range(range) => range.dependency_count(),
            Formula::Function(_, args) => {
                let mut total: usize = 0;
                let mut i: usize = 0;
                proof {
                    assert(args@.subrange(0, 0) =~= Seq::<Formula>::empty());
                }
                while i < args.len()
                    invariant
                        *self == Formula::Function(self->Function_0, *args),
                        i <= args.len(),
                        total == args_deps(args_model(args@.subrange(0, i as int))).len(),
                    decreases args.len() - i,
                {
                    proof {
                        lemma_args_prefix(args@, i as int);
                        lemma_args_deps_prefix(args@, i + 1);
                        assert(decreases_to!(*self => args[i as int]));
                    }
                    match args[i].dependency_count() {
                        Some(n) => {
                            if n > usize::MAX - total {
                                proof {
                                    lemma_args_deps_prefix(args@, i + 1);
                                }
                                return None;
                            }
                            total = total + n;
                        },
                        None => {
                            proof {
                                lemma_args_deps_prefix(args@, i + 1);
                            }
                            return None;
                        },
                    }
                    i = i + 1;
                }
                proof {
                    assert(args@.subrange(0, args.len() as int) =~= args@);
                }
                Some(total)
            },
        }
    }

    /// The cells that the formula reads: every cell of each range, in the order of
    /// the arguments.
    pub fn get_dependencies(&self) -> (r: Vec<CellIndex>)
        requires
            expr_deps(formula_model(*self)).len() <= usize::MAX,
        ensures
            r@ == expr_deps(formula_model(*self)),
        decreases self,
    {
        match self {
            Formula::Number(_) => Vec::new(),
            Formula::Text(_) => Vec::new(),
            Formula::Range(range) => range.get_dependencies(),
            Formula::Function(_, args) => {
                let mut deps: Vec<CellIndex> = Vec::new();
                let mut i: usize = 0;
                proof {
                    assert(args@.subrange(0, 0) =~= Seq::<Formula>::empty());
                    assert(deps@ =~= args_deps(args_model(args@.subrange(0, 0))));
                }
                while i < args.len()
                    invariant
                        *self == Formula::Function(self->Function_0, *args),
                        expr_deps(formula_model(*self)).len() <= usize::MAX,
                        i <= args.len(),
                        deps@ == args_deps(args_model(args@.subrange(0, i as int))),
                    decreases args.len() - i,
                {
                    proof {
                        lemma_args_prefix(args@, i as int);
                        lemma_args_deps_prefix(args@, i + 1);
                        assert(decreases_to!(*self => args[i as int]));
                    }
                    let mut more = args[i].get_dependencies();
                    deps.append(&mut more);
                    i = i + 1;
                }
                proof {
                    assert(args@.subrange(0, args.len() as int) =~= args@);
                }
                deps
            }
        }
    }
}

impl Cell {
    pub fn new_text(text: String) -> (r: Cell)
        ensures
            r == Cell::Text(text),
    {
        Cell::Text(text)
    }

    /// The number of cells that the cell reads, counted with repeats, or `None`
    /// where no `usize` holds it.
    pub fn dependency_count(&self) -> (r: Option<usize>)
        ensures
            r == (if cell_deps(cell_model(*self)).len() <= usize::MAX {
                Some(cell_deps(cell_model(*self)).len() as usize)
            } else {
                None::<usize>
            }),
    {
        match self {
            Cell::Text(_) => Some(0),
            Cell::Formula(formula) => formula.dependency_count(),
        }
    }

    /// The cells that the cell reads: none for text, else those of its formula.
    pub fn get_dependencies(&self) -> (r: Vec<CellIndex>)
        requires
            cell_deps(cell_model(*self)).len() <= usize::MAX,
        ensures
            r@ == cell_deps(cell_model(*self)),
    {
        match self {
            Cell::Text(_) => Vec::new(),
            Cell::Formula(formula) => formula.get_dependencies(),
        }
    }
}

} // verus!
