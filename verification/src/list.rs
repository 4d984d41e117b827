//! Kernels over offsets-encoded list columns: element get with negative
//! indexing, slicing, row-wise concatenation, gather, sums, boolean
//! reductions, membership, counting, set operations, and string joining.

use crate::broadcast::bcast;
use crate::broadcast::broadcast_len2;
use crate::broadcast::broadcast_len3;
use crate::broadcast::compat2;
use crate::broadcast::compat3;
use crate::broadcast::target2;
use crate::broadcast::target3;
use crate::column::BoolColumn;
use crate::column::ChunkBuilder;
use crate::column::ChunkedColumn;
use crate::list_column::ListBuilder;
use crate::list_column::ListColumn;
use crate::KernelError;
use vstd::prelude::*;

verus! {

/// A set operation applied per list element.
#[derive(Clone, Copy, Debug, PartialEq, Eq, Hash, Structural)]
pub enum SetOperation {
    Union,
    Intersection,
    Difference,
}

impl SetOperation {
    /// The operation's display name.
    pub fn name(&self) -> (r: &'static str)
        ensures
            r@ == spec_set_operation_name(*self),
    {
        match self {
            SetOperation::Union => "union",
            SetOperation::Intersection => "intersection",
            SetOperation::Difference => "difference",
        }
    }
}

/// The display name of a set operation.
pub open spec fn spec_set_operation_name(s: SetOperation) -> Seq<char> {
    match s {
        SetOperation::Union => "union"@,
        SetOperation::Intersection => "intersection"@,
        SetOperation::Difference => "difference"@,
    }
}

/// The list operations an expression can name.
#[derive(Clone, Copy, Debug, PartialEq, Eq, Hash, Structural)]
pub enum ListFunction {
    Concat,
    Contains,
    Slice,
    Get,
    Take(bool),
    CountMatches,
    Sum,
    SetOperation(SetOperation),
    Any,
    All,
    Join,
}

/// The display name of a list function.
pub open spec fn spec_list_function_name(f: ListFunction) -> Seq<char> {
    match f {
        ListFunction::Concat => "concat"@,
        ListFunction::Contains => "contains"@,
        ListFunction::Slice => "slice"@,
        ListFunction::Get => "get"@,
        ListFunction::Take(_) => "take"@,
        ListFunction::CountMatches => "count"@,
        ListFunction::Sum => "sum"@,
        ListFunction::SetOperation(s) => spec_set_operation_name(s),
        ListFunction::Any => "any"@,
        ListFunction::All => "all"@,
        ListFunction::Join => "join"@,
    }
}

impl ListFunction {
    /// The function's display name.
    pub fn name(&self) -> (r: &'static str)
        ensures
            r@ == spec_list_function_name(*self),
    {
        match self {
            ListFunction::Concat => "concat",
            ListFunction::Contains => "contains",
            ListFunction::Slice => "slice",
            ListFunction::Get => "get",
            ListFunction::Take(_) => "take",
            ListFunction::CountMatches => "count",
            ListFunction::Sum => "sum",
            ListFunction::SetOperation(s) => s.name(),
            ListFunction::Any => "any",
            ListFunction::All => "all",
            ListFunction::Join => "join",
        }
    }
}

/// The index `x` resolved against a list of length `len`: a negative index
/// counts from the end.
pub open spec fn resolve_index(len: nat, x: i64) -> int {
    if x >= 0 {
        x as int
    } else {
        len + x
    }
}

/// One output row of `get`: the element at the resolved index, missing when
/// the row is missing, the index is missing, or the index is out of bounds.
pub open spec fn get_row(row: Option<Seq<i64>>, idx: Option<i64>) -> Option<i64> {
    match (row, idx) {
        (Some(s), Some(x)) => {
            let r = resolve_index(s.len(), x);
            if 0 <= r < s.len() {
                Some(s[r])
            } else {
                None
            }
        },
        _ => None,
    }
}

/// The whole output column of `get`.
pub open spec fn get_col(ca: Seq<Option<Seq<i64>>>, index: Seq<Option<i64>>) -> Seq<Option<i64>> {
    Seq::new(ca.len(), |i: int| get_row(ca[i], bcast(index, i)))
}

/// The element of one list row at the resolved index.
fn get_one(ca: &ListColumn<i64>, i: usize, x: i64) -> (r: Option<i64>)
    requires
        ca.wf(),
        i < ca@.len(),
    ensures
        r == get_row(ca@[i as int], Some(x)),
{
    let rlen = match ca.get_len(i) {
        Some(l) => l,
        None => {
            return None;
        },
    };
    let resolved: usize = if x >= 0 {
        if (x as u64) >= (rlen as u64) {
            proof {
                assert(resolve_index(ca@[i as int]->Some_0.len(), x) >= rlen);
            }
            return None;
        }
        x as usize
    } else {
        let back_m1 = -(x + 1);
        let back = (back_m1 as u64) + 1;
        proof {
            assert(back == -(x as int));
        }
        if back > rlen as u64 {
            proof {
                assert(resolve_index(ca@[i as int]->Some_0.len(), x) < 0);
            }
            return None;
        }
        rlen - (back as usize)
    };
    Some(*ca.elem(i, resolved))
}

/// Element extraction: a scalar index applies to every row and must not be
/// missing; a full-length index column resolves each row independently; a
/// missing or out-of-bounds per-row index yields a missing row.
pub fn get(ca: &ListColumn<i64>, index: &ChunkedColumn<i64>) -> (r: Result<
    ChunkedColumn<i64>,
    KernelError,
>)
    requires
        ca.wf(),
        index.wf(),
    ensures
        index@.len() == 1 && index@[0] is None ==> r == Err::<ChunkedColumn<i64>, KernelError>(
            KernelError::InvalidArgument,
        ),
        index@.len() == 1 && index@[0] is Some || (index@.len() == ca@.len() && index@.len() != 1)
            ==> (r matches Ok(out) && out.wf() && out@ == get_col(ca@, index@)),
        index@.len() != 1 && index@.len() != ca@.len() ==> r == Err::<
            ChunkedColumn<i64>,
            KernelError,
        >(KernelError::ShapeMismatch),
{
    let n = ca.len();
    let ln = index.len();
    if ln != 1 && ln != n {
        return Err(KernelError::ShapeMismatch);
    }
    if ln == 1 {
        match index.get(0) {
            None => {
                return Err(KernelError::InvalidArgument);
            },
            Some(_) => (),
        }
    }
    let ghost goal = get_col(ca@, index@);
    let mut b = ChunkBuilder::<i64>::new(0i64);
    let mut i: usize = 0;
    while i < n
        invariant
            ca.wf(),
            index.wf(),
            b.wf(),
            i <= n,
            n == ca@.len(),
            ln == index@.len(),
            ln == 1 || ln == n,
            goal == get_col(ca@, index@),
            b.view() =~= goal.subrange(0, i as int),
        decreases n - i,
    {
        let xv = if ln == 1 {
            index.get(0)
        } else {
            index.get(i)
        };
        match xv {
            Some(x) => {
                match get_one(ca, i, *x) {
                    Some(v) => b.push_value(v),
                    None => b.push_null(),
                }
            },
            None => {
                b.push_null();
            },
        }
        proof {
            assert(b.view() =~= goal.subrange(0, i + 1));
        }
        i += 1;
    }
    proof {
        assert(goal.subrange(0, n as int) =~= goal);
    }
    Ok(ChunkedColumn::single(b.finish()))
}

/// The largest row count among the operands.
pub open spec fn max_len(cols: Seq<Seq<Option<Seq<i64>>>>) -> nat
    decreases cols.len(),
{
    if cols.len() == 0 {
        0
    } else {
        let rest = max_len(cols.drop_first());
        if cols[0].len() >= rest {
            cols[0].len()
        } else {
            rest
        }
    }
}

/// Whether every operand's row count is `1` or the shared length.
pub open spec fn concat_compat(cols: Seq<Seq<Option<Seq<i64>>>>) -> bool {
    forall|c: int| 0 <= c < cols.len() ==> #[trigger] cols[c].len() == 1 || cols[c].len() == max_len(cols)
}

/// The concatenation of the broadcast rows of the first `c` operands at
/// row `i`; any missing operand row makes the output row missing.
pub open spec fn concat_row_upto(cols: Seq<Seq<Option<Seq<i64>>>>, i: int, c: int) -> Option<
    Seq<i64>,
>
    decreases c,
{
    if c <= 0 {
        Some(Seq::empty())
    } else {
        match (concat_row_upto(cols, i, c - 1), bcast(cols[c - 1], i)) {
            (Some(acc), Some(s)) => Some(acc + s),
            _ => None,
        }
    }
}

/// The whole output column of `concat`.
pub open spec fn concat_col(cols: Seq<Seq<Option<Seq<i64>>>>) -> Seq<Option<Seq<i64>>> {
    Seq::new(max_len(cols), |i: int| concat_row_upto(cols, i, cols.len() as int))
}

/// Row-wise vertical concatenation of list columns; a length-1 operand is
/// broadcast to the shared length.
pub fn concat(columns: &Vec<ListColumn<i64>>) -> (r: Result<ListColumn<i64>, KernelError>)
    requires
        columns@.len() >= 1,
        forall|c: int| 0 <= c < columns@.len() ==> (#[trigger] columns@[c]).wf(),
    ensures
        concat_compat(columns@.map_values(|c: ListColumn<i64>| c@)) ==> (r matches Ok(out)
            && out.wf() && out@ == concat_col(columns@.map_values(|c: ListColumn<i64>| c@))),
        !concat_compat(columns@.map_values(|c: ListColumn<i64>| c@)) ==> r == Err::<
            ListColumn<i64>,
            KernelError,
        >(KernelError::ShapeMismatch),
{
    let ghost views = columns@.map_values(|c: ListColumn<i64>| c@);
    let ncols = columns.len();
    // The shared output length: the largest row count among the operands.
    let mut n: usize = 0;
    let mut c: usize = ncols;
    while c > 0
        invariant
            columns@.len() >= 1,
            forall|c0: int| 0 <= c0 < columns@.len() ==> (#[trigger] columns@[c0]).wf(),
            views == columns@.map_values(|c0: ListColumn<i64>| c0@),
            ncols == columns@.len(),
            c <= ncols,
            n == max_len(views.subrange(c as int, ncols as int)),
        decreases c,
    {
        c -= 1;
        proof {
            assert(views.subrange(c as int, ncols as int).drop_first() =~= views.subrange(
                c + 1,
                ncols as int,
            ));
        }
        let l = columns[c].len();
        if l > n {
            n = l;
        }
    }
    proof {
        assert(views.subrange(0, ncols as int) =~= views);
    }
    // Every operand must have one row or the shared count.
    let mut c: usize = 0;
    while c < ncols
        invariant
            columns@.len() >= 1,
            forall|c0: int| 0 <= c0 < columns@.len() ==> (#[trigger] columns@[c0]).wf(),
            views == columns@.map_values(|c0: ListColumn<i64>| c0@),
            ncols == columns@.len(),
            c <= ncols,
            n == max_len(views),
            forall|c0: int| 0 <= c0 < c ==> #[trigger] views[c0].len() == 1 || views[c0].len() == n,
        decreases ncols - c,
    {
        let l = columns[c].len();
        if l != 1 && l != n {
            proof {
                assert(views[c as int].len() != 1 && views[c as int].len() != max_len(views));
            }
            return Err(KernelError::ShapeMismatch);
        }
        c += 1;
    }
    let ghost goal = concat_col(views);
    let mut b = ListBuilder::<i64>::new();
    let mut i: usize = 0;
    while i < n
        invariant
            columns@.len() >= 1,
            forall|c0: int| 0 <= c0 < columns@.len() ==> (#[trigger] columns@[c0]).wf(),
            views == columns@.map_values(|c0: ListColumn<i64>| c0@),
            ncols == columns@.len(),
            b.wf(),
            i <= n,
            n == max_len(views),
            concat_compat(views),
            goal == concat_col(views),
            b.view() =~= goal.subrange(0, i as int),
        decreases n - i,
    {
        // Accumulate the concatenated row, or discover it is missing.
        let mut row: Vec<i64> = Vec::new();
        let mut missing = false;
        let mut c: usize = 0;
        while c < ncols
            invariant
                columns@.len() >= 1,
                forall|c0: int| 0 <= c0 < columns@.len() ==> (#[trigger] columns@[c0]).wf(),
                views == columns@.map_values(|c0: ListColumn<i64>| c0@),
                ncols == columns@.len(),
                i < n,
                n == max_len(views),
                concat_compat(views),
                c <= ncols,
                !missing ==> Some(row@) == concat_row_upto(views, i as int, c as int),
                missing ==> concat_row_upto(views, i as int, ncols as int) is None,
            decreases ncols - c,
        {
            let col = &columns[c];
            proof {
                assert(col.wf());
                assert(col@ == views[c as int]);
            }
            let l = col.len();
            let j = if l == 1 {
                0
            } else {
                i
            };
            match col.get_len(j) {
                Some(rl) => {
                    if !missing {
                        let ghost acc = row@;
                        let mut k: usize = 0;
                        while k < rl
                            invariant
                                col.wf(),
                                col@ == views[c as int],
                                c < ncols,
                                ncols == views.len(),
                                i < n,
                                j < col@.len(),
                                col@[j as int] is Some,
                                rl == col@[j as int]->Some_0.len(),
                                k <= rl,
                                row@ =~= acc + col@[j as int]->Some_0.subrange(0, k as int),
                            decreases rl - k,
                        {
                            let v = *col.elem(j, k);
                            row.push(v);
                            proof {
                                assert(col@[j as int]->Some_0.subrange(0, k + 1) =~= col@[
                                    j as int
                                ]->Some_0.subrange(0, k as int).push(v));
                            }
                            k += 1;
                        }
                        proof {
                            assert(col@[j as int]->Some_0.subrange(0, rl as int) =~= col@[
                                j as int
                            ]->Some_0);
                            assert(bcast(views[c as int], i as int) == views[c as int][j as int]);
                            assert(row@ =~= acc + views[c as int][j as int]->Some_0);
                            assert(Some(row@) == concat_row_upto(views, i as int, c as int + 1));
                        }
                    }
                },
                None => {
                    proof {
                        assert(bcast(views[c as int], i as int) is None);
                        lemma_concat_row_none(views, i as int, c as int, ncols as int);
                    }
                    missing = true;
                },
            }
            c += 1;
        }
        proof {
            assert(views.len() == ncols);
            if missing {
                assert(goal[i as int] is None);
            } else {
                assert(goal[i as int] == Some(row@));
            }
        }
        if missing {
            b.push_null();
        } else {
            proof {
                assert(row@.map_values(|v: i64| v@) =~= row@);
            }
            b.push_list(row);
        }
        proof {
            assert(b.view() =~~= goal.subrange(0, i + 1));
        }
        i += 1;
    }
    proof {
        assert(goal.subrange(0, n as int) =~= goal);
    }
    Ok(b.finish())
}

/// The concatenation broadcast law for two operands: each output row is
/// the first operand's broadcast row followed by the second's, so a
/// length-1 first operand is logically repeated to the other's length.
pub proof fn lemma_concat_two(cols: Seq<Seq<Option<Seq<i64>>>>, i: int)
    requires
        cols.len() == 2,
        0 <= i < max_len(cols),
    ensures
        concat_col(cols)[i] == match (bcast(cols[0], i), bcast(cols[1], i)) {
            (Some(a), Some(b)) => Some(a + b),
            _ => None::<Seq<i64>>,
        },
{
    assert(concat_row_upto(cols, i, 0) == Some(Seq::<i64>::empty()));
    assert(concat_row_upto(cols, i, 1) == match (
        concat_row_upto(cols, i, 0),
        bcast(cols[0], i),
    ) {
        (Some(acc), Some(s)) => Some(acc + s),
        _ => None::<Seq<i64>>,
    });
    assert(concat_row_upto(cols, i, 2) == match (
        concat_row_upto(cols, i, 1),
        bcast(cols[1], i),
    ) {
        (Some(acc), Some(s)) => Some(acc + s),
        _ => None::<Seq<i64>>,
    });
    match (bcast(cols[0], i), bcast(cols[1], i)) {
        (Some(a), Some(b)) => {
            assert(Seq::<i64>::empty() + a =~= a);
        },
        _ => {},
    }
}

/// Once one operand's broadcast row is missing, the whole row is missing.
proof fn lemma_concat_row_none(cols: Seq<Seq<Option<Seq<i64>>>>, i: int, c: int, upto: int)
    requires
        0 <= c < upto,
        bcast(cols[c], i) is None,
    ensures
        concat_row_upto(cols, i, upto) is None,
    decreases upto,
{
    if upto - 1 > c {
        lemma_concat_row_none(cols, i, c, upto - 1);
    }
}

/// The elements of `s` from `start` (counted from the end when negative,
/// clamped at the list start) spanning `length` elements (to the end when
/// absent), clipped to the list.
pub open spec fn slice_of(s: Seq<i64>, start: int, length: Option<u64>) -> Seq<i64> {
    let b = if start >= 0 {
        start
    } else if s.len() + start >= 0 {
        s.len() + start
    } else {
        0
    };
    if b >= s.len() {
        Seq::empty()
    } else {
        let l = match length {
            Some(l) => l as int,
            None => s.len() - b,
        };
        let e = if b + l <= s.len() {
            b + l
        } else {
            s.len() as int
        };
        s.subrange(b, e)
    }
}

/// One output row of `slice`: a missing row or offset stays missing; a
/// missing length means "to the end of the list".
pub open spec fn slice_row(row: Option<Seq<i64>>, st: Option<i64>, ln: Option<u64>) -> Option<
    Seq<i64>,
> {
    match (row, st) {
        (Some(s), Some(t)) => Some(slice_of(s, t as int, ln)),
        _ => None,
    }
}

/// The whole output column of `slice`.
pub open spec fn slice_col(
    ca: Seq<Option<Seq<i64>>>,
    offset: Seq<Option<i64>>,
    length: Seq<Option<u64>>,
) -> Seq<Option<Seq<i64>>> {
    Seq::new(
        target3(ca.len(), offset.len(), length.len()),
        |i: int| slice_row(bcast(ca, i), bcast(offset, i), bcast(length, i)),
    )
}

/// The sliced elements of one list row.
fn slice_one(ca: &ListColumn<i64>, ci: usize, o: i64, lv: Option<u64>) -> (r: Option<Vec<i64>>)
    requires
        ca.wf(),
        ci < ca@.len(),
    ensures
        match r {
            Some(row) => ca@[ci as int] is Some && row@ == slice_of(
                ca@[ci as int]->Some_0,
                o as int,
                lv,
            ),
            None => ca@[ci as int] is None,
        },
{
    let rlen = match ca.get_len(ci) {
        Some(l) => l,
        None => {
            return None;
        },
    };
    let ghost s = ca@[ci as int]->Some_0;
    let begin: usize = if o >= 0 {
        if (o as u64) >= (rlen as u64) {
            rlen
        } else {
            o as usize
        }
    } else {
        let back_m1 = -(o + 1);
        let back = (back_m1 as u64) + 1;
        proof {
            assert(back == -(o as int));
        }
        if back > rlen as u64 {
            0
        } else {
            rlen - (back as usize)
        }
    };
    let end: usize = match lv {
        Some(l) => {
            let rem = rlen - begin;
            if l > rem as u64 {
                rlen
            } else {
                begin + (l as usize)
            }
        },
        None => rlen,
    };
    let mut row: Vec<i64> = Vec::new();
    let mut k: usize = begin;
    while k < end
        invariant
            ca.wf(),
            ci < ca@.len(),
            ca@[ci as int] is Some,
            s == ca@[ci as int]->Some_0,
            begin <= k <= end,
            end <= s.len(),
            row@ =~= s.subrange(begin as int, k as int),
        decreases end - k,
    {
        let v = *ca.elem(ci, k);
        row.push(v);
        proof {
            assert(s.subrange(begin as int, k + 1) =~= s.subrange(begin as int, k as int).push(v));
        }
        k += 1;
    }
    proof {
        assert(row@ =~= slice_of(s, o as int, lv));
    }
    Some(row)
}

/// Sub-list extraction over broadcast offset and length columns.
pub fn slice(
    ca: &ListColumn<i64>,
    offset: &ChunkedColumn<i64>,
    length: &ChunkedColumn<u64>,
) -> (r: Result<ListColumn<i64>, KernelError>)
    requires
        ca.wf(),
        offset.wf(),
        length.wf(),
    ensures
        compat3(ca@.len(), offset@.len(), length@.len()) ==> (r matches Ok(out) && out.wf() && out@
            == slice_col(ca@, offset@, length@)),
        !compat3(ca@.len(), offset@.len(), length@.len()) ==> r == Err::<
            ListColumn<i64>,
            KernelError,
        >(KernelError::ShapeMismatch),
{
    let la = ca.len();
    let lb = offset.len();
    let lc = length.len();
    let n = match broadcast_len3(la, lb, lc) {
        Ok(v) => v,
        Err(e) => {
            return Err(e);
        },
    };
    let ghost goal = slice_col(ca@, offset@, length@);
    let mut b = ListBuilder::<i64>::new();
    let mut i: usize = 0;
    while i < n
        invariant
            ca.wf(),
            offset.wf(),
            length.wf(),
            b.wf(),
            i <= n,
            n == target3(ca@.len(), offset@.len(), length@.len()),
            la == ca@.len(),
            lb == offset@.len(),
            lc == length@.len(),
            la == 1 || la == n,
            lb == 1 || lb == n,
            lc == 1 || lc == n,
            goal == slice_col(ca@, offset@, length@),
            b.view() =~~= goal.subrange(0, i as int),
        decreases n - i,
    {
        let ci = if la == 1 {
            0
        } else {
            i
        };
        let ov = if lb == 1 {
            offset.get(0)
        } else {
            offset.get(i)
        };
        let lv = match (if lc == 1 {
            length.get(0)
        } else {
            length.get(i)
        }) {
            Some(l) => Some(*l),
            None => None,
        };
        match ov {
            Some(o) => {
                match slice_one(ca, ci, *o, lv) {
                    Some(row) => {
                        proof {
                            assert(row@.map_values(|v: i64| v@) =~= row@);
                        }
                        b.push_list(row);
                    },
                    None => {
                        b.push_null();
                    },
                }
            },
            None => {
                b.push_null();
            },
        }
        proof {
            assert(b.view() =~~= goal.subrange(0, i + 1));
        }
        i += 1;
    }
    proof {
        assert(goal.subrange(0, n as int) =~= goal);
    }
    Ok(b.finish())
}

/// Whether a resolved gather index falls outside its row's list.
pub open spec fn take_oob(row: Option<Seq<i64>>, idx: Option<i64>) -> bool {
    match (row, idx) {
        (Some(s), Some(x)) => !(0 <= resolve_index(s.len(), x) < s.len()),
        _ => false,
    }
}

/// One output row of `take`: the gathered element as a one-element list.
pub open spec fn take_row(row: Option<Seq<i64>>, idx: Option<i64>) -> Option<Seq<i64>> {
    match (row, idx) {
        (Some(s), Some(x)) => {
            let r = resolve_index(s.len(), x);
            if 0 <= r < s.len() {
                Some(seq![s[r]])
            } else {
                None
            }
        },
        _ => None,
    }
}

/// The whole output column of `take`.
pub open spec fn take_col(ca: Seq<Option<Seq<i64>>>, idx: Seq<Option<i64>>) -> Seq<
    Option<Seq<i64>>,
> {
    Seq::new(target2(ca.len(), idx.len()), |i: int| take_row(bcast(ca, i), bcast(idx, i)))
}

/// Gathers one element per row into a one-element list row. Out-of-bounds
/// indices yield missing rows under `null_on_oob`, and an error otherwise.
pub fn take(ca: &ListColumn<i64>, idx: &ChunkedColumn<i64>, null_on_oob: bool) -> (r: Result<
    ListColumn<i64>,
    KernelError,
>)
    requires
        ca.wf(),
        idx.wf(),
    ensures
        !compat2(ca@.len(), idx@.len()) ==> r == Err::<ListColumn<i64>, KernelError>(
            KernelError::ShapeMismatch,
        ),
        compat2(ca@.len(), idx@.len()) && (null_on_oob || (forall|i: int|
            0 <= i < target2(ca@.len(), idx@.len()) ==> !take_oob(
                bcast(ca@, i),
                #[trigger] bcast(idx@, i),
            ))) ==> (r matches Ok(out) && out.wf() && out@ == take_col(ca@, idx@)),
        compat2(ca@.len(), idx@.len()) && !null_on_oob && (exists|i: int|
            0 <= i < target2(ca@.len(), idx@.len()) && take_oob(
                bcast(ca@, i),
                #[trigger] bcast(idx@, i),
            )) ==> r == Err::<ListColumn<i64>, KernelError>(KernelError::OutOfBounds),
{
    let la = ca.len();
    let lb = idx.len();
    let n = match broadcast_len2(la, lb) {
        Ok(v) => v,
        Err(e) => {
            return Err(e);
        },
    };
    let ghost goal = take_col(ca@, idx@);
    let mut b = ListBuilder::<i64>::new();
    let mut i: usize = 0;
    while i < n
        invariant
            ca.wf(),
            idx.wf(),
            b.wf(),
            i <= n,
            n == target2(ca@.len(), idx@.len()),
            la == ca@.len(),
            lb == idx@.len(),
            la == 1 || la == n,
            lb == 1 || lb == n,
            goal == take_col(ca@, idx@),
            b.view() =~~= goal.subrange(0, i as int),
            forall|j: int| 0 <= j < i ==> !null_on_oob ==> !take_oob(bcast(ca@, j), #[trigger] bcast(idx@, j)),
        decreases n - i,
    {
        let ci = if la == 1 {
            0
        } else {
            i
        };
        let xv = if lb == 1 {
            idx.get(0)
        } else {
            idx.get(i)
        };
        match xv {
            Some(x) => {
                let oob = match ca.get_len(ci) {
                    Some(rlen) => {
                        let x0 = *x;
                        if x0 >= 0 {
                            (x0 as u64) >= (rlen as u64)
                        } else {
                            let back_m1 = -(x0 + 1);
                            let back = (back_m1 as u64) + 1;
                            proof {
                                assert(back == -(x0 as int));
                            }
                            back > rlen as u64
                        }
                    },
                    None => false,
                };
                if oob && !null_on_oob {
                    proof {
                        assert(take_oob(bcast(ca@, i as int), bcast(idx@, i as int)));
                    }
                    return Err(KernelError::OutOfBounds);
                }
                match get_one(ca, ci, *x) {
                    Some(v) => {
                        let mut row: Vec<i64> = Vec::new();
                        row.push(v);
                        proof {
                            assert(row@.map_values(|e: i64| e@) =~= seq![v]);
                        }
                        b.push_list(row);
                    },
                    None => {
                        b.push_null();
                    },
                }
            },
            None => {
                b.push_null();
            },
        }
        proof {
            assert(b.view() =~~= goal.subrange(0, i + 1));
        }
        i += 1;
    }
    proof {
        assert(goal.subrange(0, n as int) =~= goal);
    }
    Ok(b.finish())
}

/// How many elements of `s` equal `v`.
pub open spec fn count_eq(s: Seq<i64>, v: i64) -> nat
    decreases s.len(),
{
    if s.len() == 0 {
        0
    } else {
        count_eq(s.drop_last(), v) + if s.last() == v {
            1nat
        } else {
            0nat
        }
    }
}

proof fn lemma_count_eq_bound(s: Seq<i64>, v: i64)
    ensures
        count_eq(s, v) <= s.len(),
    decreases s.len(),
{
    if s.len() > 0 {
        lemma_count_eq_bound(s.drop_last(), v);
    }
}

/// Counts, per row, the elements equal to one broadcast scalar; the scalar
/// must be present and resolve to exactly one element.
pub fn count_matches(ca: &ListColumn<i64>, element: &ChunkedColumn<i64>) -> (r: Result<
    ChunkedColumn<u64>,
    KernelError,
>)
    requires
        ca.wf(),
        element.wf(),
    ensures
        !(element@.len() == 1 && element@[0] is Some) ==> r == Err::<
            ChunkedColumn<u64>,
            KernelError,
        >(KernelError::InvalidArgument),
        element@.len() == 1 && element@[0] is Some ==> (r matches Ok(out) && out.wf() && out@
            == Seq::new(
            ca@.len(),
            |i: int|
                match ca@[i] {
                    Some(s) => Some(count_eq(s, element@[0]->Some_0) as u64),
                    None => None::<u64>,
                },
        )),
{
    if element.len() != 1 {
        return Err(KernelError::InvalidArgument);
    }
    let v: i64 = match element.get(0) {
        Some(x) => *x,
        None => {
            return Err(KernelError::InvalidArgument);
        },
    };
    let ghost goal = Seq::new(
        ca@.len(),
        |i: int|
            match ca@[i] {
                Some(s) => Some(count_eq(s, element@[0]->Some_0) as u64),
                None => None::<u64>,
            },
    );
    let n = ca.len();
    let mut b = ChunkBuilder::<u64>::new(0u64);
    let mut i: usize = 0;
    while i < n
        invariant
            ca.wf(),
            b.wf(),
            i <= n,
            n == ca@.len(),
            v == element@[0]->Some_0,
            goal == Seq::new(
                ca@.len(),
                |i0: int|
                    match ca@[i0] {
                        Some(s) => Some(count_eq(s, element@[0]->Some_0) as u64),
                        None => None::<u64>,
                    },
            ),
            b.view() =~= goal.subrange(0, i as int),
        decreases n - i,
    {
        match ca.get_len(i) {
            Some(rlen) => {
                let ghost s = ca@[i as int]->Some_0;
                let mut cnt: usize = 0;
                let mut k: usize = 0;
                while k < rlen
                    invariant
                        ca.wf(),
                        i < ca@.len(),
                        ca@[i as int] is Some,
                        s == ca@[i as int]->Some_0,
                        rlen == s.len(),
                        k <= rlen,
                        cnt == count_eq(s.subrange(0, k as int), v),
                        cnt <= k,
                    decreases rlen - k,
                {
                    let e = *ca.elem(i, k);
                    proof {
                        assert(s.subrange(0, k + 1).drop_last() =~= s.subrange(0, k as int));
                        assert(s.subrange(0, k + 1).last() == s[k as int]);
                    }
                    if e == v {
                        cnt += 1;
                    }
                    k += 1;
                }
                proof {
                    assert(s.subrange(0, rlen as int) =~= s);
                }
                b.push_value(cnt as u64);
            },
            None => {
                b.push_null();
            },
        }
        proof {
            assert(b.view() =~= goal.subrange(0, i + 1));
        }
        i += 1;
    }
    proof {
        assert(goal.subrange(0, n as int) =~= goal);
    }
    Ok(ChunkedColumn::single(b.finish()))
}

/// Whether the list at row `i` holds the value `v`.
fn row_contains(ca: &ListColumn<i64>, i: usize, v: i64) -> (r: bool)
    requires
        ca.wf(),
        i < ca@.len(),
        ca@[i as int] is Some,
    ensures
        r == ca@[i as int]->Some_0.contains(v),
{
    let ghost s = ca@[i as int]->Some_0;
    let rlen = match ca.get_len(i) {
        Some(l) => l,
        None => 0,
    };
    let mut k: usize = 0;
    while k < rlen
        invariant
            ca.wf(),
            i < ca@.len(),
            ca@[i as int] is Some,
            s == ca@[i as int]->Some_0,
            rlen == s.len(),
            k <= rlen,
            forall|j: int| 0 <= j < k ==> s[j] != v,
        decreases rlen - k,
    {
        if *ca.elem(i, k) == v {
            proof {
                assert(s[k as int] == v);
            }
            return true;
        }
        k += 1;
    }
    false
}

/// One output row of `contains`.
pub open spec fn contains_row(row: Option<Seq<i64>>, item: Option<i64>) -> Option<bool> {
    match (row, item) {
        (Some(s), Some(v)) => Some(s.contains(v)),
        _ => None,
    }
}

/// Membership of one broadcast item per row.
pub fn contains(list: &ListColumn<i64>, item: &ChunkedColumn<i64>) -> (r: Result<
    BoolColumn,
    KernelError,
>)
    requires
        list.wf(),
        item.wf(),
    ensures
        compat2(list@.len(), item@.len()) ==> (r matches Ok(out) && out.wf() && out@.len()
            == target2(list@.len(), item@.len()) && (forall|i: int|
            0 <= i < out@.len() ==> out@[i] == contains_row(bcast(list@, i), bcast(item@, i)))),
        !compat2(list@.len(), item@.len()) ==> r == Err::<BoolColumn, KernelError>(
            KernelError::ShapeMismatch,
        ),
{
    let la = list.len();
    let lb = item.len();
    let n = match broadcast_len2(la, lb) {
        Ok(v) => v,
        Err(e) => {
            return Err(e);
        },
    };
    let mut values: Vec<bool> = Vec::new();
    let mut valid: Vec<bool> = Vec::new();
    let mut i: usize = 0;
    while i < n
        invariant
            list.wf(),
            item.wf(),
            i <= n,
            n == target2(list@.len(), item@.len()),
            la == list@.len(),
            lb == item@.len(),
            la == 1 || la == n,
            lb == 1 || lb == n,
            values@.len() == i,
            valid@.len() == i,
            forall|j: int|
                0 <= j < i ==> (if valid@[j] {
                    Some(values@[j])
                } else {
                    None::<bool>
                }) == contains_row(bcast(list@, j), bcast(item@, j)),
        decreases n - i,
    {
        let ci = if la == 1 {
            0
        } else {
            i
        };
        let xv = if lb == 1 {
            item.get(0)
        } else {
            item.get(i)
        };
        let has_row = match list.get_len(ci) {
            Some(_) => true,
            None => false,
        };
        match (has_row, xv) {
            (true, Some(v)) => {
                let c = row_contains(list, ci, *v);
                values.push(c);
                valid.push(true);
            },
            _ => {
                values.push(false);
                valid.push(false);
            },
        }
        i += 1;
    }
    Ok(crate::column::bool_column_from_rows(&values, &valid))
}

/// One output row of the boolean reductions.
pub open spec fn any_row(row: Option<Seq<bool>>) -> Option<bool> {
    match row {
        Some(s) => Some(exists|k: int| 0 <= k < s.len() && s[k]),
        None => None,
    }
}

pub open spec fn all_row(row: Option<Seq<bool>>) -> Option<bool> {
    match row {
        Some(s) => Some(forall|k: int| 0 <= k < s.len() ==> s[k]),
        None => None,
    }
}

/// Whether any element of each boolean list row is true.
pub fn lst_any(ca: &ListColumn<bool>) -> (r: BoolColumn)
    requires
        ca.wf(),
    ensures
        r.wf(),
        r@.len() == ca@.len(),
        forall|i: int| 0 <= i < ca@.len() ==> r@[i] == any_row(ca@[i]),
{
    let n = ca.len();
    let mut values: Vec<bool> = Vec::new();
    let mut valid: Vec<bool> = Vec::new();
    let mut i: usize = 0;
    while i < n
        invariant
            ca.wf(),
            i <= n,
            n == ca@.len(),
            values@.len() == i,
            valid@.len() == i,
            forall|j: int|
                0 <= j < i ==> (if valid@[j] {
                    Some(values@[j])
                } else {
                    None::<bool>
                }) == any_row(ca@[j]),
        decreases n - i,
    {
        match ca.get_len(i) {
            Some(rlen) => {
                let ghost s = ca@[i as int]->Some_0;
                let mut found = false;
                let mut k: usize = 0;
                while k < rlen
                    invariant
                        ca.wf(),
                        i < ca@.len(),
                        ca@[i as int] is Some,
                        s == ca@[i as int]->Some_0,
                        rlen == s.len(),
                        k <= rlen,
                        found == exists|j: int| 0 <= j < k && s[j],
                    decreases rlen - k,
                {
                    if *ca.elem(i, k) {
                        proof {
                            assert(s[k as int]);
                        }
                        found = true;
                    }
                    k += 1;
                }
                values.push(found);
                valid.push(true);
            },
            None => {
                values.push(false);
                valid.push(false);
            },
        }
        i += 1;
    }
    crate::column::bool_column_from_rows(&values, &valid)
}

/// Whether every element of each boolean list row is true.
pub fn lst_all(ca: &ListColumn<bool>) -> (r: BoolColumn)
    requires
        ca.wf(),
    ensures
        r.wf(),
        r@.len() == ca@.len(),
        forall|i: int| 0 <= i < ca@.len() ==> r@[i] == all_row(ca@[i]),
{
    let n = ca.len();
    let mut values: Vec<bool> = Vec::new();
    let mut valid: Vec<bool> = Vec::new();
    let mut i: usize = 0;
    while i < n
        invariant
            ca.wf(),
            i <= n,
            n == ca@.len(),
            values@.len() == i,
            valid@.len() == i,
            forall|j: int|
                0 <= j < i ==> (if valid@[j] {
                    Some(values@[j])
                } else {
                    None::<bool>
                }) == all_row(ca@[j]),
        decreases n - i,
    {
        match ca.get_len(i) {
            Some(rlen) => {
                let ghost s = ca@[i as int]->Some_0;
                let mut holds = true;
                let mut k: usize = 0;
                while k < rlen
                    invariant
                        ca.wf(),
                        i < ca@.len(),
                        ca@[i as int] is Some,
                        s == ca@[i as int]->Some_0,
                        rlen == s.len(),
                        k <= rlen,
                        holds == forall|j: int| 0 <= j < k ==> s[j],
                    decreases rlen - k,
                {
                    if !*ca.elem(i, k) {
                        proof {
                            assert(!s[k as int]);
                        }
                        holds = false;
                    }
                    k += 1;
                }
                values.push(holds);
                valid.push(true);
            },
            None => {
                values.push(false);
                valid.push(false);
            },
        }
        i += 1;
    }
    crate::column::bool_column_from_rows(&values, &valid)
}

/// The elements of `ss` joined with `sep` between them.
pub open spec fn join_spec(ss: Seq<Seq<char>>, sep: Seq<char>) -> Seq<char>
    decreases ss.len(),
{
    if ss.len() == 0 {
        Seq::empty()
    } else if ss.len() == 1 {
        ss[0]
    } else {
        ss[0] + sep + join_spec(ss.drop_first(), sep)
    }
}

/// Joining one more piece appends a separator and the piece.
proof fn lemma_join_push(ss: Seq<Seq<char>>, x: Seq<char>, sep: Seq<char>)
    ensures
        join_spec(ss.push(x), sep) == if ss.len() == 0 {
            x
        } else {
            join_spec(ss, sep) + sep + x
        },
    decreases ss.len(),
{
    if ss.len() == 0 {
        assert(join_spec(ss.push(x), sep) =~= x);
    } else if ss.len() == 1 {
        assert(ss.push(x).drop_first() =~= seq![x]);
        assert(join_spec(seq![x], sep) == x);
        assert(join_spec(ss.push(x), sep) =~= ss[0] + sep + x);
        assert(join_spec(ss, sep) + sep + x =~= ss[0] + sep + x);
    } else {
        lemma_join_push(ss.drop_first(), x, sep);
        assert(ss.push(x).drop_first() =~= ss.drop_first().push(x));
        assert(join_spec(ss.push(x), sep) =~= join_spec(ss, sep) + sep + x);
    }
}

/// One output row of `join`.
pub open spec fn join_row(row: Option<Seq<Seq<char>>>, sep: Option<Seq<char>>) -> Option<
    Seq<char>,
> {
    match (row, sep) {
        (Some(ss), Some(p)) => Some(join_spec(ss, p)),
        _ => None,
    }
}

/// Joins each list of strings with a broadcast separator.
pub fn join(ca: &ListColumn<String>, separator: &ChunkedColumn<String>) -> (r: Result<
    ChunkedColumn<String>,
    KernelError,
>)
    requires
        ca.wf(),
        separator.wf(),
    ensures
        compat2(ca@.len(), separator@.len()) ==> (r matches Ok(out) && out.wf() && out@
            == Seq::new(
            target2(ca@.len(), separator@.len()),
            |i: int| join_row(bcast(ca@, i), bcast(separator@, i)),
        )),
        !compat2(ca@.len(), separator@.len()) ==> r == Err::<ChunkedColumn<String>, KernelError>(
            KernelError::ShapeMismatch,
        ),
{
    let la = ca.len();
    let lb = separator.len();
    let n = match broadcast_len2(la, lb) {
        Ok(v) => v,
        Err(e) => {
            return Err(e);
        },
    };
    let ghost goal = Seq::new(
        target2(ca@.len(), separator@.len()),
        |i: int| join_row(bcast(ca@, i), bcast(separator@, i)),
    );
    let mut b = ChunkBuilder::<String>::new(String::new());
    let mut i: usize = 0;
    while i < n
        invariant
            ca.wf(),
            separator.wf(),
            b.wf(),
            i <= n,
            n == target2(ca@.len(), separator@.len()),
            la == ca@.len(),
            lb == separator@.len(),
            la == 1 || la == n,
            lb == 1 || lb == n,
            goal == Seq::new(
                target2(ca@.len(), separator@.len()),
                |i0: int| join_row(bcast(ca@, i0), bcast(separator@, i0)),
            ),
            b.view() =~= goal.subrange(0, i as int),
        decreases n - i,
    {
        let ci = if la == 1 {
            0
        } else {
            i
        };
        let sv = if lb == 1 {
            separator.get(0)
        } else {
            separator.get(i)
        };
        match (ca.get_len(ci), sv) {
            (Some(rlen), Some(sep)) => {
                let ghost ss = ca@[ci as int]->Some_0;
                let mut out = String::new();
                let mut k: usize = 0;
                while k < rlen
                    invariant
                        ca.wf(),
                        ci < ca@.len(),
                        ca@[ci as int] is Some,
                        ss == ca@[ci as int]->Some_0,
                        rlen == ss.len(),
                        k <= rlen,
                        out@ == join_spec(ss.subrange(0, k as int), sep@),
                    decreases rlen - k,
                {
                    if k > 0 {
                        out.append(sep.as_str());
                    }
                    let piece = ca.elem(ci, k);
                    out.append(piece.as_str());
                    proof {
                        assert(ss.subrange(0, k + 1) =~= ss.subrange(0, k as int).push(
                            ss[k as int],
                        ));
                        lemma_join_push(ss.subrange(0, k as int), ss[k as int], sep@);
                    }
                    k += 1;
                }
                proof {
                    assert(ss.subrange(0, rlen as int) =~= ss);
                }
                b.push_value(out);
            },
            _ => {
                b.push_null();
            },
        }
        proof {
            assert(b.view() =~= goal.subrange(0, i + 1));
        }
        i += 1;
    }
    proof {
        assert(goal.subrange(0, n as int) =~= goal);
    }
    Ok(ChunkedColumn::single(b.finish()))
}

/// The elements of `s` with every repeated value dropped: each value keeps
/// its first position.
pub open spec fn dedup(s: Seq<i64>) -> Seq<i64>
    decreases s.len(),
{
    if s.len() == 0 {
        Seq::empty()
    } else {
        let d = dedup(s.drop_last());
        if d.contains(s.last()) {
            d
        } else {
            d.push(s.last())
        }
    }
}

/// The elements of `s` kept (or dropped) by membership in `t`.
pub open spec fn filter_by(s: Seq<i64>, t: Seq<i64>, keep_in: bool) -> Seq<i64>
    decreases s.len(),
{
    if s.len() == 0 {
        Seq::empty()
    } else {
        let f = filter_by(s.drop_last(), t, keep_in);
        if t.contains(s.last()) == keep_in {
            f.push(s.last())
        } else {
            f
        }
    }
}

/// One output row of `set_operation`.
pub open spec fn set_op_row(a: Option<Seq<i64>>, b: Option<Seq<i64>>, op: SetOperation) -> Option<
    Seq<i64>,
> {
    match (a, b) {
        (Some(x), Some(y)) => Some(
            match op {
                SetOperation::Union => dedup(x + y),
                SetOperation::Intersection => filter_by(dedup(x), y, true),
                SetOperation::Difference => filter_by(dedup(x), y, false),
            },
        ),
        _ => None,
    }
}

/// Whether `v` holds the value `x`.
fn vec_contains(v: &Vec<i64>, x: i64) -> (r: bool)
    ensures
        r == v@.contains(x),
{
    let n = v.len();
    let mut k: usize = 0;
    while k < n
        invariant
            n == v@.len(),
            k <= n,
            forall|j: int| 0 <= j < k ==> v@[j] != x,
        decreases n - k,
    {
        if v[k] == x {
            proof {
                assert(v@[k as int] == x);
            }
            return true;
        }
        k += 1;
    }
    false
}

/// The first occurrence of each value of `v`, in order.
fn dedup_vec(v: &Vec<i64>) -> (r: Vec<i64>)
    ensures
        r@ == dedup(v@),
{
    let n = v.len();
    let mut out: Vec<i64> = Vec::new();
    let mut k: usize = 0;
    while k < n
        invariant
            n == v@.len(),
            k <= n,
            out@ =~= dedup(v@.subrange(0, k as int)),
        decreases n - k,
    {
        proof {
            assert(v@.subrange(0, k + 1).drop_last() =~= v@.subrange(0, k as int));
            assert(v@.subrange(0, k + 1).last() == v@[k as int]);
        }
        let x = v[k];
        if !vec_contains(&out, x) {
            out.push(x);
        }
        k += 1;
    }
    proof {
        assert(v@.subrange(0, n as int) =~= v@);
    }
    out
}

/// The elements of `v` kept (or dropped) by membership in `t`.
fn filter_vec(v: &Vec<i64>, t: &Vec<i64>, keep_in: bool) -> (r: Vec<i64>)
    ensures
        r@ == filter_by(v@, t@, keep_in),
{
    let n = v.len();
    let mut out: Vec<i64> = Vec::new();
    let mut k: usize = 0;
    while k < n
        invariant
            n == v@.len(),
            k <= n,
            out@ =~= filter_by(v@.subrange(0, k as int), t@, keep_in),
        decreases n - k,
    {
        proof {
            assert(v@.subrange(0, k + 1).drop_last() =~= v@.subrange(0, k as int));
            assert(v@.subrange(0, k + 1).last() == v@[k as int]);
        }
        let x = v[k];
        if vec_contains(t, x) == keep_in {
            out.push(x);
        }
        k += 1;
    }
    proof {
        assert(v@.subrange(0, n as int) =~= v@);
    }
    out
}

/// The list at row `i`, copied out.
fn row_to_vec(ca: &ListColumn<i64>, i: usize) -> (r: Vec<i64>)
    requires
        ca.wf(),
        i < ca@.len(),
        ca@[i as int] is Some,
    ensures
        r@ == ca@[i as int]->Some_0,
{
    let ghost s = ca@[i as int]->Some_0;
    let rlen = match ca.get_len(i) {
        Some(l) => l,
        None => 0,
    };
    let mut out: Vec<i64> = Vec::new();
    let mut k: usize = 0;
    while k < rlen
        invariant
            ca.wf(),
            i < ca@.len(),
            ca@[i as int] is Some,
            s == ca@[i as int]->Some_0,
            rlen == s.len(),
            k <= rlen,
            out@ =~= s.subrange(0, k as int),
        decreases rlen - k,
    {
        let v = *ca.elem(i, k);
        out.push(v);
        proof {
            assert(s.subrange(0, k + 1) =~= s.subrange(0, k as int).push(v));
        }
        k += 1;
    }
    proof {
        assert(s.subrange(0, rlen as int) =~= s);
    }
    out
}

/// A per-row set operation between two broadcast list columns, preserving
/// each value's first position.
pub fn set_operation(a: &ListColumn<i64>, b: &ListColumn<i64>, op: SetOperation) -> (r: Result<
    ListColumn<i64>,
    KernelError,
>)
    requires
        a.wf(),
        b.wf(),
    ensures
        compat2(a@.len(), b@.len()) ==> (r matches Ok(out) && out.wf() && out@ == Seq::new(
            target2(a@.len(), b@.len()),
            |i: int| set_op_row(bcast(a@, i), bcast(b@, i), op),
        )),
        !compat2(a@.len(), b@.len()) ==> r == Err::<ListColumn<i64>, KernelError>(
            KernelError::ShapeMismatch,
        ),
{
    let la = a.len();
    let lb = b.len();
    let n = match broadcast_len2(la, lb) {
        Ok(v) => v,
        Err(e) => {
            return Err(e);
        },
    };
    let ghost goal = Seq::new(
        target2(a@.len(), b@.len()),
        |i: int| set_op_row(bcast(a@, i), bcast(b@, i), op),
    );
    let mut bl = ListBuilder::<i64>::new();
    let mut i: usize = 0;
    while i < n
        invariant
            a.wf(),
            b.wf(),
            bl.wf(),
            i <= n,
            n == target2(a@.len(), b@.len()),
            la == a@.len(),
            lb == b@.len(),
            la == 1 || la == n,
            lb == 1 || lb == n,
            goal == Seq::new(
                target2(a@.len(), b@.len()),
                |i0: int| set_op_row(bcast(a@, i0), bcast(b@, i0), op),
            ),
            bl.view() =~~= goal.subrange(0, i as int),
        decreases n - i,
    {
        let ai = if la == 1 {
            0
        } else {
            i
        };
        let bi = if lb == 1 {
            0
        } else {
            i
        };
        let a_has = match a.get_len(ai) {
            Some(_) => true,
            None => false,
        };
        let b_has = match b.get_len(bi) {
            Some(_) => true,
            None => false,
        };
        if a_has && b_has {
            let mut av = row_to_vec(a, ai);
            let bv = row_to_vec(b, bi);
            let row: Vec<i64> = match op {
                SetOperation::Union => {
                    let mut both = av;
                    let mut tail = bv;
                    let ghost bv0 = tail@;
                    both.append(&mut tail);
                    dedup_vec(&both)
                },
                SetOperation::Intersection => filter_vec(&dedup_vec(&av), &bv, true),
                SetOperation::Difference => filter_vec(&dedup_vec(&av), &bv, false),
            };
            proof {
                assert(row@.map_values(|v: i64| v@) =~= row@);
            }
            bl.push_list(row);
        } else {
            bl.push_null();
        }
        proof {
            assert(bl.view() =~~= goal.subrange(0, i + 1));
        }
        i += 1;
    }
    proof {
        assert(goal.subrange(0, n as int) =~= goal);
    }
    Ok(bl.finish())
}

/// The wrapping sum of a list's elements.
pub open spec fn sum_wrap(s: Seq<i64>) -> i64
    decreases s.len(),
{
    if s.len() == 0 {
        0
    } else {
        vstd::wrapping::i64_specs::wrapping_add(sum_wrap(s.drop_last()), s.last())
    }
}

/// The wrapping sum of each list row; a missing row stays missing and an
/// empty list sums to zero.
pub fn sum(ca: &ListColumn<i64>) -> (r: ChunkedColumn<i64>)
    requires
        ca.wf(),
    ensures
        r.wf(),
        r@ == Seq::new(
            ca@.len(),
            |i: int|
                match ca@[i] {
                    Some(s) => Some(sum_wrap(s)),
                    None => None::<i64>,
                },
        ),
{
    let ghost goal = Seq::new(
        ca@.len(),
        |i: int|
            match ca@[i] {
                Some(s) => Some(sum_wrap(s)),
                None => None::<i64>,
            },
    );
    let n = ca.len();
    let mut b = ChunkBuilder::<i64>::new(0i64);
    let mut i: usize = 0;
    while i < n
        invariant
            ca.wf(),
            b.wf(),
            i <= n,
            n == ca@.len(),
            goal == Seq::new(
                ca@.len(),
                |i0: int|
                    match ca@[i0] {
                        Some(s) => Some(sum_wrap(s)),
                        None => None::<i64>,
                    },
            ),
            b.view() =~= goal.subrange(0, i as int),
        decreases n - i,
    {
        match ca.get_len(i) {
            Some(rlen) => {
                let ghost s = ca@[i as int]->Some_0;
                let mut acc: i64 = 0;
                let mut k: usize = 0;
                while k < rlen
                    invariant
                        ca.wf(),
                        i < ca@.len(),
                        ca@[i as int] is Some,
                        s == ca@[i as int]->Some_0,
                        rlen == s.len(),
                        k <= rlen,
                        acc == sum_wrap(s.subrange(0, k as int)),
                    decreases rlen - k,
                {
                    let e = *ca.elem(i, k);
                    proof {
                        assert(s.subrange(0, k + 1).drop_last() =~= s.subrange(0, k as int));
                        assert(s.subrange(0, k + 1).last() == s[k as int]);
                    }
                    acc = acc.wrapping_add(e);
                    k += 1;
                }
                proof {
                    assert(s.subrange(0, rlen as int) =~= s);
                }
                b.push_value(acc);
            },
            None => {
                b.push_null();
            },
        }
        proof {
            assert(b.view() =~= goal.subrange(0, i + 1));
        }
        i += 1;
    }
    proof {
        assert(goal.subrange(0, n as int) =~= goal);
    }
    ChunkedColumn::single(b.finish())
}

} // verus!
