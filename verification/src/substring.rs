//! Unicode-character substring extraction over broadcast columns.
//!
//! Indices count Unicode scalar values, never bytes. A negative start
//! counts back from the end of the string and is clamped to `0` when it
//! would underflow; a missing length means "to the end of the string";
//! a zero length yields the empty string, not a missing row.

use crate::broadcast::bcast;
use crate::broadcast::broadcast_len3;
use crate::broadcast::compat3;
use crate::broadcast::target3;
use crate::column::ChunkBuilder;
use crate::column::ChunkedColumn;
use crate::KernelError;
use vstd::prelude::*;
use vstd::string::StrSliceExecFns;

verus! {

/// The characters of `s` from `start` (counted from the end when negative,
/// clamped at the string start) spanning `length` characters (to the end
/// when absent), clipped to the string.
pub open spec fn substring_of(s: Seq<char>, start: int, length: Option<u64>) -> Seq<char> {
    let b = if start >= 0 {
        start
    } else if s.len() + start >= 0 {
        s.len() + start
    } else {
        0
    };
    if b >= s.len() {
        Seq::empty()
    } else {
        let l = match length {
            Some(l) => l as int,
            None => s.len() - b,
        };
        let e = if b + l <= s.len() {
            b + l
        } else {
            s.len() as int
        };
        s.subrange(b, e)
    }
}

/// The per-row rule: a missing value or missing start yields a missing row.
pub open spec fn substring_row(v: Option<Seq<char>>, st: Option<i64>, ln: Option<u64>) -> Option<
    Seq<char>,
> {
    match (v, st) {
        (Some(s), Some(t)) => Some(substring_of(s, t as int, ln)),
        _ => None,
    }
}

/// The whole output column: row `i` applies the row rule to the broadcast
/// operands at `i`.
pub open spec fn substring_col(
    ca: Seq<Option<Seq<char>>>,
    start: Seq<Option<i64>>,
    length: Seq<Option<u64>>,
) -> Seq<Option<Seq<char>>> {
    Seq::new(
        target3(ca.len(), start.len(), length.len()),
        |i: int| substring_row(bcast(ca, i), bcast(start, i), bcast(length, i)),
    )
}

/// The substring of one row.
pub fn substring_ternary<'a>(
    opt_str_val: Option<&'a str>,
    opt_start: Option<i64>,
    opt_length: Option<u64>,
) -> (r: Option<&'a str>)
    ensures
        crate::column::opt_view(r) == substring_row(
            crate::column::opt_view(opt_str_val),
            opt_start,
            opt_length,
        ),
{
    let str_val = match opt_str_val {
        Some(s) => s,
        None => {
            return None;
        },
    };
    let start = match opt_start {
        Some(t) => t,
        None => {
            return None;
        },
    };
    let n = str_val.unicode_len();
    let begin: usize = if start >= 0 {
        if start as u64 >= n as u64 {
            n
        } else {
            start as usize
        }
    } else {
        let back_m1 = -(start + 1);
        let back = (back_m1 as u64) + 1;
        if back > n as u64 {
            0
        } else {
            n - (back as usize)
        }
    };
    let end: usize = match opt_length {
        Some(l) => {
            let rem = n - begin;
            if l > rem as u64 {
                n
            } else {
                begin + (l as usize)
            }
        },
        None => n,
    };
    let piece = str_val.substring_char(begin, end);
    proof {
        assert(piece@ =~= substring_of(str_val@, start as int, opt_length));
    }
    Some(piece)
}

/// Substring extraction over one to three broadcast columns; every
/// broadcasting specialization returns exactly the rows of
/// [`substring_col`], so all shape paths agree.
pub fn substring(
    ca: &ChunkedColumn<String>,
    start: &ChunkedColumn<i64>,
    length: &ChunkedColumn<u64>,
) -> (r: Result<ChunkedColumn<String>, KernelError>)
    requires
        ca.wf(),
        start.wf(),
        length.wf(),
    ensures
        compat3(ca@.len(), start@.len(), length@.len()) ==> (r matches Ok(out) && out.wf() && out@
            == substring_col(ca@, start@, length@)),
        !compat3(ca@.len(), start@.len(), length@.len()) ==> r == Err::<
            ChunkedColumn<String>,
            KernelError,
        >(KernelError::ShapeMismatch),
{
    let la = ca.len();
    let lb = start.len();
    let lc = length.len();
    let n = match broadcast_len3(la, lb, lc) {
        Ok(v) => v,
        Err(e) => {
            return Err(e);
        },
    };
    let ghost out_spec = substring_col(ca@, start@, length@);
    let mut b = ChunkBuilder::<String>::new(String::new());
    if la == 1 && lb == 1 {
        // Both the value and the start are scalars: read each once.
        let sv = opt_as_str(ca.get(0));
        let st = copy_i64(start.get(0));
        let mut i: usize = 0;
        while i < n
            invariant
                ca.wf(),
                start.wf(),
                length.wf(),
                b.wf(),
                i <= n,
                n == target3(ca@.len(), start@.len(), length@.len()),
                ca@.len() == 1,
                start@.len() == 1,
                lc == length@.len(),
                lc == 1 || lc == n,
                crate::column::opt_view(sv) == ca@[0],
                st == start@[0],
                out_spec == substring_col(ca@, start@, length@),
                b.view() =~= out_spec.subrange(0, i as int),
            decreases n - i,
        {
            let ln = copy_u64(if lc == 1 {
                length.get(0)
            } else {
                length.get(i)
            });
            let piece = substring_ternary(sv, st, ln);
            push_opt_str(&mut b, piece);
            proof {
                assert(b.view() =~= out_spec.subrange(0, i + 1));
            }
            i += 1;
        }
    } else if lb == 1 && lc == 1 {
        let st = copy_i64(start.get(0));
        let ln = copy_u64(length.get(0));
        let mut i: usize = 0;
        while i < n
            invariant
                ca.wf(),
                start.wf(),
                length.wf(),
                b.wf(),
                i <= n,
                n == target3(ca@.len(), start@.len(), length@.len()),
                start@.len() == 1,
                length@.len() == 1,
                la == ca@.len(),
                la == 1 || la == n,
                st == start@[0],
                ln == length@[0],
                out_spec == substring_col(ca@, start@, length@),
                b.view() =~= out_spec.subrange(0, i as int),
            decreases n - i,
        {
            let sv = opt_as_str(if la == 1 {
                ca.get(0)
            } else {
                ca.get(i)
            });
            let piece = substring_ternary(sv, st, ln);
            push_opt_str(&mut b, piece);
            proof {
                assert(b.view() =~= out_spec.subrange(0, i + 1));
            }
            i += 1;
        }
    } else if la == 1 && lc == 1 {
        let sv = opt_as_str(ca.get(0));
        let ln = copy_u64(length.get(0));
        let mut i: usize = 0;
        while i < n
            invariant
                ca.wf(),
                start.wf(),
                length.wf(),
                b.wf(),
                i <= n,
                n == target3(ca@.len(), start@.len(), length@.len()),
                ca@.len() == 1,
                length@.len() == 1,
                lb == start@.len(),
                lb == 1 || lb == n,
                crate::column::opt_view(sv) == ca@[0],
                ln == length@[0],
                out_spec == substring_col(ca@, start@, length@),
                b.view() =~= out_spec.subrange(0, i as int),
            decreases n - i,
        {
            let st = copy_i64(if lb == 1 {
                start.get(0)
            } else {
                start.get(i)
            });
            let piece = substring_ternary(sv, st, ln);
            push_opt_str(&mut b, piece);
            proof {
                assert(b.view() =~= out_spec.subrange(0, i + 1));
            }
            i += 1;
        }
    } else {
        // The fully general lockstep path over every varying operand.
        let mut i: usize = 0;
        while i < n
            invariant
                ca.wf(),
                start.wf(),
                length.wf(),
                b.wf(),
                i <= n,
                n == target3(ca@.len(), start@.len(), length@.len()),
                la == ca@.len(),
                lb == start@.len(),
                lc == length@.len(),
                la == 1 || la == n,
                lb == 1 || lb == n,
                lc == 1 || lc == n,
                out_spec == substring_col(ca@, start@, length@),
                b.view() =~= out_spec.subrange(0, i as int),
            decreases n - i,
        {
            let sv = opt_as_str(if la == 1 {
                ca.get(0)
            } else {
                ca.get(i)
            });
            let st = copy_i64(if lb == 1 {
                start.get(0)
            } else {
                start.get(i)
            });
            let ln = copy_u64(if lc == 1 {
                length.get(0)
            } else {
                length.get(i)
            });
            let piece = substring_ternary(sv, st, ln);
            push_opt_str(&mut b, piece);
            proof {
                assert(b.view() =~= out_spec.subrange(0, i + 1));
            }
            i += 1;
        }
    }
    proof {
        assert(b.view() =~= out_spec);
    }
    Ok(ChunkedColumn::single(b.finish()))
}

/// An optional borrowed string as an optional string slice.
fn opt_as_str<'a>(o: Option<&'a String>) -> (r: Option<&'a str>)
    ensures
        crate::column::opt_view(r) == crate::column::opt_view(o),
{
    match o {
        Some(s) => Some(s.as_str()),
        None => None,
    }
}

/// An optional borrowed integer, copied out.
fn copy_i64(o: Option<&i64>) -> (r: Option<i64>)
    ensures
        r == crate::column::opt_view(o),
{
    match o {
        Some(v) => Some(*v),
        None => None,
    }
}

/// An optional borrowed integer, copied out.
fn copy_u64(o: Option<&u64>) -> (r: Option<u64>)
    ensures
        r == crate::column::opt_view(o),
{
    match o {
        Some(v) => Some(*v),
        None => None,
    }
}

/// Appends an optional string slice to a builder as an owned row.
fn push_opt_str(b: &mut ChunkBuilder<String>, piece: Option<&str>)
    requires
        old(b).wf(),
    ensures
        final(b).wf(),
        final(b).view() == old(b).view().push(crate::column::opt_view(piece)),
{
    match piece {
        Some(s) => b.push_value(s.to_owned()),
        None => b.push_null(),
    }
}

} // verus!
