//! The broadcasting protocol: a length-1 operand combines with operands of
//! a shared non-unit length by repeating its single row; any two non-unit
//! lengths that differ are a shape mismatch.

use crate::KernelError;
use vstd::prelude::*;

verus! {

/// The broadcast value of operand rows `s` at row `i`: a length-1 operand
/// repeats its single row.
pub open spec fn bcast<A>(s: Seq<A>, i: int) -> A
    recommends
        s.len() == 1 || 0 <= i < s.len(),
{
    if s.len() == 1 {
        s[0]
    } else {
        s[i]
    }
}

/// Whether two operand lengths broadcast together.
pub open spec fn compat2(a: nat, b: nat) -> bool {
    a == b || a == 1 || b == 1
}

/// The output length of two broadcast operands.
pub open spec fn target2(a: nat, b: nat) -> nat {
    if a != 1 {
        a
    } else {
        b
    }
}

/// Whether three operand lengths broadcast together.
pub open spec fn compat3(a: nat, b: nat, c: nat) -> bool {
    compat2(a, b) && compat2(a, c) && compat2(b, c)
}

/// The output length of three broadcast operands.
pub open spec fn target3(a: nat, b: nat, c: nat) -> nat {
    if a != 1 {
        a
    } else if b != 1 {
        b
    } else {
        c
    }
}

/// Resolves the output length of two operands, or reports the mismatch.
pub fn broadcast_len2(a: usize, b: usize) -> (r: Result<usize, KernelError>)
    ensures
        compat2(a as nat, b as nat) ==> r == Ok::<usize, KernelError>(
            target2(a as nat, b as nat) as usize,
        ),
        !compat2(a as nat, b as nat) ==> r == Err::<usize, KernelError>(KernelError::ShapeMismatch),
{
    if a == b || b == 1 {
        Ok(a)
    } else if a == 1 {
        Ok(b)
    } else {
        Err(KernelError::ShapeMismatch)
    }
}

/// Resolves the output length of three operands, or reports the mismatch.
pub fn broadcast_len3(a: usize, b: usize, c: usize) -> (r: Result<usize, KernelError>)
    ensures
        compat3(a as nat, b as nat, c as nat) ==> r == Ok::<usize, KernelError>(
            target3(a as nat, b as nat, c as nat) as usize,
        ),
        !compat3(a as nat, b as nat, c as nat) ==> r == Err::<usize, KernelError>(
            KernelError::ShapeMismatch,
        ),
{
    let ab = match broadcast_len2(a, b) {
        Ok(v) => v,
        Err(e) => return Err(e),
    };
    match broadcast_len2(ab, c) {
        Ok(_) => (),
        Err(e) => return Err(e),
    };
    if a != 1 {
        Ok(a)
    } else if b != 1 {
        Ok(b)
    } else {
        Ok(c)
    }
}

} // verus!
