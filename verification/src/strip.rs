//! Character stripping (trim) kernels.
//!
//! A scalar pattern of one character trims that character; a longer
//! pattern trims by character-set membership; a missing pattern trims
//! Unicode whitespace rather than nothing.

use crate::broadcast::bcast;
use crate::broadcast::broadcast_len2;
use crate::broadcast::compat2;
use crate::broadcast::target2;
use crate::column::opt_view;
use crate::column::ChunkBuilder;
use crate::column::ChunkedColumn;
use crate::KernelError;
use vstd::prelude::*;
use vstd::string::StrSliceExecFns;

verus! {

/// Whether a character has the Unicode `White_Space` property.
pub uninterp spec fn is_unicode_whitespace(c: char) -> bool;

/// Relies on char::is_whitespace: the Unicode `White_Space` property is a
/// function of the character alone.
#[verifier::external_body]
fn char_is_whitespace(c: char) -> (r: bool)
    ensures
        r == is_unicode_whitespace(c),
{
    c.is_whitespace()
}

/// The character predicate a pattern denotes: membership in the pattern's
/// characters, or whitespace when the pattern is missing.
pub open spec fn strip_pred(pat: Option<Seq<char>>) -> spec_fn(char) -> bool {
    match pat {
        Some(p) => (|c: char| p.contains(c)),
        None => (|c: char| is_unicode_whitespace(c)),
    }
}

/// The longest prefix satisfying `pred`, removed.
pub open spec fn trim_start_spec(s: Seq<char>, pred: spec_fn(char) -> bool) -> Seq<char>
    decreases s.len(),
{
    if s.len() == 0 {
        s
    } else if pred(s[0]) {
        trim_start_spec(s.drop_first(), pred)
    } else {
        s
    }
}

/// The longest suffix satisfying `pred`, removed.
pub open spec fn trim_end_spec(s: Seq<char>, pred: spec_fn(char) -> bool) -> Seq<char>
    decreases s.len(),
{
    if s.len() == 0 {
        s
    } else if pred(s.last()) {
        trim_end_spec(s.drop_last(), pred)
    } else {
        s
    }
}

/// Both ends trimmed.
pub open spec fn trim_spec(s: Seq<char>, pred: spec_fn(char) -> bool) -> Seq<char> {
    trim_end_spec(trim_start_spec(s, pred), pred)
}

proof fn lemma_trim_start_at(s: Seq<char>, pred: spec_fn(char) -> bool, i: int)
    requires
        0 <= i <= s.len(),
        forall|j: int| 0 <= j < i ==> pred(s[j]),
        i < s.len() ==> !pred(s[i]),
    ensures
        trim_start_spec(s, pred) == s.subrange(i, s.len() as int),
    decreases s.len(),
{
    if i == 0 {
        if s.len() == 0 || !pred(s[0]) {
            assert(trim_start_spec(s, pred) =~= s.subrange(0, s.len() as int));
        }
    } else {
        let t = s.drop_first();
        assert(forall|j: int| 0 <= j < i - 1 ==> pred(t[j]));
        lemma_trim_start_at(t, pred, i - 1);
        assert(t.subrange(i - 1, t.len() as int) =~= s.subrange(i, s.len() as int));
    }
}

proof fn lemma_trim_end_at(s: Seq<char>, pred: spec_fn(char) -> bool, e: int)
    requires
        0 <= e <= s.len(),
        forall|j: int| e <= j < s.len() ==> pred(s[j]),
        e > 0 ==> !pred(s[e - 1]),
    ensures
        trim_end_spec(s, pred) == s.subrange(0, e),
    decreases s.len(),
{
    if e == s.len() {
        if s.len() == 0 || !pred(s.last()) {
            assert(trim_end_spec(s, pred) =~= s.subrange(0, e));
        } else {
            let t = s.drop_last();
            lemma_trim_end_at(t, pred, e - 1);
            assert(t.subrange(0, e - 1) =~= s.subrange(0, e - 1));
            assert(false);
        }
    } else {
        let t = s.drop_last();
        assert(pred(s.last()));
        lemma_trim_end_at(t, pred, e);
        assert(t.subrange(0, e) =~= s.subrange(0, e));
    }
}

/// Whether `c` is one of the pattern's characters; a one-character pattern
/// is tested by direct comparison.
fn char_in_pattern(pat: &str, c: char) -> (r: bool)
    ensures
        r == pat@.contains(c),
{
    let n = pat.unicode_len();
    if n == 1 {
        let p0 = pat.get_char(0);
        proof {
            if c == p0 {
                assert(pat@.contains(c));
            } else {
                assert(forall|j: int| 0 <= j < pat@.len() ==> pat@[j] != c);
            }
        }
        c == p0
    } else {
        let mut i: usize = 0;
        while i < n
            invariant
                n == pat@.len(),
                i <= n,
                forall|j: int| 0 <= j < i ==> pat@[j] != c,
            decreases n - i,
        {
            if pat.get_char(i) == c {
                return true;
            }
            i += 1;
        }
        false
    }
}

/// Whether `c` satisfies the predicate that `pat` denotes.
fn char_matches(pat: Option<&str>, c: char) -> (r: bool)
    ensures
        r == strip_pred(opt_view(pat))(c),
{
    match pat {
        Some(p) => char_in_pattern(p, c),
        None => char_is_whitespace(c),
    }
}

/// The index after the trimmed prefix.
fn scan_start(s: &str, pat: Option<&str>) -> (i: usize)
    ensures
        i <= s@.len(),
        trim_start_spec(s@, strip_pred(opt_view(pat))) == s@.subrange(i as int, s@.len() as int),
{
    let n = s.unicode_len();
    let mut i: usize = 0;
    loop
        invariant
            n == s@.len(),
            i <= n,
            forall|j: int| 0 <= j < i ==> strip_pred(opt_view(pat))(s@[j]),
        ensures
            i <= n,
            forall|j: int| 0 <= j < i ==> strip_pred(opt_view(pat))(s@[j]),
            i < n ==> !strip_pred(opt_view(pat))(s@[i as int]),
        decreases n - i,
    {
        if i >= n {
            break ;
        }
        let c = s.get_char(i);
        if !char_matches(pat, c) {
            break ;
        }
        i += 1;
    }
    proof {
        lemma_trim_start_at(s@, strip_pred(opt_view(pat)), i as int);
    }
    i
}

/// The index before the trimmed suffix, scanning down from `hi`.
fn scan_end(s: &str, pat: Option<&str>, lo: usize, hi: usize) -> (e: usize)
    requires
        lo <= hi <= s@.len(),
    ensures
        lo <= e <= hi,
        forall|j: int| e <= j < hi ==> strip_pred(opt_view(pat))(s@[j]),
        e > lo ==> !strip_pred(opt_view(pat))(s@[e - 1]),
{
    let mut e: usize = hi;
    loop
        invariant
            lo <= e <= hi <= s@.len(),
            forall|j: int| e <= j < hi ==> strip_pred(opt_view(pat))(s@[j]),
        ensures
            lo <= e <= hi,
            forall|j: int| e <= j < hi ==> strip_pred(opt_view(pat))(s@[j]),
            e > lo ==> !strip_pred(opt_view(pat))(s@[e - 1]),
        decreases e,
    {
        if e <= lo {
            break ;
        }
        let c = s.get_char(e - 1);
        if !char_matches(pat, c) {
            break ;
        }
        e -= 1;
    }
    e
}

/// One row trimmed at both ends; a missing value stays missing, a missing
/// pattern trims whitespace.
pub fn strip_chars_binary<'a>(opt_s: Option<&'a str>, opt_pat: Option<&str>) -> (r: Option<&'a str>)
    ensures
        opt_view(r) == match opt_view(opt_s) {
            Some(s) => Some(trim_spec(s, strip_pred(opt_view(opt_pat)))),
            None => None::<Seq<char>>,
        },
{
    let s = match opt_s {
        Some(s) => s,
        None => {
            return None;
        },
    };
    let i = scan_start(s, opt_pat);
    let n = s.unicode_len();
    let e = scan_end(s, opt_pat, i, n);
    proof {
        let pred = strip_pred(opt_view(opt_pat));
        let t = trim_start_spec(s@, pred);
        assert(t == s@.subrange(i as int, n as int));
        lemma_trim_end_at(t, pred, e - i);
        assert(t.subrange(0, e - i) =~= s@.subrange(i as int, e as int));
    }
    Some(s.substring_char(i, e))
}

/// One row trimmed at the start only.
pub fn strip_chars_start_binary<'a>(opt_s: Option<&'a str>, opt_pat: Option<&str>) -> (r: Option<
    &'a str,
>)
    ensures
        opt_view(r) == match opt_view(opt_s) {
            Some(s) => Some(trim_start_spec(s, strip_pred(opt_view(opt_pat)))),
            None => None::<Seq<char>>,
        },
{
    let s = match opt_s {
        Some(s) => s,
        None => {
            return None;
        },
    };
    let i = scan_start(s, opt_pat);
    let n = s.unicode_len();
    Some(s.substring_char(i, n))
}

/// One row trimmed at the end only.
pub fn strip_chars_end_binary<'a>(opt_s: Option<&'a str>, opt_pat: Option<&str>) -> (r: Option<
    &'a str,
>)
    ensures
        opt_view(r) == match opt_view(opt_s) {
            Some(s) => Some(trim_end_spec(s, strip_pred(opt_view(opt_pat)))),
            None => None::<Seq<char>>,
        },
{
    let s = match opt_s {
        Some(s) => s,
        None => {
            return None;
        },
    };
    let n = s.unicode_len();
    let e = scan_end(s, opt_pat, 0, n);
    proof {
        lemma_trim_end_at(s@, strip_pred(opt_view(opt_pat)), e as int);
    }
    Some(s.substring_char(0, e))
}

/// The output rows of a strip kernel: `mode` selects start, end, or both.
pub open spec fn strip_col(
    ca: Seq<Option<Seq<char>>>,
    pat: Seq<Option<Seq<char>>>,
    strip_start: bool,
    strip_end: bool,
) -> Seq<Option<Seq<char>>> {
    Seq::new(
        target2(ca.len(), pat.len()),
        |i: int|
            match bcast(ca, i) {
                Some(s) => {
                    let pred = strip_pred(bcast(pat, i));
                    if strip_start && strip_end {
                        Some(trim_spec(s, pred))
                    } else if strip_start {
                        Some(trim_start_spec(s, pred))
                    } else {
                        Some(trim_end_spec(s, pred))
                    }
                },
                None => None::<Seq<char>>,
            },
    )
}

/// Strips both ends of every row, broadcasting a scalar pattern.
pub fn strip_chars(ca: &ChunkedColumn<String>, pat: &ChunkedColumn<String>) -> (r: Result<
    ChunkedColumn<String>,
    KernelError,
>)
    requires
        ca.wf(),
        pat.wf(),
    ensures
        compat2(ca@.len(), pat@.len()) ==> (r matches Ok(out) && out.wf() && out@ == strip_col(
            ca@,
            pat@,
            true,
            true,
        )),
        !compat2(ca@.len(), pat@.len()) ==> r == Err::<ChunkedColumn<String>, KernelError>(
            KernelError::ShapeMismatch,
        ),
{
    strip_impl(ca, pat, true, true)
}

/// Strips the start of every row, broadcasting a scalar pattern.
pub fn strip_chars_start(ca: &ChunkedColumn<String>, pat: &ChunkedColumn<String>) -> (r: Result<
    ChunkedColumn<String>,
    KernelError,
>)
    requires
        ca.wf(),
        pat.wf(),
    ensures
        compat2(ca@.len(), pat@.len()) ==> (r matches Ok(out) && out.wf() && out@ == strip_col(
            ca@,
            pat@,
            true,
            false,
        )),
        !compat2(ca@.len(), pat@.len()) ==> r == Err::<ChunkedColumn<String>, KernelError>(
            KernelError::ShapeMismatch,
        ),
{
    strip_impl(ca, pat, true, false)
}

/// Strips the end of every row, broadcasting a scalar pattern.
pub fn strip_chars_end(ca: &ChunkedColumn<String>, pat: &ChunkedColumn<String>) -> (r: Result<
    ChunkedColumn<String>,
    KernelError,
>)
    requires
        ca.wf(),
        pat.wf(),
    ensures
        compat2(ca@.len(), pat@.len()) ==> (r matches Ok(out) && out.wf() && out@ == strip_col(
            ca@,
            pat@,
            false,
            true,
        )),
        !compat2(ca@.len(), pat@.len()) ==> r == Err::<ChunkedColumn<String>, KernelError>(
            KernelError::ShapeMismatch,
        ),
{
    strip_impl(ca, pat, false, true)
}

/// One row of a strip kernel under the selected mode.
fn strip_row_dispatch<'a>(opt_s: Option<&'a str>, opt_pat: Option<&str>, strip_start: bool, strip_end: bool) -> (r:
    Option<&'a str>)
    requires
        strip_start || strip_end,
    ensures
        opt_view(r) == match opt_view(opt_s) {
            Some(s) => {
                let pred = strip_pred(opt_view(opt_pat));
                if strip_start && strip_end {
                    Some(trim_spec(s, pred))
                } else if strip_start {
                    Some(trim_start_spec(s, pred))
                } else {
                    Some(trim_end_spec(s, pred))
                }
            },
            None => None::<Seq<char>>,
        },
{
    if strip_start && strip_end {
        strip_chars_binary(opt_s, opt_pat)
    } else if strip_start {
        strip_chars_start_binary(opt_s, opt_pat)
    } else {
        strip_chars_end_binary(opt_s, opt_pat)
    }
}

fn strip_impl(
    ca: &ChunkedColumn<String>,
    pat: &ChunkedColumn<String>,
    strip_start: bool,
    strip_end: bool,
) -> (r: Result<ChunkedColumn<String>, KernelError>)
    requires
        ca.wf(),
        pat.wf(),
        strip_start || strip_end,
    ensures
        compat2(ca@.len(), pat@.len()) ==> (r matches Ok(out) && out.wf() && out@ == strip_col(
            ca@,
            pat@,
            strip_start,
            strip_end,
        )),
        !compat2(ca@.len(), pat@.len()) ==> r == Err::<ChunkedColumn<String>, KernelError>(
            KernelError::ShapeMismatch,
        ),
{
    let la = ca.len();
    let lb = pat.len();
    let n = match broadcast_len2(la, lb) {
        Ok(v) => v,
        Err(e) => {
            return Err(e);
        },
    };
    let ghost out_spec = strip_col(ca@, pat@, strip_start, strip_end);
    let mut b = ChunkBuilder::<String>::new(String::new());
    if lb == 1 {
        // The pattern is a scalar: read it once.
        let p0 = opt_as_str(pat.get(0));
        let mut i: usize = 0;
        while i < n
            invariant
                ca.wf(),
                pat.wf(),
                b.wf(),
                i <= n,
                strip_start || strip_end,
                n == target2(ca@.len(), pat@.len()),
                pat@.len() == 1,
                la == ca@.len(),
                la == 1 || la == n,
                opt_view(p0) == pat@[0],
                out_spec == strip_col(ca@, pat@, strip_start, strip_end),
                b.view() =~= out_spec.subrange(0, i as int),
            decreases n - i,
        {
            let sv = opt_as_str(if la == 1 {
                ca.get(0)
            } else {
                ca.get(i)
            });
            let piece = strip_row_dispatch(sv, p0, strip_start, strip_end);
            push_opt_str(&mut b, piece);
            proof {
                assert(b.view() =~= out_spec.subrange(0, i + 1));
            }
            i += 1;
        }
    } else {
        let mut i: usize = 0;
        while i < n
            invariant
                ca.wf(),
                pat.wf(),
                b.wf(),
                i <= n,
                strip_start || strip_end,
                n == target2(ca@.len(), pat@.len()),
                lb == pat@.len(),
                lb == n,
                la == ca@.len(),
                la == 1 || la == n,
                out_spec == strip_col(ca@, pat@, strip_start, strip_end),
                b.view() =~= out_spec.subrange(0, i as int),
            decreases n - i,
        {
            let sv = opt_as_str(if la == 1 {
                ca.get(0)
            } else {
                ca.get(i)
            });
            let p = opt_as_str(pat.get(i));
            let piece = strip_row_dispatch(sv, p, strip_start, strip_end);
            push_opt_str(&mut b, piece);
            proof {
                assert(b.view() =~= out_spec.subrange(0, i + 1));
            }
            i += 1;
        }
    }
    proof {
        assert(b.view() =~= out_spec);
    }
    Ok(ChunkedColumn::single(b.finish()))
}

/// An optional borrowed string as an optional string slice.
fn opt_as_str<'a>(o: Option<&'a String>) -> (r: Option<&'a str>)
    ensures
        opt_view(r) == opt_view(o),
{
    match o {
        Some(s) => Some(s.as_str()),
        None => None,
    }
}

/// Appends an optional string slice to a builder as an owned row.
fn push_opt_str(b: &mut ChunkBuilder<String>, piece: Option<&str>)
    requires
        old(b).wf(),
    ensures
        final(b).wf(),
        final(b).view() == old(b).view().push(opt_view(piece)),
{
    match piece {
        Some(s) => b.push_value(s.to_owned()),
        None => b.push_null(),
    }
}

} // verus!
