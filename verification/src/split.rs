//! String splitting kernels: split, inclusive split, and splitting into a
//! fixed number of struct fields.

use crate::broadcast::bcast;
use crate::broadcast::broadcast_len2;
use crate::broadcast::compat2;
use crate::broadcast::target2;
use crate::column::opt_view;
use crate::column::ChunkBuilder;
use crate::column::ChunkedColumn;
use crate::list_column::ListBuilder;
use crate::list_column::ListColumn;
use crate::KernelError;
use vstd::prelude::*;
use vstd::string::StrSliceExecFns;

verus! {

/// Whether `sep` occurs in `s` at position `i`.
pub open spec fn is_match(s: Seq<char>, sep: Seq<char>, i: int) -> bool {
    0 <= i && i + sep.len() <= s.len() && s.subrange(i, i + sep.len()) == sep
}

/// The first position at or after `from` where `sep` occurs in `s`.
pub open spec fn first_match(s: Seq<char>, sep: Seq<char>, from: int) -> Option<int>
    decreases s.len() - from,
    when 0 <= from <= s.len()
{
    if from + sep.len() > s.len() {
        None
    } else if is_match(s, sep, from) {
        Some(from)
    } else if from >= s.len() {
        None
    } else {
        first_match(s, sep, from + 1)
    }
}

/// The first match is a match, lies at or after `from`, and nothing
/// before it matches; when there is none, nothing matches at all.
pub proof fn lemma_first_match_bounds(s: Seq<char>, sep: Seq<char>, from: int)
    requires
        0 <= from <= s.len(),
    ensures
        match first_match(s, sep, from) {
            Some(i) => from <= i && i + sep.len() <= s.len() && is_match(s, sep, i) && (forall|
                j: int,
            |
                from <= j < i ==> !is_match(s, sep, j)),
            None => forall|j: int| from <= j ==> !is_match(s, sep, j),
        },
    decreases s.len() - from,
{
    if from + sep.len() > s.len() {
        assert forall|j: int| from <= j implies !is_match(s, sep, j) by {}
    } else if is_match(s, sep, from) {
    } else if from >= s.len() {
        assert forall|j: int| from <= j implies !is_match(s, sep, j) by {
            if j + sep.len() <= s.len() {
                assert(sep.len() == 0);
                assert(j == from);
            }
        }
    } else {
        lemma_first_match_bounds(s, sep, from + 1);
    }
}

#[via_fn]
proof fn split_spec_decreases(s: Seq<char>, sep: Seq<char>) {
    if sep.len() > 0 {
        lemma_first_match_bounds(s, sep, 0);
    }
}

#[via_fn]
proof fn split_inclusive_spec_decreases(s: Seq<char>, sep: Seq<char>) {
    if s.len() > 0 && sep.len() > 0 {
        lemma_first_match_bounds(s, sep, 0);
    }
}

/// The pieces of `s` split by `sep`: the text between occurrences, the
/// separator removed. An empty separator splits between every character.
pub open spec fn split_spec(s: Seq<char>, sep: Seq<char>) -> Seq<Seq<char>>
    decreases s.len(),
    via split_spec_decreases
{
    if sep.len() == 0 {
        seq![Seq::<char>::empty()] + s.map_values(|c: char| seq![c]) + seq![Seq::<char>::empty()]
    } else {
        match first_match(s, sep, 0) {
            None => seq![s],
            Some(i) => seq![s.subrange(0, i)] + split_spec(
                s.subrange(i + sep.len(), s.len() as int),
                sep,
            ),
        }
    }
}

/// The pieces of `s` split after each occurrence of `sep`, the separator
/// kept at the end of its piece; an empty string has no pieces.
pub open spec fn split_inclusive_spec(s: Seq<char>, sep: Seq<char>) -> Seq<Seq<char>>
    decreases s.len(),
    via split_inclusive_spec_decreases
{
    if s.len() == 0 {
        Seq::empty()
    } else if sep.len() == 0 {
        seq![Seq::<char>::empty()] + s.map_values(|c: char| seq![c])
    } else {
        match first_match(s, sep, 0) {
            None => seq![s],
            Some(i) => seq![s.subrange(0, i + sep.len())] + split_inclusive_spec(
                s.subrange(i + sep.len(), s.len() as int),
                sep,
            ),
        }
    }
}

/// At most `n` split pieces: the last keeps the unsplit remainder.
pub open spec fn splitn_spec(s: Seq<char>, sep: Seq<char>, n: nat) -> Seq<Seq<char>>
    decreases n,
{
    if n == 0 {
        Seq::empty()
    } else if n == 1 {
        seq![s]
    } else {
        match first_match(s, sep, 0) {
            None => seq![s],
            Some(i) => seq![s.subrange(0, i)] + splitn_spec(
                s.subrange(i + sep.len(), s.len() as int),
                sep,
                (n - 1) as nat,
            ),
        }
    }
}

/// Whether `sep` occurs in `s` at character position `i`.
fn match_at(s: &str, sep: &str, i: usize, n: usize, m: usize) -> (r: bool)
    requires
        n == s@.len(),
        m == sep@.len(),
        i <= n,
        m <= n - i,
    ensures
        r == is_match(s@, sep@, i as int),
{
    let mut k: usize = 0;
    while k < m
        invariant
            n == s@.len(),
            m == sep@.len(),
            i <= n,
            m <= n - i,
            k <= m,
            forall|j: int| 0 <= j < k ==> s@[i + j] == sep@[j],
        decreases m - k,
    {
        if s.get_char(i + k) != sep.get_char(k) {
            proof {
                assert(s@.subrange(i as int, i + m) != sep@) by {
                    assert(s@.subrange(i as int, i + m)[k as int] != sep@[k as int]);
                }
            }
            return false;
        }
        k += 1;
    }
    proof {
        assert(s@.subrange(i as int, i + m) =~= sep@);
    }
    true
}

/// The first occurrence of a non-empty `sep` in `s` at or after `from`.
fn find_match(s: &str, sep: &str, from: usize) -> (r: Option<usize>)
    requires
        from <= s@.len(),
        sep@.len() >= 1,
    ensures
        match r {
            Some(i) => Some(i as int) == first_match(s@, sep@, from as int),
            None => first_match(s@, sep@, from as int) is None,
        },
{
    let n = s.unicode_len();
    let m = sep.unicode_len();
    let mut i: usize = from;
    loop
        invariant
            n == s@.len(),
            m == sep@.len(),
            m >= 1,
            from <= i,
            i <= n,
            first_match(s@, sep@, from as int) == if m <= n - i {
                first_match(s@, sep@, i as int)
            } else {
                None::<int>
            },
        ensures
            i <= n,
            match (if m <= n - i {
                Some(i)
            } else {
                None::<usize>
            }) {
                Some(v) => Some(v as int) == first_match(s@, sep@, from as int),
                None => first_match(s@, sep@, from as int) is None,
            },
        decreases n - i,
    {
        if m > n - i {
            break ;
        }
        if match_at(s, sep, i, n, m) {
            break ;
        }
        i += 1;
    }
    if m <= n - i {
        Some(i)
    } else {
        None
    }
}

/// One output row of a split kernel: a missing value or separator yields a
/// missing row.
pub open spec fn split_row(v: Option<Seq<char>>, by: Option<Seq<char>>, inclusive: bool) -> Option<
    Seq<Seq<char>>,
> {
    match (v, by) {
        (Some(s), Some(p)) => Some(
            if inclusive {
                split_inclusive_spec(s, p)
            } else {
                split_spec(s, p)
            },
        ),
        _ => None,
    }
}

/// The whole output column of a split kernel over broadcast operands.
pub open spec fn split_col(
    ca: Seq<Option<Seq<char>>>,
    by: Seq<Option<Seq<char>>>,
    inclusive: bool,
) -> Seq<Option<Seq<Seq<char>>>> {
    Seq::new(target2(ca.len(), by.len()), |i: int| split_row(bcast(ca, i), bcast(by, i), inclusive))
}

/// Field `j` of a row split into at most `n` pieces.
pub open spec fn split_field(row: Option<Seq<char>>, sep: Seq<char>, n: nat, j: int) -> Option<
    Seq<char>,
> {
    match row {
        Some(s) => {
            let ps = splitn_spec(s, sep, n);
            if 0 <= j < ps.len() {
                Some(ps[j])
            } else {
                None
            }
        },
        None => None,
    }
}

/// The split pieces of one string by a non-empty separator, phrased over
/// the suffix of `s` that starts at `lo`.
fn find_match_in_suffix(s: &str, sep: &str, lo: usize, n: usize, m: usize) -> (r: Option<usize>)
    requires
        n == s@.len(),
        m == sep@.len(),
        m >= 1,
        lo <= n,
    ensures
        match r {
            Some(i) => lo <= i && m <= n - i && Some(i - lo) == first_match(
                s@.subrange(lo as int, n as int),
                sep@,
                0,
            ) && is_match(s@, sep@, i as int),
            None => first_match(s@.subrange(lo as int, n as int), sep@, 0) is None,
        },
{
    let r = find_match(s, sep, lo);
    proof {
        lemma_first_match_suffix(s@, sep@, lo as int, lo as int);
        lemma_first_match_bounds(s@, sep@, lo as int);
    }
    r
}

/// A match search on the whole string from `from` agrees with a search on
/// the suffix that starts at `lo`.
proof fn lemma_first_match_suffix(s: Seq<char>, sep: Seq<char>, lo: int, from: int)
    requires
        0 <= lo <= from <= s.len(),
        sep.len() >= 1,
    ensures
        first_match(s, sep, from) == match first_match(s.subrange(lo, s.len() as int), sep, from
            - lo) {
            Some(j) => Some(j + lo),
            None => None::<int>,
        },
    decreases s.len() - from,
{
    let suf = s.subrange(lo, s.len() as int);
    if from + sep.len() > s.len() {
    } else {
        assert(s.subrange(from, from + sep.len()) =~= suf.subrange(
            from - lo,
            from - lo + sep.len(),
        ));
        if is_match(s, sep, from) {
        } else {
            lemma_first_match_suffix(s, sep, lo, from + 1);
        }
    }
}

/// The split pieces of one string.
pub fn split_one(s: &str, sep: &str, inclusive: bool) -> (r: Vec<String>)
    ensures
        r@.map_values(|p: String| p@) == if inclusive {
            split_inclusive_spec(s@, sep@)
        } else {
            split_spec(s@, sep@)
        },
{
    let ghost goal = if inclusive {
        split_inclusive_spec(s@, sep@)
    } else {
        split_spec(s@, sep@)
    };
    let mut out: Vec<String> = Vec::new();
    let m = sep.unicode_len();
    let n = s.unicode_len();
    if m == 0 {
        if inclusive && n == 0 {
            proof {
                assert(out@.map_values(|p: String| p@) =~= goal);
            }
            return out;
        }
        out.push(String::new());
        let mut i: usize = 0;
        while i < n
            invariant
                n == s@.len(),
                m == sep@.len(),
                m == 0,
                i <= n,
                out@.map_values(|p: String| p@) =~= seq![Seq::<char>::empty()] + s@.subrange(
                    0,
                    i as int,
                ).map_values(|c: char| seq![c]),
            decreases n - i,
        {
            let ghost prev = out@;
            let piece = s.substring_char(i, i + 1);
            out.push(piece.to_owned());
            proof {
                assert(piece@ =~= seq![s@[i as int]]);
                assert(s@.subrange(0, i + 1).map_values(|c: char| seq![c]) =~= s@.subrange(
                    0,
                    i as int,
                ).map_values(|c: char| seq![c]).push(seq![s@[i as int]]));
                assert(out@.map_values(|p: String| p@) =~= prev.map_values(|p: String| p@).push(
                    piece@,
                ));
            }
            i += 1;
        }
        if !inclusive {
            out.push(String::new());
        }
        proof {
            assert(s@.subrange(0, s@.len() as int) =~= s@);
            assert(out@.map_values(|p: String| p@) =~= goal);
        }
        return out;
    }
    let mut lo: usize = 0;
    proof {
        assert(s@.subrange(0, n as int) =~= s@);
        assert(out@.map_values(|p: String| p@) =~= Seq::<Seq<char>>::empty());
    }
    loop
        invariant_except_break
            goal =~= out@.map_values(|p: String| p@) + (if inclusive {
                split_inclusive_spec(s@.subrange(lo as int, n as int), sep@)
            } else {
                split_spec(s@.subrange(lo as int, n as int), sep@)
            }),
        invariant
            n == s@.len(),
            m == sep@.len(),
            m >= 1,
            lo <= n,
        ensures
            goal =~= out@.map_values(|p: String| p@),
        decreases n - lo + 1,
    {
        let ghost rest = s@.subrange(lo as int, n as int);
        let ghost prev = out@;
        if inclusive && lo == n {
            proof {
                assert(rest =~= Seq::<char>::empty());
                assert(goal =~= out@.map_values(|p: String| p@));
            }
            break ;
        }
        match find_match_in_suffix(s, sep, lo, n, m) {
            None => {
                let piece = s.substring_char(lo, n);
                out.push(piece.to_owned());
                proof {
                    assert(piece@ =~= rest);
                    assert(out@.map_values(|p: String| p@) =~= prev.map_values(
                        |p: String| p@,
                    ).push(rest));
                    assert(goal =~= out@.map_values(|p: String| p@));
                }
                break ;
            },
            Some(i) => {
                let hi = if inclusive {
                    i + m
                } else {
                    i
                };
                let piece = s.substring_char(lo, hi);
                out.push(piece.to_owned());
                proof {
                    assert(piece@ =~= rest.subrange(0, hi - lo));
                    assert(s@.subrange((i + m) as int, n as int) =~= rest.subrange(
                        i - lo + m,
                        rest.len() as int,
                    ));
                    assert(out@.map_values(|p: String| p@) =~= prev.map_values(
                        |p: String| p@,
                    ).push(piece@));
                }
                lo = i + m;
            },
        }
    }
    out
}

/// At most `n` split pieces of one string.
pub fn splitn_one(s: &str, sep: &str, n: usize) -> (r: Vec<String>)
    ensures
        r@.map_values(|p: String| p@) == splitn_spec(s@, sep@, n as nat),
{
    let ghost goal = splitn_spec(s@, sep@, n as nat);
    let mut out: Vec<String> = Vec::new();
    if n == 0 {
        proof {
            assert(out@.map_values(|p: String| p@) =~= goal);
        }
        return out;
    }
    let m = sep.unicode_len();
    let slen = s.unicode_len();
    let mut k: usize = n;
    let mut lo: usize = 0;
    proof {
        assert(s@.subrange(0, slen as int) =~= s@);
        assert(out@.map_values(|p: String| p@) =~= Seq::<Seq<char>>::empty());
    }
    loop
        invariant_except_break
            goal =~= out@.map_values(|p: String| p@) + splitn_spec(
                s@.subrange(lo as int, slen as int),
                sep@,
                k as nat,
            ),
        invariant
            slen == s@.len(),
            m == sep@.len(),
            k >= 1,
            lo <= slen,
        ensures
            goal =~= out@.map_values(|p: String| p@),
        decreases k,
    {
        let ghost rest = s@.subrange(lo as int, slen as int);
        let ghost prev = out@;
        if k == 1 {
            let piece = s.substring_char(lo, slen);
            out.push(piece.to_owned());
            proof {
                assert(piece@ =~= rest);
                assert(out@.map_values(|p: String| p@) =~= prev.map_values(|p: String| p@).push(
                    rest,
                ));
                assert(goal =~= out@.map_values(|p: String| p@));
            }
            break ;
        }
        if m == 0 {
            out.push(String::new());
            k -= 1;
            proof {
                assert(rest.subrange(0, 0 + sep@.len() as int) =~= sep@);
                assert(is_match(rest, sep@, 0));
                assert(first_match(rest, sep@, 0) == Some(0int));
                assert(rest.subrange(0 + sep@.len() as int, rest.len() as int) =~= rest);
                assert(rest.subrange(0, 0) =~= Seq::<char>::empty());
                assert(out@.map_values(|p: String| p@) =~= prev.map_values(|p: String| p@).push(
                    Seq::<char>::empty(),
                ));
            }
            continue ;
        }
        match find_match_in_suffix(s, sep, lo, slen, m) {
            None => {
                let piece = s.substring_char(lo, slen);
                out.push(piece.to_owned());
                proof {
                    assert(piece@ =~= rest);
                    assert(out@.map_values(|p: String| p@) =~= prev.map_values(
                        |p: String| p@,
                    ).push(rest));
                    assert(goal =~= out@.map_values(|p: String| p@));
                }
                break ;
            },
            Some(i) => {
                let piece = s.substring_char(lo, i);
                out.push(piece.to_owned());
                proof {
                    assert(piece@ =~= rest.subrange(0, i - lo));
                    assert(s@.subrange((i + m) as int, slen as int) =~= rest.subrange(
                        i - lo + sep@.len(),
                        rest.len() as int,
                    ));
                    assert(out@.map_values(|p: String| p@) =~= prev.map_values(
                        |p: String| p@,
                    ).push(piece@));
                }
                lo = i + m;
                k -= 1;
            },
        }
    }
    out
}

/// A split over every row against one literal separator.
fn split_literal(ca: &ChunkedColumn<String>, by: &str, inclusive: bool) -> (r: ListColumn<String>)
    requires
        ca.wf(),
    ensures
        r.wf(),
        r@ == Seq::new(ca@.len(), |i: int| split_row(ca@[i], Some(by@), inclusive)),
{
    let ghost goal = Seq::new(ca@.len(), |i: int| split_row(ca@[i], Some(by@), inclusive));
    let n = ca.len();
    let mut b = ListBuilder::<String>::new();
    let mut i: usize = 0;
    while i < n
        invariant
            ca.wf(),
            b.wf(),
            i <= n,
            n == ca@.len(),
            goal == Seq::new(ca@.len(), |j: int| split_row(ca@[j], Some(by@), inclusive)),
            b.view() =~= goal.subrange(0, i as int),
        decreases n - i,
    {
        match ca.get(i) {
            Some(s) => {
                let pieces = split_one(s.as_str(), by, inclusive);
                proof {
                    assert(pieces@.map_values(|v: String| v@) =~= pieces@.map_values(
                        |p: String| p@,
                    ));
                }
                b.push_list(pieces);
            },
            None => {
                b.push_null();
            },
        }
        proof {
            assert(b.view() =~= goal.subrange(0, i + 1));
        }
        i += 1;
    }
    proof {
        assert(goal.subrange(0, n as int) =~= goal);
    }
    b.finish()
}

/// A split pairing each row with its own separator, under broadcasting.
fn split_many(ca: &ChunkedColumn<String>, by: &ChunkedColumn<String>, inclusive: bool) -> (r:
    Result<ListColumn<String>, KernelError>)
    requires
        ca.wf(),
        by.wf(),
    ensures
        compat2(ca@.len(), by@.len()) ==> (r matches Ok(out) && out.wf() && out@ == split_col(
            ca@,
            by@,
            inclusive,
        )),
        !compat2(ca@.len(), by@.len()) ==> r == Err::<ListColumn<String>, KernelError>(
            KernelError::ShapeMismatch,
        ),
{
    let la = ca.len();
    let lb = by.len();
    let n = match broadcast_len2(la, lb) {
        Ok(v) => v,
        Err(e) => {
            return Err(e);
        },
    };
    let ghost goal = split_col(ca@, by@, inclusive);
    let mut b = ListBuilder::<String>::new();
    let mut i: usize = 0;
    while i < n
        invariant
            ca.wf(),
            by.wf(),
            b.wf(),
            i <= n,
            n == target2(ca@.len(), by@.len()),
            la == ca@.len(),
            lb == by@.len(),
            la == 1 || la == n,
            lb == 1 || lb == n,
            goal == split_col(ca@, by@, inclusive),
            b.view() =~= goal.subrange(0, i as int),
        decreases n - i,
    {
        let sv = if la == 1 {
            ca.get(0)
        } else {
            ca.get(i)
        };
        let pv = if lb == 1 {
            by.get(0)
        } else {
            by.get(i)
        };
        match (sv, pv) {
            (Some(s), Some(p)) => {
                let pieces = split_one(s.as_str(), p.as_str(), inclusive);
                proof {
                    assert(pieces@.map_values(|v: String| v@) =~= pieces@.map_values(
                        |p0: String| p0@,
                    ));
                }
                b.push_list(pieces);
            },
            _ => {
                b.push_null();
            },
        }
        proof {
            assert(b.view() =~= goal.subrange(0, i + 1));
        }
        i += 1;
    }
    proof {
        assert(goal.subrange(0, n as int) =~= goal);
    }
    Ok(b.finish())
}

/// Splits each row by the separator, broadcasting a scalar separator; a
/// missing scalar separator yields an all-missing output.
pub fn split(ca: &ChunkedColumn<String>, by: &ChunkedColumn<String>) -> (r: Result<
    ListColumn<String>,
    KernelError,
>)
    requires
        ca.wf(),
        by.wf(),
    ensures
        compat2(ca@.len(), by@.len()) ==> (r matches Ok(out) && out.wf() && out@ == split_col(
            ca@,
            by@,
            false,
        )),
        !compat2(ca@.len(), by@.len()) ==> r == Err::<ListColumn<String>, KernelError>(
            KernelError::ShapeMismatch,
        ),
{
    split_dispatch(ca, by, false)
}

/// Splits each row by the separator, keeping the separator at the end of
/// each piece; a missing scalar separator yields an all-missing output.
pub fn split_inclusive(ca: &ChunkedColumn<String>, by: &ChunkedColumn<String>) -> (r: Result<
    ListColumn<String>,
    KernelError,
>)
    requires
        ca.wf(),
        by.wf(),
    ensures
        compat2(ca@.len(), by@.len()) ==> (r matches Ok(out) && out.wf() && out@ == split_col(
            ca@,
            by@,
            true,
        )),
        !compat2(ca@.len(), by@.len()) ==> r == Err::<ListColumn<String>, KernelError>(
            KernelError::ShapeMismatch,
        ),
{
    split_dispatch(ca, by, true)
}

fn split_dispatch(ca: &ChunkedColumn<String>, by: &ChunkedColumn<String>, inclusive: bool) -> (r:
    Result<ListColumn<String>, KernelError>)
    requires
        ca.wf(),
        by.wf(),
    ensures
        compat2(ca@.len(), by@.len()) ==> (r matches Ok(out) && out.wf() && out@ == split_col(
            ca@,
            by@,
            inclusive,
        )),
        !compat2(ca@.len(), by@.len()) ==> r == Err::<ListColumn<String>, KernelError>(
            KernelError::ShapeMismatch,
        ),
{
    if by.len() == 1 {
        match by.get(0) {
            Some(sep) => {
                let out = split_literal(ca, sep.as_str(), inclusive);
                proof {
                    assert(out@ =~= split_col(ca@, by@, inclusive));
                }
                Ok(out)
            },
            None => {
                // A missing scalar separator: every output row is missing.
                let n = ca.len();
                let mut b = ListBuilder::<String>::new();
                let mut i: usize = 0;
                while i < n
                    invariant
                        b.wf(),
                        i <= n,
                        b.view() =~= Seq::new(i as nat, |j: int| None::<Seq<Seq<char>>>),
                    decreases n - i,
                {
                    b.push_null();
                    proof {
                        assert(b.view() =~= Seq::new((i + 1) as nat, |j: int| None::<
                            Seq<Seq<char>>,
                        >));
                    }
                    i += 1;
                }
                let out = b.finish();
                proof {
                    assert(out@ =~= split_col(ca@, by@, inclusive));
                }
                Ok(out)
            },
        }
    } else {
        split_many(ca, by, inclusive)
    }
}

/// Splits each row into at most `n` pieces and transposes the pieces into
/// `n` field columns; a row with fewer pieces fills its remaining fields
/// with missing values.
pub fn split_to_struct(ca: &ChunkedColumn<String>, n: usize, by: &str) -> (r: Vec<
    ChunkedColumn<String>,
>)
    requires
        ca.wf(),
    ensures
        r@.len() == n,
        forall|j: int| 0 <= j < n ==> (#[trigger] r@[j]).wf(),
        forall|j: int|
            0 <= j < n ==> (#[trigger] r@[j])@ == Seq::new(
                ca@.len(),
                |i: int| split_field(ca@[i], by@, n as nat, j),
            ),
{
    let rows = ca.len();
    let mut fields: Vec<ChunkedColumn<String>> = Vec::new();
    let mut j: usize = 0;
    while j < n
        invariant
            ca.wf(),
            j <= n,
            rows == ca@.len(),
            fields@.len() == j,
            forall|j0: int| 0 <= j0 < j ==> (#[trigger] fields@[j0]).wf(),
            forall|j0: int|
                0 <= j0 < j ==> (#[trigger] fields@[j0])@ == Seq::new(
                    ca@.len(),
                    |i: int| split_field(ca@[i], by@, n as nat, j0),
                ),
        decreases n - j,
    {
        let ghost goal = Seq::new(ca@.len(), |i: int| split_field(ca@[i], by@, n as nat, j as int));
        let mut b = ChunkBuilder::<String>::new(String::new());
        let mut i: usize = 0;
        while i < rows
            invariant
                ca.wf(),
                b.wf(),
                i <= rows,
                rows == ca@.len(),
                j < n,
                goal == Seq::new(ca@.len(), |i0: int| split_field(ca@[i0], by@, n as nat, j as int)),
                b.view() =~= goal.subrange(0, i as int),
            decreases rows - i,
        {
            match ca.get(i) {
                Some(s) => {
                    let pieces = splitn_one(s.as_str(), by, n);
                    proof {
                        assert(pieces@.map_values(|p: String| p@).len() == pieces@.len());
                    }
                    if j < pieces.len() {
                        let piece = &pieces[j];
                        proof {
                            assert(piece@ == pieces@.map_values(|p: String| p@)[j as int]);
                        }
                        b.push_value(piece.clone());
                    } else {
                        b.push_null();
                    }
                },
                None => {
                    b.push_null();
                },
            }
            proof {
                assert(b.view() =~= goal.subrange(0, i + 1));
            }
            i += 1;
        }
        proof {
            assert(goal.subrange(0, rows as int) =~= goal);
        }
        fields.push(ChunkedColumn::single(b.finish()));
        j += 1;
    }
    fields
}

} // verus!
