//! First-occurrence detection: for each row, whether no earlier row holds
//! an equal logical value. A missing value counts as a value of its own, so
//! only the first missing row is marked.
//!
//! Numeric columns arrive in their physical representation: integers
//! widened and floating-point values reduced to their bit patterns, so
//! that equality is bit equality. Text reduces to its byte content.

use crate::bits::first_set_bit;
use crate::bits::first_unset_bit;
use crate::bits::Bitmap;
use crate::column::BoolChunk;
use crate::column::BoolColumn;
use crate::column::ChunkedColumn;
use crate::column::DType;
use crate::list_column::ListColumn;
use crate::KernelError;
use std::collections::HashSet;
use vstd::prelude::*;

verus! {

broadcast use vstd::std_specs::hash::group_hash_axioms;

/// Whether row `i` is the first row of `s` holding its value.
pub open spec fn is_first_at<A>(s: Seq<A>, i: int) -> bool {
    forall|j: int| 0 <= j < i ==> s[j] != s[i]
}

/// First occurrences over a column in physical (bit-pattern) form, using a
/// set of the values seen so far.
pub fn is_first_numeric(ca: &ChunkedColumn<u64>) -> (r: BoolColumn)
    requires
        ca.wf(),
    ensures
        r.wf(),
        r@.len() == ca@.len(),
        forall|i: int| 0 <= i < ca@.len() ==> r@[i] == Some(is_first_at(ca@, i)),
{
    let n = ca.len();
    let mut seen: HashSet<u64> = HashSet::new();
    let mut seen_null = false;
    let mut values: Vec<bool> = Vec::new();
    let mut i: usize = 0;
    broadcast use vstd::std_specs::hash::axiom_u64_obeys_hash_table_key_model;
    broadcast use vstd::std_specs::hash::axiom_random_state_builds_valid_hashers;

    while i < n
        invariant
            ca.wf(),
            i <= n,
            n == ca@.len(),
            values@.len() == i,
            vstd::std_specs::hash::obeys_key_model::<u64>(),
            vstd::std_specs::hash::builds_valid_hashers::<std::collections::hash_map::RandomState>(),
            seen_null == (exists|j: int| 0 <= j < i && ca@[j] is None),
            forall|v: u64|
                #[trigger] seen@.contains(v) <==> (exists|j: int|
                    0 <= j < i && ca@[j] == Some(v)),
            forall|j: int| 0 <= j < i ==> values@[j] == is_first_at(ca@, j),
        decreases n - i,
    {
        match ca.get(i) {
            Some(x) => {
                let first = seen.insert(*x);
                proof {
                    assert(ca@[i as int] == Some(*x));
                    if first {
                        assert forall|j: int| 0 <= j < i implies ca@[j] != ca@[i as int] by {}
                    } else {
                        let j = choose|j: int| 0 <= j < i && ca@[j] == Some(*x);
                        assert(!is_first_at(ca@, i as int));
                    }
                    assert forall|v: u64| #[trigger]
                        seen@.contains(v) <==> (exists|j: int|
                            0 <= j <= i && ca@[j] == Some(v)) by {
                        if seen@.contains(v) && !(exists|j: int| 0 <= j < i && ca@[j] == Some(v)) {
                            assert(v == *x);
                            assert(ca@[i as int] == Some(v));
                        }
                        if exists|j: int| 0 <= j <= i && ca@[j] == Some(v) {
                            let j = choose|j: int| 0 <= j <= i && ca@[j] == Some(v);
                            if j == i {
                                assert(v == *x);
                            }
                        }
                    }
                }
                values.push(first);
            },
            None => {
                let first = !seen_null;
                seen_null = true;
                values.push(first);
                proof {
                    if first {
                        assert(is_first_at(ca@, i as int));
                    } else {
                        let j = choose|j: int| 0 <= j < i && ca@[j] is None;
                        assert(ca@[j] == ca@[i as int]);
                        assert(!is_first_at(ca@, i as int));
                    }
                }
            },
        }
        proof {
            assert(seen_null == (exists|j: int| 0 <= j < i + 1 && ca@[j] is None));
        }
        i += 1;
    }
    let bits = Bitmap::from_bools(&values);
    BoolColumn::single(BoolChunk::from_bits(bits))
}

/// Whether two optional byte rows hold the same value.
fn bin_rows_equal(a: Option<&Vec<u8>>, b: Option<&Vec<u8>>) -> (r: bool)
    ensures
        r == (crate::column::opt_view(a) == crate::column::opt_view(b)),
{
    match (a, b) {
        (None, None) => true,
        (Some(x), Some(y)) => {
            let n = x.len();
            if n != y.len() {
                proof {
                    assert(x@ != y@);
                }
                return false;
            }
            let mut k: usize = 0;
            while k < n
                invariant
                    n == x@.len(),
                    n == y@.len(),
                    k <= n,
                    crate::column::opt_view(a) == Some(x@),
                    crate::column::opt_view(b) == Some(y@),
                    forall|j: int| 0 <= j < k ==> x@[j] == y@[j],
                decreases n - k,
            {
                if x[k] != y[k] {
                    proof {
                        assert(x@[k as int] != y@[k as int]);
                        assert(x@ != y@);
                    }
                    return false;
                }
                k += 1;
            }
            proof {
                assert(x@ =~= y@);
            }
            true
        },
        _ => false,
    }
}

/// First occurrences over a binary column, comparing byte content: each
/// row is tested against every earlier row.
pub fn is_first_bin(ca: &ChunkedColumn<Vec<u8>>) -> (r: BoolColumn)
    requires
        ca.wf(),
    ensures
        r.wf(),
        r@.len() == ca@.len(),
        forall|i: int| 0 <= i < ca@.len() ==> r@[i] == Some(is_first_at(ca@, i)),
{
    let n = ca.len();
    let mut values: Vec<bool> = Vec::new();
    let mut i: usize = 0;
    while i < n
        invariant
            ca.wf(),
            i <= n,
            n == ca@.len(),
            values@.len() == i,
            forall|j: int| 0 <= j < i ==> values@[j] == is_first_at(ca@, j),
        decreases n - i,
    {
        let row = ca.get(i);
        let mut first = true;
        let mut j: usize = 0;
        while j < i
            invariant
                ca.wf(),
                i < n,
                n == ca@.len(),
                j <= i,
                crate::column::opt_view(row) == ca@[i as int],
                first == (forall|m: int| 0 <= m < j ==> ca@[m] != ca@[i as int]),
            decreases i - j,
        {
            if bin_rows_equal(ca.get(j), row) {
                proof {
                    assert(ca@[j as int] == ca@[i as int]);
                }
                first = false;
            }
            j += 1;
        }
        values.push(first);
        i += 1;
    }
    let bits = Bitmap::from_bools(&values);
    BoolColumn::single(BoolChunk::from_bits(bits))
}

/// First occurrences over a boolean column. At most three rows can be
/// first: the first true, the first false, and the first missing row.
/// A column with no missing rows in a single chunk reduces to
/// `first_set_bit` and `first_unset_bit` on its value bitmap; otherwise a
/// single scan marks each category once and stops as soon as all three
/// have been marked.
pub fn is_first_boolean(ca: &BoolColumn) -> (r: BoolColumn)
    requires
        ca.wf(),
    ensures
        r.wf(),
        r@.len() == ca@.len(),
        forall|i: int| 0 <= i < ca@.len() ==> r@[i] == Some(is_first_at(ca@, i)),
{
    let n = ca.len();
    if n == 0 {
        return BoolColumn::empty();
    }
    // One pass tells whether any row is missing and whether any is present.
    let mut has_null = false;
    let mut has_value = false;
    let mut i: usize = 0;
    while i < n
        invariant
            ca.wf(),
            i <= n,
            n == ca@.len(),
            has_null == (exists|j: int| 0 <= j < i && ca@[j] is None),
            has_value == (exists|j: int| 0 <= j < i && ca@[j] is Some),
        decreases n - i,
    {
        match ca.get(i) {
            Some(_) => {
                has_value = true;
            },
            None => {
                has_null = true;
            },
        }
        i += 1;
    }
    if !has_value {
        // Every row is missing: only row zero is a first occurrence.
        let mut out = Bitmap::new_filled(n, false);
        out.set(0);
        proof {
            assert forall|i: int| 0 <= i < n implies out@[i] == is_first_at(ca@, i) by {
                assert(ca@[i] is None);
                if i > 0 {
                    assert(ca@[0] is None);
                    assert(ca@[0] == ca@[i]);
                }
            }
        }
        return BoolColumn::single(BoolChunk::from_bits(out));
    }
    if !has_null && ca.chunk_count() == 1 {
        // No missing rows, one physical chunk: the only candidates are the
        // first set and the first unset bit of the value bitmap.
        let chunk = ca.chunk_at(0);
        let bits = chunk.value_bits();
        proof {
            assert forall|i: int| 0 <= i < n implies ca@[i] == Some(bits@[i]) by {
                assert(ca@[i] is Some);
            }
        }
        let ft = first_set_bit(bits);
        let ff = first_unset_bit(bits);
        let mut out = Bitmap::new_filled(n, false);
        out.set(ft);
        out.set(ff);
        proof {
            assert forall|i: int| 0 <= i < n implies out@[i] == is_first_at(ca@, i) by {
                assert(ca@[i] == Some(bits@[i]));
                if bits@[i] {
                    assert(exists|x: int| 0 <= x < bits@.len() && bits@[x]);
                    assert(bits@[ft as int] && forall|j: int| 0 <= j < ft ==> !bits@[j]);
                    if i == ft {
                        assert forall|j: int| 0 <= j < i implies ca@[j] != ca@[i] by {
                            assert(!bits@[j]);
                        }
                    } else {
                        assert(ft < i);
                        assert(ca@[ft as int] == ca@[i]);
                        assert(!is_first_at(ca@, i));
                        // The other marked index holds the opposite value.
                        if i == ff {
                            if exists|x: int| 0 <= x < bits@.len() && !bits@[x] {
                                assert(!bits@[ff as int]);
                            } else {
                                assert(ff == 0);
                                assert(bits@[0]);
                                assert(ft == 0) by {
                                    if ft > 0 {
                                        assert(!bits@[0]);
                                    }
                                }
                            }
                        }
                        assert(i != ft && i != ff);
                    }
                } else {
                    assert(exists|x: int| 0 <= x < bits@.len() && !bits@[x]);
                    assert(!bits@[ff as int] && forall|j: int| 0 <= j < ff ==> bits@[j]);
                    if i == ff {
                        assert forall|j: int| 0 <= j < i implies ca@[j] != ca@[i] by {
                            assert(bits@[j]);
                        }
                    } else {
                        assert(ff < i);
                        assert(ca@[ff as int] == ca@[i]);
                        assert(!is_first_at(ca@, i));
                        if i == ft {
                            if exists|x: int| 0 <= x < bits@.len() && bits@[x] {
                                assert(bits@[ft as int]);
                            } else {
                                assert(ft == 0);
                                assert(!bits@[0]);
                                assert(ff == 0) by {
                                    if ff > 0 {
                                        assert(bits@[0]);
                                    }
                                }
                            }
                        }
                        assert(i != ft && i != ff);
                    }
                }
            }
        }
        return BoolColumn::single(BoolChunk::from_bits(out));
    }
    // The general scan: mark each of the three categories once, and stop
    // as soon as a first true, a first false, and a first missing row have
    // all been marked.
    let mut out = Bitmap::new_filled(n, false);
    let mut ft_found = false;
    let mut ff_found = false;
    let mut fn_found = false;
    let mut i: usize = 0;
    loop
        invariant
            ca.wf(),
            out.wf(),
            out@.len() == n,
            n == ca@.len(),
            i <= n,
            ft_found == (exists|j: int| 0 <= j < i && ca@[j] == Some(true)),
            ff_found == (exists|j: int| 0 <= j < i && ca@[j] == Some(false)),
            fn_found == (exists|j: int| 0 <= j < i && ca@[j] is None),
            forall|j: int| 0 <= j < n ==> out@[j] == (j < i && is_first_at(ca@, j)),
        ensures
            out.wf(),
            out@.len() == n,
            forall|j: int| 0 <= j < n ==> out@[j] == is_first_at(ca@, j),
        decreases n - i,
    {
        if i >= n {
            break ;
        }
        match ca.get(i) {
            Some(true) => {
                if !ft_found {
                    proof {
                        assert forall|j: int| 0 <= j < i implies ca@[j] != ca@[i as int] by {}
                    }
                    out.set(i);
                    ft_found = true;
                } else {
                    proof {
                        let j = choose|j: int| 0 <= j < i && ca@[j] == Some(true);
                        assert(!is_first_at(ca@, i as int));
                    }
                }
            },
            Some(false) => {
                if !ff_found {
                    proof {
                        assert forall|j: int| 0 <= j < i implies ca@[j] != ca@[i as int] by {}
                    }
                    out.set(i);
                    ff_found = true;
                } else {
                    proof {
                        let j = choose|j: int| 0 <= j < i && ca@[j] == Some(false);
                        assert(!is_first_at(ca@, i as int));
                    }
                }
            },
            None => {
                if !fn_found {
                    proof {
                        assert forall|j: int| 0 <= j < i implies ca@[j] != ca@[i as int] by {}
                    }
                    out.set(i);
                    fn_found = true;
                } else {
                    proof {
                        let j = choose|j: int| 0 <= j < i && ca@[j] is None;
                        assert(ca@[j] == ca@[i as int]);
                        assert(!is_first_at(ca@, i as int));
                    }
                }
            },
        }
        i += 1;
        if ft_found && ff_found && fn_found {
            proof {
                assert forall|j: int| 0 <= j < n implies out@[j] == is_first_at(ca@, j) by {
                    if j >= i {
                        match ca@[j] {
                            Some(v) => {
                                if v {
                                    let j0 = choose|j0: int| 0 <= j0 < i && ca@[j0] == Some(true);
                                    assert(ca@[j0] == ca@[j]);
                                } else {
                                    let j0 = choose|j0: int| 0 <= j0 < i && ca@[j0] == Some(false);
                                    assert(ca@[j0] == ca@[j]);
                                }
                            },
                            None => {
                                let j0 = choose|j0: int| 0 <= j0 < i && ca@[j0] is None;
                                assert(ca@[j0] == ca@[j]);
                            },
                        }
                        assert(!is_first_at(ca@, j));
                    }
                }
            }
            break ;
        }
    }
    BoolColumn::single(BoolChunk::from_bits(out))
}

/// Whether two list rows hold the same optional list value.
fn list_rows_equal(ca: &ListColumn<i64>, i: usize, j: usize) -> (r: bool)
    requires
        ca.wf(),
        i < ca@.len(),
        j < ca@.len(),
    ensures
        r == (ca@[i as int] == ca@[j as int]),
{
    match (ca.get_len(i), ca.get_len(j)) {
        (None, None) => true,
        (Some(a), Some(b)) => {
            if a != b {
                proof {
                    assert(ca@[i as int]->Some_0.len() != ca@[j as int]->Some_0.len());
                }
                return false;
            }
            let ghost s1 = ca@[i as int]->Some_0;
            let ghost s2 = ca@[j as int]->Some_0;
            let mut k: usize = 0;
            while k < a
                invariant
                    ca.wf(),
                    i < ca@.len(),
                    j < ca@.len(),
                    ca@[i as int] is Some,
                    ca@[j as int] is Some,
                    s1 == ca@[i as int]->Some_0,
                    s2 == ca@[j as int]->Some_0,
                    a == s1.len(),
                    a == s2.len(),
                    k <= a,
                    forall|m: int| 0 <= m < k ==> s1[m] == s2[m],
                decreases a - k,
            {
                if *ca.elem(i, k) != *ca.elem(j, k) {
                    proof {
                        assert(s1[k as int] != s2[k as int]);
                        assert(s1 != s2);
                    }
                    return false;
                }
                k += 1;
            }
            proof {
                assert(s1 =~= s2);
            }
            true
        },
        _ => false,
    }
}

/// First occurrences over a list column: each row is tested against every
/// earlier row for equal list content.
pub fn is_first_list(ca: &ListColumn<i64>) -> (r: BoolColumn)
    requires
        ca.wf(),
    ensures
        r.wf(),
        r@.len() == ca@.len(),
        forall|i: int| 0 <= i < ca@.len() ==> r@[i] == Some(is_first_at(ca@, i)),
{
    let n = ca.len();
    let mut values: Vec<bool> = Vec::new();
    let mut i: usize = 0;
    while i < n
        invariant
            ca.wf(),
            i <= n,
            n == ca@.len(),
            values@.len() == i,
            forall|j: int| 0 <= j < i ==> values@[j] == is_first_at(ca@, j),
        decreases n - i,
    {
        let mut first = true;
        let mut j: usize = 0;
        while j < i
            invariant
                ca.wf(),
                i < n,
                n == ca@.len(),
                j <= i,
                first == (forall|m: int| 0 <= m < j ==> ca@[m] != ca@[i as int]),
            decreases i - j,
        {
            if list_rows_equal(ca, j, i) {
                first = false;
            }
            j += 1;
        }
        values.push(first);
        i += 1;
    }
    let bits = Bitmap::from_bools(&values);
    BoolColumn::single(BoolChunk::from_bits(bits))
}

/// The byte content of every string row: string equality is byte equality.
fn utf8_to_binary(ca: &ChunkedColumn<String>) -> (r: ChunkedColumn<Vec<u8>>)
    requires
        ca.wf(),
    ensures
        r.wf(),
        r@.len() == ca@.len(),
        forall|i: int|
            0 <= i < ca@.len() ==> r@[i] == match ca@[i] {
                Some(s) => Some(vstd::utf8::encode_utf8(s)),
                None => None::<Seq<u8>>,
            },
{
    let ghost goal = Seq::new(
        ca@.len(),
        |i: int|
            match ca@[i] {
                Some(s) => Some(vstd::utf8::encode_utf8(s)),
                None => None::<Seq<u8>>,
            },
    );
    let n = ca.len();
    let mut b = crate::column::ChunkBuilder::<Vec<u8>>::new(Vec::new());
    let mut i: usize = 0;
    while i < n
        invariant
            ca.wf(),
            b.wf(),
            i <= n,
            n == ca@.len(),
            goal == Seq::new(
                ca@.len(),
                |i0: int|
                    match ca@[i0] {
                        Some(s) => Some(vstd::utf8::encode_utf8(s)),
                        None => None::<Seq<u8>>,
                    },
            ),
            b.view() =~= goal.subrange(0, i as int),
        decreases n - i,
    {
        match ca.get(i) {
            Some(s) => {
                let bytes = s.as_str().as_bytes_vec();
                b.push_value(bytes);
            },
            None => {
                b.push_null();
            },
        }
        proof {
            assert(b.view() =~= goal.subrange(0, i + 1));
        }
        i += 1;
    }
    proof {
        assert(goal.subrange(0, n as int) =~= goal);
    }
    ChunkedColumn::single(b.finish())
}

/// A column in the physical form the detector dispatches on.
pub enum Column {
    Bool(BoolColumn),
    UInt64(ChunkedColumn<u64>),
    Binary(ChunkedColumn<Vec<u8>>),
    Utf8(ChunkedColumn<String>),
    List(ListColumn<i64>),
    Null(usize),
}

impl Column {
    /// Every held column is well formed.
    pub open spec fn wf(&self) -> bool {
        match self {
            Column::Bool(c) => c.wf(),
            Column::UInt64(c) => c.wf(),
            Column::Binary(c) => c.wf(),
            Column::Utf8(c) => c.wf(),
            Column::List(c) => c.wf(),
            Column::Null(_) => true,
        }
    }

    /// The column's dtype.
    pub fn dtype(&self) -> (r: DType)
        ensures
            r == match self {
                Column::Bool(_) => DType::Boolean,
                Column::UInt64(_) => DType::UInt64,
                Column::Binary(_) => DType::Binary,
                Column::Utf8(_) => DType::Utf8,
                Column::List(_) => DType::List,
                Column::Null(_) => DType::Null,
            },
    {
        match self {
            Column::Bool(_) => DType::Boolean,
            Column::UInt64(_) => DType::UInt64,
            Column::Binary(_) => DType::Binary,
            Column::Utf8(_) => DType::Utf8,
            Column::List(_) => DType::List,
            Column::Null(_) => DType::Null,
        }
    }
}

/// Per-dtype dispatch of first-occurrence detection. Text reduces to its
/// byte content; a dtype with no strategy is an unsupported-type error.
pub fn is_first(s: &Column) -> (r: Result<BoolColumn, KernelError>)
    requires
        s.wf(),
    ensures
        match s {
            Column::Bool(c) => (r matches Ok(out) && out.wf() && out@.len() == c@.len() && (forall|
                i: int,
            | 0 <= i < c@.len() ==> out@[i] == Some(is_first_at(c@, i)))),
            Column::UInt64(c) => (r matches Ok(out) && out.wf() && out@.len() == c@.len() && (
            forall|i: int| 0 <= i < c@.len() ==> out@[i] == Some(is_first_at(c@, i)))),
            Column::Binary(c) => (r matches Ok(out) && out.wf() && out@.len() == c@.len() && (
            forall|i: int| 0 <= i < c@.len() ==> out@[i] == Some(is_first_at(c@, i)))),
            Column::Utf8(c) => (r matches Ok(out) && out.wf() && out@.len() == c@.len() && (forall|
                i: int,
            | 0 <= i < c@.len() ==> out@[i] == Some(is_first_at(c@, i)))),
            Column::List(c) => (r matches Ok(out) && out.wf() && out@.len() == c@.len() && (forall|
                i: int,
            | 0 <= i < c@.len() ==> out@[i] == Some(is_first_at(c@, i)))),
            Column::Null(_) => r == Err::<BoolColumn, KernelError>(KernelError::UnsupportedType),
        },
{
    match s {
        Column::Bool(c) => Ok(is_first_boolean(c)),
        Column::UInt64(c) => Ok(is_first_numeric(c)),
        Column::Binary(c) => Ok(is_first_bin(c)),
        Column::Utf8(c) => {
            let bin = utf8_to_binary(c);
            let out = is_first_bin(&bin);
            proof {
                assert forall|i: int| 0 <= i < c@.len() implies out@[i] == Some(
                    is_first_at(c@, i),
                ) by {
                    lemma_encoded_first(c@, bin@, i);
                }
            }
            Ok(out)
        },
        Column::List(c) => Ok(is_first_list(c)),
        Column::Null(_) => Err(KernelError::UnsupportedType),
    }
}

/// Rows agree on first occurrence before and after UTF-8 encoding, because
/// the encoding is injective.
proof fn lemma_encoded_first(rows: Seq<Option<Seq<char>>>, enc: Seq<Option<Seq<u8>>>, i: int)
    requires
        enc.len() == rows.len(),
        forall|k: int|
            0 <= k < rows.len() ==> enc[k] == match rows[k] {
                Some(s) => Some(vstd::utf8::encode_utf8(s)),
                None => None::<Seq<u8>>,
            },
        0 <= i < rows.len(),
    ensures
        is_first_at(enc, i) == is_first_at(rows, i),
{
    assert forall|j: int| 0 <= j < i implies (enc[j] != enc[i]) == (rows[j] != rows[i]) by {
        match (rows[j], rows[i]) {
            (Some(a), Some(b)) => {
                if vstd::utf8::encode_utf8(a) == vstd::utf8::encode_utf8(b) {
                    vstd::utf8::encode_utf8_decode_utf8(a);
                    vstd::utf8::encode_utf8_decode_utf8(b);
                    assert(a == b);
                }
            },
            _ => {},
        }
    }
}

/// First occurrences taken from an injected grouping: the partitioning of
/// rows into groups of equal value supplies the first row of each group.
pub fn is_first_from_group_firsts(len: usize, firsts: &Vec<usize>) -> (r: BoolColumn)
    requires
        forall|k: int| 0 <= k < firsts@.len() ==> firsts@[k] < len,
    ensures
        r.wf(),
        r@.len() == len,
        forall|i: int| 0 <= i < len ==> r@[i] == Some(firsts@.contains(i as usize)),
{
    let m = firsts.len();
    let mut out = Bitmap::new_filled(len, false);
    let mut k: usize = 0;
    while k < m
        invariant
            m == firsts@.len(),
            forall|k0: int| 0 <= k0 < m ==> firsts@[k0] < len,
            k <= m,
            out.wf(),
            out@.len() == len,
            forall|j: int|
                0 <= j < len ==> out@[j] == (exists|k0: int| 0 <= k0 < k && firsts@[k0] == j),
        decreases m - k,
    {
        let f = firsts[k];
        out.set(f);
        proof {
            assert forall|j: int| 0 <= j < len implies out@[j] == (exists|k0: int|
                0 <= k0 < k + 1 && firsts@[k0] == j) by {
                if j == f {
                    assert(firsts@[k as int] == j);
                }
            }
        }
        k += 1;
    }
    let r = BoolColumn::single(BoolChunk::from_bits(out));
    proof {
        assert forall|i: int| 0 <= i < len implies r@[i] == Some(firsts@.contains(i as usize)) by {
            if firsts@.contains(i as usize) {
                let k0 = choose|k0: int| 0 <= k0 < firsts@.len() && firsts@[k0] == i as usize;
                assert(firsts@[k0] == i);
            }
            if out@[i] {
                let k0 = choose|k0: int| 0 <= k0 < m && firsts@[k0] == i;
                assert(firsts@[k0] == i as usize);
            }
        }
    }
    r
}

} // verus!
