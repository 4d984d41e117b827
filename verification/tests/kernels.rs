use columnar_kernels::bits::ceil;
use columnar_kernels::bits::first_set_bit;
use columnar_kernels::bits::first_unset_bit;
use columnar_kernels::bits::get_bit;
use columnar_kernels::bits::round_upto_multiple_of_64;
use columnar_kernels::bits::round_upto_power_of_2;
use columnar_kernels::bits::set_bit;
use columnar_kernels::bits::unset_bit;
use columnar_kernels::bits::Bitmap;
use columnar_kernels::column::bool_column_from_rows;
use columnar_kernels::column::ChunkBuilder;
use columnar_kernels::column::ChunkedColumn;
use columnar_kernels::column::DType;
use columnar_kernels::column::MutableNullArray;
use columnar_kernels::first_occurrence::is_first;
use columnar_kernels::first_occurrence::is_first_bin;
use columnar_kernels::first_occurrence::is_first_boolean;
use columnar_kernels::first_occurrence::is_first_from_group_firsts;
use columnar_kernels::first_occurrence::is_first_numeric;
use columnar_kernels::first_occurrence::Column;
use columnar_kernels::list;
use columnar_kernels::list::SetOperation;
use columnar_kernels::list_column::ListBuilder;
use columnar_kernels::list_column::ListColumn;
use columnar_kernels::split::split;
use columnar_kernels::split::split_inclusive;
use columnar_kernels::split::split_one;
use columnar_kernels::split::split_to_struct;
use columnar_kernels::strip::strip_chars;
use columnar_kernels::strip::strip_chars_end;
use columnar_kernels::strip::strip_chars_start;
use columnar_kernels::substring::substring;
use columnar_kernels::KernelError;

fn str_col(rows: &[Option<&str>]) -> ChunkedColumn<String> {
    let mut b = ChunkBuilder::new(String::new());
    for r in rows {
        match r {
            Some(s) => b.push_value(s.to_string()),
            None => b.push_null(),
        }
    }
    ChunkedColumn::single(b.finish())
}

fn i64_col(rows: &[Option<i64>]) -> ChunkedColumn<i64> {
    let mut b = ChunkBuilder::new(0i64);
    for r in rows {
        match r {
            Some(v) => b.push_value(*v),
            None => b.push_null(),
        }
    }
    ChunkedColumn::single(b.finish())
}

fn u64_col(rows: &[Option<u64>]) -> ChunkedColumn<u64> {
    let mut b = ChunkBuilder::new(0u64);
    for r in rows {
        match r {
            Some(v) => b.push_value(*v),
            None => b.push_null(),
        }
    }
    ChunkedColumn::single(b.finish())
}

fn list_col(rows: &[Option<Vec<i64>>]) -> ListColumn<i64> {
    let mut b = ListBuilder::new();
    for r in rows {
        match r {
            Some(v) => b.push_list(v.clone()),
            None => b.push_null(),
        }
    }
    b.finish()
}

fn str_rows(col: &ChunkedColumn<String>) -> Vec<Option<String>> {
    let mut out = Vec::new();
    for i in 0..col.len() {
        out.push(col.get(i).cloned());
    }
    out
}

fn int_rows(col: &ChunkedColumn<i64>) -> Vec<Option<i64>> {
    let mut out = Vec::new();
    for i in 0..col.len() {
        out.push(col.get(i).copied());
    }
    out
}

fn list_rows(col: &ListColumn<i64>) -> Vec<Option<Vec<i64>>> {
    let mut out = Vec::new();
    for i in 0..col.len() {
        match col.get_len(i) {
            None => out.push(None),
            Some(l) => {
                let mut row = Vec::new();
                for k in 0..l {
                    row.push(*col.elem(i, k));
                }
                out.push(Some(row));
            },
        }
    }
    out
}

#[test]
fn round_up_properties() {
    for (num, factor) in [(0usize, 1usize), (5, 4), (64, 64), (65, 64), (7, 8), (1023, 256)] {
        let r = round_upto_power_of_2(num, factor);
        assert_eq!(r % factor, 0);
        assert!(r >= num);
        assert!(r < num + factor);
    }
    assert_eq!(round_upto_power_of_2(5, 4), 8);
    assert_eq!(round_upto_multiple_of_64(65), 128);
    assert_eq!(ceil(10, 3), 4);
    assert_eq!(ceil(9, 3), 3);
    assert_eq!(ceil(0, 5), 0);
}

#[test]
fn bit_get_set_unset() {
    let mut data = vec![0u8; 2];
    set_bit(&mut data, 3);
    set_bit(&mut data, 9);
    assert!(get_bit(&data, 3));
    assert!(get_bit(&data, 9));
    assert!(!get_bit(&data, 4));
    unset_bit(&mut data, 3);
    assert!(!get_bit(&data, 3));
    assert!(get_bit(&data, 9));
}

#[test]
fn first_bits_scan() {
    // Long bitmaps exercise the 64-bit word path.
    let mut bools = vec![false; 200];
    bools[130] = true;
    let bm = Bitmap::from_bools(&bools);
    assert_eq!(first_set_bit(&bm), 130);
    let mut bools2 = vec![true; 200];
    bools2[70] = false;
    let bm2 = Bitmap::from_bools(&bools2);
    assert_eq!(first_unset_bit(&bm2), 70);
    // Uniform masks degenerate to index zero.
    let all_set = Bitmap::from_bools(&vec![true; 10]);
    assert_eq!(first_set_bit(&all_set), 0);
    assert_eq!(first_unset_bit(&all_set), 0);
    let all_unset = Bitmap::from_bools(&vec![false; 10]);
    assert_eq!(first_set_bit(&all_unset), 0);
    assert_eq!(first_unset_bit(&all_unset), 0);
}

#[test]
fn substring_shapes_agree() {
    // Every broadcast specialization must match the general path.
    let vals = ["hello", "wörld", "ab"];
    let starts = [1i64, -2, 0];
    let lens = [2u64, 5, 0];
    let general = substring(
        &str_col(&[Some(vals[0]), Some(vals[1]), Some(vals[2])]),
        &i64_col(&[Some(starts[0]), Some(starts[1]), Some(starts[2])]),
        &u64_col(&[Some(lens[0]), Some(lens[1]), Some(lens[2])]),
    )
    .unwrap();
    assert_eq!(
        str_rows(&general),
        vec![Some("el".to_string()), Some("ld".to_string()), Some("".to_string())]
    );
    // Scalar value and start against a length column.
    let a = substring(
        &str_col(&[Some("hello")]),
        &i64_col(&[Some(1)]),
        &u64_col(&[Some(1), Some(2), Some(3)]),
    )
    .unwrap();
    let b = substring(
        &str_col(&[Some("hello"), Some("hello"), Some("hello")]),
        &i64_col(&[Some(1), Some(1), Some(1)]),
        &u64_col(&[Some(1), Some(2), Some(3)]),
    )
    .unwrap();
    assert_eq!(str_rows(&a), str_rows(&b));
    // Missing start yields a missing row; negative start clamps.
    let c = substring(
        &str_col(&[Some("hello"), Some("hello")]),
        &i64_col(&[None, Some(-99)]),
        &u64_col(&[Some(2)]),
    )
    .unwrap();
    assert_eq!(str_rows(&c), vec![None, Some("he".to_string())]);
    // Mismatched non-unit lengths are a shape error.
    let e = substring(
        &str_col(&[Some("a"), Some("b")]),
        &i64_col(&[Some(0), Some(0), Some(0)]),
        &u64_col(&[Some(1)]),
    );
    assert!(matches!(e, Err(KernelError::ShapeMismatch)));
}

#[test]
fn substring_idempotent() {
    let ca = str_col(&[Some("hello"), None, Some("wörld")]);
    let st = i64_col(&[Some(-3)]);
    let ln = u64_col(&[Some(2)]);
    let r1 = substring(&ca, &st, &ln).unwrap();
    let r2 = substring(&ca, &st, &ln).unwrap();
    assert_eq!(str_rows(&r1), str_rows(&r2));
}

#[test]
fn strip_chars_multi_char_pattern() {
    let ca = str_col(&[Some("xyzyx"), Some("abc")]);
    let pat = str_col(&[Some("xy")]);
    let out = strip_chars(&ca, &pat).unwrap();
    assert_eq!(str_rows(&out), vec![Some("z".to_string()), Some("abc".to_string())]);
}

#[test]
fn strip_chars_variants() {
    let ca = str_col(&[Some("  a  "), None]);
    let pat = str_col(&[None::<&str>]);
    assert_eq!(
        str_rows(&strip_chars(&ca, &pat).unwrap()),
        vec![Some("a".to_string()), None]
    );
    assert_eq!(
        str_rows(&strip_chars_start(&ca, &pat).unwrap()),
        vec![Some("a  ".to_string()), None]
    );
    assert_eq!(
        str_rows(&strip_chars_end(&ca, &pat).unwrap()),
        vec![Some("  a".to_string()), None]
    );
    let one = str_col(&[Some("aabaa")]);
    let single = str_col(&[Some("a")]);
    assert_eq!(str_rows(&strip_chars(&one, &single).unwrap()), vec![Some("b".to_string())]);
}

#[test]
fn split_per_row_separator() {
    let ca = str_col(&[Some("a,b"), Some("c;d")]);
    let by = str_col(&[Some(","), Some(";")]);
    let out = split(&ca, &by).unwrap();
    assert_eq!(out.len(), 2);
    let piece = |i: usize, k: usize| out.elem(i, k).clone();
    assert_eq!(out.get_len(0), Some(2));
    assert_eq!(piece(0, 0), "a".to_string());
    assert_eq!(piece(0, 1), "b".to_string());
    assert_eq!(out.get_len(1), Some(2));
    assert_eq!(piece(1, 0), "c".to_string());
    assert_eq!(piece(1, 1), "d".to_string());
}

#[test]
fn split_scalar_and_null_separator() {
    let ca = str_col(&[Some("a,b,c"), None]);
    let by = str_col(&[Some(",")]);
    let out = split(&ca, &by).unwrap();
    assert_eq!(out.get_len(0), Some(3));
    assert_eq!(out.get_len(1), None);
    let null_by = str_col(&[None::<&str>]);
    let out2 = split(&ca, &null_by).unwrap();
    assert_eq!(out2.get_len(0), None);
    assert_eq!(out2.get_len(1), None);
    let pieces = split_one("a,b,", ",", false);
    assert_eq!(pieces, vec!["a".to_string(), "b".to_string(), "".to_string()]);
    let inc = split_one("a,b,", ",", true);
    assert_eq!(inc, vec!["a,".to_string(), "b,".to_string()]);
    let ca2 = str_col(&[Some("a,b,")]);
    let out3 = split_inclusive(&ca2, &by).unwrap();
    assert_eq!(out3.get_len(0), Some(2));
    assert_eq!(out3.elem(0, 0).clone(), "a,".to_string());
}

#[test]
fn split_to_struct_fields() {
    let ca = str_col(&[Some("a_b_c"), Some("x"), None]);
    let fields = split_to_struct(&ca, 2, "_");
    assert_eq!(fields.len(), 2);
    assert_eq!(
        str_rows(&fields[0]),
        vec![Some("a".to_string()), Some("x".to_string()), None]
    );
    assert_eq!(str_rows(&fields[1]), vec![Some("b_c".to_string()), None, None]);
}

#[test]
fn get_with_negative_indices() {
    let ca = list_col(&[Some(vec![1, 2, 3]), Some(vec![4, 5])]);
    let idx = i64_col(&[Some(-1), Some(-3)]);
    let out = list::get(&ca, &idx).unwrap();
    assert_eq!(int_rows(&out), vec![Some(3), None]);
    // A null scalar index is an error, not a per-row missing value.
    let null_idx = i64_col(&[None]);
    assert!(matches!(list::get(&ca, &null_idx), Err(KernelError::InvalidArgument)));
    // A wrong index length is a shape error.
    let bad = i64_col(&[Some(0), Some(0), Some(0)]);
    assert!(matches!(list::get(&ca, &bad), Err(KernelError::ShapeMismatch)));
}

#[test]
fn concat_broadcasts_first_operand() {
    let a = list_col(&[Some(vec![1])]);
    let b = list_col(&[Some(vec![2]), Some(vec![3])]);
    let out = list::concat(&vec![a, b]).unwrap();
    assert_eq!(
        list_rows(&out),
        vec![Some(vec![1, 2]), Some(vec![1, 3])]
    );
    // All operands of row count one need no broadcast.
    let x = list_col(&[Some(vec![1])]);
    let y = list_col(&[Some(vec![2, 3])]);
    let z = list_col(&[Some(vec![4, 5])]);
    let out2 = list::concat(&vec![x, y, z]).unwrap();
    assert_eq!(list_rows(&out2), vec![Some(vec![1, 2, 3, 4, 5])]);
}

#[test]
fn list_kernels_basic() {
    let ca = list_col(&[Some(vec![1, 2, 2, 3]), None, Some(vec![])]);
    let sums = list::sum(&ca);
    assert_eq!(int_rows(&sums), vec![Some(8), None, Some(0)]);
    let counts = list::count_matches(&ca, &i64_col(&[Some(2)])).unwrap();
    let mut cs = Vec::new();
    for i in 0..counts.len() {
        cs.push(counts.get(i).copied());
    }
    assert_eq!(cs, vec![Some(2), None, Some(0)]);
    assert!(matches!(
        list::count_matches(&ca, &i64_col(&[Some(1), Some(2)])),
        Err(KernelError::InvalidArgument)
    ));
    let sliced = list::slice(&ca, &i64_col(&[Some(-3)]), &u64_col(&[Some(2)])).unwrap();
    assert_eq!(list_rows(&sliced), vec![Some(vec![2, 2]), None, Some(vec![])]);
    let taken = list::take(&ca, &i64_col(&[Some(0)]), true).unwrap();
    assert_eq!(list_rows(&taken), vec![Some(vec![1]), None, None]);
    assert!(matches!(
        list::take(&ca, &i64_col(&[Some(9)]), false),
        Err(KernelError::OutOfBounds)
    ));
    let setcol = list::set_operation(
        &list_col(&[Some(vec![1, 2, 2, 3])]),
        &list_col(&[Some(vec![2, 4])]),
        SetOperation::Union,
    )
    .unwrap();
    assert_eq!(list_rows(&setcol), vec![Some(vec![1, 2, 3, 4])]);
    let inter = list::set_operation(
        &list_col(&[Some(vec![1, 2, 2, 3])]),
        &list_col(&[Some(vec![2, 4])]),
        SetOperation::Intersection,
    )
    .unwrap();
    assert_eq!(list_rows(&inter), vec![Some(vec![2])]);
    let diff = list::set_operation(
        &list_col(&[Some(vec![1, 2, 2, 3])]),
        &list_col(&[Some(vec![2, 4])]),
        SetOperation::Difference,
    )
    .unwrap();
    assert_eq!(list_rows(&diff), vec![Some(vec![1, 3])]);
}

#[test]
fn list_contains_and_names() {
    let ca = list_col(&[Some(vec![1, 2]), Some(vec![3])]);
    let out = list::contains(&ca, &i64_col(&[Some(2)])).unwrap();
    assert_eq!(out.get(0), Some(true));
    assert_eq!(out.get(1), Some(false));
    assert_eq!(list::ListFunction::Concat.name(), "concat");
    assert_eq!(list::ListFunction::CountMatches.name(), "count");
    assert_eq!(
        list::ListFunction::SetOperation(SetOperation::Union).name(),
        "union"
    );
    assert_eq!(list::ListFunction::Take(true).name(), "take");
}

#[test]
fn join_rows() {
    let mut b: ListBuilder<String> = ListBuilder::new();
    b.push_list(vec!["a".to_string(), "b".to_string()]);
    b.push_null();
    b.push_list(vec![]);
    let ca = b.finish();
    let sep = str_col(&[Some("-")]);
    let out = list::join(&ca, &sep).unwrap();
    assert_eq!(str_rows(&out), vec![Some("a-b".to_string()), None, Some("".to_string())]);
}

#[test]
fn bool_column_and_null_array() {
    let col = bool_column_from_rows(&vec![true, false, true], &vec![true, true, false]);
    assert_eq!(col.get(0), Some(true));
    assert_eq!(col.get(1), Some(false));
    assert_eq!(col.get(2), None);
    let mut arr = MutableNullArray::new();
    assert_eq!(arr.len(), 0);
    arr.push_null();
    arr.extend_nulls(4);
    assert_eq!(arr.len(), 5);
    assert!(arr.validity().is_none());
}

#[test]
fn first_occurrence_boolean() {
    // Row count 6: [true, false, true, null, false, null].
    let col = bool_column_from_rows(
        &vec![true, false, true, false, false, false],
        &vec![true, true, true, false, true, false],
    );
    let out = is_first_boolean(&col);
    let mut rows = Vec::new();
    for i in 0..out.len() {
        rows.push(out.get(i));
    }
    assert_eq!(
        rows,
        vec![Some(true), Some(true), Some(false), Some(true), Some(false), Some(false)]
    );
    // No missing rows in a single chunk: the bitmap fast path.
    let plain = bool_column_from_rows(&vec![false, true, true], &vec![true, true, true]);
    let out2 = is_first_boolean(&plain);
    assert_eq!(out2.get(0), Some(true));
    assert_eq!(out2.get(1), Some(true));
    assert_eq!(out2.get(2), Some(false));
    // Every row missing: only row zero is first.
    let nulls = bool_column_from_rows(&vec![false, false], &vec![false, false]);
    let out3 = is_first_boolean(&nulls);
    assert_eq!(out3.get(0), Some(true));
    assert_eq!(out3.get(1), Some(false));
}

#[test]
fn first_occurrence_numeric_and_binary() {
    let ca = u64_col(&[Some(1), Some(1), Some(2), None, Some(2), None]);
    let out = is_first_numeric(&ca);
    let mut rows = Vec::new();
    for i in 0..out.len() {
        rows.push(out.get(i));
    }
    assert_eq!(
        rows,
        vec![Some(true), Some(false), Some(true), Some(true), Some(false), Some(false)]
    );
    let mut bb = ChunkBuilder::new(Vec::<u8>::new());
    bb.push_value(b"ab".to_vec());
    bb.push_value(b"cd".to_vec());
    bb.push_value(b"ab".to_vec());
    bb.push_null();
    let bc = ChunkedColumn::single(bb.finish());
    let bout = is_first_bin(&bc);
    let mut brows = Vec::new();
    for i in 0..bout.len() {
        brows.push(bout.get(i));
    }
    assert_eq!(brows, vec![Some(true), Some(true), Some(false), Some(true)]);
}

#[test]
fn first_occurrence_dispatch() {
    // Text reduces to its byte content.
    let sc = str_col(&[Some("a"), Some("b"), Some("a"), None, None]);
    let col = Column::Utf8(sc);
    assert_eq!(col.dtype(), DType::Utf8);
    let out = is_first(&col).unwrap();
    let mut rows = Vec::new();
    for i in 0..out.len() {
        rows.push(out.get(i));
    }
    assert_eq!(
        rows,
        vec![Some(true), Some(true), Some(false), Some(true), Some(false)]
    );
    // List rows compare by content.
    let lc = Column::List(list_col(&[Some(vec![1, 2]), None, Some(vec![1, 2]), Some(vec![1])]));
    let lout = is_first(&lc).unwrap();
    let mut lrows = Vec::new();
    for i in 0..lout.len() {
        lrows.push(lout.get(i));
    }
    assert_eq!(lrows, vec![Some(true), Some(true), Some(false), Some(true)]);
    // The null dtype has no strategy.
    let nc = Column::Null(3);
    assert_eq!(nc.dtype(), DType::Null);
    assert!(matches!(is_first(&nc), Err(KernelError::UnsupportedType)));
}

#[test]
fn first_occurrence_from_groups() {
    let out = is_first_from_group_firsts(5, &vec![0, 3]);
    let mut rows = Vec::new();
    for i in 0..out.len() {
        rows.push(out.get(i));
    }
    assert_eq!(
        rows,
        vec![Some(true), Some(false), Some(false), Some(true), Some(false)]
    );
}
