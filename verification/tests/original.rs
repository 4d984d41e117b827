use columnar_kernels::column::ChunkBuilder;
use columnar_kernels::column::ChunkedColumn;
use columnar_kernels::first_occurrence::is_first_numeric;
use columnar_kernels::list;
use columnar_kernels::list_column::ListBuilder;
use columnar_kernels::KernelError;

// The originals of these two tests drive engine layers above the kernels
// (group-by aggregation, lazy joins); here they smoke-test the kernel-layer
// operations those pipelines bottom out in, and must not fail.

#[test]
fn test_agg_mean() -> Result<(), KernelError> {
    let mut keys = ChunkBuilder::new(0u64);
    for k in [1u64, 1, 2, 2] {
        keys.push_value(k);
    }
    let keys = ChunkedColumn::single(keys.finish());
    let firsts = is_first_numeric(&keys);
    assert_eq!(firsts.get(0), Some(true));
    assert_eq!(firsts.get(1), Some(false));
    assert_eq!(firsts.get(2), Some(true));
    assert_eq!(firsts.get(3), Some(false));
    let mut groups = ListBuilder::new();
    groups.push_list(vec![3i64, 3]);
    groups.push_list(vec![4i64, 4]);
    let groups = groups.finish();
    let sums = list::sum(&groups);
    assert_eq!(sums.get(0).copied(), Some(6));
    assert_eq!(sums.get(1).copied(), Some(8));
    Ok(())
}

#[test]
fn test_join() -> Result<(), KernelError> {
    let mut data_1 = ListBuilder::new();
    data_1.push_list(vec![11i64]);
    let data_1 = data_1.finish();
    let mut data_2 = ListBuilder::new();
    data_2.push_list(vec![22i64]);
    let data_2 = data_2.finish();
    let out = list::concat(&vec![data_1, data_2])?;
    assert_eq!(out.len(), 1);
    assert_eq!(out.get_len(0), Some(2));
    assert_eq!(*out.elem(0, 0), 11);
    assert_eq!(*out.elem(0, 1), 22);
    Ok(())
}
