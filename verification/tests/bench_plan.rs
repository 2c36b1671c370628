use rg_opendal::bench_plan::files_by_size;

fn entries(v: &[(&str, u64)]) -> Vec<(String, u64)> {
    v.iter().map(|(p, s)| (p.to_string(), *s)).collect()
}

#[test]
fn files_come_smallest_first_without_directory_markers() {
    let listed = entries(&[("big.log", 900), ("dir/", 0), ("small.txt", 3), ("mid.rs", 40)]);
    assert_eq!(
        files_by_size(&listed),
        entries(&[("small.txt", 3), ("mid.rs", 40), ("big.log", 900)])
    );
}

#[test]
fn files_of_one_size_keep_listing_order() {
    let listed = entries(&[("b", 10), ("a", 10), ("c", 5), ("d", 10), ("e/", 10)]);
    assert_eq!(files_by_size(&listed), entries(&[("c", 5), ("b", 10), ("a", 10), ("d", 10)]));
}

#[test]
fn empty_listing_gives_no_files() {
    assert!(files_by_size(&Vec::new()).is_empty());
}
