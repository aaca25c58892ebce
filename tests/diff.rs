use tree_diff::engine::{chunk_size, diff_chunk, diff_in_chunks, diff_indexes, merge_parts};
use tree_diff::index::Index;
use tree_diff::walk::{construct_index, diff, diff_trees, index_tree, DiffError};

fn index_of(paths: &[&str]) -> Index {
    let mut index = Index::new();
    for p in paths {
        index.add(p);
    }
    index
}

fn sorted(index: &Index) -> Vec<String> {
    let mut v = index.paths().clone();
    v.sort();
    v
}

fn listing(paths: &[&str]) -> Option<Vec<String>> {
    Some(paths.iter().map(|p| p.to_string()).collect())
}

#[test]
fn index_keeps_each_path_once_in_first_order() {
    let index = index_of(&["b", "a", "b", "c/d", "a"]);
    assert_eq!(index.len(), 3);
    assert_eq!(index.paths(), &vec!["b".to_string(), "a".to_string(), "c/d".to_string()]);
    assert!(index.contains("c/d"));
    assert!(!index.contains("c"));
}

#[test]
fn new_index_is_empty() {
    let index = Index::new();
    assert_eq!(index.len(), 0);
    assert!(index.paths().is_empty());
    assert!(!index.contains(""));
}

#[test]
fn construct_index_strips_the_root() {
    let entries = listing(&["/src", "/src/a", "/src/b", "/src/b/c", "/src/b/d"]).unwrap();
    let index = construct_index("/src", &entries);
    assert_eq!(index.paths(), &vec!["", "a", "b", "b/c", "b/d"]);
}

#[test]
fn construct_index_leaves_out_entries_outside_the_root() {
    let entries = listing(&["/src/a", "/other/x", "/srcx/y", "/src/b"]).unwrap();
    let index = construct_index("/src", &entries);
    assert_eq!(sorted(&index), vec!["a", "b"]);
}

#[test]
fn construct_index_compares_whole_components() {
    let entries = listing(&["/data/src/a", "/data/src/b/c"]).unwrap();
    let index = construct_index("/data/src/", &entries);
    assert_eq!(sorted(&index), vec!["a", "b/c"]);
}

#[test]
fn indexing_ignores_listing_order() {
    let one = listing(&["/r", "/r/a", "/r/b", "/r/b/c", "/r/z"]).unwrap();
    let two = listing(&["/r/z", "/r/b/c", "/r", "/r/b", "/r/a"]).unwrap();
    let a = construct_index("/r", &one);
    let b = construct_index("/r", &two);
    assert_eq!(sorted(&a), sorted(&b));
    assert_eq!(a.len(), 5);
}

#[test]
fn diff_chunk_keeps_absent_paths_in_order() {
    let target = index_of(&["a", "c"]);
    let chunk = vec!["d".to_string(), "a".to_string(), "b".to_string(), "c".to_string()];
    assert_eq!(diff_chunk(&chunk, &target), vec!["d", "b"]);
    assert!(diff_chunk(&[], &target).is_empty());
}

#[test]
fn chunk_size_values() {
    assert_eq!(chunk_size(17, 4), 4);
    assert_eq!(chunk_size(16, 4), 4);
    assert_eq!(chunk_size(3, 8), 1);
    assert_eq!(chunk_size(0, 4), 1);
    assert_eq!(chunk_size(9, 1), 9);
}

#[test]
fn merge_parts_gathers_every_part() {
    let parts = vec![
        vec!["a".to_string(), "b".to_string()],
        vec![],
        vec!["c".to_string(), "a".to_string()],
    ];
    let merged = merge_parts(&parts);
    assert_eq!(merged.paths(), &vec!["a", "b", "c"]);
}

#[test]
fn diff_is_the_same_for_any_worker_count() {
    let source = index_of(&["a", "b", "b/c", "b/d", "e", "f/g", "h", "i", "j"]);
    let target = index_of(&["b", "b/d", "h", "x"]);
    let expected = vec!["a", "b/c", "e", "f/g", "i", "j"];
    for workers in [1, 2, 8] {
        assert_eq!(sorted(&diff_indexes(&source, &target, workers)), expected);
    }
}

#[test]
fn diff_is_the_same_for_one_path_chunks_and_one_chunk() {
    let source = index_of(&["a", "b", "c", "d", "e"]);
    let target = index_of(&["b", "d"]);
    let small = diff_in_chunks(&source, &target, 1);
    let whole = diff_in_chunks(&source, &target, source.len());
    assert_eq!(sorted(&small), vec!["a", "c", "e"]);
    assert_eq!(sorted(&small), sorted(&whole));
}

#[test]
fn diff_against_empty_target_keeps_source() {
    let source = index_of(&["a", "b/c", "d"]);
    let target = Index::new();
    assert_eq!(sorted(&diff_indexes(&source, &target, 4)), sorted(&source));
}

#[test]
fn diff_of_identical_indexes_is_empty() {
    let source = index_of(&["a", "b/c", "d"]);
    assert_eq!(diff_indexes(&source, &source, 4).len(), 0);
}

#[test]
fn diff_scenario_missing_file() {
    let source = listing(&["/s", "/s/a", "/s/b", "/s/b/c", "/s/b/d"]);
    let target = listing(&["/t", "/t/a", "/t/b", "/t/b/d"]);
    let result = diff_trees("/s", &source, "/t", &target, 2).ok().unwrap();
    assert_eq!(sorted(&result), vec!["b/c"]);
}

#[test]
fn diff_of_empty_source_is_empty() {
    let source = listing(&["/s"]);
    let target = listing(&["/t", "/t/a", "/t/b"]);
    let result = diff_trees("/s", &source, "/t", &target, 3).ok().unwrap();
    assert_eq!(result.len(), 0);
    let empty = Index::new();
    assert_eq!(diff_indexes(&empty, &index_of(&["a"]), 2).len(), 0);
}

#[test]
fn missing_target_root_is_an_error() {
    let source = listing(&["/s", "/s/a"]);
    match diff_trees("/s", &source, "/missing", &None, 2) {
        Err(DiffError::RootNotReadable { root }) => assert_eq!(root, "/missing"),
        Ok(_) => panic!("a missing target root must not give a diff"),
    }
}

#[test]
fn missing_source_root_is_reported_first() {
    match diff("/gone", &None, "/also-gone", &None) {
        Err(e) => {
            assert!(matches!(&e, DiffError::RootNotReadable { root } if root == "/gone"));
            assert_eq!(e.message(), "cannot read root /gone");
        }
        Ok(_) => panic!("a missing source root must not give a diff"),
    }
}

#[test]
fn index_tree_of_readable_root() {
    let entries = listing(&["/r", "/r/x"]);
    let index = index_tree("/r", &entries).ok().unwrap();
    assert_eq!(sorted(&index), vec!["", "x"]);
    assert!(index_tree("/r", &None).is_err());
}

#[test]
fn diff_with_available_parallelism() {
    let source = listing(&["/s", "/s/a", "/s/b", "/s/c"]);
    let target = listing(&["/t", "/t/b"]);
    let result = diff("/s", &source, "/t", &target).ok().unwrap();
    assert_eq!(sorted(&result), vec!["a", "c"]);
}

#[test]
fn diff_keeps_source_order() {
    let source = index_of(&["z", "a", "m", "b", "q", "c", "y"]);
    let target = index_of(&["a", "c", "w"]);
    for workers in [1, 2, 3, 8] {
        let result = diff_indexes(&source, &target, workers);
        assert_eq!(result.paths(), &vec!["z", "m", "b", "q", "y"]);
    }
    for size in [1, 2, 7, 100] {
        let result = diff_in_chunks(&source, &target, size);
        assert_eq!(result.paths(), &vec!["z", "m", "b", "q", "y"]);
    }
}
