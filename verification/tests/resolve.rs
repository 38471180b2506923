use engine::error::LoadError;
use engine::fs::all_path_ids;
use engine::fs::iter_deep;
use engine::fs::Fs;
use engine::path::IPath;
use engine::resolve::all_possible_indices;
use engine::resolve::resolve_at_most_one;
use engine::resolve::resolve_exactly_one;

fn p(segs: &[&str]) -> IPath {
    IPath::new(segs.iter().map(|s| s.as_bytes().to_vec()).collect())
}

fn snapshot(files: &[&[&str]]) -> Fs {
    Fs::new(files.iter().map(|segs| (p(segs), String::new())).collect()).unwrap()
}

#[test]
fn snapshot_rejects_a_file_that_is_also_a_directory() {
    let files = vec![(p(&["a"]), String::new()), (p(&["a", "b.md"]), String::new())];
    assert!(Fs::new(files).is_none());
}

#[test]
fn snapshot_rejects_duplicates_and_empty_paths() {
    let dup = vec![(p(&["a.md"]), String::new()), (p(&["a.md"]), String::new())];
    assert!(Fs::new(dup).is_none());
    let empty = vec![(IPath::empty(), String::new())];
    assert!(Fs::new(empty).is_none());
}

#[test]
fn iter_deep_lists_files_under_a_directory() {
    let fs = snapshot(&[&["a", "x.md"], &["b", "y.md"], &["a", "c", "z.md"]]);
    assert_eq!(fs.file_count(), 3);
    let under_a = iter_deep(&fs, &p(&["a"]));
    assert_eq!(under_a.len(), 2);
    assert!(under_a[0].equals(&p(&["a", "x.md"])));
    assert!(under_a[1].equals(&p(&["a", "c", "z.md"])));
    assert_eq!(iter_deep(&fs, &p(&["missing"])).len(), 0);
}

#[test]
fn read_dir_lists_direct_children_once() {
    let fs = snapshot(&[&["a", "x.md"], &["a", "c", "z.md"], &["a", "c", "w.md"]]);
    let entries = p(&["a"]).read_dir(&fs).ok().unwrap();
    assert_eq!(entries.len(), 2);
    assert!(entries[0].equals(&p(&["a", "x.md"])));
    assert!(entries[1].equals(&p(&["a", "c"])));
    let err = p(&["nope"]).read_dir(&fs);
    assert!(matches!(err, Err(LoadError::Io { .. })));
    assert!(IPath::empty().read_dir(&fs).is_ok());
}

#[test]
fn enumerator_counts_each_canonical_path_once() {
    let fs = snapshot(&[&["a", "b.en.md"], &["a", "b.fr.md"], &["a", "b.meta.toml"]]);
    let ids = all_path_ids(&fs, &IPath::empty());
    assert_eq!(ids.len(), 1);
    assert!(ids[0].equals(&p(&["a", "b"])));
}

#[test]
fn enumerator_folds_index_files_into_their_directory() {
    let fs = snapshot(&[&["a", "b", "index.en.md"], &["a", "b.meta.toml"]]);
    let ids = all_path_ids(&fs, &IPath::empty());
    assert_eq!(ids.len(), 1);
    assert!(ids[0].equals(&p(&["a", "b"])));
}

#[test]
fn resolving_the_empty_path_finds_the_root_index_file() {
    let fs = snapshot(&[&["index.meta.toml"]]);
    let found = all_possible_indices(&fs, &IPath::empty(), b"meta").unwrap();
    assert_eq!(found.len(), 1);
    assert!(found[0].equals(&p(&["index.meta.toml"])));
    let one = resolve_exactly_one(&fs, &IPath::empty(), b"meta").unwrap();
    assert!(one.equals(&p(&["index.meta.toml"])));
}

#[test]
fn resolving_a_page_in_each_variant() {
    let fs = snapshot(&[&["a", "b.meta.toml"], &["a", "b.en.md"]]);
    let ids = all_path_ids(&fs, &IPath::empty());
    assert_eq!(ids.len(), 1);
    assert!(ids[0].equals(&p(&["a", "b"])));

    let meta = resolve_exactly_one(&fs, &p(&["a", "b"]), b"meta").unwrap();
    assert!(meta.equals(&p(&["a", "b.meta.toml"])));

    let en = resolve_at_most_one(&fs, &p(&["a", "b"]), b"en").unwrap();
    assert!(en.unwrap().equals(&p(&["a", "b.en.md"])));

    let fr = resolve_at_most_one(&fs, &p(&["a", "b"]), b"fr").unwrap();
    assert!(fr.is_none());
}

#[test]
fn a_sibling_and_an_index_file_together_are_ambiguous() {
    let fs = snapshot(&[&["x.meta.toml"], &["x", "index.meta.toml"]]);
    let found = all_possible_indices(&fs, &p(&["x"]), b"meta").unwrap();
    assert_eq!(found.len(), 2);
    assert!(found[0].equals(&p(&["x", "index.meta.toml"])));
    assert!(found[1].equals(&p(&["x.meta.toml"])));

    match resolve_exactly_one(&fs, &p(&["x"]), b"meta") {
        Err(LoadError::AmbiguousContent { path, matches }) => {
            assert!(path.equals(&p(&["x"])));
            assert_eq!(matches.len(), 2);
        },
        _ => panic!("expected an ambiguity"),
    }
    match resolve_at_most_one(&fs, &p(&["x"]), b"meta") {
        Err(LoadError::AmbiguousContent { .. }) => {},
        _ => panic!("expected an ambiguity"),
    }
}

#[test]
fn a_missing_meta_file_is_missing_content() {
    let fs = snapshot(&[&["a", "b.en.md"]]);
    match resolve_exactly_one(&fs, &p(&["a", "b"]), b"meta") {
        Err(LoadError::MissingContent { path }) => assert!(path.equals(&p(&["a", "b"]))),
        _ => panic!("expected missing content"),
    }
}

#[test]
fn an_unlistable_parent_directory_is_an_io_error() {
    let fs = snapshot(&[&["a", "b.en.md"]]);
    match resolve_exactly_one(&fs, &p(&["zz", "q"]), b"meta") {
        Err(LoadError::Io { path }) => assert!(path.equals(&p(&["zz"]))),
        _ => panic!("expected an io error"),
    }
}

#[test]
fn resolution_matches_by_decomposed_name_and_variant_only() {
    let fs = snapshot(&[&["a", "b.en.md"], &["a", "b.en.html"], &["a", "bc.en.md"]]);
    match resolve_at_most_one(&fs, &p(&["a", "b"]), b"en") {
        Err(LoadError::AmbiguousContent { matches, .. }) => {
            assert_eq!(matches.len(), 2);
        },
        _ => panic!("two extensions of one variant must clash"),
    }
}
