use engine::name::split_into_name_pre_ext;
use engine::path::path_id;
use engine::path::path_to_parts_and_first;
use engine::path::template_id;
use engine::path::CollectIPath;
use engine::path::IPath;
use engine::path::ToIPath;

fn p(segs: &[&str]) -> IPath {
    IPath::new(segs.iter().map(|s| s.as_bytes().to_vec()).collect())
}

fn b(s: &str) -> Vec<u8> {
    s.as_bytes().to_vec()
}

#[test]
fn decompose_with_variant_and_extension() {
    let (name, pre, ext) = split_into_name_pre_ext(b"file.en.html");
    assert_eq!(name, b(&"file"));
    assert_eq!(pre, b(&"en"));
    assert_eq!(ext, b(&"html"));
}

#[test]
fn decompose_with_extension_only() {
    let (name, pre, ext) = split_into_name_pre_ext(b"file.html");
    assert_eq!(name, b(&"file"));
    assert_eq!(pre, b(&""));
    assert_eq!(ext, b(&"html"));
}

#[test]
fn decompose_bare_name() {
    let (name, pre, ext) = split_into_name_pre_ext(b"file");
    assert_eq!(name, b(&"file"));
    assert_eq!(pre, b(&""));
    assert_eq!(ext, b(&""));
}

#[test]
fn decompose_compound_extension_is_not_special_cased() {
    let (name, pre, ext) = split_into_name_pre_ext(b"a.tar.gz");
    assert_eq!(name, b(&"a"));
    assert_eq!(pre, b(&"tar"));
    assert_eq!(ext, b(&"gz"));
}

#[test]
fn decompose_round_trip_on_dotted_segments() {
    let filename = b"a.b.c.d";
    let (name, pre, ext) = split_into_name_pre_ext(filename);
    assert_eq!(name, b(&"a.b"));
    assert_eq!(pre, b(&"c"));
    assert_eq!(ext, b(&"d"));
    let mut rebuilt = name.clone();
    rebuilt.push(46);
    rebuilt.extend_from_slice(&pre);
    rebuilt.push(46);
    rebuilt.extend_from_slice(&ext);
    assert_eq!(rebuilt, filename.to_vec());
}

#[test]
fn path_id_folds_index_files() {
    let folded = path_id(&p(&["a", "b", "index.en.html"]));
    let plain = path_id(&p(&["a", "b"]));
    assert!(folded.equals(&p(&["a", "b"])));
    assert!(folded.equals(&plain));
}

#[test]
fn path_id_strips_variant_and_extension() {
    assert!(path_id(&p(&["a", "b", "c.d.html"])).equals(&p(&["a", "b", "c"])));
}

#[test]
fn path_id_of_root_index_is_empty() {
    assert!(path_id(&p(&["index.en.html"])).equals(&IPath::empty()));
    assert!(path_id(&IPath::empty()).equals(&IPath::empty()));
}

#[test]
fn parts_and_first_split_a_raw_path() {
    let (parts, first) = path_to_parts_and_first(&p(&["a", "b", "c", "file.pre.html"]));
    assert!(parts.equals(&p(&["a", "b", "c"])));
    assert_eq!(first, b(&"file"));

    let (parts, first) = path_to_parts_and_first(&IPath::empty());
    assert!(parts.equals(&IPath::empty()));
    assert_eq!(first, b(&""));
}

#[test]
fn join_and_strip_prefix_are_inverse_here() {
    let base = p(&["a", "b"]);
    let rest = p(&["c", "d.md"]);
    let whole = base.join(&rest);
    assert!(whole.equals(&p(&["a", "b", "c", "d.md"])));
    let back = whole.strip_prefix(&base).ok().unwrap();
    assert!(back.equals(&rest));
    assert!(p(&["x"]).strip_prefix(&base).is_err());
}

#[test]
fn display_joins_segments_with_slashes() {
    assert_eq!(p(&["a", "b", "c"]).display(), b(&"a/b/c"));
    assert_eq!(IPath::empty().display(), b(&""));
    assert_eq!(p(&["one"]).display(), b(&"one"));
}

#[test]
fn file_name_is_the_last_segment() {
    assert_eq!(p(&["a", "b.md"]).file_name(), Some(b(&"b.md")));
    assert_eq!(IPath::empty().file_name(), None);
}

#[test]
fn template_id_drops_variant_and_extension() {
    assert_eq!(template_id(&p(&["page.html"])), b(&"page"));
    assert_eq!(template_id(&p(&["sub", "layout.en.html"])), b(&"sub/layout"));
}

#[test]
fn segments_collect_into_paths() {
    let segs = vec![b(&"a"), b(&"b")];
    assert!(segs.to_ipath().equals(&p(&["a", "b"])));
    assert!(segs.collect_ipath().equals(&p(&["a", "b"])));
}

#[test]
fn as_path_exposes_the_segments() {
    let path = p(&["a", "b"]);
    assert_eq!(path.as_path().len(), 2);
    assert_eq!(path.as_path()[1], b(&"b"));
}
