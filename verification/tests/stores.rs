use engine::error::LoadError;
use engine::fs::Fs;
use engine::i18n::process_i18n;
use engine::language::process_languages;
use engine::language::Language;
use engine::language::LanguageStore;
use engine::meta::process_metas;
use engine::page::process_pages;
use engine::path::IPath;
use engine::tag::process_tags;
use engine::tag::TagStore;
use engine::utils::Unwrap;

fn p(segs: &[&str]) -> IPath {
    IPath::new(segs.iter().map(|s| s.as_bytes().to_vec()).collect())
}

fn b(s: &str) -> Vec<u8> {
    s.as_bytes().to_vec()
}

fn snapshot(files: &[(&[&str], &str)]) -> Fs {
    Fs::new(files.iter().map(|(segs, text)| (p(segs), text.to_string())).collect()).unwrap()
}

fn languages() -> LanguageStore {
    let text = "default = \"en\"\nen = \"English\"\nfr = \"Francais\"\n";
    process_languages(&p(&["languages.toml"]), text).ok().unwrap()
}

fn lang(store: &LanguageStore, id: &str) -> Language {
    store.get(id.as_bytes()).ok().unwrap()
}

#[test]
fn languages_load_with_their_default() {
    let store = languages();
    assert_eq!(store.default.id, b(&"en"));
    assert_eq!(store.default.display, b(&"English"));
    assert_eq!(store.get(b"fr").ok().unwrap().display, b(&"Francais"));
    assert!(store.get(b"de").is_err());
    assert_eq!(store.get(b"de").err().unwrap().id, b(&"en"));
    let ids = store.iter_ids();
    assert_eq!(ids, vec![b(&"en"), b(&"fr")]);
    assert_eq!(store.iter().len(), 2);
}

#[test]
fn languages_without_a_default_are_missing_content() {
    let r = process_languages(&p(&["languages.toml"]), "en = \"English\"\n");
    assert!(matches!(r, Err(LoadError::MissingContent { .. })));
}

#[test]
fn an_undeclared_default_language_is_an_unknown_reference() {
    let r = process_languages(&p(&["languages.toml"]), "default = \"de\"\nen = \"English\"\n");
    match r {
        Err(LoadError::UnknownReference { id, .. }) => assert_eq!(id, b(&"de")),
        _ => panic!("expected an unknown reference"),
    }
}

#[test]
fn an_unparseable_languages_file_is_a_parse_error() {
    assert!(matches!(
        process_languages(&p(&["languages.toml"]), "= nonsense ="),
        Err(LoadError::Parse { .. })
    ));
    assert!(matches!(
        process_languages(&p(&["languages.toml"]), "default = \"en\"\nen = 3\n"),
        Err(LoadError::Parse { .. })
    ));
}

#[test]
fn i18n_strings_fall_back_to_their_default() {
    let langs = languages();
    let text = "[all_tags]\ndefault = \"All tags\"\nfr = \"Tous les tags\"\n";
    let store = process_i18n(&p(&["i18n.toml"]), text, &langs).ok().unwrap();
    assert_eq!(
        store.display(b"all_tags", &lang(&langs, "fr")),
        Some(b(&"Tous les tags"))
    );
    assert_eq!(
        store.display(b"all_tags", &lang(&langs, "en")),
        Some(b(&"All tags"))
    );
    assert_eq!(store.display(b"missing", &lang(&langs, "en")), None);
    assert_eq!(store.iter_ids(), vec![b(&"all_tags")]);
}

#[test]
fn i18n_rejects_undeclared_languages_and_missing_defaults() {
    let langs = languages();
    let undeclared = "[k]\ndefault = \"x\"\nde = \"y\"\n";
    match process_i18n(&p(&["i18n.toml"]), undeclared, &langs) {
        Err(LoadError::UnknownReference { id, .. }) => assert_eq!(id, b(&"de")),
        _ => panic!("expected an unknown reference"),
    }
    let no_default = "[k]\nfr = \"y\"\n";
    assert!(matches!(
        process_i18n(&p(&["i18n.toml"]), no_default, &langs),
        Err(LoadError::MissingContent { .. })
    ));
}

fn tag_store(langs: &LanguageStore) -> TagStore {
    let fs = snapshot(&[
        (
            &["baz.toml"],
            "title = \"Baz\"\ndescription = \"About baz\"\nalt = [\"foo\", \"bar\"]\n\n[fr]\ntitle = \"Bas\"\n",
        ),
        (&["solo.toml"], "title = \"Solo\"\ndescription = \"Alone\"\n"),
    ]);
    process_tags(&fs, langs).ok().unwrap()
}

#[test]
fn a_tag_is_retrievable_under_its_canonical_and_alternate_ids() {
    let langs = languages();
    let store = tag_store(&langs);
    for id in ["baz", "foo", "bar"] {
        let tag = store.get(id.as_bytes()).unwrap();
        assert_eq!(tag.id, b(&"baz"));
    }
    assert!(store.get(b"quux").is_none());
}

#[test]
fn tag_titles_fall_back_per_field() {
    let langs = languages();
    let store = tag_store(&langs);
    let tag = store.get(b"baz").unwrap();
    assert_eq!(tag.title(&lang(&langs, "fr")), b(&"Bas"));
    assert_eq!(tag.description(&lang(&langs, "fr")), b(&"About baz"));
    assert_eq!(tag.title(&lang(&langs, "en")), b(&"Baz"));
    let info = tag.info(&lang(&langs, "fr"));
    assert_eq!(info.title, b(&"Bas"));
    assert_eq!(info.description, b(&"About baz"));
    assert_eq!(
        store.title(b"foo", &lang(&langs, "fr")),
        Some(b(&"Bas"))
    );
    assert_eq!(store.iter_ids().len(), 4);
    assert_eq!(store.iter().len(), 4);
}

#[test]
fn a_tag_without_a_title_is_missing_content() {
    let langs = languages();
    let fs = snapshot(&[(&["t.toml"], "description = \"d\"\n")]);
    assert!(matches!(
        process_tags(&fs, &langs),
        Err(LoadError::MissingContent { .. })
    ));
}

#[test]
fn a_tag_with_an_undeclared_language_is_an_unknown_reference() {
    let langs = languages();
    let fs = snapshot(&[(&["t.toml"], "title = \"t\"\ndescription = \"d\"\n\n[de]\ntitle = \"x\"\n")]);
    match process_tags(&fs, &langs) {
        Err(LoadError::UnknownReference { id, .. }) => assert_eq!(id, b(&"de")),
        _ => panic!("expected an unknown reference"),
    }
}

#[test]
fn metas_load_one_per_canonical_path() {
    let langs = languages();
    let tags = tag_store(&langs);
    let fs = snapshot(&[
        (
            &["a", "b.meta.toml"],
            "title = \"B\"\ndescription = \"About b\"\ntags = \"baz\"\n\n[fr]\ntitle = \"Be\"\n",
        ),
        (&["a", "b.en.md"], "# b\n"),
    ]);
    let store = process_metas(&fs, &langs, &tags).ok().unwrap();
    assert_eq!(store.iter_ids().len(), 1);
    let meta = store.get(&p(&["a", "b"])).unwrap();
    assert!(meta.path.equals(&p(&["a", "b"])));
    assert_eq!(meta.tags.len(), 1);
    assert_eq!(meta.tags[0].id, b(&"baz"));
    assert_eq!(meta.title(&lang(&langs, "fr")), b(&"Be"));
    assert_eq!(meta.description(&lang(&langs, "fr")), b(&"About b"));
    assert_eq!(
        store.title(&p(&["a", "b"]), &lang(&langs, "en")),
        Some(b(&"B"))
    );
    assert_eq!(
        store.description(&p(&["a", "b"]), &lang(&langs, "fr")),
        Some(b(&"About b"))
    );
    let by_tag = store.iter_by_tag(&tags.get(b"foo").unwrap());
    assert_eq!(by_tag.len(), 1);
    let none_by_tag = store.iter_by_tag(&tags.get(b"solo").unwrap());
    assert_eq!(none_by_tag.len(), 0);
}

#[test]
fn a_page_without_a_meta_file_fails_the_load() {
    let langs = languages();
    let tags = tag_store(&langs);
    let fs = snapshot(&[(&["a", "b.en.md"], "# b\n")]);
    assert!(matches!(
        process_metas(&fs, &langs, &tags),
        Err(LoadError::MissingContent { .. })
    ));
}

#[test]
fn two_meta_files_for_one_path_are_ambiguous() {
    let langs = languages();
    let tags = tag_store(&langs);
    let meta_text = "title = \"X\"\ndescription = \"d\"\n";
    let fs = snapshot(&[
        (&["x.meta.toml"], meta_text),
        (&["x", "index.meta.toml"], meta_text),
    ]);
    match process_metas(&fs, &langs, &tags) {
        Err(LoadError::AmbiguousContent { path, matches }) => {
            assert!(path.equals(&p(&["x"])));
            assert_eq!(matches.len(), 2);
        },
        _ => panic!("expected an ambiguity"),
    }
}

#[test]
fn a_meta_referencing_an_unknown_tag_fails_the_load() {
    let langs = languages();
    let tags = tag_store(&langs);
    let fs = snapshot(&[(
        &["a.meta.toml"],
        "title = \"A\"\ndescription = \"d\"\ntags = [\"nope\"]\n",
    )]);
    match process_metas(&fs, &langs, &tags) {
        Err(LoadError::UnknownReference { id, .. }) => assert_eq!(id, b(&"nope")),
        _ => panic!("expected an unknown reference"),
    }
}

#[test]
fn an_unparseable_meta_file_is_a_parse_error() {
    let langs = languages();
    let tags = tag_store(&langs);
    let fs = snapshot(&[(&["a.meta.toml"], "not toml =")]);
    assert!(matches!(
        process_metas(&fs, &langs, &tags),
        Err(LoadError::Parse { .. })
    ));
}

#[test]
fn pages_map_each_path_to_its_languages() {
    let langs = languages();
    let tags = tag_store(&langs);
    let fs = snapshot(&[
        (&["a", "b.meta.toml"], "title = \"B\"\ndescription = \"d\"\n"),
        (&["a", "b.en.md"], "# b\n"),
        (&["only-meta.meta.toml"], "title = \"O\"\ndescription = \"d\"\n"),
    ]);
    let metas = process_metas(&fs, &langs, &tags).ok().unwrap();
    let pages = process_pages(&fs, &langs, &metas).ok().unwrap();
    let by_lang = pages.get(&p(&["a", "b"])).unwrap();
    assert_eq!(by_lang.len(), 1);
    assert_eq!(by_lang[0].0.id, b(&"en"));
    assert!(by_lang[0].1.equals(&p(&["a", "b.en.md"])));
    assert!(pages.get(&p(&["only-meta"])).is_none());
    assert_eq!(pages.iter().len(), 1);
}

#[test]
fn two_content_files_for_one_language_are_ambiguous() {
    let langs = languages();
    let tags = tag_store(&langs);
    let fs = snapshot(&[
        (&["a", "b.meta.toml"], "title = \"B\"\ndescription = \"d\"\n"),
        (&["a", "b.en.md"], "# b\n"),
        (&["a", "b", "index.en.md"], "# b again\n"),
    ]);
    let metas = process_metas(&fs, &langs, &tags).ok().unwrap();
    match process_pages(&fs, &langs, &metas) {
        Err(LoadError::AmbiguousContent { path, matches }) => {
            assert!(path.equals(&p(&["a", "b"])));
            assert_eq!(matches.len(), 2);
        },
        _ => panic!("expected an ambiguity"),
    }
}

#[test]
fn checked_unwrapping_takes_the_value_out() {
    let some: Option<u64> = Some(7);
    assert_eq!(Unwrap::unwrap(some), 7);
    let ok: Result<u64, bool> = Ok(9);
    assert_eq!(Unwrap::unwrap(ok), 9);
}
