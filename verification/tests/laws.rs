use prov_mutate::codec::MetaFormat;
use prov_mutate::confirm::Tier;
use prov_mutate::document::{ContentFormat, Document, EmbedStyle};
use prov_mutate::error::{Error, Fault};
use prov_mutate::files::{FileData, Files};
use prov_mutate::fixity::digest;
use prov_mutate::link::{
    alias_shaped, format_reference, path_text, resolve, Addressing, Link, LinkStyle,
    ReferenceStyle, Wrapper,
};
use prov_mutate::maintain::{body_sibling, splice_body, splice_body_span, Moves};
use prov_mutate::meta::{put_pair, Meta};
use prov_mutate::path::{
    escapes_root, extension, file_name, file_stem, lies_within, normalize, parent, read_in,
    relative, with_extension, with_file_name,
};
use prov_mutate::registry::{issue, verify, IdStorage, Registration, Registry, Trigger};
use prov_mutate::relation::RelationSet;
use prov_mutate::removal::{Diagnosis, Finding};
use prov_mutate::reorder::Reordered;
use prov_mutate::reparent::Reparented;
use prov_mutate::title::path_to_title;
use prov_mutate::walk::LinkSite;
use prov_mutate::workspace::{Settings, Target, Workspace};
use prov_mutate::written::{
    remove_written_entry, replace_written_entry, retarget_written_entry, written_entry_index,
};

/// An empty workspace in the usual vocabulary, without identifiers.
fn plain() -> Workspace {
    Workspace {
        relations: RelationSet::diaryx(),
        settings: Settings {
            references: ReferenceStyle {
                wrapper: Wrapper::Markdown,
                addressing: Addressing::Path,
                label: false,
                path_style: LinkStyle::MarkdownRoot,
            },
            metadata: MetaFormat::Yaml,
            id_storage: IdStorage::Registry,
            fixity: true,
            registration: Registration::off(),
            seed: 0,
        },
        name: String::new(),
        updated_field: String::new(),
        root: Some("index.md".to_string()),
        parked: Vec::new(),
        registry: Registry::new(),
        issued: 0,
        files: Files::new(),
    }
}

fn put(w: &mut Workspace, path: &str, text: impl Into<String>) {
    w.files.store(path, FileData::Text(text.into()));
}


fn read(w: &Workspace, path: &str) -> String {
    match w.files.get(path) {
        Some(FileData::Text(text)) => text.clone(),
        other => panic!("{path}: {other:?}"),
    }
}

/// Every file, sorted by path.
fn snapshot(w: &Workspace) -> Vec<(String, String)> {
    let mut all: Vec<(String, String)> = w
        .files
        .entries
        .iter()
        .map(|(path, data)| (path.clone(), format!("{data:?}")))
        .collect();
    all.sort();
    all
}

fn tree() -> Workspace {
    let mut w = plain();
    put(&mut w, "index.md", "---\ntitle: Root\ncontents:\n- a.md\n- b.md\n---\nbody\n");
    put(&mut w, "a.md", "---\ntitle: A\npart_of: index.md\n---\nsee [[b]]\n");
    put(&mut w, "b.md", "---\ntitle: B\npart_of: index.md\nlinks:\n- a.md\n---\nbody\n");
    w
}

fn doc(path: &str, text: &str) -> Document {
    Document::parse(path, text).unwrap()
}

// Paths.

#[test]
fn a_path_has_one_normal_spelling() {
    assert_eq!(normalize("a//b/./c/../d.md"), "a/b/d.md");
    assert_eq!(normalize("./x"), "x");
    assert_eq!(normalize("../x/../y"), "../y");
    assert_eq!(normalize(""), "");
    for raw in ["a//b/./c/../d.md", "../x/../y", "/r/./s", "."] {
        let once = normalize(raw);
        assert_eq!(normalize(&once), once);
    }
}

#[test]
fn a_relative_path_arrives() {
    assert_eq!(relative("a/b", "a/c/d.md"), "../c/d.md");
    assert_eq!(relative("", "x.md"), "x.md");
    assert_eq!(relative("a", "a"), ".");
    for (from, to) in [("a/b", "a/c/d.md"), ("", "x.md"), ("x/y", "z"), ("p", "p/q/r.md")] {
        assert_eq!(read_in(from, &relative(from, to)), to);
    }
}

#[test]
fn the_parts_of_a_path() {
    assert_eq!(parent("a/b/c.md"), "a/b");
    assert_eq!(parent("c.md"), "");
    assert_eq!(file_name("a/c.tar.gz").as_deref(), Some("c.tar.gz"));
    assert_eq!(file_name(".."), None);
    assert_eq!(file_stem("a/c.tar.gz").as_deref(), Some("c.tar"));
    assert_eq!(extension("a/.hidden"), None);
    assert_eq!(extension("a/c.md").as_deref(), Some("md"));
    assert_eq!(with_extension("a/c.md", "yaml"), "a/c.yaml");
    assert_eq!(with_file_name("a/c.md", "d.txt"), "a/d.txt");
    assert!(escapes_root("../x"));
    assert!(!escapes_root("x/../y"));
    assert!(lies_within("a/b/c", "a/b"));
    assert!(!lies_within("a/bc", "a/b"));
}

#[test]
fn a_directory_moves_and_moves_back() {
    let there = Moves::Tree("a".to_string(), "b/a".to_string());
    let back = Moves::Tree("b/a".to_string(), "a".to_string());
    assert_eq!(there.landed("a/x/y.md").as_deref(), Some("b/a/x/y.md"));
    assert_eq!(there.landed("ab/x.md"), None);
    assert_eq!(there.landed_or_same("c.md"), "c.md");
    assert_eq!(back.landed("b/a/x/y.md").as_deref(), Some("a/x/y.md"));
    let one = Moves::one("p.md", "q.md");
    assert_eq!(one.landed("p.md").as_deref(), Some("q.md"));
    assert_eq!(one.landed("q.md"), None);
}

// Links.

#[test]
fn a_link_keeps_its_shape() {
    let link = Link::parse("[The label](a/b.md#part)");
    assert_eq!(link.label.as_deref(), Some("The label"));
    assert_eq!(link.target, "a/b.md#part");
    assert_eq!(link.locator().as_deref(), Some("part"));
    assert_eq!(link.with_path("../c.md").render(), "[The label](../c.md#part)");
    let wiki = Link::parse("[[a.md|name]]");
    assert!(wiki.wikilink);
    assert_eq!(wiki.with_path("/b.md").render(), "[[/b.md|name]]");
    assert_eq!(wiki.with_label("other").render(), "[[a.md|other]]");
    let spaced = Link::parse("[x](<a b.md>)");
    assert_eq!(spaced.target, "a b.md");
    assert_eq!(spaced.with_path("c d.md").render(), "[x](<c d.md>)");
    assert_eq!(Link::parse("plain.md").with_path("q.md").render(), "q.md");
}

#[test]
fn only_paths_are_paths() {
    assert!(Link::parse("[x](a.md)").is_path_target());
    assert!(!Link::parse("[x](https://example.com)").is_path_target());
    assert!(!Link::parse("[x](#part)").is_path_target());
    assert!(!Link::parse("[[id:abc1234]]").is_path_target());
    assert!(!Link::parse("[[colophon:abc1234]]").is_path_target());
    assert!(Link::parse("mailto:me@example.com").is_external());
    assert!(Link::parse("#here").is_same_document());
}

#[test]
fn path_text_is_read_back_where_it_stands() {
    for style in [
        LinkStyle::MarkdownRoot,
        LinkStyle::MarkdownRelative,
        LinkStyle::PlainRoot,
        LinkStyle::PlainRelative,
    ] {
        let text = path_text(style, "a/b/c.md", "a/d.md");
        assert_eq!(resolve("a/b/c.md", &text), "a/d.md");
    }
    assert_eq!(path_text(LinkStyle::PlainRoot, "a/b/c.md", "a/d.md"), "/a/d.md");
    assert_eq!(path_text(LinkStyle::PlainRelative, "a/b/c.md", "a/d.md"), "../d.md");
}

#[test]
fn references_are_authored_in_their_style() {
    let mut style = plain().settings.references;
    assert_eq!(format_reference(style, "a.md", "b/c.md", &None, "C"), "[C](/b/c.md)");
    style.path_style = LinkStyle::PlainRelative;
    assert_eq!(format_reference(style, "a.md", "b/c.md", &None, "C"), "b/c.md");
    style.addressing = Addressing::Id;
    let id = Some("abc1234".to_string());
    assert_eq!(format_reference(style, "a.md", "b/c.md", &id, "C"), "id:abc1234");
    style.label = true;
    assert_eq!(format_reference(style, "a.md", "b/c.md", &id, "C"), "[C](id:abc1234)");
    style.addressing = Addressing::Alias;
    assert_eq!(format_reference(style, "a.md", "b/c.md", &id, "C"), "[[C]]");
    assert!(alias_shaped("C"));
    assert!(!alias_shaped("c.md"));
    assert!(!alias_shaped("b/c"));
}

#[test]
fn a_title_is_suggested_by_a_path() {
    assert_eq!(path_to_title("notes/my_great-note.md"), "My Great Note");
    assert_eq!(path_to_title("x.md"), "X");
    assert_eq!(path_to_title(""), "");
}

// Metadata.

#[test]
fn metadata_is_read_by_key_and_put_by_key() {
    let mut pairs = vec![
        ("a".to_string(), Meta::Int(1)),
        ("b".to_string(), Meta::Text("x".to_string())),
    ];
    put_pair(&mut pairs, "a", Meta::Bool(true));
    put_pair(&mut pairs, "c", Meta::Null);
    let meta = Meta::Mapping(pairs);
    assert_eq!(meta.get("a"), Some(&Meta::Bool(true)));
    assert_eq!(meta.get("b"), Some(&Meta::Text("x".to_string())));
    assert_eq!(meta.get("c"), Some(&Meta::Null));
    assert_eq!(meta.get("d"), None);
}

#[test]
fn references_are_the_texts_of_a_field() {
    let d = doc("x.md", "---\nlinks:\n- a.md\n- 3\n- b.md\npart_of: index.md\n---\n");
    assert_eq!(d.meta.links_at("links"), vec!["a.md".to_string(), "b.md".to_string()]);
    assert_eq!(d.meta.links_at("part_of"), vec!["index.md".to_string()]);
    assert!(d.meta.links_at("missing").is_empty());
    assert_eq!(d.body, "");
}

#[test]
fn the_languages_of_metadata_are_read() {
    for (path, text) in [
        ("a.yaml", "title: T\nn: 3\n"),
        ("a.json", "{\"title\": \"T\", \"n\": 3}\n"),
        ("a.toml", "title = \"T\"\nn = 3\n"),
        ("a.md", "---\ntitle: T\nn: 3\n---\nbody\n"),
        ("b.md", "+++\ntitle = \"T\"\nn = 3\n+++\nbody\n"),
    ] {
        let d = doc(path, text);
        assert_eq!(d.meta.get_text("title").as_deref(), Some("T"), "{path}");
        assert_eq!(d.meta.get("n"), Some(&Meta::Int(3)), "{path}");
    }
    let none = doc("c.md", "just prose\n");
    assert_eq!(none.meta, Meta::Null);
    assert_eq!(none.body, "just prose\n");
    assert!(Document::parse("c.md", "---\n[: :\n---\n").is_none());
}

#[test]
fn a_body_is_spliced_where_it_is() {
    assert_eq!(splice_body("head\nbody", "body", "BODY"), "head\nBODY");
    assert_eq!(splice_body("body\ntail", "body", "BODY"), "BODY\ntail");
    assert_eq!(splice_body("x body y body z", "body", "B"), "x B y body z");
    assert_eq!(splice_body("text", "nowhere", "B"), "text");
}

#[test]
fn a_span_is_replaced_only_while_it_stands() {
    let text = "---\na: b\n---\nsee [x](y) now";
    let body = "see [x](y) now";
    assert_eq!(
        splice_body_span(text, body, 4, 10, "[x](y)", "[x](z)").unwrap(),
        "---\na: b\n---\nsee [x](z) now"
    );
    let err = splice_body_span(text, body, 4, 10, "[q](y)", "[x](z)").unwrap_err();
    assert_eq!(err, Fault::SpanChanged("[q](y)".to_string()));
    assert!(splice_body_span(text, body, 4, 99, "[x](y)", "[x](z)").is_err());
}

#[test]
fn a_span_counts_bytes_and_ends_with_characters() {
    let text = "# h\né [x](y)";
    let body = "é [x](y)";
    assert_eq!(splice_body_span(text, body, 0, 2, "é", "e").unwrap(), "# h\ne [x](y)");
    assert_eq!(splice_body_span(text, body, 3, 9, "[x](y)", "z").unwrap(), "# h\né z");
    for (start, end) in [(0, 1), (1, 2), (2, 0), (0, 99)] {
        let err = splice_body_span(text, body, start, end, "é", "e").unwrap_err();
        assert_eq!(err, Fault::SpanChanged("é".to_string()), "{start}..{end}");
    }
    assert_eq!(splice_body_span(text, body, 0, 0, "", "!").unwrap(), "# h\n!é [x](y)");
}

#[test]
fn a_finding_names_the_bytes_of_a_link() {
    let mut w = tree();
    put(&mut w, "b.md", "---\ntitle: B\npart_of: index.md\n---\né [A](a.md)\n");
    let found = w.delete("a.md", false).unwrap();
    let body = "é [A](a.md)\n";
    let spans: Vec<(usize, usize)> = found
        .iter()
        .filter_map(|f| match f {
            Finding::BrokenLink(_, LinkSite::Body(start, end), _) => Some((*start, *end)),
            _ => None,
        })
        .collect();
    assert_eq!(spans, [(3, 12)]);
    assert_eq!(
        splice_body_span(body, body, 3, 12, "[A](a.md)", "A").unwrap(),
        "é A\n"
    );
}

// Entries by where they lead.

fn mixed() -> Workspace {
    let mut w = plain();
    put(&mut w, "index.md", "---\ntitle: Root\ncontents:\n- a.md\n- 3\n- b.md\n---\nbody\n");
    put(&mut w, "a.md", "---\ntitle: A\npart_of: index.md\n---\n");
    put(&mut w, "b.md", "---\ntitle: B\npart_of: index.md\n---\n");
    w
}

#[test]
fn an_entry_is_counted_among_all_items() {
    let w = plain();
    let d = doc("index.md", "---\ncontents:\n- a.md\n- 3\n- b.md\n---\n");
    assert_eq!(w.entry_index(&d, "contents", "index.md", "b.md"), Some(2));
    assert_eq!(w.entry_index(&d, "contents", "index.md", "a.md"), Some(0));
    assert_eq!(w.entry_index(&d, "contents", "index.md", "c.md"), None);
    let lone = doc("index.md", "---\ncontents: b.md\n---\n");
    assert_eq!(w.entry_index(&lone, "contents", "index.md", "b.md"), Some(0));
}

#[test]
fn a_parent_loses_the_entry_of_what_leaves_it() {
    let left = "---\ntitle: Root\ncontents:\n- a.md\n- 3\n---\nbody\n";
    let mut w = mixed();
    w.delete("b.md", false).unwrap();
    assert_eq!(read(&w, "index.md"), left);
    let mut w = mixed();
    w.recycle("b.md", false, None).unwrap();
    assert!(read(&w, "index.md").contains("contents:\n- a.md\n- 3\n"));
    assert!(!read(&w, "index.md").contains("- b.md"));
    let mut w = mixed();
    assert_eq!(w.reparent("b.md", "a.md").unwrap(), Reparented::Moved);
    assert_eq!(read(&w, "index.md"), left);
}

#[test]
fn what_is_not_named_keeps_its_place() {
    let mut w = mixed();
    let order = vec!["b.md".to_string(), "a.md".to_string()];
    assert_eq!(w.reorder("index.md", &order).unwrap(), Reordered::Moved);
    assert_eq!(
        read(&w, "index.md"),
        "---\ntitle: Root\ncontents:\n- b.md\n- 3\n- a.md\n---\nbody\n"
    );
    assert_eq!(w.reorder("index.md", &order).unwrap(), Reordered::Unchanged);
}

// Entries by what is written in them.

#[test]
fn an_entry_is_found_by_what_is_written() {
    let text = "---\nlinks:\n- '[A](gone.md)'\n- 3\n- other.md\nsource:\n  from: lost.md\n---\nbody\n";
    let d = doc("x.md", text);
    assert_eq!(written_entry_index(&d, "links", "gone.md"), Some(0));
    assert_eq!(written_entry_index(&d, "links", "other.md"), Some(2));
    assert_eq!(written_entry_index(&d, "links", "nothing.md"), None);
    assert_eq!(written_entry_index(&d, "source.from", "lost.md"), Some(0));

    let out = retarget_written_entry(text, &d, "links", "gone.md", "/here.md").unwrap().unwrap();
    assert!(out.contains("[A](/here.md)"), "{out}");
    assert!(out.ends_with("body\n"), "{out}");
    let out = replace_written_entry(text, &d, "source.from", "lost.md", "found.md").unwrap().unwrap();
    assert!(out.contains("from: found.md"), "{out}");
    let out = remove_written_entry(text, &d, "links", "other.md").unwrap().unwrap();
    assert!(!out.contains("other.md") && out.contains("gone.md"), "{out}");
    let out = remove_written_entry(text, &d, "source.from", "lost.md").unwrap().unwrap();
    assert!(!out.contains("lost.md"), "{out}");
    assert_eq!(remove_written_entry(text, &d, "links", "nothing.md").unwrap(), None);
    let err = replace_written_entry("---\nq: 1\n---\n", &d, "links", "gone.md", "x").unwrap_err();
    assert_eq!(err, Fault::Field("links".to_string()));
}

// Identifiers.

#[test]
fn an_identifier_is_issued_once() {
    let mut ids = Registry::new();
    let mut next = 0;
    let mut seen = Vec::new();
    for i in 0..20 {
        let (id, after) = issue(&ids, 42, next).unwrap();
        assert!(verify(&id), "{id}");
        assert!(!seen.contains(&id));
        ids.register(&id, &format!("{i}.md"));
        seen.push(id);
        next = after;
    }
    let (again, _) = issue(&Registry::new(), 42, 0).unwrap();
    assert_eq!(again, seen[0], "the same seed gives the same identifiers");
    let (skipped, _) = issue(&ids, 42, 0).unwrap();
    assert!(!seen.contains(&skipped), "a known identifier is passed over");
    assert!(issue(&ids, 42, u64::MAX).is_none());
}

#[test]
fn an_identifier_checks_itself() {
    // The weights 1 to 6 on 1, 2, 3, 4, 5 and 6 come to 91, which is 4 more than 87.
    assert!(verify("1234564"));
    assert!(!verify("1234565"));
    assert!(!verify("1234567"));
    assert!(!verify("123456"));
    assert!(!verify("12345644"));
    assert!(!verify("a234564"));
    // b is the tenth symbol, counted from none.
    assert!(verify("b00000b"));
}

#[test]
fn an_identifier_with_a_typo_is_none() {
    let (id, _) = issue(&Registry::new(), 7, 0).unwrap();
    assert!(verify(&id));
    assert!(!verify(&id[1..]));
    assert!(!verify("aaaaaaa"));
    assert!(!verify(""));
}

#[test]
fn a_registry_remembers() {
    let mut ids = Registry::new();
    ids.register("one", "a.md");
    ids.register("two", "b.md");
    assert_eq!(ids.resolve("one").as_deref(), Some("a.md"));
    assert_eq!(ids.id_for_path("b.md").as_deref(), Some("two"));
    ids.register("one", "b.md");
    assert_eq!(ids.id_for_path("b.md").as_deref(), Some("one"));
    assert_eq!(ids.resolve("two"), None, "its path was taken");
    assert!(ids.knows("two"), "but it is not forgotten");
    assert_eq!(ids.id_for_path("a.md"), None);
    ids.unregister("one");
    assert_eq!(ids.resolve("one"), None);
    assert!(ids.knows("one"));
    assert!(!ids.knows("three"));
}

#[test]
fn a_checksum_is_that_of_the_bytes() {
    assert_eq!(
        digest(b""),
        "sha256:e3b0c44298fc1c149afbf4c8996fb92427ae41e4649b934ca495991b7852b855"
    );
    assert_eq!(
        digest(b"abc"),
        "sha256:ba7816bf8f01cfea414140de5dae2223b00361a396177a9cb410ff61f20015ad"
    );
}

// Changes.

#[test]
fn changes_land_together_or_not_at_all() {
    let mut w = tree();
    let before = snapshot(&w);
    let mut cs = w.change();
    cs.write("new.md", "new\n");
    cs.expect("a.md", "not what it holds\n");
    assert_eq!(w.commit(cs).unwrap_err(), Fault::Drifted("a.md".to_string()));
    assert_eq!(snapshot(&w), before);

    let mut cs = w.change();
    cs.write("new.md", "new\n");
    cs.expect_absent("b.md");
    assert_eq!(w.commit(cs).unwrap_err(), Fault::Drifted("b.md".to_string()));
    assert_eq!(snapshot(&w), before);

    let mut cs = w.change();
    cs.remove("a.md");
    cs.remove("missing.md");
    assert_eq!(w.commit(cs).unwrap_err(), Fault::NotFound("missing.md".to_string()));
    assert_eq!(snapshot(&w), before);

    let mut cs = w.change();
    cs.remove("a.md");
    cs.write("../out.md", "no\n");
    assert_eq!(w.commit(cs).unwrap_err(), Fault::Escape("../out.md".to_string()));
    assert_eq!(snapshot(&w), before);

    let mut cs = w.change();
    cs.rename("a.md", "sub/a.md");
    cs.write("c.md", "c\n");
    w.commit(cs).unwrap();
    assert!(!w.is_taken("a.md"));
    assert!(w.is_taken("sub"));
    assert_eq!(read(&w, "sub/a.md"), "---\ntitle: A\npart_of: index.md\n---\nsee [[b]]\n");
    assert_eq!(read(&w, "c.md"), "c\n");
}

#[test]
fn a_plan_over_a_document_that_changed_is_refused() {
    let mut w = tree();
    let cs = w.plan_rename("a.md", "sub/a.md").unwrap();
    put(&mut w, "b.md", "---\ntitle: B\npart_of: index.md\n---\nrewritten meanwhile\n");
    let before = snapshot(&w);
    assert_eq!(w.commit(cs).unwrap_err(), Fault::Drifted("b.md".to_string()));
    assert_eq!(snapshot(&w), before);
}

#[test]
fn a_plan_changes_nothing() {
    let w = tree();
    let before = snapshot(&w);
    let cs = w.plan_rename("a.md", "sub/a.md").unwrap();
    assert!(cs.ops.len() > 2);
    w.plan_delete("a.md", false, Diagnosis::Report).unwrap();
    w.plan_create("c.md", "index.md", None).unwrap();
    assert_eq!(snapshot(&w), before);
}

// Walks.

#[test]
fn a_walk_comes_to_each_document_once() {
    let mut w = plain();
    put(&mut w, "index.md", "---\ncontents:\n- a.md\n- b.md\n- gone.md\n---\n");
    put(&mut w, "a.md", "---\npart_of: index.md\ncontents:\n- b.md\n- index.md\n---\n");
    put(&mut w, "b.md", "---\npart_of: a.md\ncontents:\n- a.md\n---\n");
    let mut docs = w.spanning_subtree("index.md");
    docs.sort();
    assert_eq!(docs, vec!["a.md".to_string(), "b.md".to_string(), "index.md".to_string()]);
    assert!(w.spanning_subtree("gone.md").is_empty());
}

#[test]
fn a_climb_ends_in_a_circle() {
    let mut w = plain();
    w.root = None;
    put(&mut w, "a.md", "---\npart_of: b.md\n---\n");
    put(&mut w, "b.md", "---\npart_of: a.md\n---\n");
    put(&mut w, "c.md", "---\npart_of: a.md\n---\n");
    let (rungs, top) = w.climb("c.md", "part_of");
    assert_eq!(rungs, vec!["c.md".to_string(), "a.md".to_string(), "b.md".to_string()]);
    assert_eq!(top, "a.md");
    assert_eq!(w.spanning_root("c.md", "part_of"), "a.md");
    put(&mut w, "d.md", "no metadata\n");
    assert_eq!(w.spanning_root("d.md", "part_of"), "d.md");
    w.root = Some("index.md".to_string());
    assert_eq!(w.root_document(), None);
    assert_eq!(w.spanning_root("d.md", "part_of"), "d.md");
    put(&mut w, "index.md", "---\ntitle: Root\n---\n");
    assert_eq!(w.root_document().as_deref(), Some("index.md"));
    assert_eq!(w.spanning_root("d.md", "part_of"), "index.md");
}

#[test]
fn a_bare_name_is_looked_up_by_title_and_by_stem() {
    let mut w = tree();
    put(&mut w, "deep/c.md", "---\ntitle: Sea\n---\n");
    let named = w.name_files();
    let reach = |w: &Workspace, raw: &str| {
        w.reach(Some(&named), "index.md", &Link::parse(raw)).map(|r| r.path)
    };
    assert_eq!(reach(&w, "[[Sea]]").as_deref(), Some("deep/c.md"));
    assert_eq!(reach(&w, "[[c]]").as_deref(), Some("deep/c.md"));
    assert_eq!(reach(&w, "[[nothing]]"), None);
    assert_eq!(reach(&w, "[x](a.md)").as_deref(), Some("a.md"));
    assert_eq!(reach(&w, "[x](gone.md)"), None);
    put(&mut w, "other/x.md", "---\ntitle: Sea\n---\n");
    let named = w.name_files();
    assert_eq!(w.reach(Some(&named), "index.md", &Link::parse("[[Sea]]")), None, "ambiguous");
}

#[test]
fn a_link_by_identifier_leads_to_what_carries_it() {
    let mut w = tree();
    let (id, _) = issue(&w.registry, 1, 0).unwrap();
    w.registry.register(&id, "a.md");
    let by_id = Link::parse(&format!("[[id:{id}]]"));
    assert_eq!(w.resolve_link("index.md", &by_id), Target::Path("a.md".to_string()));
    w.rename("a.md", "sub/a.md").unwrap();
    assert_eq!(w.resolve_link("index.md", &by_id), Target::Path("sub/a.md".to_string()));
    w.delete("sub/a.md", false).unwrap();
    assert_eq!(w.resolve_link("index.md", &by_id), Target::UnresolvedId(id.clone()));
    assert!(w.registry.knows(&id));
    let foreign = Link::parse("id:elsewhere/abc");
    assert_eq!(
        w.resolve_link("index.md", &foreign),
        Target::Foreign("elsewhere".to_string(), "abc".to_string())
    );
    assert_eq!(w.resolve_link("x.md", &Link::parse("https://e.org")), Target::External);
    assert_eq!(w.resolve_link("x.md", &Link::parse("#top")), Target::SameDocument);
}

#[test]
fn the_node_of_a_body_is_found_beside_it() {
    let mut w = plain();
    put(&mut w, "n.yaml", "title: N\ncontent: n.md\n");
    put(&mut w, "n.md", "prose\n");
    put(&mut w, "sub/m.yaml", "content: ../n.md\n");
    assert_eq!(w.content_owner("n.md").as_deref(), Some("n.yaml"));
    assert_eq!(w.content_owner("n.yaml"), None);
    assert_eq!(w.content_owner("sub/n.md"), None);
}

// Verbs together.

#[test]
fn a_removal_reports_what_it_breaks_and_no_more() {
    let mut w = tree();
    let (id, _) = issue(&w.registry, 3, 0).unwrap();
    w.registry.register(&id, "a.md");
    put(
        &mut w,
        "b.md",
        format!("---\ntitle: B\npart_of: index.md\nlinks:\n- id:{id}\n- a.md\n---\nno link\n"),
    );
    let told = w.delete_with("a.md", false, Diagnosis::Report).unwrap();
    assert_eq!(
        told,
        vec![
            Finding::DanglingId(
                "b.md".to_string(),
                LinkSite::Relation("links".to_string(), Some(0)),
                id.clone()
            ),
            Finding::BrokenLink(
                "b.md".to_string(),
                LinkSite::Relation("links".to_string(), Some(1)),
                "a.md".to_string()
            ),
        ]
    );
}

#[test]
fn not_asking_what_a_removal_breaks_removes_the_same() {
    let mut told = tree();
    let mut untold = tree();
    assert!(!told.delete_with("a.md", false, Diagnosis::Report).unwrap().is_empty());
    assert!(untold.delete_with("a.md", false, Diagnosis::Skip).unwrap().is_empty());
    assert_eq!(snapshot(&told), snapshot(&untold));
    assert_eq!(Diagnosis::default(), Diagnosis::Report);
}

#[test]
fn a_document_split_and_folded_is_itself_again() {
    let mut w = tree();
    let before = snapshot(&w);
    assert_eq!(w.separate("b.md").unwrap(), "b.yaml");
    assert_eq!(read(&w, "b.md"), "body\n");
    assert!(read(&w, "b.yaml").contains("content: b.md"));
    assert!(read(&w, "index.md").contains("b.yaml"));
    assert_eq!(w.combine("b.yaml").unwrap(), "b.md");
    assert!(!w.is_taken("b.yaml"));
    let after = snapshot(&w);
    assert_eq!(after.len(), before.len());
    let again = doc("b.md", &read(&w, "b.md"));
    let first = doc("b.md", "---\ntitle: B\npart_of: index.md\nlinks:\n- a.md\n---\nbody\n");
    assert_eq!(again.meta, first.meta);
    assert_eq!(again.body, first.body);
}

#[test]
fn an_identifier_goes_where_its_document_goes() {
    let mut w = tree();
    w.registry.register("abc1234", "b.md");
    w.separate("b.md").unwrap();
    assert_eq!(w.registry.resolve("abc1234").as_deref(), Some("b.yaml"));
    w.combine("b.yaml").unwrap();
    assert_eq!(w.registry.resolve("abc1234").as_deref(), Some("b.md"));
    w.rename("b.md", "x/b.md").unwrap();
    assert_eq!(w.registry.resolve("abc1234").as_deref(), Some("x/b.md"));
    w.move_tree("x", "y/z").unwrap();
    assert_eq!(w.registry.resolve("abc1234").as_deref(), Some("y/z/b.md"));
    w.recycle("y/z/b.md", false, None).unwrap();
    assert_eq!(w.registry.resolve("abc1234"), None);
    w.restore("y/z/b.md", "index.md").unwrap();
    assert_eq!(w.registry.resolve("abc1234").as_deref(), Some("y/z/b.md"));
}

#[test]
fn a_moved_pair_stays_a_pair() {
    let mut w = plain();
    put(&mut w, "index.md", "---\ntitle: Root\ncontents:\n- pics/hero.jpg.yaml\n---\n![](pics/hero.jpg)\n");
    put(&mut w, "pics/hero.jpg.yaml", "title: Hero\npart_of: /index.md\ncontent: hero.jpg\n");
    w.files.store("pics/hero.jpg", FileData::Bytes(vec![1, 2, 3]));
    w.rename("pics/hero.jpg.yaml", "art/lead.jpg.yaml").unwrap();
    assert!(read(&w, "art/lead.jpg.yaml").contains("content: lead.jpg"));
    assert_eq!(w.files.get("art/lead.jpg"), Some(&FileData::Bytes(vec![1, 2, 3])));
    assert!(!w.is_taken("pics"));
    let root = read(&w, "index.md");
    assert!(root.contains("- /art/lead.jpg.yaml"), "{root}");
    assert!(root.contains("![](/art/lead.jpg)"), "{root}");
}

/// Where the references of a field lead, each of them to a file.
fn led(w: &Workspace, path: &str, field: &str) -> Vec<String> {
    let d = doc(path, &read(w, path));
    d.meta
        .links_at(field)
        .iter()
        .map(|raw| {
            let to = w.resolve_path(path, raw).unwrap();
            assert!(w.is_taken(&to), "{path}: {raw}");
            to
        })
        .collect()
}

#[test]
fn references_lead_where_their_documents_have_gone() {
    let mut w = tree();
    assert_eq!(led(&w, "index.md", "contents"), ["a.md", "b.md"]);
    w.separate("a.md").unwrap();
    assert_eq!(led(&w, "index.md", "contents"), ["a.yaml", "b.md"]);
    assert_eq!(led(&w, "b.md", "links"), ["a.yaml"]);
    w.combine("a.yaml").unwrap();
    assert_eq!(led(&w, "index.md", "contents"), ["a.md", "b.md"]);
    assert_eq!(led(&w, "b.md", "links"), ["a.md"]);
    w.rename("a.md", "x/y/a.md").unwrap();
    assert_eq!(led(&w, "b.md", "links"), ["x/y/a.md"]);
    assert_eq!(led(&w, "x/y/a.md", "part_of"), ["index.md"]);
    w.move_tree("x", "z").unwrap();
    assert_eq!(led(&w, "b.md", "links"), ["z/y/a.md"]);
    assert_eq!(led(&w, "index.md", "contents"), ["z/y/a.md", "b.md"]);
    assert_eq!(led(&w, "z/y/a.md", "part_of"), ["index.md"]);
}

#[test]
fn a_manifest_goes_along_to_another_directory() {
    let mut w = plain();
    put(&mut w, "index.md", "---\ntitle: Root\ncontents:\n- docs/photos.md\n---\n");
    w.files.store("photos/one.jpg", FileData::Bytes(vec![1]));
    let store = "root: ../photos/\nfiles:\n- path: one.jpg\n";
    put(&mut w, "docs/photos.manifest.yaml", store);
    let pin = digest(store.as_bytes());
    let node = format!(
        "---\ntitle: Photos\npart_of: /index.md\nmanifest: photos.manifest.yaml\ncontent_hash: {pin}\n---\n"
    );
    put(&mut w, "docs/photos.md", &node);

    w.rename("docs/photos.md", "docs/pictures.md").unwrap();
    assert_eq!(read(&w, "docs/pictures.md"), node, "the store stays in its directory");
    assert_eq!(read(&w, "docs/photos.manifest.yaml"), store);

    w.rename("docs/pictures.md", "archive/docs/pictures.md").unwrap();
    assert!(!w.is_taken("docs"));
    let store = read(&w, "archive/docs/photos.manifest.yaml");
    assert_eq!(store, "root: ../../photos/\nfiles:\n- path: one.jpg\n");
    let node = read(&w, "archive/docs/pictures.md");
    assert!(node.contains("manifest: photos.manifest.yaml\n"), "{node}");
    assert!(node.contains(&digest(store.as_bytes())), "{node}");
    assert!(w.files.holds("photos/one.jpg"));
}

#[test]
fn what_goes_to_the_bin_comes_back_as_it_was() {
    let mut w = plain();
    put(&mut w, "index.md", "---\ntitle: Root\ncontents:\n- n.yaml\n- o.md\n- p.md\n---\n");
    put(&mut w, "n.yaml", "title: N\npart_of: index.md\ncontent: n.md\n");
    put(&mut w, "n.md", "prose\n");
    put(&mut w, "o.md", "---\ntitle: O\npart_of: index.md\n---\n");
    put(&mut w, "p.md", "---\ntitle: P\npart_of: index.md\n---\n");
    w.registry.register("abc1234", "n.yaml");
    let (node, body) = (read(&w, "n.yaml"), read(&w, "n.md"));
    w.recycle("o.md", false, Some("then")).unwrap();
    w.recycle("n.yaml", false, None).unwrap();
    w.recycle("p.md", false, None).unwrap();
    assert_eq!(w.registry.resolve("abc1234"), None);
    assert!(!w.is_taken("n.yaml") && !w.is_taken("n.md"));
    assert!(w.is_taken("recyclebin/items/n.md"));

    w.restore("n.yaml", "index.md").unwrap();
    assert_eq!(read(&w, "n.yaml"), node);
    assert_eq!(read(&w, "n.md"), body);
    assert!(!w.is_taken("recyclebin/items/n.yaml") && !w.is_taken("recyclebin/items/n.md"));
    assert_eq!(w.registry.resolve("abc1234").as_deref(), Some("n.yaml"));
    assert_eq!(led(&w, "index.md", "contents"), ["n.yaml"]);
    let bin = read(&w, "recyclebin/index.yaml");
    assert!(!bin.contains("n.yaml"), "{bin}");
    assert!(bin.find("o.md").unwrap() < bin.find("p.md").unwrap(), "{bin}");
}

#[test]
fn a_document_under_a_parent_and_its_parent_lead_to_each_other() {
    for addressing in [Addressing::Path, Addressing::Id] {
        let mut w = tree();
        w.settings.references.addressing = addressing;
        w.settings.registration = Registration::lazy();
        put(&mut w, "x/new.md", "---\ntitle: New\n---\n");
        w.adopt("x/new.md", "a.md").unwrap();
        assert_eq!(led(&w, "x/new.md", "part_of"), ["a.md"]);
        assert_eq!(led(&w, "a.md", "contents"), ["x/new.md"]);
        let before = snapshot(&w);
        w.adopt("x/new.md", "a.md").unwrap();
        assert_eq!(snapshot(&w), before);
        assert_eq!(w.reparent("x/new.md", "a.md").unwrap(), Reparented::Unchanged);
        assert_eq!(snapshot(&w), before);

        assert_eq!(w.reparent("x/new.md", "b.md").unwrap(), Reparented::Moved);
        assert_eq!(led(&w, "x/new.md", "part_of"), ["b.md"]);
        assert_eq!(led(&w, "b.md", "contents"), ["x/new.md"]);
        assert_eq!(led(&w, "a.md", "contents"), [] as [&str; 0]);
        let before = snapshot(&w);
        assert_eq!(w.reparent("x/new.md", "b.md").unwrap(), Reparented::Unchanged);
        assert_eq!(snapshot(&w), before);
    }
}

#[test]
fn every_other_file_is_as_it_was() {
    let mut w = tree();
    let before = snapshot(&w);
    let kept = |w: &Workspace, written: &[&str]| {
        let after = snapshot(w);
        for row in &before {
            if !written.contains(&row.0.as_str()) {
                assert!(after.contains(row), "{}", row.0);
            }
        }
    };
    assert_eq!(w.duplicate("b.md").unwrap(), "b-copy.md");
    kept(&w, &["index.md"]);
    assert_eq!(led(&w, "index.md", "contents"), ["a.md", "b.md", "b-copy.md"]);
    let mut w = tree();
    assert_eq!(w.retitle("a.md", "Other").unwrap(), 0);
    kept(&w, &["a.md"]);
    let mut w = tree();
    w.delete("b.md", false).unwrap();
    kept(&w, &["index.md", "b.md"]);
    let mut w = tree();
    w.convert_content_format("b.md", ContentFormat::Djot, false, true).unwrap();
    kept(&w, &["index.md", "a.md", "b.md"]);
    assert_eq!(led(&w, "index.md", "contents"), ["a.md", "b.dj"]);
    assert_eq!(led(&w, "b.dj", "links"), ["a.md"]);
}

#[test]
fn a_label_follows_and_its_target_stays() {
    let mut w = tree();
    put(&mut w, "b.md", "---\ntitle: B\npart_of: index.md\nlinks:\n- '[A](/a.md)'\n- a.md\n---\n");
    assert_eq!(w.retitle("a.md", "Other").unwrap(), 1);
    assert!(read(&w, "b.md").contains("[Other](/a.md)"));
    assert_eq!(led(&w, "b.md", "links"), ["a.md", "a.md"]);
}

#[test]
fn numbers_keep_their_kind() {
    let mut w = tree();
    put(
        &mut w,
        "b.md",
        "---\ntitle: B\npart_of: index.md\nbig: 18446744073709551615\nwhole: 3.0\n---\nbody\n",
    );
    w.separate("b.md").unwrap();
    let meta = read(&w, "b.yaml");
    assert!(meta.contains("big: 18446744073709551615\n"), "{meta}");
    assert!(meta.contains("whole: 3.0\n"), "{meta}");
}

#[test]
fn a_created_document_and_its_parent_lead_to_each_other() {
    for addressing in [Addressing::Path, Addressing::Id] {
        let mut w = tree();
        w.settings.references.addressing = addressing;
        w.settings.registration = Registration::eager();
        w.create("sub/new.md", "a.md").unwrap();
        assert_eq!(led(&w, "sub/new.md", "part_of"), ["a.md"]);
        assert_eq!(led(&w, "a.md", "contents"), ["sub/new.md"]);
    }
}

#[test]
fn a_new_label_keeps_the_target() {
    for raw in ["[Old](/x/a.md)", "[Old](../a.md#top)", "[[a|Old]]"] {
        let link = Link::parse(raw);
        let again = Link::parse(&link.with_label("New").render());
        assert_eq!(again.target, link.target, "{raw}");
        assert_eq!(again.label.as_deref(), Some("New"), "{raw}");
    }
}

#[test]
fn an_identifier_and_its_path_agree() {
    let mut w = tree();
    w.settings.registration = Registration::eager();
    w.create("c.md", "index.md").unwrap();
    w.create("d.md", "index.md").unwrap();
    w.rename("c.md", "e.md").unwrap();
    w.delete_with("d.md", false, Diagnosis::Skip).unwrap();
    let mut live = 0;
    for (id, path) in &w.registry.entries {
        assert_eq!(w.registry.resolve(id), *path);
        if let Some(path) = path {
            assert_eq!(w.registry.id_for_path(path).as_ref(), Some(id));
            live += 1;
        }
    }
    assert!(live > 0);
}

#[test]
fn writing_links_in_a_style_twice_is_writing_them_once() {
    let mut w = tree();
    assert_eq!(w.convert_link_style("b.md", LinkStyle::PlainRoot, false).unwrap().len(), 1);
    let once = snapshot(&w);
    assert!(w.convert_link_style("b.md", LinkStyle::PlainRoot, false).unwrap().is_empty());
    assert_eq!(snapshot(&w), once);
}

#[test]
fn a_copy_of_a_copy_is_another_one() {
    let mut w = tree();
    assert_eq!(w.duplicate("b.md").unwrap(), "b-copy.md");
    assert_eq!(w.duplicate("b.md").unwrap(), "b-copy-2.md");
    assert_eq!(w.duplicate("b-copy.md").unwrap(), "b-copy-copy.md");
    assert_eq!(w.spanning_subtree("index.md").len(), 6);
}

#[test]
fn a_confirmation_is_measured_against_the_update() {
    let mut w = plain();
    w.updated_field = "updated".to_string();
    put(&mut w, "a.md", "---\nupdated: 2026-01-02\n---\nx\n");
    w.confirm("a.md", "agent:one", "2026-01-01").unwrap();
    assert_eq!(w.confirmations("a.md").unwrap().tier(), Tier::Unconfirmed);
    w.confirm("a.md", "agent:one", "2026-01-02").unwrap();
    assert_eq!(w.confirmations("a.md").unwrap().tier(), Tier::AgentConfirmed);
    w.confirm("a.md", "someone", "2026-01-03").unwrap();
    let all = w.confirmations("a.md").unwrap();
    assert_eq!(all.tier(), Tier::HumanConfirmed);
    assert_eq!((all.live.len(), all.stale.len()), (2, 1));
}

// Refusals, one input for each, and nothing changed by any.

fn refused<T: std::fmt::Debug>(
    w: &mut Workspace,
    what: impl FnOnce(&mut Workspace) -> Result<T, Error>,
) -> Error {
    let before = snapshot(w);
    let err = what(w).unwrap_err();
    assert_eq!(snapshot(w), before, "{err:?}");
    assert!(!err.message().is_empty());
    err
}

fn s(text: &str) -> String {
    text.to_string()
}

#[test]
fn refusals_to_read() {
    let mut w = tree();
    put(&mut w, "bad.md", "---\n[: :\n---\n");
    w.files.store("raw.md", FileData::Bytes(vec![0xff]));
    assert_eq!(refused(&mut w, |w| w.load("bad.md").map(|_| ())), Fault::Metadata(s("bad.md")));
    assert_eq!(refused(&mut w, |w| w.load("raw.md").map(|_| ())), Fault::NotText(s("raw.md")));
    assert_eq!(refused(&mut w, |w| w.load("../x").map(|_| ())), Fault::Escape(s("../x")));
    assert_eq!(refused(&mut w, |w| w.retitle("no.md", "x")), Fault::NotFound(s("no.md")));
}

#[test]
fn refusals_of_a_vocabulary() {
    let mut w = tree();
    w.relations.spanning = None;
    assert_eq!(refused(&mut w, |w| w.create("c.md", "index.md")), Fault::NoSpanning);
    w.relations.spanning = Some(s("about"));
    assert_eq!(refused(&mut w, |w| w.create("c.md", "index.md")), Fault::NoInverse(s("about")));
}

#[test]
fn refusals_of_a_parent() {
    let mut w = tree();
    assert_eq!(refused(&mut w, |w| w.adopt("a.md", "./a.md")), Fault::SelfContained(s("a.md")));
    assert_eq!(
        refused(&mut w, |w| w.adopt("a.md", "b.md")),
        Fault::ContestedParent(s("a.md"), s("part_of"))
    );
    assert_eq!(refused(&mut w, |w| w.adopt("a.md", "no.md")), Fault::NotFound(s("no.md")));
    assert_eq!(
        refused(&mut w, |w| w.reparent("index.md", "a.md")),
        Fault::WouldDetach(s("index.md"), s("a.md"))
    );
    assert_eq!(
        refused(&mut w, |w| w.reorder("index.md", &vec![s("c.md")])),
        Fault::NotAChild(s("c.md"), s("index.md"))
    );
    assert_eq!(
        refused(&mut w, |w| w.reorder("index.md", &vec![s("a.md"), s("a.md")])),
        Fault::NamedTwice(s("a.md"), s("index.md"))
    );
}

#[test]
fn refusals_of_a_title() {
    let mut w = tree();
    put(&mut w, "bare.md", "no metadata\n");
    assert_eq!(refused(&mut w, |w| w.retitle("bare.md", "T")), Fault::NoTitleBlock(s("bare.md")));
}

#[test]
fn refusals_of_a_removal() {
    let mut w = tree();
    assert_eq!(
        refused(&mut w, |w| w.delete("index.md", false)),
        Fault::HasChildren(s("index.md"), 2, s("a.md, b.md"))
    );
    put(&mut w, "n.yaml", "content: n.md\n");
    put(&mut w, "n.md", "prose\n");
    assert_eq!(
        refused(&mut w, |w| w.delete("n.md", false)),
        Fault::BodyOf(s("n.md"), s("n.yaml"))
    );
    assert_eq!(refused(&mut w, |w| w.restore("a.md", "index.md")), Fault::NoBin);
    assert_eq!(refused(&mut w, |w| w.empty_bin("index.md")), Fault::NoBin);
    put(&mut w, "recyclebin/index.yaml", "title: Bin\ndeleted:\n- from: x.md\n");
    assert_eq!(
        refused(&mut w, |w| w.restore("y.md", "index.md")),
        Fault::NotInBin(s("y.md"))
    );
    assert_eq!(
        refused(&mut w, |w| w.restore("x.md", "index.md")),
        Fault::NoBinPath(s("x.md"))
    );
    put(&mut w, "recyclebin/index.yaml", "deleted:\n- from: a.md\n  bin: q.md\n");
    assert_eq!(
        refused(&mut w, |w| w.restore("a.md", "index.md")),
        Fault::RestoreOver(s("a.md"))
    );
    let mut w = tree();
    w.relations.recycle = None;
    assert_eq!(refused(&mut w, |w| w.recycle("a.md", false, None)), Fault::NoRecycleRelation);
    let mut w = tree();
    put(&mut w, "index.md", "---\nrecycle_bin: bin.md\ncontents:\n- a.md\n---\n");
    put(&mut w, "bin.md", "---\ntitle: Bin\n---\n");
    assert_eq!(
        refused(&mut w, |w| w.recycle("a.md", false, None)),
        Fault::MarkdownStore(s("bin.md"))
    );
}

#[test]
fn refusals_say_what_was_to_be_done() {
    let mut w = plain();
    put(&mut w, "index.md", "---\ntitle: Root\ncontents:\n- n.yaml\n- o.md\n---\n");
    put(&mut w, "n.yaml", "title: N\npart_of: index.md\ncontent: n.md\n");
    put(&mut w, "n.md", "prose\n");
    put(&mut w, "o.md", "---\ntitle: O\npart_of: index.md\n---\n");
    assert_eq!(
        w.delete("n.md", false).unwrap_err().message(),
        "n.md is the body of n.yaml; delete that instead, or force to destroy the body and leave n.yaml pointing at nothing"
    );
    let err = refused(&mut w, |w| w.recycle("n.md", false, None));
    assert_eq!(err, Fault::BinnedBody(s("n.md"), s("n.yaml")));
    assert_eq!(
        err.message(),
        "n.md is the body of n.yaml; recycle that instead, or force to bin the body and leave n.yaml pointing at nothing"
    );
    w.recycle("o.md", false, None).unwrap();
    put(&mut w, "o.md", "another\n");
    let err = refused(&mut w, |w| w.restore("o.md", "index.md"));
    assert_eq!(err, Fault::RestoreOver(s("o.md")));
    assert_eq!(err.message(), "o.md already exists; cannot restore over it");
    assert_eq!(
        Fault::NoNameToCopy(s("..")).message(),
        ".. has no filename to copy"
    );
    assert_eq!(
        Fault::NoTitleBlock(s("x.md")).message(),
        "x.md has no metadata block to hold a title"
    );
    assert_eq!(
        Fault::NoBlock(s("x.md")).message(),
        "x.md has no metadata block to reorder"
    );
    assert_eq!(
        Fault::NothingToSeparate(s("x.md")).message(),
        "x.md has no metadata to separate"
    );
}

#[test]
fn refusals_of_a_move() {
    let mut w = tree();
    assert_eq!(refused(&mut w, |w| w.rename("no.md", "x.md")), Fault::NotFound(s("no.md")));
    assert_eq!(refused(&mut w, |w| w.rename("a.md", "b.md")), Fault::AlreadyExists(s("b.md")));
    w.registry.register("one", "a.md");
    w.registry.register("two", "free.md");
    assert_eq!(
        refused(&mut w, |w| w.rename("a.md", "free.md")),
        Fault::PathTaken(s("free.md"), s("two"))
    );
    put(&mut w, "n.yaml", "content: n.md\n");
    put(&mut w, "n.md", "prose\n");
    put(&mut w, "m.md", "other\n");
    assert_eq!(
        refused(&mut w, |w| w.rename("n.yaml", "m.yaml")),
        Fault::BodyTaken(s("m.yaml"), s("m.md"))
    );
    assert_eq!(refused(&mut w, |w| w.move_tree("", "x")), Fault::RootMove);
    assert_eq!(refused(&mut w, |w| w.move_tree("a.md", "x")), Fault::NotADirectory(s("a.md")));
    put(&mut w, "d/e.md", "x\n");
    assert_eq!(
        refused(&mut w, |w| w.move_tree("d", "d/f")),
        Fault::IntoItself(s("d"), s("d/f"))
    );
}

#[test]
fn refusals_of_a_shape() {
    let mut w = tree();
    put(&mut w, "bare.md", "no metadata\n");
    put(&mut w, "list.md", "---\n- a\n---\n");
    put(&mut w, "c.md", "---\ncontent: d.md\n---\n");
    put(&mut w, "n.yaml", "content: gone.md\n");
    put(&mut w, "m.yaml", "manifest: m.manifest.yaml\n");
    assert_eq!(refused(&mut w, |w| w.separate("bare.md")), Fault::NotCombined(s("bare.md")));
    assert_eq!(refused(&mut w, |w| w.separate("list.md")), Fault::NothingToSeparate(s("list.md")));
    assert_eq!(refused(&mut w, |w| w.separate("c.md")), Fault::AlreadySeparated(s("c.md")));
    put(&mut w, "a.yaml", "x: 1\n");
    assert_eq!(refused(&mut w, |w| w.separate("a.md")), Fault::AlreadyExists(s("a.yaml")));
    assert_eq!(refused(&mut w, |w| w.combine("a.md")), Fault::NotSeparated(s("a.md")));
    put(&mut w, "d.md", "x\n");
    assert_eq!(refused(&mut w, |w| w.combine("c.md")), Fault::NotWholeFile(s("c.md")));
    assert_eq!(
        refused(&mut w, |w| w.combine("n.yaml")),
        Fault::ContentMissing(s("n.yaml"), s("gone.md"))
    );
    assert_eq!(refused(&mut w, |w| w.duplicate("m.yaml")), Fault::ManifestCopy(s("m.yaml")));
}

#[test]
fn refusals_of_a_conversion() {
    let mut w = tree();
    put(&mut w, "n.yaml", "title: N\n");
    put(&mut w, "p.jpg.yaml", "content: p.jpg\n");
    assert_eq!(
        refused(&mut w, |w| w.convert_meta_format("n.yaml", MetaFormat::Json, false)),
        Fault::WholeFileConvert(s("n.yaml"))
    );
    assert_eq!(
        refused(&mut w, |w| w.convert_meta_embed("a.md", EmbedStyle::Separate, false)),
        Fault::SeparateConvert(s("a.md"))
    );
    assert_eq!(
        refused(&mut w, |w| w.convert_meta_format("a.md", MetaFormat::Fig, false)),
        Fault::NoArchetype(s("a.md"), EmbedStyle::Delimited, MetaFormat::Fig)
    );
    assert_eq!(
        refused(&mut w, |w| w.convert_content_format("p.jpg.yaml", ContentFormat::Djot, false, false)),
        Fault::OpaqueContent(s("p.jpg.yaml"))
    );
    assert_eq!(
        refused(&mut w, |w| w.convert_content_format("n.yaml", ContentFormat::Djot, false, false)),
        Fault::NoProse(s("n.yaml"))
    );
    assert_eq!(
        refused(&mut w, |w| w.convert_content_format("a.md", ContentFormat::Html, false, false)),
        Fault::Lossy(s("a.md"), ContentFormat::Markdown, ContentFormat::Html)
    );
    put(&mut w, "index.md", "---\ncontents:\n- a.md\n- a.markdown\n---\n");
    put(&mut w, "a.markdown", "---\npart_of: index.md\n---\nx\n");
    let err = refused(&mut w, |w| {
        w.convert_content_format("index.md", ContentFormat::Djot, true, false)
    });
    assert!(matches!(err, Fault::SameDestination(_, to) if to == "a.dj"));
}

#[test]
fn refusals_of_a_confirmation() {
    let mut w = tree();
    assert_eq!(refused(&mut w, |w| w.confirm("a.md", "  ", "now")), Fault::EmptyActor);
    put(&mut w, "m.yaml", "manifest: m.manifest.yaml\ncontent_hash: sha256:00\n");
    assert_eq!(refused(&mut w, |w| w.content_state("m.yaml")), Fault::ManifestStamp(s("m.yaml")));
    put(&mut w, "n.yaml", "content: n.md\ncontent_hash: sha256:00\n");
    put(&mut w, "n.md", "prose\n");
    assert_eq!(
        refused(&mut w, |w| w.confirm("n.yaml", "me", "now")),
        Fault::ContentDrifted(s("n.yaml"))
    );
    put(&mut w, "a.md", "---\nconfirmed: yes\n---\n");
    assert_eq!(refused(&mut w, |w| w.confirm("a.md", "me", "now")), Fault::NotAList(s("a.md")));
}

#[test]
fn refusals_of_an_identifier() {
    let mut w = tree();
    w.settings.registration = Registration::eager();
    w.issued = u64::MAX;
    assert_eq!(refused(&mut w, |w| w.create("c.md", "index.md")), Fault::IdsExhausted);
    assert_eq!(
        refused(&mut w, |w| w.register("a.md", Trigger::Publish)),
        Fault::IdsExhausted
    );
    w.settings.registration = Registration::off();
    assert_eq!(
        refused(&mut w, |w| w.register("a.md", Trigger::Publish)),
        Fault::DoesNotRegister(s("a.md"))
    );
}

#[test]
fn a_copy_stands_beside_what_it_copies() {
    let mut w = plain();
    put(&mut w, "index.md", "---\ntitle: Root\ncontents:\n- d/n.md.yaml\n---\n");
    put(&mut w, "d/n.md.yaml", "title: N\npart_of: /index.md\nlinks:\n- o.md\ncontent: n.md\n");
    put(&mut w, "d/n.md", "words\n");
    put(&mut w, "d/o.md", "---\ntitle: O\n---\n");
    let to = w.duplicate("d/n.md.yaml").unwrap();
    assert!(to.starts_with("d/"), "{to}");
    assert_eq!(led(&w, &to, "links"), ["d/o.md"]);
    assert_eq!(led(&w, &to, "part_of"), ["index.md"]);
    assert_eq!(led(&w, "index.md", "contents"), ["d/n.md.yaml".to_string(), to.clone()]);
    let content = led(&w, &to, "content");
    assert_ne!(content, ["d/n.md"]);
    assert_eq!(read(&w, &content[0]), "words\n");
}

#[test]
fn a_new_document_and_its_parent_lead_to_each_other() {
    let mut w = tree();
    let made = w.create_with_title("x/new.md", "a.md", "New one").unwrap();
    assert_eq!(made.node, "x/new.md");
    assert_eq!(led(&w, "x/new.md", "part_of"), ["a.md"]);
    assert_eq!(led(&w, "a.md", "contents"), ["x/new.md"]);
}

#[test]
fn what_a_move_does_not_read_moves_as_it_is() {
    let mut w = tree();
    w.files.store("x/raw.bin", FileData::Bytes(vec![0xff, 0, 1]));
    put(&mut w, "x/.hidden/n.md", "---\nlinks:\n- ../../a.md\n---\n");
    put(&mut w, "x/broken.md", "---\nlinks: [../a.md\n---\n");
    put(&mut w, "x/n.md", "---\nlinks:\n- ../a.md\n---\n");
    let outside = read(&w, "b.md");
    w.move_tree("x", "y/z").unwrap();
    assert_eq!(w.files.get("y/z/raw.bin"), Some(&FileData::Bytes(vec![0xff, 0, 1])));
    assert_eq!(read(&w, "y/z/.hidden/n.md"), "---\nlinks:\n- ../../a.md\n---\n");
    assert_eq!(read(&w, "y/z/broken.md"), "---\nlinks: [../a.md\n---\n");
    assert_eq!(led(&w, "y/z/n.md", "links"), ["a.md"]);
    assert_eq!(read(&w, "b.md"), outside);
}

#[test]
fn the_root_goes_where_its_document_goes() {
    let mut w = tree();
    w.parked = vec!["x/kept".to_string(), "far".to_string()];
    w.rename("index.md", "home.md").unwrap();
    assert_eq!(w.root.as_deref(), Some("home.md"));
    let meta = w.separate("home.md").unwrap();
    assert_eq!(w.root.as_deref(), Some(meta.as_str()));
    w.combine(&meta).unwrap();
    assert_eq!(w.root.as_deref(), Some("home.md"));
    w.convert_content_format("home.md", ContentFormat::Djot, false, true).unwrap();
    assert_eq!(w.root.as_deref(), Some("home.dj"));
    assert_eq!(led(&w, "a.md", "part_of"), ["home.dj"]);
    w.rename("home.dj", "x/home.dj").unwrap();
    w.move_tree("x", "y/z").unwrap();
    assert_eq!(w.root.as_deref(), Some("y/z/home.dj"));
    assert_eq!(w.parked, ["y/z/kept", "far"]);
    assert_eq!(led(&w, "a.md", "part_of"), ["y/z/home.dj"]);
    assert_eq!(led(&w, "b.md", "links"), ["a.md"]);
    w.rename("a.md", "c.md").unwrap();
    assert_eq!(w.root.as_deref(), Some("y/z/home.dj"));
}

#[test]
fn a_directory_moves_after_the_root_was_renamed() {
    let mut w = tree();
    put(&mut w, "x/n.md", "---\ntitle: N\n---\n");
    put(&mut w, "b.md", "---\ntitle: B\npart_of: index.md\nlinks:\n- x/n.md\n---\nbody\n");
    w.rename("index.md", "home.md").unwrap();
    w.move_tree("x", "y").unwrap();
    assert_eq!(led(&w, "b.md", "links"), ["y/n.md"]);
    assert_eq!(led(&w, "b.md", "part_of"), ["home.md"]);
}

#[test]
fn a_root_that_is_split_and_folded_is_led_to_again() {
    let mut w = tree();
    let meta = w.separate("index.md").unwrap();
    assert_eq!(meta, "index.yaml");
    assert_eq!(led(&w, "a.md", "part_of"), ["index.yaml"]);
    assert_eq!(led(&w, "b.md", "part_of"), ["index.yaml"]);
    assert_eq!(w.combine(&meta).unwrap(), "index.md");
    assert_eq!(led(&w, "a.md", "part_of"), ["index.md"]);
    assert_eq!(led(&w, "b.md", "part_of"), ["index.md"]);
    assert!(!w.is_taken("index.yaml"));
    assert_eq!(led(&w, "index.md", "contents"), ["a.md", "b.md"]);
}

#[test]
fn what_names_no_parent_is_followed_after_the_root_has_moved() {
    let mut w = plain();
    put(&mut w, "index.md", "---\ntitle: Root\nlinks:\n- about.md\n---\n");
    put(&mut w, "about.md", "---\ntitle: About\n---\nprose\n");
    w.rename("index.md", "home.md").unwrap();
    assert_eq!(w.separate("about.md").unwrap(), "about.yaml");
    assert_eq!(led(&w, "home.md", "links"), ["about.yaml"]);
    w.combine("about.yaml").unwrap();
    w.recycle("about.md", false, None).unwrap();
    assert!(!w.is_taken("about.md"));
}

#[test]
fn a_pair_that_is_recycled_twice_loses_nothing() {
    let mut w = plain();
    put(&mut w, "index.md", "---\ntitle: Root\n---\n");
    for words in ["first\n", "second\n"] {
        put(&mut w, "n.yaml", "title: N\npart_of: index.md\ncontent: n.md\n");
        put(&mut w, "n.md", words);
        w.recycle("n.yaml", false, None).unwrap();
    }
    assert_eq!(read(&w, "recyclebin/items/n.md"), "first\n");
    assert_eq!(read(&w, "recyclebin/items/n.md.1"), "second\n");
    w.restore("n.yaml", "index.md").unwrap();
    assert_eq!(read(&w, "n.md"), "first\n");
}

#[test]
fn a_bare_name_still_leads_when_another_file_is_gone() {
    let mut w = tree();
    put(&mut w, "c.md", "---\ntitle: C\npart_of: index.md\n---\n[[b]] and [[a]]\n");
    put(&mut w, "index.md", "---\ntitle: Root\ncontents:\n- a.md\n- b.md\n- c.md\n---\n[[a]]\n");
    let found = w.delete("a.md", false).unwrap();
    let broken: Vec<&str> = found
        .iter()
        .map(|f| match f {
            Finding::BrokenLink(doc, _, _) => doc.as_str(),
            Finding::DanglingId(doc, _, _) => doc.as_str(),
        })
        .collect();
    assert_eq!(broken.iter().filter(|d| **d == "c.md").count(), 1);
    assert_eq!(broken.iter().filter(|d| **d == "index.md").count(), 1);
    assert_eq!(broken.iter().filter(|d| **d == "b.md").count(), 1);
    assert_eq!(broken.len(), 3);
    let named = w.name_files();
    let reach = w.reach(Some(&named), "c.md", &Link::parse("[[b]]")).map(|r| r.path);
    assert_eq!(reach.as_deref(), Some("b.md"));
}

#[test]
fn a_quiet_delete_looks_near() {
    let mut far = tree();
    put(&mut far, "deep/other.md", "---\ntitle: Other\nlinks:\n- ../a.md\n---\n");
    let mut near = tree();
    let plan = near.plan_delete("a.md", false, Diagnosis::Skip).unwrap();
    assert_eq!(far.plan_delete("a.md", false, Diagnosis::Skip).unwrap(), plan);
    far.commit(plan.0).unwrap();
    near.delete_with("a.md", false, Diagnosis::Skip).unwrap();
    assert_eq!(read(&far, "index.md"), read(&near, "index.md"));
}

#[test]
fn a_content_file_sits_beside_its_node() {
    let beside = |node: &str, body: &str| body_sibling(node, body);
    assert_eq!(beside("x/n.yaml", "n.md"), (s("x/n.md"), s("n.md")));
    assert_eq!(beside("x/n.yaml", "prose"), (s("x/n"), s("n")));
    assert_eq!(beside("x/hero.jpg.yaml", "old.jpg"), (s("x/hero.jpg"), s("hero.jpg")));
    assert_eq!(read_in("x", "hero.jpg"), "x/hero.jpg");
}

#[test]
fn a_body_in_a_style_stays_in_it() {
    let mut w = tree();
    put(&mut w, "x/n.md", "---\ntitle: N\n---\n[A](../a.md#top) and [site](https://e.org) and [[b]]\n");
    w.convert_link_style("x/n.md", LinkStyle::MarkdownRoot, false).unwrap();
    let once = read(&w, "x/n.md");
    assert!(once.contains("[A](/a.md#top) and [site](https://e.org) and [[b]]"), "{once}");
    assert!(w.convert_link_style("x/n.md", LinkStyle::MarkdownRoot, false).unwrap().is_empty());
    assert_eq!(read(&w, "x/n.md"), once);
}

#[test]
fn a_survey_goes_along_with_a_move() {
    let mut w = tree();
    let named = w.name_files();
    assert_eq!(w.survey(&named, "index.md"), ["index.md", "b.md", "a.md"]);
    w.separate("index.md").unwrap();
    let named = w.name_files();
    assert_eq!(w.survey(&named, "index.yaml"), ["index.yaml", "b.md", "a.md"]);
}

#[test]
fn a_parent_that_cannot_be_read_is_not_climbed_to() {
    let mut w = plain();
    put(&mut w, "index.md", "---\ntitle: Root\nlinks:\n- b.md\n---\n");
    put(&mut w, "a.md", "---\ntitle: A\npart_of: gone.md\ncontents:\n- b.md\n---\n");
    put(&mut w, "b.md", "---\ntitle: B\npart_of: a.md\n---\n");
    assert_eq!(w.spanning_root("b.md", "part_of"), "a.md");
    assert_eq!(w.spanning_root("a.md", "part_of"), "index.md");
    w.rename("b.md", "x/b.md").unwrap();
    assert_eq!(led(&w, "a.md", "contents"), ["x/b.md"]);
}

#[test]
fn what_is_in_the_bin_moves_as_it_is() {
    let mut w = tree();
    let held = read(&w, "a.md");
    w.recycle("a.md", false, None).unwrap();
    assert_eq!(w.parked, ["recyclebin/items"]);
    w.move_tree("recyclebin", "old/bin").unwrap();
    assert_eq!(read(&w, "old/bin/items/a.md"), held);
    assert_eq!(w.parked, ["old/bin/items"]);
}
