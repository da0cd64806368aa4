use prov_mutate::codec::MetaFormat;
use prov_mutate::confirm::Tier;
use prov_mutate::document::{ContentFormat, EmbedStyle};
use prov_mutate::error::Fault;
use prov_mutate::files::{FileData, Files};
use prov_mutate::fixity::digest;
use prov_mutate::link::{Addressing, Link, LinkStyle, ReferenceStyle, Wrapper};
use prov_mutate::meta::Meta;
use prov_mutate::registry::{verify, IdStorage, Registration, Registry, Trigger};
use prov_mutate::relation::{Relation, RelationSet};
use prov_mutate::removal::Finding;
use prov_mutate::reorder::Reordered;
use prov_mutate::reparent::Reparented;
use prov_mutate::save::ContentState;
use prov_mutate::walk::LinkSite;
use prov_mutate::workspace::{Settings, Workspace};

/// An empty workspace in the usual vocabulary, without identifiers.
fn plain() -> Workspace {
    Workspace {
        relations: RelationSet::diaryx(),
        settings: Settings {
            references: ReferenceStyle {
                wrapper: Wrapper::Markdown,
                addressing: Addressing::Path,
                label: false,
                path_style: LinkStyle::MarkdownRoot,
            },
            metadata: MetaFormat::Yaml,
            id_storage: IdStorage::Registry,
            fixity: true,
            registration: Registration::off(),
            seed: 0,
        },
        name: String::new(),
        updated_field: String::new(),
        root: Some("index.md".to_string()),
        parked: Vec::new(),
        registry: Registry::new(),
        issued: 0,
        files: Files::new(),
    }
}

fn put(w: &mut Workspace, path: &str, text: impl Into<String>) {
    w.files.store(path, FileData::Text(text.into()));
}

fn put_bytes(w: &mut Workspace, path: &str, bytes: &[u8]) {
    w.files.store(path, FileData::Bytes(bytes.to_vec()));
}

fn read(w: &Workspace, path: &str) -> String {
    match w.files.get(path) {
        Some(FileData::Text(text)) => text.clone(),
        other => panic!("{path}: {other:?}"),
    }
}

fn bytes(w: &Workspace, path: &str) -> Vec<u8> {
    match w.files.get(path) {
        Some(FileData::Bytes(bytes)) => bytes.clone(),
        other => panic!("{path}: {other:?}"),
    }
}

/// Every file, sorted by path.
fn snapshot(w: &Workspace) -> Vec<(String, String)> {
    let mut all: Vec<(String, String)> = w
        .files
        .entries
        .iter()
        .map(|(path, data)| (path.clone(), format!("{data:?}")))
        .collect();
    all.sort();
    all
}

/// The links under `start` that lead nowhere, the children that do not name
/// their parent, and the content files that are missing.
fn check(w: &Workspace, start: &str) -> Vec<Finding> {
    let named = w.name_files();
    let mut found = Vec::new();
    let inverse = w.spanning_pair().unwrap().1;
    for path in w.survey(&named, start) {
        let (_, doc) = w.load(&path).unwrap();
        for entry in w.entries(&named, &path, &doc) {
            let link = Link::parse(&entry.target);
            match &entry.reach {
                Some(reach) => {
                    let spans = matches!(&entry.site,
                        LinkSite::Relation(field, _) if Some(field) == w.relations.spanning.as_ref());
                    if !spans {
                        continue;
                    }
                    let (_, child) = w.load(&reach.path).unwrap();
                    let up: Vec<String> = child
                        .meta
                        .links_at(&inverse)
                        .iter()
                        .filter_map(|raw| w.reach(Some(&named), &reach.path, &Link::parse(raw)))
                        .map(|r| r.path)
                        .collect();
                    if !up.contains(&path) {
                        found.push(Finding::BrokenLink(
                            reach.path.clone(),
                            LinkSite::Relation(inverse.clone(), None),
                            path.clone(),
                        ));
                    }
                }
                None => {
                    if link.is_path_target() {
                        found.push(Finding::BrokenLink(path.clone(), entry.site, entry.target));
                    }
                }
            }
        }
        if let Some(raw) = doc.content_attr() {
            let file = prov_mutate::maintain::content_target(&doc, &path).unwrap();
            if !w.is_taken(&file) {
                found.push(Finding::BrokenLink(
                    path.clone(),
                    LinkSite::Relation("content".to_string(), None),
                    raw,
                ));
            }
        }
    }
    found
}

/// A vocabulary of a tree alone, with a style for each direction.
fn up_and_down(down: Option<ReferenceStyle>, up: Option<ReferenceStyle>) -> RelationSet {
    let mut relations = RelationSet::new();
    let mut contents = Relation::paired("contents", "part_of");
    contents.style = down;
    let mut part_of = Relation::paired("part_of", "contents");
    part_of.style = up;
    relations.relations.push(contents);
    relations.relations.push(part_of);
    relations.spanning = Some("contents".to_string());
    relations
}

#[test]
fn adopt_links_an_existing_document_both_ways_preserving_its_body() {
    let mut w = plain();
    put(&mut w, "index.md", "---\ntitle: Home\n---\n");
    put(
        &mut w,
        "notes/loose.md",
        "---\ntitle: Loose\n---\nOriginal body, kept.\n",
    );
    

    w.adopt("notes/loose.md", "index.md").unwrap();

    assert!(
        read(&w, "index.md").contains("notes/loose.md"),
        "{}",
        read(&w, "index.md")
    );
    let child = read(&w, "notes/loose.md");
    assert!(child.contains("/index.md"), "{child:?}");
    assert!(
        child.contains("Original body, kept."),
        "body must be preserved: {child}"
    );
    assert_eq!(check(&w, "index.md"), vec![]);
}

#[test]
fn adopt_is_idempotent_and_refuses_a_contested_parent() {
    let mut w = plain();
    put(&mut w, "index.md", "---\ntitle: Home\n---\n");
    put(&mut w, "other.md", "---\ntitle: Other\n---\n");
    put(&mut w, "a.md", "---\ntitle: A\n---\n");
    w.settings.references.path_style = LinkStyle::PlainRelative;

    w.adopt("a.md", "index.md").unwrap();
    w.adopt("a.md", "index.md").unwrap();
    assert_eq!(
        read(&w, "index.md").matches("a.md").count(),
        1,
        "no duplicate spanning entry"
    );

    let contested = w.adopt("a.md", "other.md");
    assert!(contested.is_err(), "a contested parent must be refused");
}

#[test]
fn confirm_appends_and_check_reports_the_entry_an_edit_outlives() {
    let mut w = plain();
    put(&mut w, "index.md", "---\ncontents:\n- a.md\n---\n");
    put(
        &mut w,
        "a.md",
        "---\npart_of: index.md\nupdated: 2026-09-11T09:00:00.000000Z\n---\nalpha\n",
    );
    w.updated_field = "updated".to_string();

    let entry = w.confirm("a.md", "amh", "2026-09-11T09:20:00.000000Z").unwrap();
    assert_eq!(entry.of, None, "a combined document has no digest to name");
    let text = read(&w, "a.md");
    assert!(
        text.contains("confirmed:\n- by: amh\n  at: 2026-09-11T09:20:00.000000Z\n"),
        "{text}"
    );
    assert!(
        text.ends_with("---\nalpha\n"),
        "the body is untouched: {text}"
    );
    assert!(
        text.contains("updated: 2026-09-11T09:00:00.000000Z"),
        "confirming never stamps `updated`: {text}"
    );
    assert_eq!(check(&w, "index.md"), vec![]);
    assert_eq!(
        w.confirmations("a.md").unwrap().tier(),
        Tier::HumanConfirmed
    );

    w.confirm("a.md", "agent:scribe-5", "2026-09-11T09:30:00.000000Z").unwrap();
    assert_eq!(w.confirmations("a.md").unwrap().live.len(), 2);

    w.record_content_update("a.md", Some(("updated", "2026-09-11T10:00:00.000000Z")))
        .unwrap();
    let standing = w.confirmations("a.md").unwrap();
    assert_eq!(standing.stale.last().unwrap().by, "agent:scribe-5");
    assert_eq!(
        w.confirmations("a.md").unwrap().tier(),
        Tier::Unconfirmed
    );

    w.confirm("a.md", "amh", "2026-09-11T10:05:00.000000Z").unwrap();
    assert_eq!(check(&w, "index.md"), vec![]);
    let standing = w.confirmations("a.md").unwrap();
    assert_eq!((standing.live.len(), standing.stale.len()), (1, 2));
    assert_eq!(standing.tier(), Tier::HumanConfirmed);
}

#[test]
fn a_covered_document_binds_to_its_digest_and_a_drifted_one_is_refused() {
    let mut w = plain();
    put(&mut w, "index.md", "---\ncontents:\n- a.yaml\n---\n");
    let hash = digest(b"alpha\n");
    put(
        &mut w,
        "a.yaml",
        format!("part_of: index.md\ncontent: a.md\ncontent_hash: {hash}\n"),
    );
    put(&mut w, "a.md", "alpha\n");
    w.updated_field = "updated".to_string();

    let entry = w.confirm("a.yaml", "amh", "2026-09-11T09:20:00.000000Z").unwrap();
    assert_eq!(entry.of.as_deref(), Some(hash.as_str()));
    assert_eq!(check(&w, "index.md"), vec![]);

    put(&mut w, "a.md", "beta\n");
    let err = w.confirm("a.yaml", "amh", "2026-09-11T09:30:00.000000Z").unwrap_err();
    assert!(err.message().contains("prov stamp"), "{err:?}");

    w.record_content_update("a.yaml", None).unwrap();
    let standing = w.confirmations("a.yaml").unwrap();
    assert_eq!((standing.live.len(), standing.stale.len()), (0, 1));
    assert_eq!(w.content_state("a.yaml").unwrap(), ContentState::Intact);
}

#[test]
fn a_confirmed_key_that_is_not_a_list_is_refused() {
    let mut w = plain();
    put(&mut w, "index.md", "---\ncontents:\n- a.md\n---\n");
    put(
        &mut w,
        "a.md",
        "---\npart_of: index.md\nconfirmed: yes\n---\n",
    );
    w.updated_field = "updated".to_string();
    let err = w.confirm("a.md", "amh", "2026-09-11T09:20:00.000000Z").unwrap_err();
    assert!(err.message().contains("not a list"), "{err:?}");
    assert_eq!(
        read(&w, "a.md"),
        "---\npart_of: index.md\nconfirmed: yes\n---\n"
    );
    assert_eq!(check(&w, "index.md"), vec![]);
}

#[test]
fn convert_restyles_one_files_links_leaving_the_rest_alone() {
    let mut w = plain();
    put(
        &mut w,
        "index.md",
        "---\ntitle: Root\ncontents:\n- '[Mid](/sub/mid.md)'\n---\n",
    );
    put(
        &mut w,
        "sub/mid.md",
        "---\ntitle: Mid\npart_of: /index.md\n---\nSee [the leaf](/sub/leaf.md).\n",
    );
    put(
        &mut w,
        "sub/leaf.md",
        "---\ntitle: Leaf\npart_of: /sub/mid.md\n---\n",
    );

    let n = w.convert_link_style(
        "sub/mid.md",
        LinkStyle::PlainRelative,
        false,
    )
    .unwrap();
    assert_eq!(n.len(), 1, "only the one file converted");

    let mid = read(&w, "sub/mid.md");
    assert!(mid.contains("part_of: ../index.md"), "{mid:?}");
    assert!(mid.contains("[the leaf](leaf.md)"), "{mid:?}");
    assert!(
        read(&w, "index.md").contains("[Mid](/sub/mid.md)"),
        "inbound untouched"
    );
    assert_eq!(check(&w, "index.md"), vec![]);
}

#[test]
fn convert_recursive_covers_the_spanning_subtree_and_spares_id_and_external() {
    let mut w = plain();
    put(
        &mut w,
        "index.md",
        "---\ntitle: Root\ncontents:\n- a.md\n---\n",
    );
    put(
        &mut w,
        "a.md",
        "---\ntitle: A\npart_of: index.md\ncontents:\n- sub/b.md\n---\n\
         See [ext](https://example.com) and [[id:ajp7eqb|pinned]].\n",
    );
    put(&mut w, "sub/b.md", "---\ntitle: B\npart_of: ../a.md\n---\n");

    let n = w.convert_link_style(
        "index.md",
        LinkStyle::MarkdownRoot,
        true,
    )
    .unwrap();
    assert_eq!(n.len(), 3, "root + a + b all converted");

    let a = read(&w, "a.md");
    assert!(a.contains("part_of: /index.md"), "{a:?}");
    assert!(a.contains("- /sub/b.md"), "{a:?}");
    assert!(a.contains("[ext](https://example.com)"), "{a:?}");
    assert!(a.contains("[[id:ajp7eqb|pinned]]"), "{a:?}");
    assert!(
        read(&w, "sub/b.md").contains("part_of: /a.md"),
        "descendant converted"
    );
}

#[test]
fn convert_meta_format_reserializes_the_block_keeping_values_and_body() {
    let mut w = plain();
    put(
        &mut w,
        "index.md",
        "---\ntitle: Root\ncontents:\n- '[Leaf](/leaf.md)'\n---\n# Root\n\nprose\n",
    );
    put(
        &mut w,
        "leaf.md",
        "---\ntitle: Leaf\npart_of: /index.md\n---\n",
    );

    let n =
        w.convert_meta_format("index.md", MetaFormat::Json, false)
            .unwrap();
    assert_eq!(n.len(), 1, "only the named file converted");

    let out = read(&w, "index.md");
    assert!(out.starts_with(";;;\n"), "delimited JSON now: {out:?}");
    assert!(out.contains("\"title\": \"Root\""), "{out:?}");
    assert!(
        out.contains("[Leaf](/leaf.md)"),
        "link value preserved: {out}"
    );
    assert!(out.ends_with("# Root\n\nprose\n"), "body untouched: {out:?}");
    assert!(read(&w, "leaf.md").starts_with("---\n"), "leaf untouched");
    assert_eq!(check(&w, "index.md"), vec![]);
}

#[test]
fn convert_meta_format_keeps_the_embedding_shape_and_rejects_impossible_pairs() {
    let mut w = plain();
    put(&mut w, "code.md", "```yaml\ntitle: Root\n```\nbody\n");
    let n =
        w.convert_meta_format("code.md", MetaFormat::Fig, false)
            .unwrap();
    assert_eq!(n.len(), 1);
    let code = read(&w, "code.md");
    assert!(code.starts_with("```fig\n"), "code block kept: {code:?}");
    assert!(code.contains("title = Root"), "fig dialect: {code:?}");
    assert!(code.ends_with("body\n"), "body untouched: {code:?}");

    put(&mut w, "delim.md", "---\ntitle: Root\n---\nbody\n");
    let err =
        w.convert_meta_format("delim.md", MetaFormat::Fig, false)
            .unwrap_err();
    assert!(
        err.message().contains("cannot carry fig"),
        "clear diagnostic: {err:?}"
    );
}

#[test]
fn convert_meta_format_renders_sequences_the_canonical_way() {
    let mut w = plain();
    put(
        &mut w,
        "index.md",
        "```yaml\ntitle: Root\ncontents:\n- '[Leaf](/leaf.md)'\n```\n# Root\n",
    );
    put(
        &mut w,
        "leaf.md",
        "```yaml\ntitle: Leaf\npart_of: /index.md\n```\n",
    );

    w.convert_meta_format("index.md", MetaFormat::Fig, false)
        .unwrap();
    let out = read(&w, "index.md");
    assert!(
        out.contains("[Leaf](/leaf.md)") && !out.contains("= * ["),
        "sequence stays well-formed: {out}"
    );
    assert_eq!(check(&w, "index.md"), vec![]);
}

#[test]
fn convert_meta_embed_reshapes_the_block_and_unblocks_fig() {
    let mut w = plain();
    put(
        &mut w,
        "index.md",
        "---\ntitle: Root\ncontents:\n- '[Leaf](/leaf.md)'\n---\n# Root\n",
    );
    put(
        &mut w,
        "leaf.md",
        "---\ntitle: Leaf\npart_of: /index.md\n---\n",
    );

    let n = w.convert_meta_embed(
        "index.md",
        EmbedStyle::CodeBlock,
        false,
    )
    .unwrap();
    assert_eq!(n.len(), 1);
    let code = read(&w, "index.md");
    assert!(code.starts_with("```yaml\n"), "now a code block: {code:?}");
    assert!(code.ends_with("# Root\n"), "body untouched: {code:?}");
    w.convert_meta_format("index.md", MetaFormat::Fig, false)
        .unwrap();
    assert!(read(&w, "index.md").starts_with("```fig\n"));
    assert_eq!(check(&w, "index.md"), vec![]);

    let err = w.convert_meta_embed(
        "leaf.md",
        EmbedStyle::Separate,
        false,
    )
    .unwrap_err();
    assert!(err.message().contains("separate"), "{err:?}");
}

#[test]
fn convert_meta_format_recursive_skips_no_ops_and_out_of_scope_documents() {
    let mut w = plain();
    put(
        &mut w,
        "index.md",
        "---\ntitle: Root\ncontents:\n- a.md\n---\n",
    );
    put(
        &mut w,
        "a.md",
        ";;;\n{\"title\": \"A\", \"part_of\": \"index.md\"}\n;;;\n",
    );

    let n =
        w.convert_meta_format("index.md", MetaFormat::Json, true)
            .unwrap();
    assert_eq!(
        n.len(),
        1,
        "only the root actually changed (a.md was already JSON)"
    );
    assert!(read(&w, "index.md").starts_with(";;;\n"));

    put(&mut w, "conf.yaml", "title: Config\n");
    let err = w.convert_meta_format(
        "conf.yaml",
        MetaFormat::Json,
        false,
    )
    .unwrap_err();
    assert!(err.message().contains("whole-file"), "{err:?}");
}


#[test]
fn convert_content_format_transcodes_the_body_and_moves_the_file() {
    let mut w = plain();
    put(
        &mut w,
        "index.md",
        "---\ntitle: Root\ncontents:\n- '[A](a.md)'\n- b.md\n---\n",
    );
    put(
        &mut w,
        "a.md",
        "---\ntitle: A\npart_of: index.md\n---\n\
         Setext\n======\n\n*emph* and [[b]] and `code`.\n",
    );
    put(&mut w, "b.md", "---\ntitle: B\npart_of: index.md\n---\n");

    let n = w.convert_content_format(
        "a.md",
        ContentFormat::Djot,
        false,
        false,
    )
    .unwrap();
    assert_eq!(n, vec!["a.dj".to_string()], "reports the *new* path");
    assert!(!w.is_taken("a.md"), "the old file is gone");

    let a = read(&w, "a.dj");
    assert!(
        a.starts_with("---\ntitle: A\npart_of: index.md\n---\n"),
        "{a}"
    );
    assert!(a.contains("# Setext"), "setext heading became ATX: {a:?}");
    assert!(a.contains("_emph_"), "emphasis re-spelled for djot: {a:?}");
    assert!(a.contains("[[b]]"), "wikilink survived: {a:?}");
    assert!(a.contains("`code`"), "code span survived: {a:?}");

    assert!(
        read(&w, "index.md").contains("[A](/a.dj)"),
        "inbound retargeted"
    );
    assert_eq!(check(&w, "index.md"), vec![]);
}

#[test]
fn convert_content_format_recursive_keeps_links_between_two_movers() {
    let mut w = plain();
    put(
        &mut w,
        "index.md",
        "---\ntitle: Root\ncontents:\n- a.md\n- b.md\n---\n",
    );
    put(
        &mut w,
        "a.md",
        "---\ntitle: A\npart_of: index.md\nlinks:\n- b.md\n---\nSee [B](b.md).\n",
    );
    put(
        &mut w,
        "b.md",
        "---\ntitle: B\npart_of: index.md\n---\nBack to [A](a.md).\n",
    );

    let n = w.convert_content_format(
        "index.md",
        ContentFormat::Djot,
        true,
        false,
    )
    .unwrap();
    assert_eq!(n.len(), 3, "root and both children moved");

    let a = read(&w, "a.dj");
    assert!(
        a.contains("- /b.dj"),
        "frontmatter link to a fellow mover: {a}"
    );
    assert!(a.contains("[B](/b.dj)"), "body link to a fellow mover: {a:?}");
    assert!(read(&w, "b.dj").contains("[A](/a.dj)"), "and back again");
    let root = read(&w, "index.dj");
    assert!(
        root.contains("- /a.dj") && root.contains("- /b.dj"),
        "{root}"
    );
    assert_eq!(check(&w, "index.dj"), vec![]);
}

#[test]
fn convert_content_format_gates_html_and_no_ops_on_the_current_grammar() {
    let mut w = plain();
    put(&mut w, "index.md", "---\ntitle: Root\n---\n# Hi\n");

    let err = w.convert_content_format(
        "index.md",
        ContentFormat::Html,
        false,
        false,
    )
    .unwrap_err();
    assert!(err.message().contains("lossy"), "{err:?}");
    assert!(w.is_taken("index.md"), "refused, so nothing moved");

    let n = w.convert_content_format(
        "index.md",
        ContentFormat::Markdown,
        false,
        false,
    )
    .unwrap();
    assert!(n.is_empty(), "no-op");
    assert!(w.is_taken("index.md"));

    let n = w.convert_content_format(
        "index.md",
        ContentFormat::Html,
        false,
        true,
    )
    .unwrap();
    assert_eq!(n, vec!["index.html".to_string()]);
    assert!(read(&w, "index.html").contains("<h1>Hi</h1>"));
}

#[test]
fn convert_content_format_moves_a_separated_body_and_repoints_its_node() {
    let mut w = plain();
    put(
        &mut w,
        "index.md",
        "---\ntitle: Root\ncontents:\n- notes.yaml\n---\n",
    );
    put(
        &mut w,
        "notes.yaml",
        "title: Notes\npart_of: index.md\ncontent: notes.md\n",
    );
    put(&mut w, "notes.md", "*emph* prose.\n");

    let n = w.convert_content_format(
        "notes.yaml",
        ContentFormat::Djot,
        false,
        false,
    )
    .unwrap();
    assert_eq!(n, vec!["notes.dj".to_string()], "the body moved");

    assert!(w.is_taken("notes.yaml"), "the node stayed put");
    assert!(!w.is_taken("notes.md"));
    assert!(read(&w, "notes.dj").contains("_emph_"), "body transcoded");
    assert!(
        read(&w, "notes.yaml").contains("content: notes.dj"),
        "the node's pointer followed its body"
    );
    assert_eq!(check(&w, "index.md"), vec![]);
}

#[test]
fn convert_content_format_refuses_a_document_with_no_prose_and_skips_it_in_a_sweep() {
    let mut w = plain();
    put(
        &mut w,
        "index.md",
        "---\ntitle: Root\ncontents:\n- conf.yaml\n---\n# Hi\n",
    );
    put(&mut w, "conf.yaml", "title: Config\npart_of: index.md\n");

    let err = w.convert_content_format(
        "conf.yaml",
        ContentFormat::Djot,
        false,
        false,
    )
    .unwrap_err();
    assert!(err.message().contains("nothing to convert"), "{err:?}");

    let n = w.convert_content_format(
        "index.md",
        ContentFormat::Djot,
        true,
        false,
    )
    .unwrap();
    assert_eq!(n, vec!["index.dj".to_string()]);
    assert!(
        read(&w, "conf.yaml").starts_with("title: Config"),
        "untouched"
    );
    assert!(
        read(&w, "index.dj").contains("conf.yaml"),
        "the config link is unaffected by the root's own move"
    );
}

#[test]
fn convert_content_format_refuses_an_occupied_destination_and_converts_nothing() {
    let mut w = plain();
    put(
        &mut w,
        "index.md",
        "---\ntitle: Root\ncontents:\n- a.md\n---\n",
    );
    put(
        &mut w,
        "a.md",
        "---\ntitle: A\npart_of: index.md\n---\nprose\n",
    );
    put(&mut w, "a.dj", "an unrelated file already sitting there\n");

    let before = snapshot(&w);
    let err = w.convert_content_format(
        "index.md",
        ContentFormat::Djot,
        true,
        false,
    )
    .unwrap_err();
    assert!(err.message().contains("a.dj"), "{err:?}");
    assert_eq!(snapshot(&w), before, "the workspace is exactly as it was");
}

#[test]
fn convert_content_format_sweeps_a_separated_node_that_also_links_at_a_mover() {
    let mut w = plain();
    put(
        &mut w,
        "index.md",
        "---\ntitle: Root\ncontents:\n- notes.yaml\n---\n# Root\n",
    );
    put(
        &mut w,
        "notes.yaml",
        "title: Notes\npart_of: index.md\ncontent: notes.md\n",
    );
    put(&mut w, "notes.md", "*emph* prose.\n");

    let n = w.convert_content_format(
        "index.md",
        ContentFormat::Djot,
        true,
        false,
    )
    .unwrap();
    assert_eq!(n.len(), 2, "the root and the separated body both moved");

    let node = read(&w, "notes.yaml");
    assert!(
        node.contains("content: notes.dj"),
        "the content pointer followed the body: {node}"
    );
    assert!(
        node.contains("part_of: /index.dj"),
        "and the up-link followed the root: {node}"
    );
    assert!(read(&w, "notes.dj").contains("_emph_"));
    assert_eq!(check(&w, "index.dj"), vec![]);
}

#[test]
fn convert_content_format_refuses_two_movers_landing_on_one_name() {
    let mut w = plain();
    put(
        &mut w,
        "index.md",
        "---\ntitle: Root\ncontents:\n- a.md\n- a.markdown\n---\n",
    );
    put(&mut w, "a.md", "---\ntitle: A\npart_of: index.md\n---\none\n");
    put(
        &mut w,
        "a.markdown",
        "---\ntitle: A2\npart_of: index.md\n---\ntwo\n",
    );

    let before = snapshot(&w);
    let err = w.convert_content_format(
        "index.md",
        ContentFormat::Djot,
        true,
        false,
    )
    .unwrap_err();
    assert!(err.message().contains("both become"), "{err:?}");
    assert_eq!(snapshot(&w), before, "nothing converted");
}

#[test]
fn convert_content_format_retargets_links_to_a_parentless_document() {
    let mut w = plain();
    put(
        &mut w,
        "index.md",
        "---\ntitle: Root\nabout: about.md\n---\nSee [the page](about.md).\n",
    );
    put(&mut w, "about.md", "---\ntitle: About\n---\n*emph* prose.\n");

    let n = w.convert_content_format(
        "about.md",
        ContentFormat::Djot,
        false,
        false,
    )
    .unwrap();
    assert_eq!(n, vec!["about.dj".to_string()]);

    let root = read(&w, "index.md");
    assert!(
        root.contains("about: /about.dj"),
        "pointer followed: {root}"
    );
    assert!(
        root.contains("[the page](/about.dj)"),
        "body link followed: {root}"
    );
    assert!(read(&w, "about.dj").contains("_emph_"));
    assert_eq!(check(&w, "index.md"), vec![]);
}

#[test]
fn convert_content_format_carries_the_registry_so_id_links_keep_resolving() {
    let mut w = plain();
    put(
        &mut w,
        "index.md",
        "---\ntitle: Root\ncontents:\n- a.md\n---\n",
    );
    put(
        &mut w,
        "a.md",
        "---\ntitle: A\npart_of: index.md\n---\nprose\n",
    );

    w.settings.registration = Registration::eager();
    w.settings.seed = 7;
    let id = w.register("a.md", Trigger::Link).unwrap();
    w.convert_content_format("a.md", ContentFormat::Djot, false, false)
        .unwrap();
    assert_eq!(
        w.registry.resolve(&id).as_deref(),
        Some("a.dj"),
        "the id followed its document"
    );
}

#[test]
fn create_links_both_directions_in_the_parents_format() {
    let mut w = plain();
    put(&mut w, "index.md", "```fig\ntitle = Root\n```\nbody\n");
    w.settings.references.path_style = LinkStyle::PlainRelative;
    w.create("notes/new.md", "index.md").unwrap();

    let child = read(&w, "notes/new.md");
    assert!(
        child.starts_with("```fig\n"),
        "child inherits the parent's archetype: {child}"
    );
    assert!(child.contains("part_of = ../index.md"), "{child:?}");
    let parent = read(&w, "index.md");
    assert!(parent.contains("contents = [notes/new.md]"), "{parent:?}");
    assert!(parent.ends_with("body\n"), "body untouched: {parent:?}");
    assert_eq!(check(&w, "index.md"), vec![]);
}

#[test]
fn create_uses_the_workspace_default_embed_format() {
    let mut w = plain();
    put(&mut w, "index.yaml", "title: Root\n");
    w.settings.metadata = MetaFormat::Fig;
    w.create("a.md", "index.yaml").unwrap();
    assert!(
        read(&w, "a.md").starts_with("```fig"),
        "{}",
        read(&w, "a.md")
    );
}

#[test]
fn create_authors_id_links_when_configured() {
    let mut w = plain();
    put(&mut w, "index.md", "---\ntitle: Root\n---\n");
    w.settings.registration = Registration::lazy();
    w.settings.seed = 7;
    w.settings.references.addressing = Addressing::Id;
    w.create("a.md", "index.md").unwrap();

    let parent_id = w.registry.id_for_path("index.md")
        .expect("parent registered");
    let child_id = w.registry.id_for_path("a.md")
        .expect("child registered");
    assert!(read(&w, "a.md").contains(&format!("part_of: id:{parent_id}")));
    assert!(read(&w, "index.md").contains(&format!("id:{child_id}")));
    assert_eq!(check(&w, "index.md"), vec![]);
}

#[test]
fn create_stamps_the_new_documents_id_under_frontmatter_storage() {

    let mut w = plain();
    put(&mut w, "index.md", "---\ntitle: Root\n---\n");
    w.settings.registration = Registration::eager();
    w.settings.seed = 7;
    w.settings.id_storage = IdStorage::Frontmatter;
    w.create("a.md", "index.md").unwrap();

    let child_id = w.registry.id_for_path("a.md")
        .expect("child registered");
    assert!(
        read(&w, "a.md").contains(&format!("id: {child_id}")),
        "the child carries its own id: {}",
        read(&w, "a.md")
    );
    assert_eq!(check(&w, "index.md"), vec![]);
}

#[test]
fn create_leaves_documents_id_free_under_registry_storage() {

    let mut w = plain();
    put(&mut w, "index.md", "---\ntitle: Root\n---\n");
    w.settings.registration = Registration::eager();
    w.settings.seed = 7;
    w.create("a.md", "index.md").unwrap();

    assert!(
        w.registry.id_for_path("a.md").is_some(),
        "eager identity still registers the child"
    );
    assert!(
        !read(&w, "a.md").contains("id:"),
        "no stamp under registry storage: {}",
        read(&w, "a.md")
    );
    assert_eq!(check(&w, "index.md"), vec![]);
}

#[test]
fn create_stamps_the_parent_it_registers_to_author_a_link() {

    let mut w = plain();
    put(&mut w, "index.md", "---\ntitle: Root\n---\n");
    w.settings.registration = Registration::lazy();
    w.settings.seed = 7;
    w.settings.references.addressing = Addressing::Id;
    w.settings.id_storage = IdStorage::Frontmatter;
    w.create("a.md", "index.md").unwrap();

    let parent_id = w.registry.id_for_path("index.md")
        .expect("parent registered");
    let index = read(&w, "index.md");
    assert!(
        index.contains(&format!("id: {parent_id}")),
        "the parent carries the id it earned: {index}"
    );
    assert!(index.contains("contents:"), "{index:?}");
    assert_eq!(check(&w, "index.md"), vec![]);
}

#[test]
fn create_stamps_a_separated_childs_node_document() {

    let mut w = plain();
    put(&mut w, "index.yaml", "title: Root\ncontent: index.md\n");
    put(&mut w, "index.md", "# Root\n");
    w.settings.registration = Registration::eager();
    w.settings.seed = 7;
    w.settings.id_storage = IdStorage::Frontmatter;
    w.create("notes.md", "index.yaml").unwrap();

    let node_id = w.registry.id_for_path("notes.yaml")
        .expect("node registered");
    assert!(
        read(&w, "notes.yaml").contains(&format!("id: {node_id}")),
        "{}",
        read(&w, "notes.yaml")
    );
    assert_eq!(read(&w, "notes.md"), "", "the body file stays empty");
    assert_eq!(check(&w, "index.yaml"), vec![]);
}

#[test]
fn create_authors_up_and_down_in_different_relation_styles() {

    let alias = ReferenceStyle {
        wrapper: Wrapper::Wikilink,
        addressing: Addressing::Alias,
        label: false,
        path_style: LinkStyle::MarkdownRoot,
    };
    let by_id = ReferenceStyle {
        wrapper: Wrapper::Markdown,
        addressing: Addressing::Id,
        label: false,
        path_style: LinkStyle::MarkdownRoot,
    };
    let relations = up_and_down(Some(alias), Some(by_id));

    let mut w = plain();
    put(&mut w, "index.md", "---\ntitle: Root\n---\n");
    w.settings.registration = Registration::lazy();
    w.settings.seed = 7;
    w.relations = relations;
    w.create("a.md", "index.md").unwrap();

    let parent_id = w.registry.id_for_path("index.md")
        .expect("parent registered");
    assert!(
        read(&w, "a.md").contains(&format!("part_of: id:{parent_id}")),
        "{}",
        read(&w, "a.md")
    );

    assert!(
        read(&w, "index.md").contains("[[a]]"),
        "{}",
        read(&w, "index.md")
    );
    assert!(
        w.registry.id_for_path("a.md").is_none(),
        "alias down-link must not register the child"
    );
}

#[test]
fn create_makes_a_separated_child_under_a_separated_parent() {
    let mut w = plain();
    put(&mut w, "index.yaml", "title: Root\ncontent: index.md\n");
    put(&mut w, "index.md", "# Root\n");

    w.create("notes.md", "index.yaml").unwrap();

    let node = read(&w, "notes.yaml");
    assert!(node.contains("title: notes"), "{node:?}");
    assert!(
        node.contains("index.yaml"),
        "inverse link to parent node: {node}"
    );
    assert!(node.contains("content: notes.md"), "{node:?}");
    assert_eq!(read(&w, "notes.md"), "", "the body file starts empty");
    let index = read(&w, "index.yaml");
    assert!(index.contains("notes.yaml"), "{index:?}");
    assert!(
        !index.contains("notes.md"),
        "parent links the node, not the body: {index}"
    );
    assert_eq!(check(&w, "index.yaml"), vec![]);
}

#[test]
fn create_with_title_keeps_the_title_distinct_from_the_slugged_stem() {
    let mut w = plain();
    put(&mut w, "index.md", "---\ntitle: Root\n---\n");
    let stem = "my-great-note";
    let path = format!("{stem}.md");

    w.create_with_title(&path, "index.md", "My Great Note")
        .unwrap();

    let child = read(&w, "my-great-note.md");
    assert!(
        child.contains("title: My Great Note"),
        "original title kept: {child}"
    );
    assert!(
        read(&w, "index.md").contains("My Great Note"),
        "{}",
        read(&w, "index.md")
    );
    assert_eq!(check(&w, "index.md"), vec![]);
}

#[test]
fn create_refuses_an_existing_path() {
    let mut w = plain();
    put(&mut w, "index.md", "---\ntitle: Root\n---\n");
    put(&mut w, "a.md", "already here\n");
    let err = w.create("a.md", "index.md").unwrap_err();
    assert!(err.message().contains("already exists"), "{err:?}");
}

#[test]
fn eager_create_assigns_an_id_from_birth() {
    let mut w = plain();
    put(&mut w, "index.md", "---\ntitle: Root\n---\n");
    w.settings.registration = Registration::eager();
    w.settings.seed = 7;
    w.create("a.md", "index.md").unwrap();
    let id = w.registry.id_for_path("a.md")
        .expect("registered at birth");
    assert!(verify(id.as_str()));
}

#[test]
fn consecutive_ops_keep_each_others_registrations() {
    let mut w = plain();
    put(&mut w, "index.md", "---\ntitle: Root\n---\n");
    w.settings.registration = Registration::eager();
    w.settings.seed = 7;
    w.settings.references.addressing = Addressing::Id;

    w.create("a.md", "index.md").unwrap();
    let a_id = w.registry.id_for_path("a.md")
        .expect("a.md registered");
    let root_id = w.registry.id_for_path("index.md")
        .expect("root registered");

    w.create("b.md", "index.md").unwrap();

    assert_eq!(
        w.registry.id_for_path("a.md"),
        Some(a_id.clone()),
        "the first op's registration was erased by the second"
    );
    assert_eq!(
        w.registry.id_for_path("index.md"),
        Some(root_id),
        "the root was re-minted a second, different id"
    );
    assert!(
        w.registry.id_for_path("b.md").is_some(),
        "b.md registered"
    );

    let root_text = read(&w, "index.md");
    assert!(
        root_text.contains(a_id.as_str()),
        "the root links a.md by id: {root_text}"
    );
    assert_eq!(
        w.registry.resolve(&a_id),
        Some("a.md".to_string()),
        "the id the root links must still resolve"
    );
}

#[test]
fn delete_refuses_children_then_forces() {
    let mut w = plain();
    put(&mut w, "index.md", "---\ncontents:\n- a.md\n- b.md\n---\n");
    put(
        &mut w,
        "a.md",
        "---\npart_of: index.md\ncontents:\n- b.md\n---\n",
    );
    put(&mut w, "b.md", "---\npart_of: index.md\n---\n");

    let err = w.delete("a.md", false).unwrap_err();
    assert!(err.message().contains("contains 1 document"), "{err:?}");

    w.delete("a.md", true).unwrap();
    assert!(!w.is_taken("a.md"));
    let index = read(&w, "index.md");
    assert!(!index.contains("a.md"), "parent entry removed: {index:?}");
    assert!(index.contains("- b.md"), "sibling kept: {index:?}");
}

#[test]
fn delete_diagnoses_inbound_references_left_dangling() {
    let mut w = plain();
    put(&mut w, "index.md", "---\ncontents:\n- a.md\n- b.md\n---\n");
    put(&mut w, "a.md", "---\npart_of: index.md\n---\n");
    put(
        &mut w,
        "b.md",
        "---\npart_of: index.md\nlinks:\n- a.md\n---\nSee [[a.md]].\n",
    );

    let danglers = w.delete("a.md", false).unwrap();
    assert_eq!(danglers.len(), 2, "{danglers:?}");
    assert!(
        danglers.iter().any(|f| matches!(f,
            Finding::BrokenLink(doc, LinkSite::Relation(r, _), target)
                if doc == &"b.md".to_string() && r == "links" && target == "a.md")),
        "{danglers:?}"
    );
    assert!(
        danglers.iter().any(|f| matches!(f,
            Finding::BrokenLink(doc, LinkSite::Body(_, _), target)
                if doc == &"b.md".to_string() && target == "a.md")),
        "{danglers:?}"
    );
    assert!(
        !read(&w, "index.md").contains("a.md"),
        "parent entry cleaned"
    );
}

#[test]
fn delete_refuses_a_separated_body_and_names_its_node() {
    let mut w = plain();
    put(&mut w, "index.md", "---\ncontents:\n- b.yaml\n---\n");
    put(&mut w, "b.yaml", "part_of: index.md\ncontent: b.md\n");
    put(&mut w, "b.md", "B body.\n");

    let err = w.delete("b.md", false).unwrap_err();
    assert!(err.message().contains("is the body of b.yaml"), "{err:?}");
    assert!(w.is_taken("b.md"), "and nothing was destroyed");

    let danglers = w.delete("b.md", true).unwrap();
    assert!(!w.is_taken("b.md"), "the body is gone");
    assert!(
        danglers.iter().any(|f| matches!(f,
            Finding::BrokenLink(doc, LinkSite::Relation(r, _), target)
                if doc == &"b.yaml".to_string() && r == "content" && target == "b.md")),
        "{danglers:?}"
    );
    let findings = check(&w, "index.md");
    for reported in &danglers {
        assert!(
            findings.contains(reported),
            "{reported:?} not in {findings:?}"
        );
    }
}

#[test]
fn duplicate_copies_under_the_same_parent_and_links_both_ways() {
    let mut w = plain();
    put(
        &mut w,
        "index.md",
        "---\ntitle: Root\ncontents:\n- a.md\n---\n",
    );
    put(
        &mut w,
        "a.md",
        "---\ntitle: A\npart_of: index.md\n---\nA body, copied.\n",
    );

    let copy = w.duplicate("a.md").unwrap();
    assert_eq!(copy, "a-copy.md".to_string());

    let copied = read(&w, "a-copy.md");
    assert!(copied.contains("title: A"), "{copied:?}");
    assert!(copied.contains("part_of: index.md"), "{copied:?}");
    assert!(copied.contains("A body, copied."), "{copied:?}");
    let index = read(&w, "index.md");
    assert!(index.contains("- a.md"), "original kept: {index:?}");
    assert!(index.contains("a-copy.md"), "copy attached: {index:?}");
    assert_eq!(check(&w, "index.md"), vec![]);
}

#[test]
fn duplicate_bumps_the_suffix_and_drops_cloned_children() {
    let mut w = plain();
    put(
        &mut w,
        "index.md",
        "---\ntitle: Root\ncontents:\n- mid.md\n---\n",
    );
    put(
        &mut w,
        "mid.md",
        "---\ntitle: Mid\npart_of: index.md\ncontents:\n- leaf.md\n---\n",
    );
    put(&mut w, "leaf.md", "---\ntitle: Leaf\npart_of: mid.md\n---\n");

    let first = w.duplicate("mid.md").unwrap();
    assert_eq!(first, "mid-copy.md".to_string());
    let copy = read(&w, "mid-copy.md");
    assert!(
        !copy.contains("leaf.md"),
        "children must not be cloned: {copy}"
    );
    assert!(copy.contains("part_of: index.md"), "{copy:?}");

    let second = w.duplicate("mid.md").unwrap();
    assert_eq!(second, "mid-copy-2.md".to_string());
    assert_eq!(check(&w, "index.md"), vec![]);
}

#[test]
fn duplicate_does_not_clone_a_registered_id() {
    let mut w = plain();
    put(
        &mut w,
        "index.md",
        "---\ntitle: Root\ncontents:\n- a.md\n---\n",
    );
    put(
        &mut w,
        "a.md",
        "---\ntitle: A\npart_of: index.md\nid: aaaaaaa\n---\nbody\n",
    );

    w.settings.registration = Registration::lazy();
    w.settings.seed = 42;
    let copy = w.duplicate("a.md").unwrap();
    let copied = read(&w, &copy);
    assert!(
        !copied.contains("aaaaaaa"),
        "the source's id must not be cloned: {copied}"
    );
    assert!(
        !copied.contains("\nid:"),
        "the copy carries no stamped id: {copied}"
    );
}

#[test]
fn duplicate_a_separated_node_copies_its_body_and_repoints_content() {
    let mut w = plain();
    put(&mut w, "index.yaml", "title: Root\ncontents:\n- notes.yaml\n");
    put(
        &mut w,
        "notes.yaml",
        "title: Notes\npart_of: index.yaml\ncontent: notes.md\n",
    );
    put(&mut w, "notes.md", "Prose body, duplicated.\n");

    let copy = w.duplicate("notes.yaml").unwrap();
    assert_eq!(copy, "notes-copy.yaml".to_string());

    let node = read(&w, "notes-copy.yaml");
    assert!(
        node.contains("content: notes-copy.md"),
        "repointed content: {node}"
    );
    assert_eq!(read(&w, "notes-copy.md"), "Prose body, duplicated.\n");
    assert_eq!(read(&w, "notes.md"), "Prose body, duplicated.\n");
    assert_eq!(check(&w, "index.yaml"), vec![]);
}

fn sub_workspace() -> Workspace {
    let mut w = plain();
    put(
        &mut w,
        "README.md",
        "---\ntitle: Inner\npart_of: id:outer/abc123\ncontents:\n- '[Note](/note.md)'\n---\n",
    );
    put(
        &mut w,
        "note.md",
        "---\ntitle: Note\npart_of: '[Inner](/README.md)'\n---\n",
    );
    put(&mut w, "prov.yaml", "workspace_id: inner\nroot: README.md\n");
    w
}

#[test]
fn spanning_root_stops_at_a_root_whose_parent_is_foreign() {
    let mut w = sub_workspace();
    w.name = "inner".to_string();
    assert_eq!(
        w.spanning_root("note.md", "part_of"),
        "README.md".to_string()
    );
}

#[test]
fn a_move_inside_a_sub_workspace_leaves_the_foreign_parent_alone() {
    let mut w = sub_workspace();
    w.name = "inner".to_string();
    w.rename("note.md", "renamed.md").unwrap();

    let root = read(&w, "README.md");
    assert!(
        root.contains("part_of: id:outer/abc123"),
        "the foreign parent is carried, never rewritten: {root}"
    );
    assert!(root.contains("renamed.md"), "the move landed: {root:?}");
    assert_eq!(check(&w, "README.md"), vec![]);
}

#[test]
fn scan_ids_rebuilds_the_id_map_from_frontmatter() {
    let mut w = plain();
    put(
        &mut w,
        "index.md",
        "---\ntitle: Root\nid: aaaaaaa\n---\nbody\n",
    );
    put(
        &mut w,
        "sub/child.md",
        "---\ntitle: Child\nid: bbbbbbb\n---\nbody\n",
    );
    put(&mut w, "sub/plain.md", "---\ntitle: Plain\n---\nbody\n");

    let mut ids = w.scan_ids();
    ids.sort();
    assert_eq!(
        ids,
        vec![
            (
                "aaaaaaa".to_string(),
                "index.md".to_string()
            ),
            (
                "bbbbbbb".to_string(),
                "sub/child.md".to_string()
            ),
        ]
    );
}

#[test]
fn config_pointer_resolves_and_reads_a_setting() {
    let mut w = plain();
    put(
        &mut w,
        "index.md",
        "---\ntitle: Root\nconfig: prov.yaml\n---\n",
    );
    put(
        &mut w,
        "prov.yaml",
        "title: prov config\npart_of: index.md\nlink_format: plain_relative\n",
    );
    assert_eq!(
        w.config_path("index.md").unwrap(),
        Some("prov.yaml".to_string())
    );
    let value = w.config_get("index.md", "link_format").unwrap();
    assert_eq!(value, Some(Meta::Text("plain_relative".to_string())));
    assert!(
        w.config_get("index.md", "missing")
            .unwrap()
            .is_none()
    );
    put(&mut w, "bare.md", "---\ntitle: Bare\n---\n");
    assert!(
        w.config_path("bare.md")
            .unwrap()
            .is_none()
    );
}

#[test]
fn register_is_idempotent_and_policy_gated() {
    let mut w = plain();
    put(&mut w, "a.md", "---\ntitle: A\n---\n");

    w.settings.registration = Registration::lazy();
    w.settings.seed = 42;
    let first = w.register("a.md", Trigger::Link).unwrap();
    let again = w.register("a.md", Trigger::Link).unwrap();
    assert_eq!(first, again, "idempotent");
    assert!(verify(first.as_str()));

    put(&mut w, "b.md", "---\ntitle: B\n---\n");
    let err = w.register("b.md", Trigger::Create).unwrap_err();
    assert!(err.message().contains("does not register"), "{err:?}");
}

fn book() -> Workspace {
    let mut w = plain();
    put(
        &mut w,
        "index.md",
        "---\ntitle: Root\ncontents:\n- a/a.md\n- b/b.md\n---\n",
    );
    put(
        &mut w,
        "a/a.md",
        "---\ntitle: A\npart_of: /index.md\ncontents:\n- chapter.md\n- attachments/photo.jpg.yaml\n---\n\
         ![](attachments/photo.jpg)\n\nSee [the chapter](chapter.md) and [B](/b/b.md).\n",
    );
    put(
        &mut w,
        "a/chapter.md",
        "---\ntitle: Chapter\npart_of: a.md\n---\n![A photo](attachments/photo.jpg)\n",
    );
    put_bytes(&mut w, "a/attachments/photo.jpg", b"\xff\xd8jpeg");
    put(
        &mut w,
        "a/attachments/photo.jpg.yaml",
        "title: Photo\npart_of: ../a.md\ncontent: photo.jpg\n",
    );
    put(
        &mut w,
        "b/b.md",
        "---\ntitle: B\npart_of: /index.md\n---\nA note on [A](/a/a.md) with ![its photo](/a/attachments/photo.jpg).\n",
    );
    w
}

#[test]
fn a_book_moves_by_one_call_with_every_image_resolving() {
    let mut w = book();
    w.move_tree("a", "b/a").unwrap();

    assert!(!w.is_taken("a"), "the emptied directory is gone");
    assert!(w.files.holds("b/a/attachments/photo.jpg"));

    let a = read(&w, "b/a/a.md");
    assert!(a.contains("![](/b/a/attachments/photo.jpg)"), "{a:?}");
    assert!(a.contains("[the chapter](/b/a/chapter.md)"), "{a:?}");
    assert!(a.contains("[B](/b/b.md)"), "{a:?}");
    assert!(a.contains("part_of: /index.md"), "{a:?}");
    assert!(a.contains("- /b/a/chapter.md"), "{a:?}");
    assert!(a.contains("- /b/a/attachments/photo.jpg.yaml"), "{a:?}");

    let chapter = read(&w, "b/a/chapter.md");
    assert!(
        chapter.contains("![A photo](/b/a/attachments/photo.jpg)"),
        "{chapter}"
    );
    assert!(chapter.contains("part_of: /b/a/a.md"), "{chapter:?}");

    let sidecar = read(&w, "b/a/attachments/photo.jpg.yaml");
    assert!(sidecar.contains("part_of: /b/a/a.md"), "{sidecar:?}");
    assert!(sidecar.contains("content: photo.jpg"), "{sidecar:?}");

    let index = read(&w, "index.md");
    assert!(index.contains("- /b/a/a.md"), "{index:?}");
    let b = read(&w, "b/b.md");
    assert!(b.contains("[A](/b/a/a.md)"), "{b:?}");
    assert!(
        b.contains("![its photo](/b/a/attachments/photo.jpg)"),
        "{b}"
    );

    assert_eq!(check(&w, "index.md"), vec![]);
}

#[test]
fn rename_of_a_directory_is_a_tree_move() {
    let mut w = book();
    w.rename("a", "b/a").unwrap();
    assert!(read(&w, "b/b.md").contains("![its photo](/b/a/attachments/photo.jpg)"));
    assert_eq!(check(&w, "index.md"), vec![]);
}

#[test]
fn a_tree_move_respects_a_relative_path_style() {
    let mut w = book();
    w.settings.references.path_style = LinkStyle::MarkdownRelative;
    w.move_tree("a", "b/a").unwrap();

    let a = read(&w, "b/a/a.md");
    assert!(a.contains("part_of: ../../index.md"), "{a:?}");
    assert!(a.contains("[B](../b.md)"), "{a:?}");
    assert!(a.contains("![](attachments/photo.jpg)"), "{a:?}");
    let b = read(&w, "b/b.md");
    assert!(b.contains("![its photo](a/attachments/photo.jpg)"), "{b:?}");
    assert!(b.contains("[A](a/a.md)"), "{b:?}");
    assert_eq!(check(&w, "index.md"), vec![]);
}

#[test]
fn loose_files_move_as_bytes_and_ids_follow() {
    let mut w = book();
    put(&mut w, "a/notes.txt", "plain\n");
    put(&mut w, "a/.hidden", "secret\n");
    w.settings.registration = Registration::lazy();
    w.settings.seed = 42;
    let id = w.register("a/chapter.md", Trigger::Link).unwrap();

    w.move_tree("a", "b/a").unwrap();

    assert_eq!(read(&w, "b/a/notes.txt"), "plain\n");
    assert_eq!(read(&w, "b/a/.hidden"), "secret\n");
    assert_eq!(bytes(&w, "b/a/attachments/photo.jpg"), b"\xff\xd8jpeg");
    assert_eq!(
        w.registry.resolve(&id),
        Some("b/a/chapter.md".to_string())
    );
    assert!(!w.is_taken("a"));
}

#[test]
fn a_tree_move_refuses_the_root_a_document_an_occupied_or_a_nested_destination() {
    let mut w = book();
    let before = snapshot(&w);
    assert!(w.move_tree("", "x").is_err());
    assert!(w.move_tree("a/a.md", "x").is_err());
    assert!(matches!(
        w.move_tree("a", "b"),
        Err(Fault::AlreadyExists(_))
    ));
    assert!(w.move_tree("a", "a/inner").is_err());
    assert!(matches!(
        w.move_tree("missing", "x"),
        Err(Fault::NotFound(_))
    ));
    assert_eq!(snapshot(&w), before, "a refusal touches nothing");
}

#[test]
fn a_manifest_parting_from_its_archive_has_its_root_respelled() {
    let mut w = plain();
    put(
        &mut w,
        "index.md",
        "---\ntitle: Root\ncontents:\n- docs/photos.md\n---\n",
    );
    put_bytes(&mut w, "photos/one.jpg", b"1");
    let store = "root: ../photos/\nfiles:\n- path: one.jpg\n";
    put(&mut w, "docs/photos.manifest.yaml", store);
    let pin = digest(store.as_bytes());
    put(
        &mut w,
        "docs/photos.md",
        format!(
            "---\ntitle: Photos\npart_of: /index.md\nmanifest: photos.manifest.yaml\ncontent_hash: {pin}\n---\n"
        ),
    );
    assert_eq!(check(&w, "index.md"), vec![]);

    w.move_tree("docs", "archive/docs").unwrap();

    let store = read(&w, "archive/docs/photos.manifest.yaml");
    assert!(store.contains("root: ../../photos/"), "{store:?}");
    let node = read(&w, "archive/docs/photos.md");
    assert!(
        node.contains(&digest(store.as_bytes())),
        "pin re-stamped: {node}"
    );
    assert!(
        w.files.holds("photos/one.jpg"),
        "the archive stays put"
    );
    assert_eq!(check(&w, "index.md"), vec![]);
}

#[test]
fn recycling_a_parentless_document_does_not_resurrect_it() {
    let mut w = plain();
    put(&mut w, "index.md", "---\ntitle: Home\n---\n");
    put(&mut w, "loose.md", "---\ntitle: Loose\n---\nno parent\n");

    w.recycle("loose.md", false, None).unwrap();

    assert!(!w.is_taken("loose.md"), "gone, and it stays gone");
    assert_eq!(
        read(&w, "recyclebin/items/loose.md"),
        "---\ntitle: Loose\n---\nno parent\n"
    );
}

#[test]
fn recycle_refuses_a_separated_body_and_names_its_node() {
    let mut w = plain();
    put(
        &mut w,
        "index.md",
        "---\ntitle: Home\ncontents:\n- b.yaml\n---\n",
    );
    put(
        &mut w,
        "b.yaml",
        "title: B\npart_of: index.md\ncontent: b.md\n",
    );
    put(&mut w, "b.md", "B body.\n");

    let err = w.recycle("b.md", false, None).unwrap_err();
    assert!(err.message().contains("is the body of b.yaml"), "{err:?}");
    assert!(w.is_taken("b.md"), "nothing was moved");

    let danglers = w.recycle("b.md", true, None).unwrap();
    assert!(!w.is_taken("b.md"));
    assert!(
        danglers.iter().any(|f| matches!(f,
            Finding::BrokenLink(doc, LinkSite::Relation(r, _), target)
                if doc == &"b.yaml".to_string() && r == "content" && target == "b.md")),
        "{danglers:?}"
    );
}

#[test]
fn recycle_moves_a_document_into_the_bin_and_records_it() {
    let mut w = plain();
    put(
        &mut w,
        "index.md",
        "---\ntitle: Home\ncontents:\n- note.md\n---\n",
    );
    let original = "---\ntitle: My Note\npart_of: index.md\n---\nbody text\n";
    put(&mut w, "note.md", original);

    let danglers =
        w.recycle("note.md", false, Some("2026-07-16T10:00:00Z"))
            .unwrap();
    assert!(danglers.is_empty(), "{danglers:?}");

    assert!(!w.is_taken("note.md"));
    assert_eq!(read(&w, "recyclebin/items/note.md"), original);

    let index = read(&w, "index.md");
    assert!(
        !index.contains("- note.md"),
        "parent entry removed: {index}"
    );
    assert!(index.contains("recycle_bin"), "root links the bin: {index:?}");

    let bin = read(&w, "recyclebin/index.yaml");
    assert!(bin.contains("My Note"), "records the title: {bin:?}");
    assert!(bin.contains("note.md"), "records the origin: {bin:?}");
    assert!(bin.contains("2026-07-16T10:00:00Z"), "records when: {bin:?}");

    let findings = check(&w, "index.md");
    assert!(
        findings.is_empty(),
        "a recycle should leave check clean: {findings:?}"
    );
}

#[test]
fn recycle_then_restore_is_lossless() {
    let mut w = plain();
    put(
        &mut w,
        "index.md",
        "---\ntitle: Home\ncontents:\n- note.md\n---\n",
    );
    let original = "---\ntitle: My Note\npart_of: index.md\n---\nbody text\n";
    put(&mut w, "note.md", original);

    w.recycle("note.md", false, None).unwrap();
    assert!(!w.is_taken("note.md"));

    w.restore("note.md", "index.md").unwrap();

    assert_eq!(read(&w, "note.md"), original);
    let index = read(&w, "index.md");
    assert!(
        index.contains("note.md"),
        "parent re-links the restored doc: {index}"
    );
    let bin = read(&w, "recyclebin/index.yaml");
    assert!(
        !bin.contains("My Note"),
        "the record is cleared on restore: {bin}"
    );
    assert!(
        !w.is_taken("recyclebin/items/note.md"),
        "the binned bytes moved back"
    );
    let findings = check(&w, "index.md");
    assert!(
        findings.is_empty(),
        "a restore should leave check clean: {findings:?}"
    );
}

#[test]
fn a_restore_refuses_to_take_an_id_from_the_document_that_now_holds_it() {
    let mut w = plain();
    put(
        &mut w,
        "index.md",
        "---\ntitle: Home\ncontents:\n- note.md\n- other.md\n---\n",
    );
    put(
        &mut w,
        "note.md",
        "---\ntitle: My Note\npart_of: index.md\nid: b7k2m\n---\nbody\n",
    );
    put(
        &mut w,
        "other.md",
        "---\ntitle: Other\npart_of: index.md\nid: b7k2m\n---\n",
    );

    w.settings.registration = Registration::lazy();
    w.settings.seed = 42;
    let id = "b7k2m".to_string();
    w.registry.register(&id, "note.md");
    w.recycle("note.md", false, None).unwrap();
    w.registry.register(&id, "other.md");

    let err = w.restore("note.md", "index.md").unwrap_err();
    assert!(
        matches!(
            err,
            Fault::IdTaken(_, _)
        ),
        "{err:?}"
    );
    assert!(
        err.message().contains("other.md"),
        "the message must name what holds the id: {err:?}"
    );
    assert!(!w.is_taken("note.md"));
    assert!(w.is_taken("recyclebin/items/note.md"));

    w.registry.unregister(&id);
    w.restore("note.md", "index.md").unwrap();
    assert!(w.is_taken("note.md"));
}

#[test]
fn a_restore_refuses_when_another_id_already_claims_the_path() {
    let mut w = plain();
    put(
        &mut w,
        "index.md",
        "---\ntitle: Home\ncontents:\n- note.md\n---\n",
    );
    put(
        &mut w,
        "note.md",
        "---\ntitle: My Note\npart_of: index.md\nid: b7k2m\n---\nbody\n",
    );

    w.settings.registration = Registration::lazy();
    w.settings.seed = 42;
    w.registry.register(
        &"b7k2m".to_string(),
        "note.md",
    );
    w.recycle("note.md", false, None).unwrap();
    w.registry.register(
        &"zzzzzzz".to_string(),
        "note.md",
    );

    let err = w.restore("note.md", "index.md").unwrap_err();
    assert!(
        matches!(
            err,
            Fault::PathTaken(_, _)
        ),
        "{err:?}"
    );
    assert!(!w.is_taken("note.md"), "nothing moved");
}

#[test]
fn recycle_refuses_a_parent_with_children_unless_forced() {
    let mut w = plain();
    put(&mut w, "index.md", "---\ncontents:\n- a.md\n---\n");
    put(
        &mut w,
        "a.md",
        "---\ntitle: A\npart_of: index.md\ncontents:\n- b.md\n---\n",
    );
    put(&mut w, "b.md", "---\ntitle: B\npart_of: a.md\n---\n");

    let err = w.recycle("a.md", false, None).unwrap_err();
    assert!(err.message().contains("contains 1 document"), "{err:?}");
    assert!(
        w.is_taken("a.md"),
        "a refused recycle changes nothing"
    );

    w.recycle("a.md", true, None).unwrap();
    assert!(!w.is_taken("a.md"));
    assert!(w.is_taken("recyclebin/items/a.md"));
}

#[test]
fn a_second_deletion_appends_to_the_existing_bin() {
    let mut w = plain();
    put(&mut w, "index.md", "---\ncontents:\n- a.md\n- b.md\n---\n");
    put(&mut w, "a.md", "---\ntitle: Aye\npart_of: index.md\n---\n");
    put(&mut w, "b.md", "---\ntitle: Bee\npart_of: index.md\n---\n");

    w.recycle("a.md", false, None).unwrap();
    w.recycle("b.md", false, None).unwrap();

    let bin = read(&w, "recyclebin/index.yaml");
    assert!(
        bin.contains("Aye") && bin.contains("Bee"),
        "both recorded: {bin}"
    );
    assert!(w.is_taken("recyclebin/items/a.md"));
    assert!(w.is_taken("recyclebin/items/b.md"));

    let index = read(&w, "index.md");
    assert_eq!(
        index.matches("recycle_bin").count(),
        1,
        "pointer authored once: {index}"
    );

    let findings = check(&w, "index.md");
    assert!(findings.is_empty(), "{findings:?}");
}

#[test]
fn empty_bin_purges_the_bytes_and_clears_the_index_but_keeps_the_member() {
    let mut w = plain();
    put(&mut w, "index.md", "---\ncontents:\n- a.md\n---\n");
    put(&mut w, "a.md", "---\ntitle: Aye\npart_of: index.md\n---\n");

    w.recycle("a.md", false, None).unwrap();
    assert!(w.is_taken("recyclebin/items/a.md"));

    let purged = w.empty_bin("index.md").unwrap();
    assert_eq!(purged, 1);
    assert!(!w.is_taken("recyclebin/items/a.md"), "bytes purged");

    let bin = read(&w, "recyclebin/index.yaml");
    assert!(!bin.contains("Aye"), "records cleared: {bin:?}");
    assert!(read(&w, "index.md").contains("recycle_bin"));
    let findings = check(&w, "index.md");
    assert!(findings.is_empty(), "{findings:?}");
}

#[test]
fn rename_maintains_parent_children_and_own_links() {
    let mut w = plain();
    put(
        &mut w,
        "index.md",
        "---\ntitle: Root\ncontents:\n- '[Mid](mid.md)'\n---\n",
    );
    put(
        &mut w,
        "mid.md",
        "---\n# a comment to preserve\npart_of: index.md\ncontents:\n- leaf.md\n---\nmid body\n",
    );
    put(&mut w, "leaf.md", "---\npart_of: mid.md\n---\n");

    w.rename("mid.md", "sub/mid.md").unwrap();

    let index = read(&w, "index.md");
    assert!(index.contains("- '[Mid](/sub/mid.md)'"), "{index:?}");
    let leaf = read(&w, "leaf.md");
    assert!(leaf.contains("part_of: /sub/mid.md"), "{leaf:?}");
    let mid = read(&w, "sub/mid.md");
    assert!(mid.contains("part_of: /index.md"), "{mid:?}");
    assert!(mid.contains("- /leaf.md"), "{mid:?}");
    assert!(mid.contains("# a comment to preserve"), "{mid:?}");
    assert!(mid.ends_with("mid body\n"), "{mid:?}");
    assert_eq!(check(&w, "index.md"), vec![]);
}

#[test]
fn rename_respects_an_explicit_relative_path_style() {
    let mut w = plain();
    put(
        &mut w,
        "index.md",
        "---\ntitle: Root\ncontents:\n- '[Mid](mid.md)'\n---\n",
    );
    put(
        &mut w,
        "mid.md",
        "---\npart_of: index.md\ncontents:\n- leaf.md\n---\nSee [[leaf.md]].\n",
    );
    put(&mut w, "leaf.md", "---\npart_of: mid.md\n---\n");

    w.settings.references.path_style = LinkStyle::MarkdownRelative;
    w.rename("mid.md", "sub/mid.md").unwrap();

    let index = read(&w, "index.md");
    assert!(index.contains("- '[Mid](sub/mid.md)'"), "{index:?}");
    let leaf = read(&w, "leaf.md");
    assert!(leaf.contains("part_of: sub/mid.md"), "{leaf:?}");
    let mid = read(&w, "sub/mid.md");
    assert!(mid.contains("part_of: ../index.md"), "{mid:?}");
    assert!(mid.contains("- ../leaf.md"), "{mid:?}");
    assert!(mid.contains("[[../leaf.md]]"), "{mid:?}");
}

#[test]
fn rename_retargets_every_inbound_reference_not_just_the_first() {
    let mut w = plain();
    put(
        &mut w,
        "index.md",
        "---\ntitle: Root\ncontents:\n- a.md\n- b.md\n---\n",
    );
    put(
        &mut w,
        "a.md",
        "---\npart_of: index.md\nlinks:\n- '[B 1](b.md#1)'\n- '[B 2](b.md#2)'\n\
         - '[elsewhere](index.md)'\n- '[B 3](b.md#3)'\n---\nAlso [[b.md#4|B 4]].\n",
    );
    put(&mut w, "b.md", "---\npart_of: index.md\n---\n");

    w.rename("b.md", "sub/b.md").unwrap();

    let a = read(&w, "a.md");
    assert!(a.contains("- '[B 1](/sub/b.md#1)'"), "{a:?}");
    assert!(a.contains("- '[B 2](/sub/b.md#2)'"), "{a:?}");
    assert!(a.contains("- '[B 3](/sub/b.md#3)'"), "{a:?}");
    assert!(a.contains("[[/sub/b.md#4|B 4]]"), "{a:?}");
    assert!(a.contains("- '[elsewhere](index.md)'"), "{a:?}");
    assert!(
        !a.contains("(b.md#"),
        "a stale target survived the move: {a}"
    );
    assert_eq!(check(&w, "index.md"), vec![]);
}

#[test]
fn rename_rerelativizes_path_wikilinks_and_spares_id_ones() {
    let mut w = plain();
    put(
        &mut w,
        "index.md",
        "---\ntitle: Root\ncontents:\n- mid.md\n---\n",
    );
    put(
        &mut w,
        "mid.md",
        "---\npart_of: index.md\n---\nSee [[leaf.md|the leaf]] and [[colophon:ajp7eqb|pinned]].\n",
    );
    put(&mut w, "leaf.md", "---\ntitle: Leaf\n---\n");

    w.rename("mid.md", "sub/mid.md").unwrap();

    let mid = read(&w, "sub/mid.md");
    assert!(mid.contains("[[/leaf.md|the leaf]]"), "{mid:?}");
    assert!(mid.contains("[[colophon:ajp7eqb|pinned]]"), "{mid:?}");
    assert!(mid.contains("part_of: /index.md"), "{mid:?}");
    assert!(mid.ends_with(".\n"), "body preserved: {mid:?}");
    assert!(
        read(&w, "index.md").contains("sub/mid.md"),
        "parent retargeted"
    );
}

#[test]
fn rename_rerelativizes_markdown_body_links_and_spares_external_and_code() {
    let mut w = plain();
    put(
        &mut w,
        "index.md",
        "---\ntitle: Root\ncontents:\n- mid.md\n---\n",
    );
    put(
        &mut w,
        "mid.md",
        "---\npart_of: index.md\n---\n\
         See [the leaf](leaf.md) and [home](https://ex.com).\n\n\
         ```\n[fake](leaf.md)\n```\n",
    );
    put(&mut w, "leaf.md", "---\ntitle: Leaf\n---\n");

    w.rename("mid.md", "sub/mid.md").unwrap();

    let mid = read(&w, "sub/mid.md");
    assert!(mid.contains("[the leaf](/leaf.md)"), "{mid:?}");
    assert!(mid.contains("[home](https://ex.com)"), "{mid:?}");
    assert!(
        mid.contains("[fake](leaf.md)"),
        "code fence left alone: {mid}"
    );
    assert!(
        read(&w, "index.md").contains("sub/mid.md"),
        "parent retargeted"
    );
}

#[test]
fn rename_leaves_cross_workspace_references_exactly_as_written() {
    let mut w = plain();
    put(
        &mut w,
        "index.md",
        "---\ntitle: Root\ncontents:\n- mid.md\n---\n",
    );
    put(
        &mut w,
        "mid.md",
        "---\npart_of: index.md\nlinks:\n- id:notes/ajp7eq\n- '[Their Note](id:diaryx/xk4m2p)'\n---\n\
         See [[id:notes/ajp7eq|Their Note]] and [that](id:diaryx/xk4m2p), plus [the leaf](leaf.md).\n",
    );
    put(&mut w, "leaf.md", "---\ntitle: Leaf\n---\n");

    w.rename("mid.md", "sub/mid.md").unwrap();

    let mid = read(&w, "sub/mid.md");
    assert!(mid.contains("- id:notes/ajp7eq"), "frontmatter bare: {mid:?}");
    assert!(
        mid.contains("[Their Note](id:diaryx/xk4m2p)"),
        "frontmatter labeled: {mid}"
    );
    assert!(
        mid.contains("[[id:notes/ajp7eq|Their Note]]"),
        "body wikilink: {mid}"
    );
    assert!(
        mid.contains("[that](id:diaryx/xk4m2p)"),
        "body markdown: {mid}"
    );
    assert!(mid.contains("[the leaf](/leaf.md)"), "control: {mid:?}");
}

#[test]
fn rename_retargets_inbound_markdown_body_links() {
    let mut w = plain();
    put(&mut w, "index.md", "---\ncontents:\n- a.md\n- b.md\n---\n");
    put(&mut w, "a.md", "---\npart_of: index.md\n---\n");
    put(
        &mut w,
        "b.md",
        "---\npart_of: index.md\n---\nAlso see [it](a.md) nearby.\n",
    );

    w.rename("a.md", "sub/a.md").unwrap();

    assert!(
        read(&w, "b.md").contains("[it](/sub/a.md)"),
        "inbound md link retargeted: {}",
        read(&w, "b.md")
    );
    assert_eq!(check(&w, "index.md"), vec![]);
}

#[test]
fn same_directory_rename_leaves_body_wikilinks_alone() {
    let mut w = plain();
    put(
        &mut w,
        "index.md",
        "---\ntitle: Root\ncontents:\n- a.md\n---\n",
    );
    put(
        &mut w,
        "a.md",
        "---\npart_of: index.md\n---\nlink to [[leaf.md]].\n",
    );
    put(&mut w, "leaf.md", "---\ntitle: Leaf\n---\n");

    w.rename("a.md", "b.md").unwrap();
    assert!(
        read(&w, "b.md").contains("[[leaf.md]]"),
        "unchanged in-place"
    );
}

#[test]
fn rename_retargets_overlay_and_body_inbound_links_anywhere() {
    let mut w = plain();
    put(&mut w, "index.md", "---\ncontents:\n- a.md\n- b.md\n---\n");
    put(&mut w, "a.md", "---\npart_of: index.md\n---\n");
    put(
        &mut w,
        "b.md",
        "---\npart_of: index.md\nlinks:\n- a.md\n---\nAlso see [[a.md]] nearby.\n",
    );

    w.rename("a.md", "sub/a.md").unwrap();

    assert!(
        read(&w, "index.md").contains("sub/a.md"),
        "parent retargeted"
    );
    let b = read(&w, "b.md");
    assert!(b.contains("- /sub/a.md"), "overlay links retargeted: {b:?}");
    assert!(b.contains("[[/sub/a.md]]"), "body wikilink retargeted: {b:?}");
    assert!(read(&w, "sub/a.md").contains("part_of: /index.md"));
    assert_eq!(check(&w, "index.md"), vec![]);
}

#[test]
fn id_links_survive_a_rename_without_any_text_edit() {
    let mut w = plain();
    put(
        &mut w,
        "index.md",
        "---\ntitle: Root\ncontents:\n- a.md\n---\n",
    );
    put(&mut w, "a.md", "---\npart_of: index.md\n---\n");

    w.settings.registration = Registration::lazy();
    w.settings.seed = 42;
    let id = w.register("a.md", Trigger::Link).unwrap();
    let updated = read(&w, "index.md").replace("- a.md", &format!("- id:{id}"));
    put(&mut w, "index.md", &updated);

        assert_eq!(w.spanning_subtree("index.md"), vec!["index.md".to_string(), "a.md".to_string()]);
    assert_eq!(check(&w, "index.md"), vec![]);

    w.rename("a.md", "sub/a.md").unwrap();
    let index_text = read(&w, "index.md");
    assert!(
        index_text.contains(&format!("id:{id}")),
        "id entry untouched: {index_text}"
    );
    assert_eq!(w.registry.resolve(&id), Some("sub/a.md".to_string()));
        assert_eq!(w.spanning_subtree("index.md"), vec!["index.md".to_string(), "sub/a.md".to_string()]);
    assert_eq!(check(&w, "index.md"), vec![]);
}

#[test]
fn paths_only_workspace_is_untouched_by_the_identity_layer() {
    let mut w = plain();
    put(&mut w, "index.md", "---\ncontents:\n- a.md\n---\n");
    put(&mut w, "a.md", "---\npart_of: index.md\n---\n");
    w.rename("a.md", "b.md").unwrap();
    w.delete("b.md", false).unwrap();
    assert_eq!(w.registry.id_for_path("b.md"), None);
}

#[test]
fn moving_a_separated_node_refuses_to_overwrite_an_occupied_body_path() {
    let mut w = plain();
    put(
        &mut w,
        "index.md",
        "---\ntitle: Root\ncontents:\n- notes.yaml\n---\n",
    );
    put(
        &mut w,
        "notes.yaml",
        "title: Notes\npart_of: index.md\ncontent: notes.md\n",
    );
    put(&mut w, "notes.md", "the prose\n");
    put(&mut w, "other.md", "PRECIOUS — must not be destroyed\n");

    let err = w.rename("notes.yaml", "other.yaml")
        .unwrap_err();
    assert!(
        err.message().contains("other.md"),
        "should name the blocker: {err:?}"
    );
    assert_eq!(
        read(&w, "other.md"),
        "PRECIOUS — must not be destroyed\n",
        "the move destroyed an unrelated document"
    );
    assert!(
        w.is_taken("notes.yaml"),
        "and the refused move changed nothing"
    );
}

#[test]
fn rename_refuses_to_take_a_path_the_registry_binds_to_a_different_id() {
    let mut w = plain();
    put(
        &mut w,
        "index.md",
        "---\ntitle: Home\ncontents:\n- p1.md\n---\n",
    );
    put(&mut w, "p1.md", "---\ntitle: P1\npart_of: index.md\n---\n");

    w.settings.registration = Registration::lazy();
    w.settings.seed = 42;
    let a = "aaaaaaa".to_string();
    let b = "bbbbbbb".to_string();
    w.registry.register(&a, "p1.md");
    w.registry.register(&b, "p2.md");

    let err = w.rename("p1.md", "p2.md").unwrap_err();
    assert!(
        matches!(
            err,
            Fault::PathTaken(_, _)
        ),
        "{err:?}"
    );
    assert!(
        err.message().contains("p2.md") && err.message().contains("bbbbbbb"),
        "the message must name the path and what it already carries: {err:?}"
    );

    assert!(w.is_taken("p1.md"));
    assert!(!w.is_taken("p2.md"));
    assert_eq!(w.registry.resolve(&a), Some("p1.md".to_string()));
    assert_eq!(w.registry.resolve(&b), Some("p2.md".to_string()));
}

#[test]
fn rename_maintains_links_to_a_document_that_declares_no_parent() {
    let mut w = plain();
    put(
        &mut w,
        "index.md",
        "---\ntitle: Root\nabout: about.md\ncontents:\n- a.md\n---\nSee [the page](about.md).\n",
    );
    put(&mut w, "about.md", "---\ntitle: About\n---\nprose\n");
    put(&mut w, "a.md", "---\ntitle: A\npart_of: index.md\n---\n");

    w.rename("about.md", "guide.md").unwrap();

    let root = read(&w, "index.md");
    assert!(
        root.contains("about: /guide.md"),
        "the pointer followed the move: {root}"
    );
    assert!(
        root.contains("[the page](/guide.md)"),
        "and so did the body link: {root}"
    );
    assert_eq!(check(&w, "index.md"), vec![]);
}

#[test]
fn renaming_the_root_still_roots_its_own_census() {
    let mut w = plain();
    put(
        &mut w,
        "index.md",
        "---\ntitle: Root\ncontents:\n- a.md\n---\n",
    );
    put(&mut w, "a.md", "---\ntitle: A\npart_of: index.md\n---\n");

    w.rename("index.md", "home.md").unwrap();

    assert!(
        read(&w, "a.md").contains("part_of: /home.md"),
        "the child's up-link followed the root"
    );
    assert_eq!(check(&w, "home.md"), vec![]);

    assert_eq!(w.separate("home.md").unwrap(), "home.yaml");
    assert!(read(&w, "a.md").contains("part_of: /home.yaml"));
    assert_eq!(check(&w, "home.yaml"), vec![]);
    assert_eq!(w.combine("home.yaml").unwrap(), "home.md");
    assert!(read(&w, "a.md").contains("part_of: /home.md"));
    assert_eq!(check(&w, "home.md"), vec![]);
}

fn shelf() -> Workspace {
    let mut w = plain();
    put(
        &mut w,
        "index.md",
        "---\ntitle: Shelf\ncontents:\n- '[A](/a.md)'\n- '[B](/b.md)'\n- '[C](/c.md)'\n---\n",
    );
    for name in ["a", "b", "c"] {
        put(
            &mut w,
            &format!("{name}.md"),
            format!(
                "---\ntitle: {}\npart_of: '[Shelf](/index.md)'\n---\n{name} body.\n",
                name.to_uppercase()
            ),
        );
    }
    w
}

fn positions(text: &str) -> Vec<usize> {
    ["/a.md", "/b.md", "/c.md"]
        .iter()
        .map(|needle| {
            text.find(needle)
                .unwrap_or_else(|| panic!("{needle} in {text:?}"))
        })
        .collect()
}

fn paths(names: &[&str]) -> Vec<String> {
    names.iter().map(|n| n.to_string()).collect()
}

#[test]
fn reorder_permutes_the_children_and_touches_nothing_else() {
    let mut w = shelf();
    let books_before: Vec<String> = ["a.md", "b.md", "c.md"]
        .iter()
        .map(|p| read(&w, p))
        .collect();

    let outcome =
        w.reorder("index.md", &paths(&["c.md", "a.md", "b.md"]))
            .unwrap();
    assert_eq!(outcome, Reordered::Moved);

    let shelf = read(&w, "index.md");
    let [a, b, c] = positions(&shelf)[..] else {
        unreachable!()
    };
    assert!(c < a && a < b, "c, a, b in that order: {shelf:?}");
    let books_after: Vec<String> = ["a.md", "b.md", "c.md"]
        .iter()
        .map(|p| read(&w, p))
        .collect();
    assert_eq!(books_after, books_before, "the children are not edited");
    assert_eq!(check(&w, "index.md"), vec![]);
}

#[test]
fn reorder_into_the_order_already_held_writes_nothing() {
    let mut w = shelf();
    let before = snapshot(&w);

    let outcome =
        w.reorder("index.md", &paths(&["a.md", "b.md", "c.md"]))
            .unwrap();
    assert_eq!(outcome, Reordered::Unchanged);
    assert_eq!(snapshot(&w), before, "nothing written");

    let outcome = w.reorder("index.md", &Vec::new()).unwrap();
    assert_eq!(outcome, Reordered::Unchanged);
    assert_eq!(snapshot(&w), before);
}

#[test]
fn reorder_refuses_a_path_the_parent_does_not_list() {
    let mut w = shelf();
    put(&mut w, "loose.md", "---\ntitle: Loose\n---\n");
    let before = snapshot(&w);

    let err = w.reorder("index.md", &paths(&["loose.md", "a.md"]))
        .unwrap_err();
    assert!(
        matches!(err, Fault::NotAChild(_, _)) && err.message().contains("not a child"),
        "{err:?}"
    );
    assert_eq!(snapshot(&w), before, "a refusal writes nothing");
}

#[test]
fn reorder_refuses_a_child_named_twice() {
    let mut w = shelf();
    let before = snapshot(&w);

    let err =
        w.reorder("index.md", &paths(&["b.md", "a.md", "b.md"]))
            .unwrap_err();
    assert!(
        matches!(err, Fault::NamedTwice(_, _)) && err.message().contains("named twice"),
        "{err:?}"
    );
    assert_eq!(snapshot(&w), before, "a refusal writes nothing");
}

#[test]
fn an_entry_the_caller_did_not_name_keeps_its_place() {
    let mut w = plain();
    put(
        &mut w,
        "index.md",
        "---\ntitle: Shelf\ncontents:\n- '[A](/a.md)'\n- id:other/zzzzzzz\n- '[C](/c.md)'\n---\n",
    );
    for name in ["a", "c"] {
        put(
            &mut w,
            &format!("{name}.md"),
            format!("---\ntitle: {name}\npart_of: '[Shelf](/index.md)'\n---\n"),
        );
    }

    let outcome =
        w.reorder("index.md", &paths(&["c.md", "a.md"])).unwrap();
    assert_eq!(outcome, Reordered::Moved);
    let shelf = read(&w, "index.md");
    let c = shelf.find("/c.md").unwrap();
    let foreign = shelf.find("id:other/zzzzzzz").unwrap();
    let a = shelf.find("/a.md").unwrap();
    assert!(
        c < foreign && foreign < a,
        "c, then the stranger where it was, then a: {shelf}"
    );
}

#[test]
fn reorder_keeps_a_comment_and_the_spelling_of_every_link() {
    let mut w = plain();
    put(
        &mut w,
        "index.md",
        "---\ntitle: Shelf\ncontents:\n- '[A](/a.md)' # the first book\n- b.md\n- '[[c.md]]'\n---\n",
    );
    for name in ["a", "b", "c"] {
        put(
            &mut w,
            &format!("{name}.md"),
            format!("---\ntitle: {name}\npart_of: '[Shelf](/index.md)'\n---\n"),
        );
    }

    w.reorder("index.md", &paths(&["b.md", "c.md", "a.md"]))
        .unwrap();
    let shelf = read(&w, "index.md");
    assert!(
        shelf.contains("- b.md"),
        "the bare spelling survives: {shelf}"
    );
    assert!(
        shelf.contains("- '[[c.md]]'"),
        "the wikilink survives: {shelf}"
    );
    assert!(
        shelf.contains("- '[A](/a.md)' # the first book"),
        "the labelled link and its comment survive together: {shelf}"
    );
    let b = shelf.find("- b.md").unwrap();
    let c = shelf.find("[[c.md]]").unwrap();
    let a = shelf.find("/a.md").unwrap();
    assert!(b < c && c < a, "b, c, a: {shelf:?}");
    assert_eq!(check(&w, "index.md"), vec![]);
}

#[test]
fn reparent_moves_a_node_in_the_tree_and_leaves_the_file_alone() {
    let mut w = plain();
    put(
        &mut w,
        "index.md",
        "---\ntitle: Home\ncontents:\n- '[Jul](/jul.md)'\n- '[Aug](/aug.md)'\n---\n",
    );
    put(
        &mut w,
        "jul.md",
        "---\ntitle: Jul\npart_of: '[Home](/index.md)'\ncontents:\n- '[Day](/day.md)'\n---\n",
    );
    put(
        &mut w,
        "aug.md",
        "---\ntitle: Aug\npart_of: '[Home](/index.md)'\ncontents:\n---\n",
    );
    put(
        &mut w,
        "day.md",
        "---\ntitle: Day\npart_of: '[Jul](/jul.md)'\n---\nProse survives.\n",
    );

    w.reparent("day.md", "aug.md").unwrap();

    assert!(
        !read(&w, "jul.md").contains("day.md"),
        "old parent forgot it: {}",
        read(&w, "jul.md")
    );
    assert!(
        read(&w, "aug.md").contains("day.md"),
        "new parent gained it: {}",
        read(&w, "aug.md")
    );
    let day = read(&w, "day.md");
    assert!(day.contains("/aug.md"), "inverse repointed: {day:?}");
    assert!(!day.contains("/jul.md"), "old inverse gone: {day:?}");
    assert!(day.contains("Prose survives."), "body untouched: {day:?}");
    assert!(w.is_taken("day.md"), "the path is preserved");
    assert_eq!(check(&w, "index.md"), vec![]);
}

#[test]
fn reparent_is_idempotent_and_adopts_an_unparented_child() {
    let mut w = plain();
    put(&mut w, "index.md", "---\ntitle: Home\n---\n");
    put(&mut w, "loose.md", "---\ntitle: Loose\n---\n");

    let first =
        w.reparent("loose.md", "index.md").unwrap();
    assert_eq!(first, Reparented::Moved);
    let once = read(&w, "index.md");
    let again =
        w.reparent("loose.md", "index.md").unwrap();
    assert_eq!(read(&w, "index.md"), once, "second run changes nothing");
    assert_eq!(again, Reparented::Unchanged, "and says so");
    assert_eq!(check(&w, "index.md"), vec![]);
}

#[test]
fn reparent_finishes_a_child_that_already_claims_the_parent() {
    let mut w = plain();
    put(&mut w, "index.md", "---\ntitle: Home\n---\n");
    put(
        &mut w,
        "loose.md",
        "---\ntitle: Loose\npart_of: '[Home](/index.md)'\n---\n",
    );

    let outcome =
        w.reparent("loose.md", "index.md").unwrap();
    assert_eq!(outcome, Reparented::Linked, "it linked rather than moved");
    assert!(
        read(&w, "index.md").contains("loose.md"),
        "the parent now lists the child it was already claimed by: {}",
        read(&w, "index.md")
    );
    assert_eq!(
        read(&w, "loose.md"),
        "---\ntitle: Loose\npart_of: '[Home](/index.md)'\n---\n"
    );
    assert_eq!(check(&w, "index.md"), vec![]);
}

#[test]
fn reparent_works_when_the_old_parent_is_no_longer_on_disk() {
    let mut w = plain();
    put(
        &mut w,
        "index.md",
        "---\ntitle: Home\ncontents:\n- '[Kid](/kid.md)'\n---\n",
    );
    put(&mut w, "kid.md", "---\ntitle: Kid\npart_of: /gone.md\n---\n");

    let outcome =
        w.reparent("kid.md", "index.md").unwrap();
    assert_eq!(outcome, Reparented::Moved);
    let kid = read(&w, "kid.md");
    assert!(
        kid.contains("/index.md"),
        "repointed at a live parent: {kid}"
    );
    assert!(!kid.contains("gone.md"), "the stale claim is gone: {kid:?}");
    assert_eq!(check(&w, "index.md"), vec![]);
}

#[test]
fn reparent_refuses_to_detach_a_subtree_under_its_own_descendant() {
    let mut w = plain();
    put(
        &mut w,
        "index.md",
        "---\ntitle: Home\ncontents:\n- '[A](/a.md)'\n---\n",
    );
    put(
        &mut w,
        "a.md",
        "---\ntitle: A\npart_of: '[Home](/index.md)'\ncontents:\n- '[B](/b.md)'\n---\n",
    );
    put(&mut w, "b.md", "---\ntitle: B\npart_of: '[A](/a.md)'\n---\n");

    let err = w.reparent("a.md", "b.md").unwrap_err();
    assert!(
        err.message().contains("detach both from the tree"),
        "{err:?}"
    );
    assert_eq!(check(&w, "index.md"), vec![]);
}

#[test]
fn retitle_refreshes_inbound_id_link_labels() {

    let by_id_labeled = ReferenceStyle {
        wrapper: Wrapper::Markdown,
        addressing: Addressing::Id,
        label: true,
        path_style: LinkStyle::MarkdownRoot,
    };
    let relations = up_and_down(None, Some(by_id_labeled));

    let mut w = plain();
    put(&mut w, "index.md", "---\ntitle: Root\n---\n");
    w.settings.registration = Registration::eager();
    w.settings.seed = 7;
    w.relations = relations;
    w.create_with_title("child.md", "index.md", "Child")
        .unwrap();

    assert!(
        read(&w, "child.md").contains("[Root](id:"),
        "{}",
        read(&w, "child.md")
    );

    let n = w.retitle("index.md", "Home Base").unwrap();
    assert_eq!(n, 1, "one inbound label refreshed");
    assert!(
        read(&w, "index.md").contains("Home Base"),
        "title updated: {}",
        read(&w, "index.md")
    );
    let child = read(&w, "child.md");
    assert!(
        child.contains("[Home Base](id:"),
        "label refreshed: {child}"
    );
    assert!(!child.contains("[Root]"), "old label gone: {child:?}");

    assert_eq!(
        w.retitle("index.md", "Home Base").unwrap(),
        0
    );
}

fn separated() -> Workspace {
    let mut w = plain();
    put(
        &mut w,
        "index.md",
        "---\ntitle: Home\ncontents:\n- note.yaml\n---\n",
    );
    put(
        &mut w,
        "note.yaml",
        "title: Note\npart_of: index.md\ncontent: note.md\n",
    );
    put(&mut w, "note.md", "hello world\n");
    w
}

#[test]
fn a_separated_body_round_trips_through_restamp_and_check() {
    let mut w = separated();

    assert!(
        w.restamp_fixity("note.yaml").unwrap(),
        "first stamp records a hash"
    );
    assert!(
        !w.restamp_fixity("note.yaml").unwrap(),
        "restamp of unchanged bytes writes nothing"
    );

    let expected = digest(read(&w, "note.md").as_bytes());
    let node = read(&w, "note.yaml");
    assert!(
        node.contains(&format!("content_hash: {expected}")),
        "{node}"
    );
    assert_eq!(check(&w, "index.md"), vec![]);

    put(&mut w, "note.md", "goodbye world\n");
    assert_eq!(w.content_state("note.yaml").unwrap(), ContentState::Drifted);
    assert!(w.restamp_fixity("note.yaml").unwrap());
    assert_eq!(check(&w, "index.md"), vec![]);
}

#[test]
fn a_combined_document_is_never_given_a_body_checksum() {
    let mut w = plain();
    put(
        &mut w,
        "index.md",
        "---\ntitle: Home\ncontents:\n- note.md\n---\n",
    );
    put(
        &mut w,
        "note.md",
        "---\ntitle: Note\npart_of: index.md\n---\nhello world\n",
    );

    assert!(
        !w.restamp_fixity("note.md").unwrap(),
        "a combined document has nothing to stamp"
    );
    assert_eq!(
        w.content_state("note.md").unwrap(),
        ContentState::Unrecorded
    );

    w.save_document(
        "note.md",
        "---\ntitle: Note\npart_of: index.md\n---\nedited\n",
        Some(("updated", "2026-09-02T00:00:00Z")),
    )
    .unwrap();
    let text = read(&w, "note.md");
    assert!(text.contains("edited"), "{text:?}");
    assert!(text.contains("updated: 2026-09-02T00:00:00Z"), "{text:?}");
    assert!(!text.contains("content_hash"), "{text:?}");
    assert_eq!(check(&w, "index.md"), vec![]);
}

#[test]
fn content_state_tells_the_four_situations_apart() {
    let mut w = separated();

    assert_eq!(
        w.content_state("note.yaml").unwrap(),
        ContentState::Unrecorded
    );

    assert!(w.restamp_fixity("note.yaml").unwrap());
    assert_eq!(
        w.content_state("note.yaml").unwrap(),
        ContentState::Intact
    );

    put(&mut w, "note.md", "edited\n");
    assert_eq!(
        w.content_state("note.yaml").unwrap(),
        ContentState::Drifted
    );
    let text = read(&w, "note.yaml");
    let line = text
        .lines()
        .find(|l| l.starts_with("content_hash:"))
        .unwrap()
        .to_string();
    put(&mut w, "note.yaml", text.replace(&line, "content_hash: blake9:deadbeef"));
    assert_eq!(
        w.content_state("note.yaml").unwrap(),
        ContentState::Unverifiable
    );
}

#[test]
fn content_state_reads_the_payload_for_an_attachment_not_the_sidecar() {
    let mut w = plain();
    put(
        &mut w,
        "index.md",
        "---\ntitle: Home\ncontents:\n- photo.jpg.yaml\n---\n",
    );
    put_bytes(&mut w, "photo.jpg", b"original bytes");
    put(
        &mut w,
        "photo.jpg.yaml",
        "title: Photo\npart_of: index.md\ncontent: photo.jpg\n",
    );
    assert!(w.restamp_fixity("photo.jpg.yaml").unwrap());
    assert_eq!(
        w.content_state("photo.jpg.yaml").unwrap(),
        ContentState::Intact
    );

    put_bytes(&mut w, "photo.jpg", b"replaced bytes");
    assert_eq!(
        w.content_state("photo.jpg.yaml").unwrap(),
        ContentState::Drifted
    );
}

#[test]
fn content_state_never_writes() {
    let mut w = separated();
    w.restamp_fixity("note.yaml").unwrap();
    put(&mut w, "note.md", "edited\n");
    let drifted = read(&w, "note.yaml");

    assert_eq!(
        w.content_state("note.yaml").unwrap(),
        ContentState::Drifted
    );
    assert_eq!(
        read(&w, "note.yaml"),
        drifted,
        "content_state must not write"
    );
}

#[test]
fn record_content_update_stamps_the_timestamp_field_and_the_hash_together() {
    let mut w = separated();

    assert!(
        w.record_content_update("note.yaml", Some(("updated", "2026-07-16T10:00:00Z")))
        .unwrap()
    );
    let text = read(&w, "note.yaml");
    assert!(text.contains("updated: 2026-07-16T10:00:00Z"), "{text:?}");
    assert!(text.contains("content_hash: sha256:"), "{text:?}");
    assert_eq!(check(&w, "index.md"), vec![]);

    assert!(
        w.record_content_update("note.yaml", Some(("updated", "2099-01-01T00:00:00Z")))
        .unwrap()
    );
    assert!(
        read(&w, "note.yaml")
            .contains("updated: 2099-01-01T00:00:00Z")
    );
}

#[test]
fn save_document_lands_the_new_text_and_both_stamps_in_one_write() {
    let mut w = separated();

    let edited = "title: Renamed\npart_of: index.md\ncontent: note.md\n";
    w.save_document(
        "note.yaml",
        edited,
        Some(("updated", "2026-08-06T09:00:00Z")),
    )
    .unwrap();

    let text = read(&w, "note.yaml");
    assert!(text.contains("title: Renamed"), "{text:?}");
    assert!(text.contains("updated: 2026-08-06T09:00:00Z"), "{text:?}");
    assert!(text.contains("content_hash: sha256:"), "{text:?}");
    assert_eq!(check(&w, "index.md"), vec![]);
}

#[test]
fn save_document_agrees_byte_for_byte_with_writing_then_recording() {
    let edited = "title: Rewritten\npart_of: index.md\ncontent: note.md\n";
    let stamp = Some(("updated", "2026-08-06T09:00:00Z"));

    let mut one_step = separated();
    one_step.save_document("note.yaml", edited, stamp).unwrap();

    let mut two_step = separated();
    put(&mut two_step, "note.yaml", edited);
    assert!(two_step.record_content_update("note.yaml", stamp).unwrap());

    assert_eq!(read(&one_step, "note.yaml"), read(&two_step, "note.yaml"));
}

#[test]
fn save_document_writes_the_text_even_when_no_stamp_applies() {
    let mut w = plain();
    put(&mut w, "index.md", "---\ntitle: Home\n---\nold\n");
    w.settings.fixity = false;

    w.save_document("index.md", "---\ntitle: Home\n---\nnew\n", None).unwrap();

    let text = read(&w, "index.md");
    assert!(text.contains("new"), "{text:?}");
    assert!(!text.contains("content_hash"), "{text:?}");
}

#[test]
fn save_document_refuses_a_path_that_escapes_the_root() {
    let mut w = plain();
    put(&mut w, "index.md", "---\ntitle: Home\n---\n");
    

    let err = w.save_document("../escape.md", "---\ntitle: X\n---\n", None)
        .expect_err("an escaping path must be refused");

    assert!(
        matches!(err, Fault::Escape(_)),
        "{err:?}"
    );
    assert!(!w.is_taken("../escape.md"));
}

#[test]
fn record_content_update_writes_a_timestamp_even_with_fixity_off() {
    let mut w = plain();
    put(
        &mut w,
        "index.md",
        "---\ntitle: Home\ncontents:\n- note.md\n---\n",
    );
    put(
        &mut w,
        "note.md",
        "---\ntitle: Note\npart_of: index.md\n---\nbody\n",
    );
    w.settings.fixity = false;

    assert!(
        w.record_content_update("note.md", Some(("modified", "2026-07-16T10:00:00Z")))
        .unwrap()
    );
    let text = read(&w, "note.md");
    assert!(text.contains("modified: 2026-07-16T10:00:00Z"), "{text:?}");
    assert!(
        !text.contains("content_hash"),
        "fixity off records no hash: {text}"
    );
}

#[test]
fn separate_refuses_to_take_a_path_the_registry_binds_to_a_different_id() {
    let mut w = plain();
    put(
        &mut w,
        "index.md",
        "---\ntitle: Home\ncontents:\n- doc.md\n---\n",
    );
    put(
        &mut w,
        "doc.md",
        "---\ntitle: Doc\npart_of: index.md\n---\nbody prose\n",
    );

    w.settings.registration = Registration::lazy();
    w.settings.seed = 42;
    let a = "aaaaaaa".to_string();
    let b = "bbbbbbb".to_string();
    w.registry.register(&a, "doc.md");
    w.registry.register(&b, "doc.yaml");

    let err = w.separate("doc.md").unwrap_err();
    assert!(
        matches!(
            err,
            Fault::PathTaken(_, _)
        ),
        "{err:?}"
    );
    assert!(err.message().contains("doc.yaml"), "{err:?}");

    assert!(w.is_taken("doc.md"));
    assert!(!w.is_taken("doc.yaml"));
    assert_eq!(w.registry.resolve(&a), Some("doc.md".to_string()));
    assert_eq!(w.registry.resolve(&b), Some("doc.yaml".to_string()));
}

#[test]
fn combine_refuses_to_take_a_path_the_registry_binds_to_a_different_id() {
    let mut w = plain();
    put(
        &mut w,
        "index.md",
        "---\ntitle: Home\ncontents:\n- doc.yaml\n---\n",
    );
    put(
        &mut w,
        "doc.yaml",
        "title: Doc\npart_of: index.md\ncontent: doc.md\n",
    );
    put(&mut w, "doc.md", "the prose\n");

    w.settings.registration = Registration::lazy();
    w.settings.seed = 42;
    let a = "aaaaaaa".to_string();
    let b = "bbbbbbb".to_string();
    w.registry.register(&a, "doc.yaml");
    w.registry.register(&b, "doc.md");

    let err = w.combine("doc.yaml").unwrap_err();
    assert!(
        matches!(
            err,
            Fault::PathTaken(_, _)
        ),
        "{err:?}"
    );
    assert!(err.message().contains("doc.md"), "{err:?}");

    assert!(w.is_taken("doc.yaml"));
    assert_eq!(read(&w, "doc.md"), "the prose\n", "unmerged, untouched");
    assert_eq!(w.registry.resolve(&a), Some("doc.yaml".to_string()));
    assert_eq!(w.registry.resolve(&b), Some("doc.md".to_string()));
}
