use std::collections::HashMap;

use mdbook_preprocessor_utils::assets::materialization_plan;
use mdbook_preprocessor_utils::book::{collect_chapters, process_book};
use mdbook_preprocessor_utils::processor::{
    process_chapters, process_chapters_parallel, transform_chapter,
};
use mdbook_preprocessor_utils::{
    Asset, BuildContext, Chapter, ChapterSource, Error, Replacement, SimplePreprocessor,
};

/// Replaces the first occurrence of `TOKEN` in a chapter by a span; a pure
/// function of the chapter's text.
struct TokenPlugin;

impl SimplePreprocessor for TokenPlugin {
    fn name() -> &'static str {
        "token"
    }

    fn build(_ctx: &BuildContext) -> Result<Self, Error> {
        Ok(TokenPlugin)
    }

    fn replacements(
        &self,
        _chapter_dir: &str,
        content: &str,
    ) -> Result<Vec<Replacement>, Error> {
        match content.find("TOKEN") {
            Some(byte_start) => {
                // The text is ASCII in these tests, so byte offsets are
                // character offsets.
                let start = byte_start;
                Ok(vec![Replacement {
                    start,
                    end: start + 5,
                    text: "<span>done</span>".to_string(),
                }])
            }
            None => Ok(Vec::new()),
        }
    }

    fn linked_assets(&self) -> Vec<Asset> {
        vec![
            Asset { name: "a.js", contents: b"js" },
            Asset { name: "b.mjs", contents: b"mjs" },
            Asset { name: "c.css", contents: b"css" },
            Asset { name: "d.png", contents: b"png" },
        ]
    }

    fn all_assets(&self) -> Vec<Asset> {
        vec![Asset { name: "a.js", contents: b"js" }, Asset { name: "d.png", contents: b"png" }]
    }

    fn finish(self) {}
}

/// Fails on any chapter whose text contains `FAIL`.
struct FailingPlugin;

impl SimplePreprocessor for FailingPlugin {
    fn name() -> &'static str {
        "failing"
    }

    fn build(_ctx: &BuildContext) -> Result<Self, Error> {
        Ok(FailingPlugin)
    }

    fn replacements(
        &self,
        _chapter_dir: &str,
        content: &str,
    ) -> Result<Vec<Replacement>, Error> {
        if content.contains("FAIL") {
            Err(Error::Transform("refused chapter".to_string()))
        } else {
            Ok(vec![Replacement { start: 0, end: 0, text: ">".to_string() }])
        }
    }

    fn linked_assets(&self) -> Vec<Asset> {
        Vec::new()
    }

    fn all_assets(&self) -> Vec<Asset> {
        Vec::new()
    }

    fn finish(self) {}
}

/// Returns no replacements and refuses to be asked for assets: a chapter
/// with an empty replacement set must see no further processing.
struct IdlePlugin;

impl SimplePreprocessor for IdlePlugin {
    fn name() -> &'static str {
        "idle"
    }

    fn build(_ctx: &BuildContext) -> Result<Self, Error> {
        Ok(IdlePlugin)
    }

    fn replacements(
        &self,
        _chapter_dir: &str,
        _content: &str,
    ) -> Result<Vec<Replacement>, Error> {
        Ok(Vec::new())
    }

    fn linked_assets(&self) -> Vec<Asset> {
        panic!("a chapter with no replacements must not ask for linked assets");
    }

    fn all_assets(&self) -> Vec<Asset> {
        Vec::new()
    }

    fn finish(self) {}
}

fn chapter(dir: &str, content: &str) -> ChapterSource {
    ChapterSource { rel_dir: dir.to_string(), content: content.to_string() }
}

#[test]
fn noop_leaves_chapter_untouched() {
    // Idempotence of no-op: zero replacements mean byte-identical text and
    // no appended asset links.
    let sp = TokenPlugin;
    let mut chapters = vec![chapter("", "no marker here")];
    process_chapters(&sp, "src", "token", &mut chapters).unwrap();
    assert_eq!(chapters[0].content, "no marker here");
}

#[test]
fn noop_skips_link_resolution_entirely() {
    // The empty-set fast path is a contract: no link resolution happens,
    // so a plugin whose linked_assets panics is never asked for them.
    let sp = IdlePlugin;
    let mut chapters = vec![chapter("a", "untouched text")];
    process_chapters(&sp, "src", "idle", &mut chapters).unwrap();
    assert_eq!(chapters[0].content, "untouched text");
}

#[test]
fn empty_chapter_list_succeeds() {
    let sp = FailingPlugin;
    let mut none: Vec<ChapterSource> = Vec::new();
    assert!(process_chapters(&sp, "src", "failing", &mut none).is_ok());
    assert!(process_chapters_parallel(&sp, "src", "failing", &mut none).is_ok());
    let mut empty_tree: Vec<Chapter> = Vec::new();
    assert!(process_book(FailingPlugin, "src", &mut empty_tree).is_ok());
    assert!(empty_tree.is_empty());
}

#[test]
fn extension_dispatch_appends_three_tags_in_order() {
    // Linking a.js, b.mjs, c.css and d.png yields exactly three embed
    // tags, in the declared order, and none for d.png.
    let sp = TokenPlugin;
    let mut chapters = vec![chapter("", "a TOKEN b")];
    process_chapters(&sp, "src", "token", &mut chapters).unwrap();
    let mut expected = String::from("a <span>done</span> b\n\n");
    expected.push_str(r#"<script type="text/javascript" src="token/a.js"></script>"#);
    expected.push_str(r#"<script type="module" src="token/b.mjs"></script>"#);
    expected.push_str(r#"<link rel="stylesheet" type="text/css" href="token/c.css">"#);
    assert_eq!(chapters[0].content, expected);
}

#[test]
fn depth_prefixes_asset_references() {
    // A chapter at nesting depth two gets two parent-directory segments;
    // one at depth zero gets a direct child reference.
    let sp = TokenPlugin;
    let mut chapters = vec![chapter("foo/bar", "TOKEN"), chapter("", "TOKEN")];
    process_chapters(&sp, "src", "token", &mut chapters).unwrap();
    assert!(chapters[0].content.contains(r#"src="../../token/a.js""#));
    assert!(chapters[1].content.contains(r#"src="token/a.js""#));
    assert!(!chapters[1].content.contains("../"));
}

#[test]
fn parallel_matches_sequential_on_hundred_chapters() {
    // Isolation: a pure plugin gives the same tree whether the chapters
    // are processed one at a time or concurrently.
    let sp = TokenPlugin;
    let mut seq_chapters: Vec<ChapterSource> = (0..100)
        .map(|i| chapter(&format!("d{}", i % 7), &format!("chapter {} has a TOKEN inside", i)))
        .collect();
    let mut par_chapters: Vec<ChapterSource> = seq_chapters
        .iter()
        .map(|c| ChapterSource { rel_dir: c.rel_dir.clone(), content: c.content.clone() })
        .collect();
    process_chapters(&sp, "src", "token", &mut seq_chapters).unwrap();
    process_chapters_parallel(&sp, "src", "token", &mut par_chapters).unwrap();
    for (s, p) in seq_chapters.iter().zip(par_chapters.iter()) {
        assert_eq!(s.rel_dir, p.rel_dir);
        assert_eq!(s.content, p.content);
    }
}

#[test]
fn abort_on_failure_keeps_earlier_mutations() {
    // Abort on failure: chapters before the failing one keep their
    // mutations, the failing one and the rest stay untouched.
    let sp = FailingPlugin;
    let mut chapters = vec![
        chapter("", "first"),
        chapter("", "second"),
        chapter("", "FAIL here"),
        chapter("", "fourth"),
    ];
    let r = process_chapters(&sp, "src", "failing", &mut chapters);
    assert!(matches!(r, Err(Error::Transform(_))));
    assert_eq!(chapters[0].content, ">first\n\n");
    assert_eq!(chapters[1].content, ">second\n\n");
    assert_eq!(chapters[2].content, "FAIL here");
    assert_eq!(chapters[3].content, "fourth");
}

#[test]
fn transform_rejects_malformed_plugin_output() {
    let mut content = "abc".to_string();
    let reps = vec![
        Replacement { start: 0, end: 2, text: "x".to_string() },
        Replacement { start: 1, end: 3, text: "y".to_string() },
    ];
    let r = transform_chapter(&mut content, reps, &Vec::<Asset>::new(), "", "ns");
    assert!(matches!(r, Err(Error::MalformedReplacement)));
    assert_eq!(content, "abc");
}

#[test]
fn collect_flattens_depth_first_and_skips_group_nodes() {
    let tree = vec![
        Chapter {
            path: None,
            content: "part heading".to_string(),
            children: vec![Chapter {
                path: Some("intro.md".to_string()),
                content: "intro".to_string(),
                children: Vec::new(),
            }],
        },
        Chapter {
            path: Some("guide/start.md".to_string()),
            content: "start".to_string(),
            children: vec![Chapter {
                path: Some("guide/deep/inner.md".to_string()),
                content: "inner".to_string(),
                children: Vec::new(),
            }],
        },
    ];
    let flat = collect_chapters(&tree);
    let got: Vec<(&str, &str)> =
        flat.iter().map(|c| (c.rel_dir.as_str(), c.content.as_str())).collect();
    assert_eq!(got, vec![("", "intro"), ("guide", "start"), ("guide/deep", "inner")]);
}

#[test]
fn process_book_rewrites_chapters_and_keeps_shape() {
    let mut tree = vec![Chapter {
        path: None,
        content: "group text stays".to_string(),
        children: vec![
            Chapter {
                path: Some("a/one.md".to_string()),
                content: "a TOKEN".to_string(),
                children: Vec::new(),
            },
            Chapter {
                path: Some("two.md".to_string()),
                content: "quiet".to_string(),
                children: Vec::new(),
            },
        ],
    }];
    let sp = TokenPlugin;
    process_book(sp, "src", &mut tree).unwrap();
    assert_eq!(tree.len(), 1);
    assert_eq!(tree[0].path, None);
    assert_eq!(tree[0].content, "group text stays");
    let one = &tree[0].children[0];
    assert_eq!(one.path.as_deref(), Some("a/one.md"));
    assert!(one.content.starts_with("a <span>done</span>\n\n"));
    assert!(one.content.contains(r#"src="../token/a.js""#));
    let two = &tree[0].children[1];
    assert_eq!(two.content, "quiet");
}

#[test]
fn process_book_failure_keeps_shape_and_reports_error() {
    let mut tree = vec![Chapter {
        path: Some("ok.md".to_string()),
        content: "fine".to_string(),
        children: vec![Chapter {
            path: Some("bad.md".to_string()),
            content: "FAIL".to_string(),
            children: Vec::new(),
        }],
    }];
    let r = process_book(FailingPlugin, "src", &mut tree);
    assert!(matches!(r, Err(Error::Transform(_))));
    assert_eq!(tree.len(), 1);
    assert_eq!(tree[0].path.as_deref(), Some("ok.md"));
    assert_eq!(tree[0].children[0].content, "FAIL");
}

#[test]
fn materialization_plan_targets_namespaced_directory() {
    let sp = TokenPlugin;
    let plan = materialization_plan("book/src", TokenPlugin::name(), &sp.all_assets());
    assert_eq!(plan.dir, "book/src/token");
    let got: Vec<(&str, &[u8])> =
        plan.writes.iter().map(|w| (w.path.as_str(), w.contents)).collect();
    assert_eq!(
        got,
        vec![
            ("book/src/token/a.js", b"js" as &[u8]),
            ("book/src/token/d.png", b"png" as &[u8]),
        ]
    );
}

#[test]
fn materialization_twice_equals_once() {
    // Materialization idempotence, on a directory modeled as a map from
    // path to bytes with overwriting writes.
    let sp = TokenPlugin;
    let plan = materialization_plan("book/src", TokenPlugin::name(), &sp.all_assets());
    let mut once: HashMap<String, Vec<u8>> = HashMap::new();
    once.insert("book/src/token/stale.js".to_string(), b"old".to_vec());
    for w in plan.writes.iter() {
        once.insert(w.path.clone(), w.contents.to_vec());
    }
    let mut twice = once.clone();
    for w in plan.writes.iter() {
        twice.insert(w.path.clone(), w.contents.to_vec());
    }
    assert_eq!(once, twice);
}
