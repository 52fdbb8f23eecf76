use mdbook_preprocessor_utils::replace::{
    apply_replacements, check_replacements, sort_replacements, splice,
};
use mdbook_preprocessor_utils::resolve::{asset_rel_path, ext_of, render_link, up_prefix_for};
use mdbook_preprocessor_utils::paths::{join_path, last_index_of, parent_of};
use mdbook_preprocessor_utils::{Error, HtmlElementBuilder, Replacement};

fn rep(start: usize, end: usize, text: &str) -> Replacement {
    Replacement { start, end, text: text.to_string() }
}

/// A straightforward left-to-right splicer with running offset correction,
/// written independently of the library.
fn left_to_right(original: &str, mut reps: Vec<(usize, usize, String)>) -> String {
    reps.sort_by_key(|r| r.0);
    let mut chars: Vec<char> = original.chars().collect();
    let mut delta: isize = 0;
    for (start, end, text) in reps {
        let s = (start as isize + delta) as usize;
        let e = (end as isize + delta) as usize;
        let replacement: Vec<char> = text.chars().collect();
        delta += replacement.len() as isize - (e - s) as isize;
        chars.splice(s..e, replacement);
    }
    chars.into_iter().collect()
}

#[test]
fn splice_replaces_span() {
    let out = splice("hello world", 0, 5, "goodbye");
    assert_eq!(out, "goodbye world");
}

#[test]
fn apply_two_replacements() {
    let mut content = "hello world".to_string();
    let reps = vec![rep(6, 11, "moon"), rep(0, 5, "goodbye")];
    let r = apply_replacements(&mut content, reps);
    assert!(r.is_ok());
    assert_eq!(content, "goodbye moon");
}

#[test]
fn apply_empty_set_leaves_text() {
    let mut content = "unchanged".to_string();
    let r = apply_replacements(&mut content, Vec::new());
    assert!(r.is_ok());
    assert_eq!(content, "unchanged");
}

#[test]
fn apply_agrees_with_left_to_right() {
    // Offset safety: descending application equals left-to-right splicing
    // with running offset correction, on several shapes of input.
    let cases: Vec<(&str, Vec<(usize, usize, &str)>)> = vec![
        ("hello world", vec![(0, 5, "goodbye"), (6, 11, "moon")]),
        ("abcdef", vec![(1, 2, ""), (3, 3, "xyz"), (5, 6, "Q")]),
        ("0123456789", vec![(8, 10, "."), (0, 1, "long prefix"), (4, 6, "mid")]),
        ("insertion points", vec![(9, 9, "-"), (0, 0, ">"), (16, 16, "<")]),
        ("ab", vec![(1, 1, "x"), (1, 1, "y")]),
    ];
    for (original, raw) in cases {
        let reps: Vec<Replacement> = raw.iter().map(|&(s, e, t)| rep(s, e, t)).collect();
        let spliced = left_to_right(
            original,
            raw.iter().map(|&(s, e, t)| (s, e, t.to_string())).collect(),
        );
        let mut content = original.to_string();
        apply_replacements(&mut content, reps).unwrap();
        assert_eq!(content, spliced);
    }
}

#[test]
fn overlapping_spans_rejected() {
    let mut content = "hello world".to_string();
    let reps = vec![rep(0, 6, "a"), rep(5, 11, "b")];
    let r = apply_replacements(&mut content, reps);
    assert!(matches!(r, Err(Error::MalformedReplacement)));
    assert_eq!(content, "hello world");
}

#[test]
fn out_of_bounds_span_rejected() {
    let mut content = "short".to_string();
    let r = apply_replacements(&mut content, vec![rep(0, 99, "x")]);
    assert!(matches!(r, Err(Error::MalformedReplacement)));
    assert_eq!(content, "short");
}

#[test]
fn inverted_span_rejected() {
    let mut content = "short".to_string();
    let r = apply_replacements(&mut content, vec![rep(3, 1, "x")]);
    assert!(matches!(r, Err(Error::MalformedReplacement)));
    assert_eq!(content, "short");
}

#[test]
fn sort_is_stable_on_equal_starts() {
    let sorted = sort_replacements(vec![rep(5, 7, "late"), rep(2, 2, "a"), rep(2, 2, "b")]);
    let texts: Vec<&str> = sorted.iter().map(|r| r.text.as_str()).collect();
    assert_eq!(texts, vec!["a", "b", "late"]);
}

#[test]
fn check_accepts_touching_spans() {
    let sorted = sort_replacements(vec![rep(0, 3, "x"), rep(3, 5, "y")]);
    assert!(check_replacements(&sorted, 5));
    assert!(!check_replacements(&sorted, 4));
}

#[test]
fn rel_path_depth_zero_is_direct_child() {
    assert_eq!(asset_rel_path(0, "embed", "a.js"), "embed/a.js");
}

#[test]
fn rel_path_depth_two_has_two_parent_segments() {
    assert_eq!(asset_rel_path(2, "embed", "a.js"), "../../embed/a.js");
}

#[test]
fn up_prefix_counts_directory_components() {
    assert_eq!(up_prefix_for(""), "");
    assert_eq!(up_prefix_for("foo"), "../");
    assert_eq!(up_prefix_for("foo/bar"), "../../");
}

#[test]
fn extension_dispatch_js() {
    assert_eq!(
        render_link("embed/a.js", "a.js").as_deref(),
        Some(r#"<script type="text/javascript" src="embed/a.js"></script>"#)
    );
}

#[test]
fn extension_dispatch_mjs() {
    assert_eq!(
        render_link("embed/b.mjs", "b.mjs").as_deref(),
        Some(r#"<script type="module" src="embed/b.mjs"></script>"#)
    );
}

#[test]
fn extension_dispatch_css() {
    assert_eq!(
        render_link("embed/c.css", "c.css").as_deref(),
        Some(r#"<link rel="stylesheet" type="text/css" href="embed/c.css">"#)
    );
}

#[test]
fn extension_dispatch_other_skipped() {
    assert_eq!(render_link("embed/d.png", "d.png"), None);
    assert_eq!(render_link("embed/noext", "noext"), None);
    assert_eq!(render_link("embed/.hidden", ".hidden"), None);
}

#[test]
fn ext_of_cases() {
    assert_eq!(ext_of("a.js").as_deref(), Some("js"));
    assert_eq!(ext_of("archive.tar.gz").as_deref(), Some("gz"));
    assert_eq!(ext_of("noext"), None);
    assert_eq!(ext_of(".hidden"), None);
}

#[test]
fn path_helpers() {
    assert_eq!(parent_of("foo/bar/ch.md"), "foo/bar");
    assert_eq!(parent_of("ch.md"), "");
    assert_eq!(join_path("a", "b"), "a/b");
    assert_eq!(join_path("", "b"), "b");
    assert_eq!(join_path("a", ""), "a");
    assert_eq!(last_index_of("a.b.c", '.'), Some(3));
    assert_eq!(last_index_of("abc", '.'), None);
}

#[test]
fn builder_plain_attribute() {
    let html = HtmlElementBuilder::new().attr("class", "aside").finish();
    assert_eq!(html, r#"<div class="aside"></div>"#);
}

#[test]
fn builder_escapes_attribute_value() {
    let html = HtmlElementBuilder::new().attr("title", "a \"b\" <&> c").finish();
    assert_eq!(html, r#"<div title="a &quot;b&quot; &lt;&amp;&gt; c"></div>"#);
}

#[test]
fn builder_data_attribute_escapes_json() {
    let json = serde_json::to_string(&vec!["x", "y"]).unwrap();
    let html = HtmlElementBuilder::new().data("items", &json).finish();
    assert_eq!(html, r#"<div data-items="[&quot;x&quot;,&quot;y&quot;]"></div>"#);
}

#[test]
fn error_messages() {
    assert_eq!(
        Error::Config("no table".to_string()).message(),
        "configuration error: no table"
    );
    assert_eq!(
        Error::Transform("bad chapter".to_string()).message(),
        "transformation error: bad chapter"
    );
    assert_eq!(Error::Io("disk full".to_string()).message(), "i/o error: disk full");
    assert_eq!(
        Error::MalformedReplacement.message(),
        "malformed replacement: overlapping or out-of-bounds spans"
    );
}
