//! The asset link resolver: builds the relative path from a chapter at a
//! given nesting depth to a shared asset, and renders the embed markup for
//! the asset's file type. Assets with a `.js`, `.mjs` or `.css` extension
//! get a script or stylesheet tag; any other extension is silently skipped.

use vstd::prelude::*;
use vstd::string::*;
use crate::paths::{count_char, last_index, last_index_of, spec_depth};

verus! {

/// `depth` copies of the parent-directory segment `../`.
pub open spec fn spec_up_prefix(depth: nat) -> Seq<char>
    decreases depth,
{
    if depth == 0 {
        Seq::empty()
    } else {
        "../"@ + spec_up_prefix((depth - 1) as nat)
    }
}

/// The parent-directory prefix grows one segment at a time, on either side.
pub proof fn lemma_up_prefix_snoc(depth: nat)
    ensures
        spec_up_prefix(depth + 1) == spec_up_prefix(depth) + "../"@,
    decreases depth,
{
    if depth == 0 {
        assert(spec_up_prefix(1) =~= spec_up_prefix(0) + "../"@);
    } else {
        lemma_up_prefix_snoc((depth - 1) as nat);
        assert(spec_up_prefix(depth + 1) =~= spec_up_prefix(depth) + "../"@);
    }
}

/// The relative reference from a chapter at nesting depth `depth` to the
/// asset `name` in the shared directory named after the plugin `ns`.
pub open spec fn spec_rel_path(depth: nat, ns: Seq<char>, name: Seq<char>) -> Seq<char> {
    spec_up_prefix(depth) + ns + "/"@ + name
}

/// Depth correctness: a reference from depth `depth` is exactly the
/// depth-zero reference — the direct child path `ns/name`, with no
/// parent segments — prefixed by `depth` parent-directory segments of
/// three characters each.
pub proof fn lemma_depth_prefix_structure(depth: nat, ns: Seq<char>, name: Seq<char>)
    ensures
        spec_rel_path(depth, ns, name) == spec_up_prefix(depth) + spec_rel_path(0, ns, name),
        spec_rel_path(0, ns, name) == ns + "/"@ + name,
        spec_up_prefix(depth).len() == 3 * depth,
    decreases depth,
{
    reveal_strlit("../");
    assert(spec_rel_path(depth, ns, name) =~= spec_up_prefix(depth) + spec_rel_path(0, ns, name));
    assert(spec_rel_path(0, ns, name) =~= ns + "/"@ + name);
    if depth > 0 {
        lemma_depth_prefix_structure((depth - 1) as nat, ns, name);
    }
}

/// Build the relative reference from a chapter at nesting depth `depth` to
/// the asset `name` in the shared directory `namespace`.
pub fn asset_rel_path(depth: usize, namespace: &str, name: &str) -> (r: String)
    ensures
        r@ == spec_rel_path(depth as nat, namespace@, name@),
{
    let mut out = String::new();
    let mut i: usize = 0;
    while i < depth
        invariant
            i <= depth,
            out@ == spec_up_prefix(i as nat),
        decreases depth - i,
    {
        proof {
            lemma_up_prefix_snoc(i as nat);
        }
        out.append("../");
        i += 1;
    }
    out.append(namespace);
    out.append("/");
    out.append(name);
    out
}

/// Build the parent-directory prefix for a chapter whose source file sits
/// in the directory `parent` relative to the book source root: one `../`
/// segment per component of `parent`.
pub fn up_prefix_for(parent: &str) -> (r: String)
    ensures
        r@ == spec_up_prefix(spec_depth(parent@)),
{
    let mut out = String::new();
    if parent.is_empty() {
        return out;
    }
    out.append("../");
    let n = parent.unicode_len();
    let mut i: usize = 0;
    proof {
        assert(parent@.take(0) =~= Seq::<char>::empty());
        assert(spec_up_prefix(0) =~= Seq::<char>::empty());
        assert(out@ =~= spec_up_prefix(1));
    }
    while i < n
        invariant
            i <= n,
            n == parent@.len(),
            out@ == spec_up_prefix(count_char(parent@.take(i as int), '/') + 1),
        decreases n - i,
    {
        let c = parent.get_char(i);
        proof {
            let t1 = parent@.take(i + 1);
            assert(t1.last() == parent@[i as int]);
            assert(t1.drop_last() =~= parent@.take(i as int));
            lemma_up_prefix_snoc(count_char(parent@.take(i as int), '/') + 1);
        }
        if c == '/' {
            out.append("../");
        }
        i += 1;
    }
    proof {
        assert(parent@.take(n as int) =~= parent@);
    }
    out
}

/// The file extension of an asset name: the characters after the last `.`,
/// or nothing when the name has no `.` or starts with its only one.
pub open spec fn spec_ext(name: Seq<char>) -> Option<Seq<char>> {
    let p = last_index(name, '.');
    if p <= 0 {
        None
    } else {
        Some(name.subrange(p + 1, name.len() as int))
    }
}

/// The file extension of an asset name.
pub fn ext_of(name: &str) -> (r: Option<String>)
    ensures
        match r {
            Some(e) => spec_ext(name@) == Some(e@),
            None => spec_ext(name@) is None,
        },
{
    proof {
        crate::paths::lemma_last_index(name@, '.');
    }
    match last_index_of(name, '.') {
        None => None,
        Some(i) => {
            if i == 0 {
                None
            } else {
                let n = name.unicode_len();
                assert(i < n);
                Some(name.substring_char(i + 1, n).to_owned())
            }
        },
    }
}

/// The embed markup for the asset `name` reached through the relative
/// reference `rel`: a classic script tag for `.js`, a module script tag
/// for `.mjs`, a stylesheet link tag for `.css`, and nothing for any
/// other extension.
pub open spec fn spec_render_link(rel: Seq<char>, name: Seq<char>) -> Option<Seq<char>> {
    if spec_ext(name) == Some("js"@) {
        Some("<script type=\"text/javascript\" src=\""@ + rel + "\"></script>"@)
    } else if spec_ext(name) == Some("mjs"@) {
        Some("<script type=\"module\" src=\""@ + rel + "\"></script>"@)
    } else if spec_ext(name) == Some("css"@) {
        Some("<link rel=\"stylesheet\" type=\"text/css\" href=\""@ + rel + "\">"@)
    } else {
        None
    }
}

/// Compare two strings character by character.
pub fn str_eq(a: &str, b: &str) -> (r: bool)
    ensures
        r == (a@ == b@),
{
    let n = a.unicode_len();
    let m = b.unicode_len();
    if n != m {
        return false;
    }
    let mut i: usize = 0;
    while i < n
        invariant
            i <= n,
            n == a@.len(),
            n == b@.len(),
            forall|k: int| 0 <= k < i ==> a@[k] == b@[k],
        decreases n - i,
    {
        if a.get_char(i) != b.get_char(i) {
            return false;
        }
        i += 1;
    }
    proof {
        assert(a@ =~= b@);
    }
    true
}

/// Render the embed markup for the asset `name` through the relative
/// reference `rel`, or nothing when the asset's extension asks for no
/// markup.
pub fn render_link(rel: &str, name: &str) -> (r: Option<String>)
    ensures
        match r {
            Some(m) => spec_render_link(rel@, name@) == Some(m@),
            None => spec_render_link(rel@, name@) is None,
        },
{
    let ext = match ext_of(name) {
        None => {
            return None;
        },
        Some(e) => e,
    };
    if str_eq(ext.as_str(), "js") {
        let mut s = String::from_str("<script type=\"text/javascript\" src=\"");
        s.append(rel);
        s.append("\"></script>");
        Some(s)
    } else if str_eq(ext.as_str(), "mjs") {
        let mut s = String::from_str("<script type=\"module\" src=\"");
        s.append(rel);
        s.append("\"></script>");
        Some(s)
    } else if str_eq(ext.as_str(), "css") {
        let mut s = String::from_str("<link rel=\"stylesheet\" type=\"text/css\" href=\"");
        s.append(rel);
        s.append("\">");
        Some(s)
    } else {
        None
    }
}

} // verus!
