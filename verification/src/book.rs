//! The chapter collector and the book-level driver. A book is a tree of
//! nodes with ordered children; a node with a source path is a chapter
//! and is processed, a node without one is a structural grouping and is
//! only traversed. The collector flattens the tree depth-first, parents
//! before their children, into the list the processing driver works on;
//! after processing, the texts are put back in the same order.

use vstd::prelude::*;
use vstd::string::*;
use crate::errors::Error;
use crate::paths::spec_parent;
use crate::processor::{
    chapter_processed, chapter_view, entry_processed, process_chapters_parallel, ChapterSource,
    SimplePreprocessor,
};

verus! {

/// A node of the book tree: an optional source path relative to the book
/// source root, the node's text, and its ordered children.
pub struct Chapter {
    pub path: Option<String>,
    pub content: String,
    pub children: Vec<Chapter>,
}

/// The node's path as a mathematical value.
pub open spec fn path_view(c: Chapter) -> Option<Seq<char>> {
    match c.path {
        Some(p) => Some(p@),
        None => None,
    }
}

/// What one node contributes to the collected list: chapters contribute
/// the directory of their source file and their text, grouping nodes
/// contribute nothing.
pub open spec fn node_entry(c: Chapter) -> Seq<(Seq<char>, Seq<char>)> {
    match c.path {
        Some(p) => seq![(spec_parent(p@), c.content@)],
        None => Seq::empty(),
    }
}

/// The collected chapters of a forest, depth-first, each parent before
/// its children, in document order.
pub open spec fn spec_collect(cs: Seq<Chapter>) -> Seq<(Seq<char>, Seq<char>)>
    decreases cs,
{
    if cs.len() == 0 {
        Seq::empty()
    } else {
        node_entry(cs[0]) + spec_collect(cs[0].children@) + spec_collect(cs.drop_first())
    }
}

/// A list of collected chapters as mathematical values.
pub open spec fn sources_view(s: Seq<ChapterSource>) -> Seq<(Seq<char>, Seq<char>)> {
    s.map_values(|c: ChapterSource| chapter_view(c))
}

/// Two forests have the same shape: node for node the same paths, the
/// same texts on grouping nodes, and children of the same shape.
pub open spec fn same_structure(a: Seq<Chapter>, b: Seq<Chapter>) -> bool
    decreases b,
{
    a.len() == b.len() && (b.len() == 0 || (path_view(a[0]) == path_view(b[0]) && (path_view(b[0]) is None
        ==> a[0].content@ == b[0].content@) && same_structure(a[0].children@, b[0].children@)
        && same_structure(a.drop_first(), b.drop_first())))
}

proof fn lemma_collect_snoc(s: Seq<Chapter>, c: Chapter)
    ensures
        spec_collect(s.push(c)) == spec_collect(s) + node_entry(c) + spec_collect(c.children@),
    decreases s.len(),
{
    if s.len() == 0 {
        assert(s.push(c)[0] == c);
        assert(s.push(c).drop_first() =~= Seq::<Chapter>::empty());
        assert(spec_collect(Seq::<Chapter>::empty()) == Seq::<(Seq<char>, Seq<char>)>::empty());
        assert(spec_collect(s.push(c)) =~= spec_collect(s) + node_entry(c) + spec_collect(
            c.children@,
        ));
    } else {
        assert(s.push(c)[0] == s[0]);
        assert(s.push(c).drop_first() =~= s.drop_first().push(c));
        lemma_collect_snoc(s.drop_first(), c);
        assert(spec_collect(s.push(c)) =~= spec_collect(s) + node_entry(c) + spec_collect(
            c.children@,
        ));
    }
}

proof fn lemma_collect_split(s: Seq<Chapter>, i: int)
    requires
        0 <= i <= s.len(),
    ensures
        spec_collect(s) == spec_collect(s.take(i)) + spec_collect(s.skip(i)),
    decreases i,
{
    if i == 0 {
        assert(s.take(0) =~= Seq::<Chapter>::empty());
        assert(s.skip(0) =~= s);
        assert(spec_collect(s.take(0)) + spec_collect(s.skip(0)) =~= spec_collect(s));
    } else {
        lemma_collect_split(s, i - 1);
        assert(s.take(i) =~= s.take(i - 1).push(s[i - 1]));
        lemma_collect_snoc(s.take(i - 1), s[i - 1]);
        let tail = s.skip(i - 1);
        assert(tail.len() > 0);
        assert(tail[0] == s[i - 1]);
        assert(tail.drop_first() =~= s.skip(i));
        assert(spec_collect(s.take(i)) + spec_collect(s.skip(i)) =~= spec_collect(s.take(i - 1))
            + spec_collect(tail));
    }
}

/// Collect the chapters of `cs` onto the end of `out`.
fn collect_into(cs: &Vec<Chapter>, out: &mut Vec<ChapterSource>)
    ensures
        sources_view(final(out)@) == sources_view(old(out)@) + spec_collect(cs@),
    decreases cs@,
{
    let n = cs.len();
    let mut i: usize = 0;
    proof {
        assert(cs@.take(0) =~= Seq::<Chapter>::empty());
        assert(sources_view(out@) =~= sources_view(old(out)@) + spec_collect(cs@.take(0)));
    }
    while i < n
        invariant
            i <= n,
            n == cs@.len(),
            sources_view(out@) == sources_view(old(out)@) + spec_collect(cs@.take(i as int)),
        decreases n - i,
    {
        let c = &cs[i];
        let ghost before_node = out@;
        match &c.path {
            Some(p) => {
                let rel_dir = crate::paths::parent_of(p.as_str());
                let content = c.content.clone();
                let entry = ChapterSource { rel_dir, content };
                proof {
                    assert(chapter_view(entry) == (spec_parent(p@), c.content@));
                }
                out.push(entry);
                proof {
                    assert(sources_view(out@) =~= sources_view(before_node) + node_entry(cs@[i as int]));
                }
            },
            None => {
                proof {
                    assert(node_entry(cs@[i as int]) =~= Seq::<(Seq<char>, Seq<char>)>::empty());
                    assert(sources_view(out@) =~= sources_view(before_node) + node_entry(cs@[i as int]));
                }
            },
        }
        proof {
            assert(decreases_to!(cs@ => cs@[i as int]));
        }
        collect_into(&c.children, out);
        proof {
            lemma_collect_snoc(cs@.take(i as int), cs@[i as int]);
            assert(cs@.take(i as int).push(cs@[i as int]) =~= cs@.take(i + 1));
            assert(sources_view(out@) =~= sources_view(old(out)@) + spec_collect(cs@.take(i + 1)));
        }
        i += 1;
    }
    proof {
        assert(cs@.take(n as int) =~= cs@);
    }
}

/// Flatten the book into its ordered list of chapters: depth-first,
/// parents before their children, grouping nodes traversed but not
/// collected. Each entry carries the directory of the chapter's source
/// file and a copy of its text.
pub fn collect_chapters(sections: &Vec<Chapter>) -> (out: Vec<ChapterSource>)
    ensures
        sources_view(out@) == spec_collect(sections@),
{
    let mut out: Vec<ChapterSource> = Vec::new();
    proof {
        assert(sources_view(out@) =~= Seq::<(Seq<char>, Seq<char>)>::empty());
    }
    collect_into(sections, &mut out);
    proof {
        assert(Seq::<(Seq<char>, Seq<char>)>::empty() + spec_collect(sections@) =~= spec_collect(
            sections@,
        ));
    }
    out
}

/// Rebuild the forest `cs` with the chapter texts taken, in collection
/// order, from `flat` starting at `pos`; grouping nodes keep their text.
fn rebuild_into(cs: &Vec<Chapter>, flat: &Vec<ChapterSource>, pos: usize) -> (res: (
    Vec<Chapter>,
    usize,
))
    requires
        pos + spec_collect(cs@).len() <= flat@.len(),
        forall|k: int|
            0 <= k < spec_collect(cs@).len() ==> (#[trigger] spec_collect(cs@)[k]).0
                == sources_view(flat@)[pos + k].0,
    ensures
        res.1 == pos + spec_collect(cs@).len(),
        same_structure(res.0@, cs@),
        spec_collect(res.0@) == sources_view(flat@).subrange(pos as int, res.1 as int),
    decreases cs@,
{
    let n = cs.len();
    let mut out: Vec<Chapter> = Vec::new();
    let mut p: usize = pos;
    proof {
        assert(cs@.take(0) =~= Seq::<Chapter>::empty());
        assert(out@ =~= Seq::<Chapter>::empty());
        assert(spec_collect(out@) =~= sources_view(flat@).subrange(pos as int, pos as int));
    }
    let mut i: usize = 0;
    while i < n
        invariant
            i <= n,
            i == out@.len(),
            n == cs@.len(),
            pos + spec_collect(cs@).len() <= flat@.len(),
            forall|k: int|
                0 <= k < spec_collect(cs@).len() ==> (#[trigger] spec_collect(cs@)[k]).0
                    == sources_view(flat@)[pos + k].0,
            p == pos + spec_collect(cs@.take(i as int)).len(),
            same_structure(out@, cs@.take(i as int)),
            spec_collect(out@) == sources_view(flat@).subrange(pos as int, p as int),
        decreases n - i,
    {
        let c = &cs[i];
        let ghost taken = cs@.take(i as int);
        let ghost node_old = cs@[i as int];
        let ghost entry = node_entry(node_old);
        let ghost kids_old = node_old.children@;
        proof {
            lemma_collect_split(cs@, i as int);
            let tail = cs@.skip(i as int);
            assert(tail[0] == node_old);
            assert(tail.drop_first() =~= cs@.skip(i + 1));
            assert(spec_collect(cs@) =~= spec_collect(taken) + entry + spec_collect(kids_old)
                + spec_collect(cs@.skip(i + 1)));
        }
        let (new_path, new_content, p1): (Option<String>, String, usize) = match &c.path {
            Some(q) => {
                proof {
                    assert(entry =~= seq![(spec_parent(q@), node_old.content@)]);
                    assert(spec_collect(cs@).len() == spec_collect(taken).len() + 1
                        + spec_collect(kids_old).len() + spec_collect(cs@.skip(i + 1)).len());
                    assert(p < flat@.len());
                    assert(spec_collect(cs@)[p - pos] == entry[0]);
                    assert(entry[0].0 == sources_view(flat@)[p as int].0);
                }
                let flat_n = flat.len();
                assert(p < flat_n);
                let text = flat[p].content.clone();
                (Some(q.clone()), text, p + 1)
            },
            None => (None, c.content.clone(), p),
        };
        proof {
            assert(p1 == p + entry.len());
            assert(p1 + spec_collect(kids_old).len() <= flat@.len());
            assert forall|k: int| 0 <= k < spec_collect(kids_old).len() implies (
            #[trigger] spec_collect(kids_old)[k]).0 == sources_view(flat@)[p1 + k].0 by {
                assert(spec_collect(cs@)[(p1 - pos) + k] == spec_collect(kids_old)[k]);
            }
            assert(decreases_to!(cs@ => node_old));
            assert(decreases_to!(node_old => node_old.children));
        }
        let (kids, p2) = rebuild_into(&c.children, flat, p1);
        let node = Chapter { path: new_path, content: new_content, children: kids };
        let ghost prev = out@;
        out.push(node);
        proof {
            assert(path_view(node) == path_view(node_old));
            assert(node_entry(node) =~= sources_view(flat@).subrange(p as int, p1 as int));
            lemma_collect_snoc(prev, node);
            lemma_same_structure_snoc(prev, taken, node, node_old);
            assert(taken.push(node_old) =~= cs@.take(i + 1));
            lemma_collect_snoc(taken, node_old);
            assert(spec_collect(out@) =~= sources_view(flat@).subrange(pos as int, p2 as int));
        }
        p = p2;
        i += 1;
    }
    proof {
        assert(cs@.take(n as int) =~= cs@);
    }
    (out, p)
}

/// Every chapter of `after` is the processed form of the matching chapter
/// of `before`; on an incomplete run a chapter may instead be exactly as
/// it was.
pub open spec fn book_processed(
    before: Seq<Chapter>,
    after: Seq<Chapter>,
    ns: Seq<char>,
    complete: bool,
) -> bool {
    forall|k: int|
        0 <= k < spec_collect(before).len() ==> entry_processed(
            #[trigger] spec_collect(before)[k],
            spec_collect(after)[k],
            ns,
        ) || (!complete && spec_collect(after)[k] == spec_collect(before)[k])
}

/// Run the driver over a whole book: collect the chapters, process them
/// all in parallel, and put the rewritten texts back into a tree of the
/// same shape. On success the plugin's `finish` hook runs exactly once,
/// after every chapter. On failure the run aborts: chapters already
/// processed keep their rewritten text, the rest stay exactly as they
/// were, and `finish` does not run. The host materializes the plugin's
/// shared assets (see `materialization_plan`) before calling this.
pub fn process_book<P: SimplePreprocessor>(sp: P, src_dir: &str, sections: &mut Vec<Chapter>) -> (r:
    Result<(), Error>)
    ensures
        same_structure(final(sections)@, old(sections)@),
        spec_collect(old(sections)@).len() == 0 ==> r is Ok,
        r is Ok ==> exists|ns: Seq<char>|
            book_processed(old(sections)@, final(sections)@, ns, true),
        r is Err ==> exists|ns: Seq<char>|
            book_processed(old(sections)@, final(sections)@, ns, false),
{
    let namespace = P::name();
    let mut flat = collect_chapters(sections);
    let ghost flat0 = flat@;
    let ghost collected = spec_collect(sections@);
    proof {
        assert(sources_view(flat0).len() == flat0.len());
    }
    let r = process_chapters_parallel(&sp, src_dir, namespace, &mut flat);
    proof {
        assert forall|k: int| 0 <= k < collected.len() implies (#[trigger] collected[k]).0
            == sources_view(flat@)[0 + k].0 by {
            assert(chapter_view(flat0[k]) == collected[k]);
            if chapter_processed(flat0[k], flat@[k], namespace@) {
            } else {
                assert(chapter_view(flat@[k]) == chapter_view(flat0[k]));
            }
        }
    }
    let (rebuilt, used) = rebuild_into(sections, &flat, 0);
    *sections = rebuilt;
    proof {
        assert(sources_view(flat@).subrange(0, used as int) =~= sources_view(flat@));
        assert forall|k: int| 0 <= k < collected.len() implies entry_processed(
            #[trigger] collected[k],
            spec_collect(sections@)[k],
            namespace@,
        ) || spec_collect(sections@)[k] == collected[k] by {
            assert(spec_collect(sections@)[k] == chapter_view(flat@[k]));
            assert(chapter_view(flat0[k]) == collected[k]);
            if !chapter_processed(flat0[k], flat@[k], namespace@) {
                assert(chapter_view(flat@[k]) == chapter_view(flat0[k]));
            }
        }
        assert(book_processed(old(sections)@, sections@, namespace@, false));
    }
    match r {
        Ok(()) => {
            proof {
                assert forall|k: int| 0 <= k < collected.len() implies entry_processed(
                    #[trigger] collected[k],
                    spec_collect(sections@)[k],
                    namespace@,
                ) by {
                    assert(spec_collect(sections@)[k] == chapter_view(flat@[k]));
                    assert(chapter_view(flat0[k]) == collected[k]);
                    assert(chapter_processed(flat0[k], flat@[k], namespace@));
                }
                assert(book_processed(old(sections)@, sections@, namespace@, true));
            }
            P::finish(sp);
            Ok(())
        },
        Err(e) => Err(e),
    }
}

proof fn lemma_same_structure_snoc(a: Seq<Chapter>, b: Seq<Chapter>, x: Chapter, y: Chapter)
    requires
        same_structure(a, b),
        path_view(x) == path_view(y),
        path_view(y) is None ==> x.content@ == y.content@,
        same_structure(x.children@, y.children@),
    ensures
        same_structure(a.push(x), b.push(y)),
    decreases b.len(),
{
    if b.len() == 0 {
        assert(a.push(x)[0] == x);
        assert(b.push(y)[0] == y);
        assert(a.push(x).drop_first() =~= Seq::<Chapter>::empty());
        assert(b.push(y).drop_first() =~= Seq::<Chapter>::empty());
        assert(same_structure(Seq::<Chapter>::empty(), Seq::<Chapter>::empty()));
    } else {
        assert(a.push(x)[0] == a[0]);
        assert(b.push(y)[0] == b[0]);
        assert(a.push(x).drop_first() =~= a.drop_first().push(x));
        assert(b.push(y).drop_first() =~= b.drop_first().push(y));
        lemma_same_structure_snoc(a.drop_first(), b.drop_first(), x, y);
    }
}

} // verus!
