//! The chapter-processing driver: asks the plugin for a chapter's
//! replacements, applies them through the range-replacement engine, and
//! appends the plugin's linked assets as embed markup resolved for the
//! chapter's nesting depth. Chapters are independent of one another; the
//! parallel driver hands each one to exactly one worker.

use vstd::prelude::*;
use vstd::string::*;
use rayon::iter::{IntoParallelRefMutIterator, ParallelIterator};
use crate::errors::Error;
use crate::paths::{spec_depth, spec_parent, spec_join, join_path};
use crate::replace::{
    apply_replacements, reps_valid, spec_apply, spec_sort, Replacement,
};
use crate::resolve::{render_link, spec_rel_path, spec_render_link, up_prefix_for};

verus! {

/// A named, immutable byte payload that a plugin declares: either
/// materialized for every chapter or linked from a specific chapter.
#[derive(Clone, Copy)]
pub struct Asset {
    pub name: &'static str,
    pub contents: &'static [u8],
}

/// What the driver knows about the build when it constructs the plugin:
/// the book root, the source directory relative to it, the renderer in
/// use, and the plugin's own configuration table as JSON text.
pub struct BuildContext {
    pub root: String,
    pub source_dir: String,
    pub renderer: String,
    pub config_json: String,
}

/// A pluggable chapter transformation. The driver calls `build` once,
/// `replacements` once per chapter with the chapter's directory and text,
/// `linked_assets` for the embed markup appended to each changed chapter,
/// `all_assets` for the files materialized once per run, and `finish`
/// once after every chapter has been processed successfully.
pub trait SimplePreprocessor: Sized + Send + Sync {
    fn name() -> &'static str;

    fn build(ctx: &BuildContext) -> Result<Self, Error>;

    fn replacements(&self, chapter_dir: &str, content: &str) -> Result<Vec<Replacement>, Error>;

    fn linked_assets(&self) -> Vec<Asset>;

    fn all_assets(&self) -> Vec<Asset>;

    fn finish(self) {
    }
}

/// A collected chapter: the directory of its source file relative to the
/// book source root, and its text.
pub struct ChapterSource {
    pub rel_dir: String,
    pub content: String,
}

/// A collected chapter as mathematical values: its relative directory and
/// its text.
pub open spec fn chapter_view(c: ChapterSource) -> (Seq<char>, Seq<char>) {
    (c.rel_dir@, c.content@)
}

/// The names of a list of assets.
pub open spec fn asset_names(assets: Seq<Asset>) -> Seq<Seq<char>> {
    assets.map_values(|a: Asset| a.name@)
}

/// The markup one asset contributes for a chapter at depth `depth`:
/// its rendered link, or nothing when its extension asks for none.
pub open spec fn link_of(name: Seq<char>, depth: nat, ns: Seq<char>) -> Seq<char> {
    match spec_render_link(spec_rel_path(depth, ns, name), name) {
        Some(m) => m,
        None => Seq::empty(),
    }
}

/// The markup of a list of assets, in their declared order.
pub open spec fn spec_links(names: Seq<Seq<char>>, depth: nat, ns: Seq<char>) -> Seq<char>
    decreases names.len(),
{
    if names.len() == 0 {
        Seq::empty()
    } else {
        link_of(names.first(), depth, ns) + spec_links(names.drop_first(), depth, ns)
    }
}

proof fn lemma_links_snoc(names: Seq<Seq<char>>, x: Seq<char>, depth: nat, ns: Seq<char>)
    ensures
        spec_links(names.push(x), depth, ns) == spec_links(names, depth, ns) + link_of(
            x,
            depth,
            ns,
        ),
    decreases names.len(),
{
    if names.len() == 0 {
        let e = Seq::<Seq<char>>::empty();
        assert(spec_links(e, depth, ns) == Seq::<char>::empty());
        assert(names.push(x).first() == x);
        assert(names.push(x).drop_first() =~= e);
        assert(spec_links(names.push(x), depth, ns) =~= link_of(x, depth, ns));
        assert(spec_links(names, depth, ns) + link_of(x, depth, ns) =~= link_of(x, depth, ns));
    } else {
        assert(names.push(x).drop_first() =~= names.drop_first().push(x));
        lemma_links_snoc(names.drop_first(), x, depth, ns);
        assert(spec_links(names.push(x), depth, ns) =~= spec_links(names, depth, ns) + link_of(
            x,
            depth,
            ns,
        ));
    }
}

/// A chapter's text after processing with the replacement set `reps` and
/// the linked assets `names`: untouched when the plugin returned no
/// replacements, otherwise the rewritten text, two separating newlines,
/// and the rendered asset links in declared order.
pub open spec fn spec_transform(
    content: Seq<char>,
    reps: Seq<Replacement>,
    names: Seq<Seq<char>>,
    depth: nat,
    ns: Seq<char>,
) -> Seq<char> {
    if reps.len() == 0 {
        content
    } else {
        spec_apply(content, spec_sort(reps)) + "\n\n"@ + spec_links(names, depth, ns)
    }
}

/// Idempotence of no-op: a plugin that returns zero replacements leaves
/// the chapter's text exactly as it was, and no asset links are appended.
pub proof fn lemma_noop_preserves_text(
    content: Seq<char>,
    names: Seq<Seq<char>>,
    depth: nat,
    ns: Seq<char>,
)
    ensures
        spec_transform(content, Seq::empty(), names, depth, ns) == content,
{
}

/// Rewrite one chapter's text for the replacement set `reps` and the
/// linked assets `linked`: apply the replacements highest-first, then
/// append the rendered asset links after two separating newlines. An
/// empty replacement set leaves the text untouched and appends nothing.
/// A replacement set whose sorted form has overlapping or out-of-bounds
/// spans is rejected and the text is left untouched.
pub fn transform_chapter(
    content: &mut String,
    reps: Vec<Replacement>,
    linked: &Vec<Asset>,
    parent: &str,
    namespace: &str,
) -> (r: Result<(), Error>)
    ensures
        r is Ok <==> reps_valid(spec_sort(reps@), old(content)@.len()),
        r is Ok ==> final(content)@ == spec_transform(
            old(content)@,
            reps@,
            asset_names(linked@),
            spec_depth(parent@),
            namespace@,
        ),
        r is Err ==> final(content)@ == old(content)@ && (r matches Err(
            Error::MalformedReplacement,
        )),
{
    let ghost t0 = content@;
    let ghost depth = spec_depth(parent@);
    let ghost names = asset_names(linked@);
    if reps.len() == 0 {
        proof {
            assert(spec_sort(reps@) =~= Seq::<Replacement>::empty());
        }
        return Ok(());
    }
    let ghost reps0 = reps@;
    match apply_replacements(content, reps) {
        Err(e) => {
            return Err(e);
        },
        Ok(()) => {},
    }
    let ghost applied = content@;
    content.append("\n\n");
    let prefix = up_prefix_for(parent);
    let n = linked.len();
    let mut i: usize = 0;
    proof {
        assert(names.take(0) =~= Seq::<Seq<char>>::empty());
    }
    while i < n
        invariant
            i <= n,
            n == linked@.len(),
            names == asset_names(linked@),
            prefix@ == crate::resolve::spec_up_prefix(depth),
            content@ == applied + "\n\n"@ + spec_links(names.take(i as int), depth, namespace@),
        decreases n - i,
    {
        let a = linked[i];
        let mut rel = prefix.clone();
        rel.append(namespace);
        rel.append("/");
        rel.append(a.name);
        proof {
            assert(rel@ == spec_rel_path(depth, namespace@, a.name@));
            assert(names[i as int] == a.name@);
            assert(names.take(i as int).push(a.name@) =~= names.take(i + 1));
            lemma_links_snoc(names.take(i as int), a.name@, depth, namespace@);
        }
        match render_link(rel.as_str(), a.name) {
            Some(m) => {
                content.append(m.as_str());
            },
            None => {},
        }
        i += 1;
    }
    proof {
        assert(names.take(n as int) =~= names);
    }
    Ok(())
}

/// One chapter's state before and after processing, as (directory, text)
/// pairs: the directory is unchanged and the new text is the transform of
/// the old text under some replacement set the plugin supplied and some
/// list of linked asset names.
pub open spec fn entry_processed(
    before: (Seq<char>, Seq<char>),
    after: (Seq<char>, Seq<char>),
    ns: Seq<char>,
) -> bool {
    after.0 == before.0 && exists|reps: Seq<Replacement>, names: Seq<Seq<char>>|
        reps_valid(spec_sort(reps), before.1.len()) && after.1 == spec_transform(
            before.1,
            reps,
            names,
            spec_depth(before.0),
            ns,
        )
}

/// One collected chapter's before and after state are related by a run of
/// the driver.
pub open spec fn chapter_processed(
    before: ChapterSource,
    after: ChapterSource,
    ns: Seq<char>,
) -> bool {
    entry_processed(chapter_view(before), chapter_view(after), ns)
}

/// Process one collected chapter: ask the plugin for replacements for the
/// chapter's directory and text, then rewrite the text. An empty
/// replacement set ends the chapter's processing at once: the text stays
/// as it is and the plugin is not asked for its linked assets. On any
/// error the chapter is left exactly as it was.
pub fn process_one<P: SimplePreprocessor>(
    sp: &P,
    src_dir: &str,
    namespace: &str,
    item: &mut ChapterSource,
) -> (r: Result<(), Error>)
    ensures
        r is Ok ==> chapter_processed(*old(item), *final(item), namespace@),
        r is Err ==> chapter_view(*final(item)) == chapter_view(*old(item)),
{
    let dir = join_path(src_dir, item.rel_dir.as_str());
    let reps = match P::replacements(sp, dir.as_str(), item.content.as_str()) {
        Ok(reps) => reps,
        Err(e) => {
            return Err(e);
        },
    };
    if reps.len() == 0 {
        proof {
            let e: Seq<Replacement> = Seq::empty();
            assert(spec_sort(e) =~= e);
            assert(reps_valid(e, item.content@.len()));
            let b = chapter_view(*old(item));
            let a = chapter_view(*item);
            assert(a.1 == spec_transform(
                b.1,
                e,
                Seq::<Seq<char>>::empty(),
                spec_depth(b.0),
                namespace@,
            ));
            assert(chapter_processed(*old(item), *item, namespace@));
        }
        return Ok(());
    }
    let ghost greps = reps@;
    let linked = P::linked_assets(sp);
    match transform_chapter(
        &mut item.content,
        reps,
        &linked,
        item.rel_dir.as_str(),
        namespace,
    ) {
        Ok(()) => {
            proof {
                let names = asset_names(linked@);
                let b = chapter_view(*old(item));
                let a = chapter_view(*item);
                assert(a.0 == b.0);
                assert(reps_valid(spec_sort(greps), b.1.len()));
                assert(a.1 == spec_transform(b.1, greps, names, spec_depth(b.0), namespace@));
                assert(chapter_processed(*old(item), *item, namespace@));
            }
            Ok(())
        },
        Err(e) => Err(e),
    }
}

/// A failed run stopped at chapter `f`: every chapter before `f` holds
/// its rewritten text, and `f` itself and every later chapter are exactly
/// as they were.
pub open spec fn aborted_at(
    before: Seq<ChapterSource>,
    after: Seq<ChapterSource>,
    ns: Seq<char>,
    f: int,
) -> bool {
    0 <= f <= before.len() && (forall|k: int|
        0 <= k < f ==> chapter_processed(#[trigger] before[k], after[k], ns)) && (forall|k: int|
        f <= k < before.len() ==> chapter_view(after[k]) == chapter_view(#[trigger] before[k]))
}

/// Process every collected chapter in order, stopping at the first
/// failure. Chapters before the failure keep their rewritten text; the
/// failing chapter and every later one are left exactly as they were.
pub fn process_chapters<P: SimplePreprocessor>(
    sp: &P,
    src_dir: &str,
    namespace: &str,
    chapters: &mut Vec<ChapterSource>,
) -> (r: Result<(), Error>)
    ensures
        final(chapters)@.len() == old(chapters)@.len(),
        old(chapters)@.len() == 0 ==> r is Ok,
        r is Ok ==> forall|k: int|
            0 <= k < old(chapters)@.len() ==> chapter_processed(
                #[trigger] old(chapters)@[k],
                final(chapters)@[k],
                namespace@,
            ),
        r is Err ==> exists|f: int|
            aborted_at(old(chapters)@, final(chapters)@, namespace@, f),
{
    let n = chapters.len();
    let mut i: usize = 0;
    while i < n
        invariant
            i <= n,
            n == chapters@.len(),
            chapters@.len() == old(chapters)@.len(),
            forall|k: int|
                0 <= k < i ==> chapter_processed(
                    #[trigger] old(chapters)@[k],
                    chapters@[k],
                    namespace@,
                ),
            forall|k: int| i <= k < chapters@.len() ==> chapters@[k] == #[trigger] old(chapters)@[k],
        decreases n - i,
    {
        let r = process_one(sp, src_dir, namespace, &mut chapters[i]);
        match r {
            Ok(()) => {},
            Err(e) => {
                proof {
                    assert(aborted_at(old(chapters)@, chapters@, namespace@, i as int));
                }
                return Err(e);
            },
        }
        i += 1;
    }
    Ok(())
}

/// Process every collected chapter, each handed to exactly one worker of
/// a pool sized to the machine; chapters share no state, so no two
/// workers ever touch the same chapter. On failure, some chapters hold
/// their rewritten text and the rest are untouched.
///
/// Relies on rayon's `par_iter_mut`, `map` and `collect` into `Result`:
/// every element of the vector is handed to the closure exactly once,
/// with exclusive access, and `collect` keeps the elements in place. On
/// failure it returns one of the errors the workers produced (which one
/// is not deterministic); with no elements there is no error to save, so
/// an empty vector collects to success.
#[verifier::external_body]
pub fn process_chapters_parallel<P: SimplePreprocessor>(
    sp: &P,
    src_dir: &str,
    namespace: &str,
    chapters: &mut Vec<ChapterSource>,
) -> (r: Result<(), Error>)
    ensures
        final(chapters)@.len() == old(chapters)@.len(),
        old(chapters)@.len() == 0 ==> r is Ok,
        forall|k: int|
            0 <= k < old(chapters)@.len() ==> chapter_processed(
                #[trigger] old(chapters)@[k],
                final(chapters)@[k],
                namespace@,
            ) || chapter_view(final(chapters)@[k]) == chapter_view(old(chapters)@[k]),
        r is Ok ==> forall|k: int|
            0 <= k < old(chapters)@.len() ==> chapter_processed(
                #[trigger] old(chapters)@[k],
                final(chapters)@[k],
                namespace@,
            ),
{
    chapters
        .par_iter_mut()
        .map(|item| process_one(sp, src_dir, namespace, item))
        .collect::<Result<Vec<()>, Error>>()
        .map(|units| ())
}

} // verus!
