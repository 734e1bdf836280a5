use vstd::prelude::*;

use crate::html::{self, by_date, malformed_footnote, post_views, rendered, renders, sort_by_date};
use crate::posts::{
    extension, file_name, file_name_of, file_stem, file_stem_of, has_extension, markdown_paths, post_from,
    post_date, post_name, post_of, texts, Error, Posts,
};
use crate::text::{join, join_path, last_index_of, lemma_last_index_of};

verus! {

/// The directory that a build writes to.
pub struct OutputPath {
    pub path: String,
}

impl OutputPath {
    pub fn index(&self) -> (r: String)
        ensures
            r@ == join(self.path@, "index.html"@),
    {
        join_path(self.path.as_str(), "index.html")
    }

    pub fn feed(&self) -> (r: String)
        ensures
            r@ == join(self.path@, "feed.xml"@),
    {
        join_path(self.path.as_str(), "feed.xml")
    }

    pub fn posts_dir(&self) -> (r: String)
        ensures
            r@ == join(self.path@, "posts"@),
    {
        join_path(self.path.as_str(), "posts")
    }

    pub fn static_dir(&self) -> (r: String)
        ensures
            r@ == join(self.path@, "static"@),
    {
        join_path(self.path.as_str(), "static")
    }
}

/// A rendered page whose source post is gone: an `html` file of the output
/// directory with no markdown file of the same stem among the sources.
pub open spec fn is_stale(entry: Seq<char>, sources: Seq<Seq<char>>) -> bool {
    &&& extension(file_name(entry)) == Some("html"@)
    &&& !sources.contains(file_stem(file_name(entry)) + ".md"@)
}

/// The stale entries of the output directory, in order.
pub open spec fn stale(outputs: Seq<Seq<char>>, sources: Seq<Seq<char>>) -> Seq<Seq<char>>
    decreases outputs.len(),
{
    if outputs.len() == 0 {
        seq![]
    } else {
        let rest = stale(outputs.drop_last(), sources);
        if is_stale(outputs.last(), sources) {
            rest.push(outputs.last())
        } else {
            rest
        }
    }
}

/// The entries of the output posts directory to delete: every rendered page
/// whose source post no longer exists among the source entries.
pub fn remove_deleted_posts(posts: &Posts, output_entries: &Vec<String>, source_entries: &Vec<String>) -> (r: Vec<String>)
    ensures
        texts(r@) == stale(texts(output_entries@), texts(source_entries@)),
{
    let ghost outs = texts(output_entries@);
    let ghost srcs = texts(source_entries@);
    let mut out: Vec<String> = Vec::new();
    let mut i: usize = 0;
    proof {
        reveal_strlit("html");
    }
    assert(texts(out@) =~= stale(outs.take(0), srcs));
    while i < output_entries.len()
        invariant
            outs == texts(output_entries@),
            srcs == texts(source_entries@),
            i <= output_entries@.len(),
            texts(out@) == stale(outs.take(i as int), srcs),
        decreases output_entries@.len() - i,
    {
        let ghost before = texts(out@);
        assert(outs.take(i + 1).drop_last() =~= outs.take(i as int));
        assert(outs.take(i + 1).last() == output_entries@[i as int]@);
        let entry = output_entries[i].as_str();
        if has_extension(entry, "html") {
            let name = file_stem_of(file_name_of(entry).as_str());
            let found = posts.is_post(name.as_str(), source_entries);
            proof {
                if found {
                    let w = choose|k: int| 0 <= k < source_entries@.len() && #[trigger] source_entries@[k]@
                        == name@ + ".md"@;
                    assert(srcs[w] == name@ + ".md"@);
                } else {
                    assert forall|k: int| 0 <= k < srcs.len() implies srcs[k] != name@ + ".md"@ by {
                        assert(srcs[k] == source_entries@[k]@);
                    }
                }
            }
            if !found {
                out.push(output_entries[i].clone());
                assert(texts(out@) =~= before.push(outs[i as int]));
            }
        }
        i = i + 1;
    }
    assert(outs.take(output_entries@.len() as int) =~= outs);
    out
}

/// After a build, the output directory holds a page for a stale entry no
/// longer, and keeps every page whose source post exists.
pub proof fn lemma_stale(outputs: Seq<Seq<char>>, sources: Seq<Seq<char>>)
    ensures
        forall|e: Seq<char>| #[trigger] stale(outputs, sources).contains(e) <==> outputs.contains(e)
            && is_stale(e, sources),
    decreases outputs.len(),
{
    if outputs.len() > 0 {
        let init = outputs.drop_last();
        let last = outputs.last();
        let r = stale(init, sources);
        lemma_stale(init, sources);
        assert forall|e: Seq<char>| #[trigger] outputs.contains(e) <==> init.contains(e) || e == last by {
            if outputs.contains(e) {
                let k = choose|k: int| 0 <= k < outputs.len() && outputs[k] == e;
                if k < outputs.len() - 1 {
                    assert(init[k] == e);
                }
            }
            if init.contains(e) {
                let k = choose|k: int| 0 <= k < init.len() && init[k] == e;
                assert(outputs[k] == e);
            }
            if e == last {
                assert(outputs[outputs.len() - 1] == e);
            }
        }
        if is_stale(last, sources) {
            assert forall|e: Seq<char>| #[trigger] r.push(last).contains(e) <==> r.contains(e) || e == last by {
                if r.push(last).contains(e) {
                    let k = choose|k: int| 0 <= k < r.push(last).len() && r.push(last)[k] == e;
                    if k < r.len() {
                        assert(r[k] == e);
                    }
                }
                if r.contains(e) {
                    let k = choose|k: int| 0 <= k < r.len() && r[k] == e;
                    assert(r.push(last)[k] == e);
                }
                if e == last {
                    assert(r.push(last)[r.len() as int] == e);
                }
            }
        }
    }
}

/// The page rendered for a post is never stale while its source exists.
pub proof fn lemma_page_of_post_kept(name: Seq<char>, sources: Seq<Seq<char>>)
    requires
        forall|k: int| 0 <= k < name.len() ==> name[k] != '/',
        sources.contains(name + ".md"@),
    ensures
        !is_stale(name + ".html"@, sources),
{
    reveal_strlit(".html");
    let e = name + ".html"@;
    let n = name.len() as int;
    assert(e[n] == '.');
    lemma_last_index_of(e, '/');
    lemma_last_index_of(e, '.');
    match last_index_of(e, '/') {
        Some(i) => {
            if i < n {
                assert(e[i] == name[i]);
            }
        },
        None => {},
    }
    assert(file_name(e) == e);
    let j = last_index_of(e, '.')->0;
    assert(j == n) by {
        if j > n {
            assert(e[j] != '.');
        }
    }
    if n > 0 {
        assert(e.take(n) =~= name);
    }
}

/// Building twice: the pages written for the posts of the first build are
/// not stale for the second, so it deletes none of them.
pub proof fn lemma_rebuild_removes_nothing(names: Seq<Seq<char>>, sources: Seq<Seq<char>>)
    requires
        forall|i: int| 0 <= i < names.len() ==> forall|k: int| 0 <= k < (#[trigger] names[i]).len() ==> names[i][k] != '/',
        forall|i: int| 0 <= i < names.len() ==> sources.contains(#[trigger] names[i] + ".md"@),
    ensures
        stale(names.map_values(|n: Seq<char>| n + ".html"@), sources) == Seq::<Seq<char>>::empty(),
    decreases names.len(),
{
    let pages = names.map_values(|n: Seq<char>| n + ".html"@);
    if names.len() > 0 {
        let init = names.drop_last();
        assert forall|i: int| 0 <= i < init.len() implies sources.contains(#[trigger] init[i] + ".md"@) by {
            assert(init[i] == names[i]);
        }
        assert forall|i: int| 0 <= i < init.len() implies forall|k: int| 0 <= k < (#[trigger] init[i]).len() ==> init[i][k] != '/' by {
            assert(init[i] == names[i]);
        }
        lemma_rebuild_removes_nothing(init, sources);
        assert(pages.drop_last() =~= init.map_values(|n: Seq<char>| n + ".html"@));
        let last = names[names.len() - 1];
        assert(sources.contains(last + ".md"@));
        lemma_page_of_post_kept(last, sources);
        assert(pages.last() == last + ".html"@);
    }
}

/// A page to write into the output posts directory.
pub struct Page {
    pub file_name: String,
    pub html: String,
}

/// What a build produces: the pages to write, the rendered posts newest
/// first (for the index and the feed), and the stale pages to delete.
pub struct Site {
    pub pages: Vec<Page>,
    pub posts: Vec<html::Post>,
    pub stale: Vec<String>,
}

/// What the post at each path renders to, given the texts of the files.
pub open spec fn rendered_posts(paths: Seq<Seq<char>>, contents: Seq<String>) -> Seq<html::PostView> {
    Seq::new(
        paths.len(),
        |i: int| rendered(post_name(paths[i]), post_date(paths[i]), contents[i]@),
    )
}

/// What a successful build gives: every markdown file is a post and renders;
/// there is a page named for each post, the rendered posts come newest
/// first, and the stale pages of the output directory are found.
pub open spec fn built(
    paths: Seq<Seq<char>>,
    contents: Seq<String>,
    source_entries: Seq<Seq<char>>,
    output_entries: Seq<Seq<char>>,
    site: Site,
) -> bool {
    &&& forall|i: int| 0 <= i < paths.len() ==> #[trigger] post_of(paths[i]) is Some
    &&& forall|i: int| 0 <= i < paths.len() ==> renders(#[trigger] contents[i]@)
    &&& site.pages@.len() == paths.len()
    &&& forall|i: int| 0 <= i < paths.len() ==> #[trigger] site.pages@[i].file_name@
        == post_name(paths[i]) + ".html"@
    &&& post_views(site.posts@) == by_date(rendered_posts(paths, contents))
    &&& texts(site.stale@) == stale(output_entries, source_entries)
}

/// Two builds from the same files and directory listings give pages of the
/// same names, the same rendered posts in the same order, and the same stale
/// pages.
pub proof fn lemma_build_deterministic(
    paths: Seq<Seq<char>>,
    contents: Seq<String>,
    source_entries: Seq<Seq<char>>,
    output_entries: Seq<Seq<char>>,
    a: Site,
    b: Site,
)
    requires
        built(paths, contents, source_entries, output_entries, a),
        built(paths, contents, source_entries, output_entries, b),
    ensures
        a.pages@.len() == b.pages@.len(),
        forall|i: int| 0 <= i < a.pages@.len() ==> (#[trigger] a.pages@[i]).file_name@ == b.pages@[i].file_name@,
        post_views(a.posts@) == post_views(b.posts@),
        texts(a.stale@) == texts(b.stale@),
{
}

/// The pages that a build writes are not stale for it: where the markdown
/// file of each post is among the source entries, no page is deleted, so the
/// pages kept are one for each current post.
pub proof fn lemma_built_pages_kept(
    paths: Seq<Seq<char>>,
    contents: Seq<String>,
    source_entries: Seq<Seq<char>>,
    output_entries: Seq<Seq<char>>,
    site: Site,
)
    requires
        built(paths, contents, source_entries, output_entries, site),
        forall|i: int| 0 <= i < paths.len() ==> forall|k: int|
            0 <= k < (#[trigger] post_name(paths[i])).len() ==> post_name(paths[i])[k] != '/',
        forall|i: int| 0 <= i < paths.len() ==> source_entries.contains(
            #[trigger] post_name(paths[i]) + ".md"@,
        ),
    ensures
        forall|i: int| 0 <= i < site.pages@.len() ==> !is_stale(
            (#[trigger] site.pages@[i]).file_name@,
            source_entries,
        ),
{
    assert forall|i: int| 0 <= i < site.pages@.len() implies !is_stale(
        (#[trigger] site.pages@[i]).file_name@,
        source_entries,
    ) by {
        let name = post_name(paths[i]);
        assert(site.pages@[i].file_name@ == name + ".html"@);
        assert(source_entries.contains(name + ".md"@));
        lemma_page_of_post_kept(name, source_entries);
    }
}

/// Builds the site from the posts directory: every markdown file among its
/// entries must be named for a date, and is rendered from its text
/// (`contents`, in the order of `markdown_files`) and gets a page; the
/// rendered posts are put newest first, and the pages of deleted posts are
/// found. The first file that fails aborts the build.
pub fn build(
    templates: &tera::Tera,
    posts: &Posts,
    source_entries: &Vec<String>,
    contents: &Vec<String>,
    output_entries: &Vec<String>,
) -> (r: Result<Site, Error>)
    requires
        contents@.len() == markdown_paths(posts.path@, texts(source_entries@)).len(),
    ensures
        ({
            let paths = markdown_paths(posts.path@, texts(source_entries@));
            &&& (r matches Ok(site) ==> built(
                paths,
                contents@,
                texts(source_entries@),
                texts(output_entries@),
                site,
            ))
            &&& (exists|i: int| 0 <= i < paths.len() && #[trigger] post_of(paths[i]) is None)
                ==> r is Err
            &&& (exists|i: int| 0 <= i < paths.len() && malformed_footnote(#[trigger] contents@[i]@))
                ==> r is Err
            &&& (r matches Err(Error::StructuralError(_)) ==> exists|i: int|
                0 <= i < paths.len() && malformed_footnote(#[trigger] contents@[i]@))
            &&& (r matches Err(e) ==> (!(e is TemplateError) ==> exists|i: int|
                0 <= i < paths.len() && (#[trigger] post_of(paths[i]) is None || !renders(contents@[i]@))))
            &&& paths.len() == 0 ==> r is Ok
        }),
{
    let ghost paths = markdown_paths(posts.path@, texts(source_entries@));
    let ghost want = rendered_posts(paths, contents@);
    let found = posts.iter_posts(source_entries);
    let n = found.len();
    let mut pages: Vec<Page> = Vec::new();
    let mut rendered_list: Vec<html::Post> = Vec::new();
    let mut i: usize = 0;
    while i < n
        invariant
            paths == markdown_paths(posts.path@, texts(source_entries@)),
            want == rendered_posts(paths, contents@),
            n == paths.len(),
            n == found@.len(),
            n == contents@.len(),
            forall|k: int| 0 <= k < n ==> post_from(#[trigger] paths[k], found@[k]),
            i <= n,
            pages@.len() == i,
            forall|k: int| 0 <= k < i ==> #[trigger] post_of(paths[k]) is Some,
            forall|k: int| 0 <= k < i ==> #[trigger] pages@[k].file_name@ == post_name(paths[k])
                + ".html"@,
            forall|k: int| 0 <= k < i ==> renders(#[trigger] contents@[k]@),
            forall|k: int| 0 <= k < i ==> !malformed_footnote(#[trigger] contents@[k]@),
            post_views(rendered_list@) == want.take(i as int),
        decreases n - i,
    {
        assert(post_from(paths[i as int], found@[i as int]));
        let source = match &found[i] {
            Ok(p) => p,
            Err(Error::NoFileName(p)) => {
                assert(post_of(paths[i as int]) is None);
                return Err(Error::NoFileName(p.clone()));
            },
            Err(Error::InvalidDateError(name)) => {
                assert(post_of(paths[i as int]) is None);
                return Err(Error::InvalidDateError(name.clone()));
            },
            Err(_) => {
                proof {
                    assert(false);
                }
                return Err(Error::EncodingError);
            },
        };
        assert(post_of(paths[i as int]) == Some((source.name@, source.date)));
        let post = match html::Post::render(source, contents[i].as_str()) {
            Ok(p) => p,
            Err(e) => {
                proof {
                    assert(!renders(contents@[i as int]@));
                    if e is StructuralError {
                        assert(malformed_footnote(contents@[i as int]@));
                    }
                }
                return Err(e);
            },
        };
        let page = match post.write_html(templates) {
            Ok(h) => h,
            Err(e) => return Err(e),
        };
        let mut file_name = String::from_str(source.name());
        file_name.append(".html");
        pages.push(Page { file_name, html: page });
        let ghost before = post_views(rendered_list@);
        let ghost old_posts = rendered_list@;
        assert(want.len() == n);
        assert(before.len() == old_posts.len());
        assert(post@ == want[i as int]);
        rendered_list.push(post);
        assert(post_views(rendered_list@) =~= want.take(i + 1)) by {
            assert(post_views(rendered_list@).len() == i + 1);
            assert forall|k: int| 0 <= k < i + 1 implies #[trigger] post_views(rendered_list@)[k]
                == want.take(i + 1)[k] by {
                if k < i {
                    assert(rendered_list@[k] == old_posts[k]);
                    assert(post_views(rendered_list@)[k] == before[k]);
                }
            }
        }
        i = i + 1;
    }
    assert(want.take(i as int) =~= want);
    let sorted = sort_by_date(rendered_list);
    let stale = remove_deleted_posts(posts, output_entries, source_entries);
    Ok(Site { pages, posts: sorted, stale })
}

} // verus!
