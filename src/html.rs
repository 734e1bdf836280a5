use vstd::prelude::*;
use vstd::utf8::{decode_utf8, valid_utf8};

use crate::markdown::{
    body_options, body_options_spec, find_title, parse_document, parse_options, parse_options_spec,
    parsed_markdown, render_html, rendered_html, title_of,
};
use crate::posts::{self, Error, PostDate};
use crate::sidenotes::{
    self, is_definition, lemma_plain_document, lemma_strip_nothing_defined, note_renders,
    reference_tags_utf8, sidenoted, single_child, strip,
};
use crate::markdown::is_title;
use crate::tree::Item;
use crate::text::{decimal, decimal_text, padded, padded_text};

verus! {

#[verifier::external_type_specification]
#[verifier::external_body]
pub struct ExTera(tera::Tera);

/// The tree of a post once its footnotes are sidenotes.
pub open spec fn page_tree(text: Seq<char>) -> Seq<crate::tree::NodeView> {
    sidenoted(parsed_markdown(text, parse_options_spec()))
}

/// The HTML bytes of a post's body.
pub open spec fn body_bytes(text: Seq<char>) -> Seq<u8> {
    rendered_html(page_tree(text), body_options_spec())
}

/// Some footnote definition of the post has more than one child.
pub open spec fn malformed_footnote(text: Seq<char>) -> bool {
    let defs = strip(parsed_markdown(text, parse_options_spec())).1;
    exists|k: int| 0 <= k < defs.len() && !single_child(#[trigger] defs[k])
}

/// A post renders: every footnote definition renders as a sidenote, and the
/// reference tags and the HTML of the body are UTF-8.
pub open spec fn renders(text: Seq<char>) -> bool {
    let p = parsed_markdown(text, parse_options_spec());
    &&& forall|k: int| 0 <= k < strip(p).1.len() ==> note_renders(#[trigger] strip(p).1[k])
    &&& reference_tags_utf8(page_tree(text))
    &&& valid_utf8(body_bytes(text))
}

/// What `render_markdown` gives for a text: the post's title and its body,
/// exactly where the post renders.
pub open spec fn markdown_rendered(text: Seq<char>, r: Result<(Option<String>, String), Error>) -> bool {
    &&& r is Ok <==> renders(text)
    &&& r matches Ok((t, b)) ==> {
        &&& option_text(t) == title_of(parsed_markdown(text, parse_options_spec()))
        &&& b@ == decode_utf8(body_bytes(text))
    }
}

/// The parsed post has no footnote reference and no level-one heading.
pub open spec fn plain_text(text: Seq<char>) -> bool {
    let p = parsed_markdown(text, parse_options_spec());
    &&& forall|k: int| 0 <= k < p.len() ==> !(#[trigger] p[k].item is FootnoteReference)
    &&& forall|k: int| 0 <= k < p.len() ==> !is_title(#[trigger] p[k].item)
}

/// Renders a post's markdown: its title, and its body as HTML with footnotes
/// as sidenotes. A post without footnote references and without a level-one
/// heading has no title, and its body is the HTML of the tree as parsed.
pub fn render_markdown(contents: &str) -> (r: Result<(Option<String>, String), Error>)
    ensures
        markdown_rendered(contents@, r),
        plain_text(contents@) && valid_utf8(
            rendered_html(parsed_markdown(contents@, parse_options_spec()), body_options_spec()),
        ) ==> (r matches Ok((t, b)) && t is None && b@ == decode_utf8(
            rendered_html(parsed_markdown(contents@, parse_options_spec()), body_options_spec()),
        )),
        malformed_footnote(contents@) ==> r is Err,
        r matches Err(Error::StructuralError(_)) ==> malformed_footnote(contents@),
{
    let tree = parse_document(contents, parse_options());
    proof {
        let p = parsed_markdown(contents@, parse_options_spec());
        if plain_text(contents@) && valid_utf8(rendered_html(p, body_options_spec())) {
            assert forall|k: int| 0 <= k < p.len() implies !is_definition(#[trigger] p[k]) by {}
            lemma_plain_post(contents@);
        }
    }
    let title = find_title(&tree);
    let tree = match sidenotes::render(tree) {
        Ok(t) => t,
        Err(e) => return Err(e),
    };
    match render_html(&tree, body_options()) {
        Ok(body) => Ok((title, body)),
        Err(e) => Err(e),
    }
}

/// Rendering a text twice gives the same outcome: both fail, or both give
/// the same title and body.
pub proof fn lemma_render_markdown_deterministic(
    text: Seq<char>,
    a: Result<(Option<String>, String), Error>,
    b: Result<(Option<String>, String), Error>,
)
    requires
        markdown_rendered(text, a),
        markdown_rendered(text, b),
    ensures
        a is Ok <==> b is Ok,
        a matches Ok((ta, ba)) ==> b matches Ok((tb, bb)) && option_text(ta) == option_text(tb)
            && ba@ == bb@,
{
}

/// A post without footnotes and without a level-one heading renders, where
/// its HTML is UTF-8, to no title and the HTML of its tree as parsed.
pub proof fn lemma_plain_post(text: Seq<char>)
    requires
        ({
            let p = parsed_markdown(text, parse_options_spec());
            &&& forall|k: int| 0 <= k < p.len() ==> !is_definition(#[trigger] p[k])
            &&& forall|k: int| 0 <= k < p.len() ==> !(#[trigger] p[k].item is FootnoteReference)
            &&& forall|k: int| 0 <= k < p.len() ==> !is_title(#[trigger] p[k].item)
            &&& valid_utf8(rendered_html(p, body_options_spec()))
        }),
    ensures
        renders(text),
        page_tree(text) == parsed_markdown(text, parse_options_spec()),
        title_of(parsed_markdown(text, parse_options_spec())) is None,
{
    let p = parsed_markdown(text, parse_options_spec());
    lemma_plain_document(p);
    lemma_strip_nothing_defined(p);
    assert forall|k: int| 0 <= k < p.len() implies (#[trigger] p[k].item matches Item::FootnoteReference(
        t,
    ) ==> valid_utf8(t)) by {}
}

/// A rendered post as the contracts see it.
pub struct PostView {
    pub body: Seq<char>,
    pub title: Option<Seq<char>>,
    pub date: PostDate,
    pub url: Seq<char>,
}

/// A rendered post: what the index and the feed are made from.
pub struct Post {
    pub body: String,
    pub title: Option<String>,
    pub date: PostDate,
    pub url: String,
}

pub open spec fn option_text(t: Option<String>) -> Option<Seq<char>> {
    match t {
        Some(s) => Some(s@),
        None => None,
    }
}

impl View for Post {
    type V = PostView;

    open spec fn view(&self) -> PostView {
        PostView { body: self.body@, title: option_text(self.title), date: self.date, url: self.url@ }
    }
}

/// Where a post is published.
pub open spec fn post_url(name: Seq<char>) -> Seq<char> {
    "/posts/"@ + name + ".html"@
}

/// The rendered post for a source post of the given name, date and text.
pub open spec fn rendered(name: Seq<char>, date: PostDate, text: Seq<char>) -> PostView {
    PostView {
        body: decode_utf8(body_bytes(text)),
        title: title_of(parsed_markdown(text, parse_options_spec())),
        date,
        url: post_url(name),
    }
}

/// `Post::render` succeeded on text that renders, and gave that rendering.
pub open spec fn rendered_from(post: posts::Post, text: Seq<char>, r: Post) -> bool {
    valid_utf8(body_bytes(text)) && r@ == rendered(post.name@, post.date, text)
}

/// The date as `YYYY-MM-DD`; a year outside 0 to 9999 carries its sign.
pub open spec fn date_text(d: PostDate) -> Seq<char> {
    let y = d.year as int;
    let year = if 0 <= y <= 9999 {
        padded(y as nat, 4)
    } else if y > 9999 {
        seq!['+'] + decimal(y as nat)
    } else {
        seq!['-'] + padded((-y) as nat, 4)
    };
    year + seq!['-'] + padded(d.month as nat, 2) + seq!['-'] + padded(d.day as nat, 2)
}

/// Writes a date as `YYYY-MM-DD`.
pub fn format_date(d: &PostDate) -> (r: String)
    ensures
        r@ == date_text(*d),
{
    proof {
        reveal_strlit("+");
        reveal_strlit("-");
    }
    let mut out = if 0 <= d.year && d.year <= 9999 {
        padded_text(d.year as u32, 4)
    } else if d.year > 9999 {
        String::from_str("+").concat(decimal_text(d.year as u32).as_str())
    } else {
        let magnitude: u32 = (-(d.year as i64)) as u32;
        String::from_str("-").concat(padded_text(magnitude, 4).as_str())
    };
    out.append("-");
    out.append(padded_text(d.month, 2).as_str());
    out.append("-");
    out.append(padded_text(d.day, 2).as_str());
    out
}

/// Relies on tera's `Tera::render`: renders the named template with the
/// three values of the context as `post`, `title` and `date`. What comes back
/// depends on the templates that were loaded.
#[verifier::external_body]
fn render_page(
    templates: &tera::Tera,
    template: &str,
    context: &(String, Option<String>, String),
) -> (r: Result<String, String>) {
    let mut values = tera::Context::new();
    values.insert("post", &context.0);
    values.insert("title", &context.1);
    values.insert("date", &context.2);
    templates.render(template, &values).map_err(|e| e.to_string())
}

impl Post {
    /// Renders a source post, given the text of its file.
    pub fn render(post: &posts::Post, contents: &str) -> (r: Result<Post, Error>)
        ensures
            r is Ok <==> renders(contents@),
            r matches Ok(p) ==> rendered_from(*post, contents@, p),
            malformed_footnote(contents@) ==> r is Err,
            r matches Err(Error::StructuralError(_)) ==> malformed_footnote(contents@),
    {
        let (title, body) = match render_markdown(contents) {
            Ok(x) => x,
            Err(e) => return Err(e),
        };
        let mut url = String::from_str("/posts/");
        url.append(post.name());
        url.append(".html");
        Ok(Post { body, title, date: post.date, url })
    }

    /// The page of this post, rendered with the `post.html` template.
    /// What the page template is given: the post's body, its title, and its
    /// date as `YYYY-MM-DD`.
    pub fn page_context(&self) -> (r: (String, Option<String>, String))
        ensures
            r.0@ == self@.body,
            option_text(r.1) == self@.title,
            r.2@ == date_text(self.date),
    {
        let title = match &self.title {
            Some(t) => Some(t.clone()),
            None => None,
        };
        (self.body.clone(), title, format_date(&self.date))
    }

    pub fn write_html(&self, templates: &tera::Tera) -> (r: Result<String, Error>)
        ensures
            r matches Err(e) ==> e is TemplateError,
    {
        let context = self.page_context();
        match render_page(templates, "post.html", &context) {
            Ok(page) => Ok(page),
            Err(e) => Err(Error::TemplateError(e)),
        }
    }

    pub fn body(&self) -> (r: &str)
        ensures
            r@ == self@.body,
    {
        self.body.as_str()
    }

    pub fn title(&self) -> (r: &Option<String>)
        ensures
            option_text(*r) == self@.title,
    {
        &self.title
    }

    pub fn date(&self) -> (r: &PostDate)
        ensures
            *r == self@.date,
    {
        &self.date
    }

    /// When the post was last changed: its date, as no edits are tracked.
    pub fn updated(&self) -> (r: &PostDate)
        ensures
            *r == self@.date,
    {
        &self.date
    }

    /// When the post was first published: its date.
    pub fn published(&self) -> (r: &PostDate)
        ensures
            *r == self@.date,
    {
        &self.date
    }

    pub fn url(&self) -> (r: &str)
        ensures
            r@ == self@.url,
    {
        self.url.as_str()
    }
}

/// A number that orders dates in time: for valid dates, a larger key is a
/// later minute.
pub open spec fn date_key(d: PostDate) -> int {
    ((((d.year as int) * 13 + d.month) * 32 + d.day) * 24 + d.hour) * 60 + d.minute
}

pub fn date_key_of(d: &PostDate) -> (r: i64)
    ensures
        r == date_key(*d),
{
    ((((d.year as i64) * 13 + d.month as i64) * 32 + d.day as i64) * 24 + d.hour as i64) * 60
        + d.minute as i64
}

/// Where `x` goes among posts sorted newest first: after every post that is
/// not older than it.
pub open spec fn position_for(s: Seq<PostView>, x: PostView, k: int) -> int
    decreases s.len() - k,
{
    if k >= s.len() || date_key(x.date) > date_key(s[k].date) {
        k
    } else {
        position_for(s, x, k + 1)
    }
}

/// The posts, newest first; posts of the same minute keep their order.
pub open spec fn by_date(s: Seq<PostView>) -> Seq<PostView>
    decreases s.len(),
{
    if s.len() == 0 {
        s
    } else {
        let r = by_date(s.drop_last());
        r.insert(position_for(r, s.last(), 0), s.last())
    }
}

pub open spec fn newest_first(s: Seq<PostView>) -> bool {
    forall|i: int, j: int| 0 <= i < j < s.len() ==> date_key(#[trigger] s[i].date) >= date_key(#[trigger] s[j].date)
}

proof fn lemma_position_for(s: Seq<PostView>, x: PostView, k: int)
    requires
        0 <= k <= s.len(),
        forall|m: int| 0 <= m < k ==> date_key(x.date) <= date_key(#[trigger] s[m].date),
    ensures
        k <= position_for(s, x, k) <= s.len(),
        forall|m: int| 0 <= m < position_for(s, x, k) ==> date_key(x.date) <= date_key(#[trigger] s[m].date),
        position_for(s, x, k) < s.len() ==> date_key(x.date) > date_key(s[position_for(s, x, k)].date),
    decreases s.len() - k,
{
    if k < s.len() && date_key(x.date) <= date_key(s[k].date) {
        lemma_position_for(s, x, k + 1);
    }
}

/// Sorting gives the posts newest first, and as many as there were.
pub proof fn lemma_by_date(s: Seq<PostView>)
    ensures
        newest_first(by_date(s)),
        by_date(s).len() == s.len(),
    decreases s.len(),
{
    if s.len() > 0 {
        let r = by_date(s.drop_last());
        lemma_by_date(s.drop_last());
        let x = s.last();
        lemma_position_for(r, x, 0);
        let p = position_for(r, x, 0);
        let t = r.insert(p, x);
        assert forall|i: int, j: int| 0 <= i < j < t.len() implies date_key(#[trigger] t[i].date)
            >= date_key(#[trigger] t[j].date) by {
            if j < p {
                assert(t[i] == r[i] && t[j] == r[j]);
            } else if j == p {
                assert(t[i] == r[i]);
            } else if i == p {
                assert(t[j] == r[j - 1]);
                assert(date_key(r[p].date) >= date_key(r[j - 1].date));
            } else if i < p {
                assert(t[i] == r[i] && t[j] == r[j - 1]);
            } else {
                assert(t[i] == r[i - 1] && t[j] == r[j - 1]);
            }
        }
    }
}

/// Sorting neither adds nor drops a post.
pub proof fn lemma_by_date_permutes(s: Seq<PostView>)
    ensures
        by_date(s).to_multiset() == s.to_multiset(),
    decreases s.len(),
{
    broadcast use vstd::seq_lib::to_multiset_build, vstd::seq_lib::to_multiset_insert;

    if s.len() > 0 {
        let init = s.drop_last();
        lemma_by_date_permutes(init);
        lemma_by_date(init);
        let r = by_date(init);
        lemma_position_for(r, s.last(), 0);
        assert(init.push(s.last()) =~= s);
    }
}

pub open spec fn post_views(s: Seq<Post>) -> Seq<PostView> {
    s.map_values(|p: Post| p@)
}

/// Puts posts in order, newest first; posts of the same minute keep the
/// order they came in.
pub fn sort_by_date(posts: Vec<Post>) -> (r: Vec<Post>)
    ensures
        post_views(r@) == by_date(post_views(posts@)),
{
    let ghost s = post_views(posts@);
    let mut src = posts;
    let mut out: Vec<Post> = Vec::new();
    let ghost mut i: int = 0;
    assert(s.take(0) =~= Seq::<PostView>::empty());
    assert(post_views(out@) =~= by_date(s.take(0)));
    while src.len() > 0
        invariant
            0 <= i <= s.len(),
            post_views(src@) == s.skip(i),
            post_views(out@) == by_date(s.take(i)),
        decreases src@.len(),
    {
        let ghost v = post_views(src@);
        assert(v.len() == src@.len());
        assert(v[0] == src@[0]@);
        let ghost before = src@;
        let x = src.remove(0);
        assert(post_views(src@) =~= s.skip(i + 1)) by {
            assert(post_views(src@).len() == src@.len());
            assert forall|m: int| 0 <= m < src@.len() implies #[trigger] post_views(src@)[m]
                == s.skip(i + 1)[m] by {
                assert(src@[m] == before[m + 1]);
                assert(v[m + 1] == before[m + 1]@);
                assert(s.skip(i)[m + 1] == s[i + 1 + m]);
            }
        }
        let ghost o = post_views(out@);
        let key = date_key_of(x.date());
        let mut k: usize = 0;
        while k < out.len() && !(key > date_key_of(out[k].date()))
            invariant
                o == post_views(out@),
                o.len() == out@.len(),
                k <= out@.len(),
                key == date_key(x@.date),
                position_for(o, x@, 0) == position_for(o, x@, k as int),
            decreases out@.len() - k,
        {
            assert(o[k as int] == out@[k as int]@);
            k = k + 1;
        }
        proof {
            if k < out@.len() {
                assert(o[k as int] == out@[k as int]@);
            }
        }
        out.insert(k, x);
        assert(s.take(i + 1).drop_last() =~= s.take(i));
        assert(s.take(i + 1).last() == s[i]);
        assert(post_views(out@) =~= o.insert(k as int, x@));
        proof {
            i = i + 1;
        }
    }
    assert(s.take(i) =~= s);
    out
}


/// Rendering the same source post from the same text twice gives the same
/// rendered post.
pub proof fn lemma_render_deterministic(post: posts::Post, text: Seq<char>, a: Post, b: Post)
    requires
        rendered_from(post, text, a),
        rendered_from(post, text, b),
    ensures
        a@ == b@,
{
}

} // verus!
