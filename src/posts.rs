use vstd::prelude::*;

use chrono::{Datelike, TimeZone, Timelike};

use crate::text::{
    find_last, join, join_path, last_index_of, lemma_last_index_of, lemma_text_le, text_at_most, text_le,
};

verus! {

/// How a post's name encodes its date and time of publication.
pub const POST_DATE_FORMAT: &'static str = "%Y-%m-%d-%H:%M";

/// Why a build, or one of its steps, failed.
#[derive(Debug)]
pub enum Error {
    /// A source path has no file name.
    NoFileName(String),
    /// A source file name is not UTF-8.
    BadFileName(String),
    /// Reading, writing or listing failed.
    IoError(String),
    /// A post's name is not a date of the form `YYYY-MM-DD-HH:MM`.
    InvalidDateError(String),
    /// Rendered bytes, or a footnote tag, are not UTF-8.
    EncodingError,
    /// A template is missing or could not be rendered.
    TemplateError(String),
    /// The footnote definition with this tag has more than one child.
    StructuralError(Vec<u8>),
}

/// A post's date and time of publication, to the minute, in UTC.
#[derive(Clone, Copy, Debug, PartialEq, Eq, Structural)]
pub struct PostDate {
    pub year: i32,
    pub month: u32,
    pub day: u32,
    pub hour: u32,
    pub minute: u32,
}

impl PostDate {
    /// Every part lies in its calendar range.
    pub open spec fn valid(self) -> bool {
        &&& 1 <= self.month <= 12
        &&& 1 <= self.day <= 31
        &&& self.hour < 24
        &&& self.minute < 60
    }
}

/// The date that chrono reads from a text in a format, if it reads one.
pub uninterp spec fn parsed_date(text: Seq<char>, format: Seq<char>) -> Option<PostDate>;

/// Relies on chrono's `Utc.datetime_from_str`, which reads a UTC date and
/// time from `text` in `format`; chrono documents the ranges of month, day,
/// hour and minute.
#[verifier::external_body]
fn parse_date(text: &str, format: &str) -> (r: Option<PostDate>)
    ensures
        r == parsed_date(text@, format@),
        r matches Some(d) ==> d.valid(),
{
    #[allow(deprecated)]
    let d = chrono::Utc.datetime_from_str(text, format).ok()?;
    Some(PostDate { year: d.year(), month: d.month(), day: d.day(), hour: d.hour(), minute: d.minute() })
}

/// A path without trailing `/` and without trailing `.` components, as std's
/// `Path` reads its components; a root `/` stays.
pub open spec fn trimmed(path: Seq<char>) -> Seq<char>
    decreases path.len(),
{
    if path.len() > 1 && path.last() == '/' {
        trimmed(path.drop_last())
    } else if path.len() > 1 && path.last() == '.' && path[path.len() - 2] == '/' {
        trimmed(path.drop_last())
    } else {
        path
    }
}

/// What follows the last `/` of a path.
pub open spec fn last_component(path: Seq<char>) -> Seq<char> {
    match last_index_of(path, '/') {
        Some(i) => path.skip(i + 1),
        None => path,
    }
}

/// The file name of a path, as std's `Path::file_name` gives it: its last
/// component once trailing `/` and `.` components are dropped. It is empty
/// where std gives none: for a root, an empty path, `.` and `..`.
pub open spec fn file_name(path: Seq<char>) -> Seq<char> {
    let c = last_component(trimmed(path));
    if c == seq!['.'] || c == seq!['.', '.'] {
        seq![]
    } else {
        c
    }
}

/// A file name without its extension: what comes before its last `.`, unless
/// that `.` starts the name, as std's `Path::file_stem` gives it.
pub open spec fn file_stem(name: Seq<char>) -> Seq<char> {
    match last_index_of(name, '.') {
        Some(i) => if i > 0 {
            name.take(i)
        } else {
            name
        },
        None => name,
    }
}

/// What follows the last `.` of a file name, unless that `.` starts the name,
/// as std's `Path::extension` gives it; an empty name (no file name) has
/// none.
pub open spec fn extension(name: Seq<char>) -> Option<Seq<char>> {
    match last_index_of(name, '.') {
        Some(i) => if i > 0 {
            Some(name.skip(i + 1))
        } else {
            None
        },
        None => None,
    }
}

/// The file name of `path`; empty where it has none.
pub fn file_name_of(path: &str) -> (r: String)
    ensures
        r@ == file_name(path@),
{
    let n = path.unicode_len();
    let mut end: usize = n;
    assert(path@.take(n as int) =~= path@);
    while end > 1 && (path.get_char(end - 1) == '/' || (path.get_char(end - 1) == '.'
        && path.get_char(end - 2) == '/'))
        invariant
            n == path@.len(),
            end <= n,
            trimmed(path@) == trimmed(path@.take(end as int)),
        decreases end,
    {
        assert(path@.take(end as int).drop_last() =~= path@.take(end - 1));
        end = end - 1;
    }
    let ghost t = path@.take(end as int);
    assert(trimmed(t) == t);
    let whole = path.substring_char(0, end);
    proof {
        lemma_last_index_of(whole@, '/');
        reveal_strlit(".");
        reveal_strlit("..");
        assert("."@ =~= seq!['.']);
        assert(".."@ =~= seq!['.', '.']);
    }
    let last = match find_last(whole, '/') {
        Some(i) => whole.substring_char(i + 1, end),
        None => whole,
    };
    if text_equal(last, ".") || text_equal(last, "..") {
        String::new()
    } else {
        String::from_str(last)
    }
}

/// The stem of a file name.
pub fn file_stem_of(name: &str) -> (r: String)
    ensures
        r@ == file_stem(name@),
{
    proof {
        lemma_last_index_of(name@, '.');
    }
    match find_last(name, '.') {
        Some(i) => if i > 0 {
            String::from_str(name.substring_char(0, i))
        } else {
            String::from_str(name)
        },
        None => String::from_str(name),
    }
}

/// Whether two texts are equal.
pub fn text_equal(a: &str, b: &str) -> (r: bool)
    ensures
        r == (a@ == b@),
{
    let n = a.unicode_len();
    if n != b.unicode_len() {
        return false;
    }
    let mut i: usize = 0;
    while i < n
        invariant
            n == a@.len(),
            n == b@.len(),
            i <= n,
            forall|k: int| 0 <= k < i ==> a@[k] == b@[k],
        decreases n - i,
    {
        if a.get_char(i) != b.get_char(i) {
            return false;
        }
        i = i + 1;
    }
    assert(a@ =~= b@);
    true
}

/// Whether the path names a file with extension `ext`, as `extension` reads
/// the last component of the path.
pub fn has_extension(path: &str, ext: &str) -> (r: bool)
    ensures
        r == (extension(file_name(path@)) == Some(ext@)),
{
    let name = file_name_of(path);
    let name = name.as_str();
    proof {
        lemma_last_index_of(name@, '.');
    }
    let n = name.unicode_len();
    match find_last(name, '.') {
        Some(i) => if i > 0 {
            text_equal(name.substring_char(i + 1, n), ext)
        } else {
            false
        },
        None => false,
    }
}

/// A source post: a markdown file named for its date.
pub struct Post {
    pub path: String,
    pub name: String,
    pub date: PostDate,
}

/// What `Post::new` gives for a path: no file name, a name that is not a
/// date, or the post with its stem as name and the date that the stem reads.
pub open spec fn post_from(path: Seq<char>, r: Result<Post, Error>) -> bool {
    let stem = file_stem(file_name(path));
    &&& (r matches Err(Error::NoFileName(p)) <==> file_name(path).len() == 0) && (r matches Err(
        Error::NoFileName(p),
    ) ==> p@ == path)
    &&& (r matches Err(Error::InvalidDateError(s)) <==> file_name(path).len() > 0 && parsed_date(
        stem,
        POST_DATE_FORMAT@,
    ) is None) && (r matches Err(Error::InvalidDateError(s)) ==> s@ == stem)
    &&& r is Ok <==> file_name(path).len() > 0 && parsed_date(stem, POST_DATE_FORMAT@) is Some
    &&& r matches Ok(p) ==> p.path@ == path && p.name@ == stem && Some(p.date) == parsed_date(
        stem,
        POST_DATE_FORMAT@,
    ) && p.date.valid()
}

/// The name and date of the post at a path, where it is one.
pub open spec fn post_of(path: Seq<char>) -> Option<(Seq<char>, PostDate)> {
    let stem = file_stem(file_name(path));
    if file_name(path).len() > 0 && parsed_date(stem, POST_DATE_FORMAT@) is Some {
        Some((stem, parsed_date(stem, POST_DATE_FORMAT@)->0))
    } else {
        None
    }
}

/// The name of the post at a path; empty where it is none.
pub open spec fn post_name(path: Seq<char>) -> Seq<char> {
    match post_of(path) {
        Some((name, _)) => name,
        None => seq![],
    }
}

/// The date of the post at a path, where it is one.
pub open spec fn post_date(path: Seq<char>) -> PostDate {
    match post_of(path) {
        Some((_, date)) => date,
        None => PostDate { year: 0, month: 1, day: 1, hour: 0, minute: 0 },
    }
}

impl Post {
    /// Reads a post's identity from its path: the file stem, which must be a
    /// date.
    pub fn new(path: String) -> (r: Result<Post, Error>)
        ensures
            post_from(path@, r),
    {
        let file = file_name_of(path.as_str());
        if file.as_str().unicode_len() == 0 {
            return Err(Error::NoFileName(path));
        }
        let name = file_stem_of(file.as_str());
        match parse_date(name.as_str(), POST_DATE_FORMAT) {
            Some(date) => Ok(Post { path, name, date }),
            None => Err(Error::InvalidDateError(name)),
        }
    }

    pub fn path(&self) -> (r: &str)
        ensures
            r@ == self.path@,
    {
        self.path.as_str()
    }

    pub fn name(&self) -> (r: &str)
        ensures
            r@ == self.name@,
    {
        self.name.as_str()
    }

    pub fn date(&self) -> (r: &PostDate)
        ensures
            *r == self.date,
    {
        &self.date
    }
}

/// The directory that holds the source posts.
pub struct Posts {
    pub path: String,
}

/// The paths of the markdown files among the entries of `dir`, in order.
pub open spec fn markdown_paths(dir: Seq<char>, entries: Seq<Seq<char>>) -> Seq<Seq<char>>
    decreases entries.len(),
{
    if entries.len() == 0 {
        seq![]
    } else {
        let rest = markdown_paths(dir, entries.drop_last());
        let path = join(dir, entries.last());
        if extension(file_name(path)) == Some("md"@) {
            rest.push(path)
        } else {
            rest
        }
    }
}

pub open spec fn texts(s: Seq<String>) -> Seq<Seq<char>> {
    s.map_values(|t: String| t@)
}

impl Posts {
    pub fn new(path: String) -> (r: Posts)
        ensures
            r.path@ == path@,
    {
        Posts { path }
    }

    /// The source file of the post with the given name.
    pub fn get_post_filename(&self, name: &str) -> (r: String)
        ensures
            r@ == join(self.path@, name@) + ".md"@,
    {
        let mut r = join_path(self.path.as_str(), name);
        r.append(".md");
        r
    }

    /// The path of the last entry of the posts directory, in the order of
    /// names; `None` for an empty directory.
    pub fn get_latest_file(&self, entries: &Vec<String>) -> (r: Option<String>)
        ensures
            r is None <==> entries@.len() == 0,
            r matches Some(p) ==> exists|i: int|
                0 <= i < entries@.len() && p@ == join(self.path@, #[trigger] entries@[i]@) && forall|j: int|
                    0 <= j < entries@.len() ==> text_le(#[trigger] entries@[j]@, entries@[i]@),
    {
        if entries.len() == 0 {
            return None;
        }
        let mut best: usize = 0;
        let mut i: usize = 1;
        proof {
            lemma_text_le(entries@[0]@, entries@[0]@, entries@[0]@);
        }
        while i < entries.len()
            invariant
                1 <= i <= entries@.len(),
                best < i,
                forall|j: int| 0 <= j < i ==> text_le(#[trigger] entries@[j]@, entries@[best as int]@),
            decreases entries@.len() - i,
        {
            if !text_at_most(entries[i].as_str(), entries[best].as_str()) {
                proof {
                    let e = entries@;
                    assert forall|j: int| 0 <= j < i + 1 implies text_le(#[trigger] e[j]@, e[i as int]@) by {
                        lemma_text_le(e[j]@, e[best as int]@, e[i as int]@);
                        lemma_text_le(e[i as int]@, e[best as int]@, e[i as int]@);
                        lemma_text_le(e[i as int]@, e[i as int]@, e[i as int]@);
                    }
                }
                best = i;
            }
            i = i + 1;
        }
        Some(join_path(self.path.as_str(), entries[best].as_str()))
    }

    /// Is there a post with the given name among the files of the posts
    /// directory?
    pub fn is_post(&self, name: &str, files: &Vec<String>) -> (r: bool)
        ensures
            r == exists|i: int| 0 <= i < files@.len() && #[trigger] files@[i]@ == name@ + ".md"@,
    {
        let mut source = String::from_str(name);
        source.append(".md");
        let mut i: usize = 0;
        while i < files.len()
            invariant
                source@ == name@ + ".md"@,
                i <= files@.len(),
                forall|k: int| 0 <= k < i ==> #[trigger] files@[k]@ != source@,
            decreases files@.len() - i,
        {
            if text_equal(files[i].as_str(), source.as_str()) {
                return true;
            }
            i = i + 1;
        }
        false
    }

    /// The paths of the markdown files among the entries of the posts
    /// directory, in the order of the entries.
    pub fn markdown_files(&self, entries: &Vec<String>) -> (r: Vec<String>)
        ensures
            texts(r@) == markdown_paths(self.path@, texts(entries@)),
    {
        let ghost es = texts(entries@);
        let mut out: Vec<String> = Vec::new();
        let mut i: usize = 0;
        proof {
            reveal_strlit("md");
        }
        assert(texts(out@) =~= markdown_paths(self.path@, es.take(0)));
        while i < entries.len()
            invariant
                es == texts(entries@),
                i <= entries@.len(),
                texts(out@) == markdown_paths(self.path@, es.take(i as int)),
            decreases entries@.len() - i,
        {
            let ghost before = texts(out@);
            assert(es.take(i + 1).drop_last() =~= es.take(i as int));
            assert(es.take(i + 1).last() == entries@[i as int]@);
            let path = join_path(self.path.as_str(), entries[i].as_str());
            if has_extension(path.as_str(), "md") {
                let ghost p = path@;
                out.push(path);
                assert(texts(out@) =~= before.push(p));
            }
            i = i + 1;
        }
        assert(es.take(entries@.len() as int) =~= es);
        out
    }

    /// The posts among the entries of the posts directory: every file with
    /// the `md` extension, read by `Post::new`, in the order of the entries.
    pub fn iter_posts(&self, entries: &Vec<String>) -> (r: Vec<Result<Post, Error>>)
        ensures
            r@.len() == markdown_paths(self.path@, texts(entries@)).len(),
            forall|i: int|
                0 <= i < r@.len() ==> post_from(
                    #[trigger] markdown_paths(self.path@, texts(entries@))[i],
                    r@[i],
                ),
    {
        let ghost es = texts(entries@);
        let mut out: Vec<Result<Post, Error>> = Vec::new();
        let mut i: usize = 0;
        proof {
            reveal_strlit("md");
        }
        while i < entries.len()
            invariant
                es == texts(entries@),
                i <= entries@.len(),
                out@.len() == markdown_paths(self.path@, es.take(i as int)).len(),
                forall|k: int|
                    0 <= k < out@.len() ==> post_from(
                        #[trigger] markdown_paths(self.path@, es.take(i as int))[k],
                        out@[k],
                    ),
            decreases entries@.len() - i,
        {
            let ghost before = markdown_paths(self.path@, es.take(i as int));
            assert(es.take(i + 1).drop_last() =~= es.take(i as int));
            assert(es.take(i + 1).last() == entries@[i as int]@);
            let path = join_path(self.path.as_str(), entries[i].as_str());
            if has_extension(path.as_str(), "md") {
                let ghost p = path@;
                out.push(Post::new(path));
                assert(markdown_paths(self.path@, es.take(i + 1)) == before.push(p));
            }
            i = i + 1;
        }
        assert(es.take(entries@.len() as int) =~= es);
        out
    }
}

} // verus!
