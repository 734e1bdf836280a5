//! A static-site generator for a directory of dated markdown posts.
//!
//! - `tree`: a syntax tree as its nodes in document order, each with its depth.
//! - `markdown`: parsing and HTML rendering through comrak, and the title of
//!   a post.
//! - `sidenotes`: footnote definitions are detached and rendered as sidenote
//!   markup, which takes the place of every reference to their tag.
//! - `html`: a post rendered to HTML, its page, and posts in date order.
//! - `posts`: source posts, named for their date, and the errors of a build.
//! - `builder`: a whole build, and the rendered pages whose post is gone.
//! - `feed`: the entries of the syndication feed.
//! - `text`, `bytes`: paths, numbers and byte strings.

pub mod builder;
pub mod bytes;
pub mod feed;
pub mod html;
pub mod markdown;
pub mod posts;
pub mod sidenotes;
pub mod text;
pub mod tree;
