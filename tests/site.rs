use blake::builder::{build, remove_deleted_posts, OutputPath};
use blake::feed::{feed_updated, make_entry};
use blake::html::{format_date, sort_by_date, Post};
use blake::posts::{self, has_extension, Error, PostDate, Posts};

fn date(year: i32, month: u32, day: u32, hour: u32, minute: u32) -> PostDate {
    PostDate { year, month, day, hour, minute }
}

fn strings(items: &[&str]) -> Vec<String> {
    items.iter().map(|s| s.to_string()).collect()
}

fn rendered(url: &str, d: PostDate) -> Post {
    Post { body: String::new(), title: None, date: d, url: url.to_string() }
}

#[test]
fn output_paths_join_the_directory() {
    let out = OutputPath { path: "/out".to_string() };
    assert_eq!(out.index(), "/out/index.html");
    assert_eq!(out.feed(), "/out/feed.xml");
    assert_eq!(out.posts_dir(), "/out/posts");
    assert_eq!(out.static_dir(), "/out/static");
    let slash = OutputPath { path: "/out/".to_string() };
    assert_eq!(slash.index(), "/out/index.html");
}

#[test]
fn post_name_is_its_date() {
    let post = posts::Post::new("/posts/2020-01-02-03:04.md".to_string()).unwrap();
    assert_eq!(post.name(), "2020-01-02-03:04");
    assert_eq!(post.path(), "/posts/2020-01-02-03:04.md");
    assert_eq!(*post.date(), date(2020, 1, 2, 3, 4));
}

#[test]
fn post_name_that_is_not_a_date_is_refused() {
    match posts::Post::new("/posts/not-a-date.md".to_string()) {
        Err(Error::InvalidDateError(name)) => assert_eq!(name, "not-a-date"),
        _ => panic!("expected an invalid date"),
    }
}

#[test]
fn path_without_file_name_is_refused() {
    match posts::Post::new("/posts/..".to_string()) {
        Err(Error::NoFileName(path)) => assert_eq!(path, "/posts/.."),
        _ => panic!("expected no file name"),
    }
}

#[test]
fn iter_posts_reads_markdown_files_only() {
    let posts = Posts::new("/posts".to_string());
    let entries = strings(&["2020-01-02-03:04.md", "notes.txt", "draft.md"]);
    let found = posts.iter_posts(&entries);
    assert_eq!(found.len(), 2);
    match &found[0] {
        Ok(p) => assert_eq!(p.path(), "/posts/2020-01-02-03:04.md"),
        Err(_) => panic!("expected a post"),
    }
    assert!(matches!(&found[1], Err(Error::InvalidDateError(name)) if name == "draft"));
}

#[test]
fn post_filename_and_membership() {
    let posts = Posts::new("/posts/".to_string());
    assert_eq!(posts.get_post_filename("2020-01-02-03:04"), "/posts/2020-01-02-03:04.md");
    let files = strings(&["2020-01-02-03:04.md", "other.txt"]);
    assert!(posts.is_post("2020-01-02-03:04", &files));
    assert!(!posts.is_post("other", &files));
}

#[test]
fn orphaned_page_is_removed() {
    let posts = Posts::new("/posts".to_string());
    let outputs = strings(&["rendered-orphan.html", "2020-01-02-03:04.html", "style.css"]);
    let sources = strings(&["2020-01-02-03:04.md", "notes.txt"]);
    assert_eq!(remove_deleted_posts(&posts, &outputs, &sources), strings(&["rendered-orphan.html"]));
}

#[test]
fn rebuild_removes_nothing() {
    let posts = Posts::new("/posts".to_string());
    let sources = strings(&["2020-01-02-03:04.md", "2021-05-06-07:08.md"]);
    let outputs = strings(&["2020-01-02-03:04.html", "2021-05-06-07:08.html"]);
    assert!(remove_deleted_posts(&posts, &outputs, &sources).is_empty());
}

#[test]
fn posts_sort_newest_first_and_ties_keep_order() {
    let sorted = sort_by_date(vec![
        rendered("a", date(2019, 1, 1, 0, 0)),
        rendered("b", date(2021, 1, 1, 0, 0)),
        rendered("c", date(2019, 1, 1, 0, 0)),
        rendered("d", date(2020, 12, 31, 23, 59)),
    ]);
    let urls: Vec<&str> = sorted.iter().map(|p| p.url()).collect();
    assert_eq!(urls, vec!["b", "d", "a", "c"]);
}

#[test]
fn dates_are_written_year_month_day() {
    assert_eq!(format_date(&date(2020, 1, 2, 3, 4)), "2020-01-02");
    assert_eq!(format_date(&date(5, 11, 30, 0, 0)), "0005-11-30");
    assert_eq!(format_date(&date(12345, 6, 7, 0, 0)), "+12345-06-07");
    assert_eq!(format_date(&date(-1, 6, 7, 0, 0)), "-0001-06-07");
}

#[test]
fn render_gives_url_title_and_date() {
    let source = posts::Post::new("/posts/2020-01-02-03:04.md".to_string()).unwrap();
    let post = Post::render(&source, "# Hello\n\ntext").unwrap();
    assert_eq!(post.url(), "/posts/2020-01-02-03:04.html");
    assert_eq!(post.title(), &Some("Hello".to_string()));
    assert_eq!(post.body(), "<h1>Hello</h1>\n<p>text</p>\n");
    assert_eq!(*post.updated(), date(2020, 1, 2, 3, 4));
    assert_eq!(*post.published(), date(2020, 1, 2, 3, 4));
}

#[test]
fn feed_entry_uses_url_and_body() {
    let post = Post {
        body: "<p>x</p>".to_string(),
        title: None,
        date: date(2020, 1, 2, 3, 4),
        url: "/posts/p.html".to_string(),
    };
    let entry = make_entry(&post);
    assert_eq!(entry.id, "/posts/p.html");
    assert_eq!(entry.link, "/posts/p.html");
    assert_eq!(entry.src, "/posts/p.html");
    assert_eq!(entry.content, "<p>x</p>");
    assert_eq!(entry.content_type, "html");
    assert_eq!(entry.updated, date(2020, 1, 2, 3, 4));
    let posts = vec![rendered("a", date(2019, 1, 1, 0, 0)), rendered("b", date(2021, 3, 1, 0, 0))];
    assert_eq!(feed_updated(&posts), Some(date(2021, 3, 1, 0, 0)));
    assert_eq!(feed_updated(&Vec::new()), None);
}

fn templates() -> tera::Tera {
    let mut t = tera::Tera::default();
    t.add_raw_template("post.html", "<title>{{ title }}</title>{{ date }}|{{ post | safe }}")
        .unwrap();
    t
}

#[test]
fn build_renders_pages_sorts_posts_and_finds_stale_pages() {
    let posts = Posts::new("/posts".to_string());
    let source_entries = strings(&["2020-01-02-03:04.md", "notes.txt", "2021-01-02-03:04.md"]);
    let contents = strings(&["# Old\n\nfirst", "# New\n\nsecond"]);
    let output_entries = strings(&["2020-01-02-03:04.html", "gone.html"]);
    let site = build(&templates(), &posts, &source_entries, &contents, &output_entries).unwrap();
    assert_eq!(site.pages.len(), 2);
    assert_eq!(site.pages[0].file_name, "2020-01-02-03:04.html");
    assert_eq!(site.pages[0].html, "<title>Old</title>2020-01-02|<h1>Old</h1>\n<p>first</p>\n");
    let urls: Vec<&str> = site.posts.iter().map(|p| p.url()).collect();
    assert_eq!(urls, vec!["/posts/2021-01-02-03:04.html", "/posts/2020-01-02-03:04.html"]);
    assert_eq!(site.stale, strings(&["gone.html"]));
}

#[test]
fn build_twice_gives_the_same_pages() {
    let posts = Posts::new("/posts".to_string());
    let source_entries = strings(&["2020-01-02-03:04.md"]);
    let contents = strings(&["here's a \"thing\"[^n]\n\n[^n]: note\n"]);
    let first = build(&templates(), &posts, &source_entries, &contents, &Vec::new()).unwrap();
    let outputs: Vec<String> = first.pages.iter().map(|p| p.file_name.clone()).collect();
    let second = build(&templates(), &posts, &source_entries, &contents, &outputs).unwrap();
    assert_eq!(first.pages[0].html, second.pages[0].html);
    assert!(second.stale.is_empty());
}

#[test]
fn build_with_a_post_not_named_for_a_date_fails() {
    let posts = Posts::new("/posts".to_string());
    let source_entries = strings(&["2020-01-02-03:04.md", "draft.md"]);
    let contents = strings(&["text", "more"]);
    let outputs = strings(&["2020-01-02-03:04.html", "rendered-orphan.html"]);
    let result = build(&templates(), &posts, &source_entries, &contents, &outputs);
    assert!(matches!(result, Err(Error::InvalidDateError(name)) if name == "draft"));
}

#[test]
fn build_deletes_orphan_page() {
    let posts = Posts::new("/posts".to_string());
    let source_entries = strings(&["2020-01-02-03:04.md"]);
    let contents = strings(&["text"]);
    let outputs = strings(&["2020-01-02-03:04.html", "rendered-orphan.html"]);
    let site = build(&templates(), &posts, &source_entries, &contents, &outputs).unwrap();
    assert_eq!(site.stale, strings(&["rendered-orphan.html"]));
}

#[test]
fn missing_template_is_a_template_error() {
    let posts = Posts::new("/posts".to_string());
    let source_entries = strings(&["2020-01-02-03:04.md"]);
    let contents = strings(&["text"]);
    let result = build(&tera::Tera::default(), &posts, &source_entries, &contents, &Vec::new());
    assert!(matches!(result, Err(Error::TemplateError(_))));
}

#[test]
fn has_extension_reads_paths_as_std_does() {
    assert!(has_extension("a/b.md", "md"));
    assert!(!has_extension("a/b", "md"));
    assert!(!has_extension("a/b.md.bak", "md"));
    assert!(has_extension("a/b.md/", "md"));
    assert!(has_extension("a/b.md/.", "md"));
    assert!(!has_extension("a/..", ""));
    assert!(!has_extension(".md", "md"));
}

#[test]
fn page_context_holds_body_title_and_date() {
    let post = Post {
        body: "<p>x</p>".to_string(),
        title: Some("T".to_string()),
        date: date(2020, 1, 2, 3, 4),
        url: "/posts/p.html".to_string(),
    };
    assert_eq!(post.page_context(), ("<p>x</p>".to_string(), Some("T".to_string()), "2020-01-02".to_string()));
}

#[test]
fn latest_file_is_last_by_name() {
    let posts = Posts::new("/posts".to_string());
    let entries = strings(&["2020-01-02-03:04.md", "2021-05-06-07:08.md", "2019-12-31-23:59.md"]);
    assert_eq!(posts.get_latest_file(&entries), Some("/posts/2021-05-06-07:08.md".to_string()));
    assert_eq!(posts.get_latest_file(&Vec::new()), None);
}
