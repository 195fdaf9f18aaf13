use dp_rss::feed::{build_feed, FeedDocument, FeedError};
use dp_rss::load::{load_posts, DirectoryListing, FileEntry, LoadError};
use dp_rss::posts::Post;
use rss::validation::Validate;

fn entry(name: &str, content: &str) -> FileEntry {
    FileEntry { name: String::from(name), content: String::from(content) }
}

fn post_text(title: &str, publish_date: &str) -> String {
    let mut s = String::from("Title: ");
    s.push_str(title);
    s.push_str("\nPublish Date: ");
    s.push_str(publish_date);
    s.push_str("\n---\nbody of ");
    s.push_str(title);
    s
}

fn channel_of(doc: &FeedDocument) -> rss::Channel {
    let mut items: Vec<rss::Item> = Vec::new();
    for e in &doc.entries {
        let mut b = rss::ItemBuilder::default();
        b.title(Some(e.title.clone()));
        b.description(Some(e.description.clone()));
        b.link(Some(e.link.clone()));
        b.guid(Some(rss::Guid { value: e.guid.clone(), permalink: true }));
        if let Some(pd) = &e.pub_date {
            b.pub_date(Some(pd.clone()));
        }
        if let Some(a) = &e.author {
            b.author(Some(a.clone()));
        }
        if let Some(c) = &e.category {
            b.categories(vec![rss::Category { name: c.clone(), domain: None }]);
        }
        items.push(b.build());
    }
    rss::ChannelBuilder::default()
        .title(doc.title.clone())
        .link(doc.link.clone())
        .description(doc.description.clone())
        .items(items)
        .build()
}

#[test]
fn posts_are_sorted_newest_first_with_unparseable_last() {
    let listing = DirectoryListing::Files(vec![
        entry("jan.txt", &post_text("January Post", "2025-01-01")),
        entry("june.txt", &post_text("June Post", "2025-06-15")),
        entry("odd.txt", &post_text("Odd Post", "sometime last year")),
    ]);
    let result = load_posts(listing).unwrap();
    let titles: Vec<&str> = result.posts.iter().map(|p| p.title.as_str()).collect();
    assert_eq!(titles, vec!["June Post", "January Post", "Odd Post"]);
    assert!(result.skipped.is_empty());
}

#[test]
fn ties_keep_enumeration_order() {
    let listing = DirectoryListing::Files(vec![
        entry("a.txt", &post_text("A", "2025-03-03")),
        entry("b.txt", &post_text("B", "03 March 2025")),
        entry("c.txt", &post_text("C", "2025-03-04")),
    ]);
    let result = load_posts(listing).unwrap();
    let titles: Vec<&str> = result.posts.iter().map(|p| p.title.as_str()).collect();
    assert_eq!(titles, vec!["C", "A", "B"]);
}

#[test]
fn non_txt_entries_are_ignored_and_failures_skipped() {
    let listing = DirectoryListing::Files(vec![
        entry("notes.md", &post_text("Markdown", "2025-01-01")),
        entry("bad.txt", "no separator in here"),
        entry("good.txt", &post_text("Good", "2025-01-02")),
        entry(".txt", &post_text("Hidden", "2025-01-03")),
    ]);
    let result = load_posts(listing).unwrap();
    assert_eq!(result.posts.len(), 1);
    assert_eq!(result.posts[0].title, "Good");
    assert_eq!(result.skipped.len(), 1);
    assert_eq!(result.skipped[0].filename, "bad.txt");
}

#[test]
fn missing_directory_signals_directory_not_found() {
    let err = load_posts(DirectoryListing::Missing).unwrap_err();
    assert_eq!(err, LoadError::DirectoryNotFound);
}

#[test]
fn missing_directory_still_renders_an_empty_feed() {
    let posts: Vec<Post> = match load_posts(DirectoryListing::Missing) {
        Ok(r) => r.posts,
        Err(_) => Vec::new(),
    };
    let doc = build_feed(&posts, "https://rss.example.com").unwrap();
    assert_eq!(doc.entries.len(), 0);
    assert_eq!(doc.title, "DPRSS");
    assert_eq!(doc.description, "RSS feed for my posts");
    channel_of(&doc).validate().unwrap();
}

#[test]
fn empty_directory_produces_valid_empty_feed() {
    let result = load_posts(DirectoryListing::Files(Vec::new())).unwrap();
    let doc = build_feed(&result.posts, "https://rss.example.com").unwrap();
    assert_eq!(doc.entries.len(), 0);
    channel_of(&doc).validate().unwrap();
}

#[test]
fn link_without_slug_ends_with_filename_minus_extension() {
    let post = Post::parse_content(
        &post_text("Hello", "2025-07-03"),
        String::from("hello-world.txt"),
    ).unwrap();
    let item = post.to_rss_item("https://rss.example.com/");
    assert_eq!(item.link, "https://rss.example.com/posts/hello-world");
    assert!(item.link.ends_with("/hello-world"));
    assert_eq!(item.guid, item.link);
}

#[test]
fn explicit_slug_wins_over_filename() {
    let text = "Title: T\nPublish Date: 2025-07-03\nSlug: custom\n---\nbody";
    let post = Post::parse_content(text, String::from("other.txt")).unwrap();
    let item = post.to_rss_item("https://rss.example.com");
    assert_eq!(item.link, "https://rss.example.com/posts/custom");
}

#[test]
fn publication_timestamp_is_noon_utc_rfc2822() {
    let post = Post::parse_content(&post_text("T", "2025-07-03"), String::from("t.txt")).unwrap();
    let item = post.to_rss_item("https://rss.example.com");
    assert_eq!(item.pub_date.as_deref(), Some("Thu, 3 Jul 2025 12:00:00 +0000"));
}

#[test]
fn all_forms_render_the_same_timestamp() {
    let forms = ["03 July 2025", "July 03, 2025", "2025-07-03", "07/03/2025"];
    for f in forms {
        let post = Post::parse_content(&post_text("T", f), String::from("t.txt")).unwrap();
        let item = post.to_rss_item("https://rss.example.com");
        assert_eq!(item.pub_date.as_deref(), Some("Thu, 3 Jul 2025 12:00:00 +0000"));
    }
}

#[test]
fn unparseable_date_suppresses_timestamp_but_keeps_entry() {
    let listing = DirectoryListing::Files(vec![
        entry("odd.txt", &post_text("Odd", "sometime")),
    ]);
    let result = load_posts(listing).unwrap();
    let doc = build_feed(&result.posts, "https://rss.example.com").unwrap();
    assert_eq!(doc.entries.len(), 1);
    assert_eq!(doc.entries[0].title, "Odd");
    assert!(doc.entries[0].pub_date.is_none());
    channel_of(&doc).validate().unwrap();
}

#[test]
fn author_and_category_are_projected_when_present() {
    let text = "Title: T\nPublish Date: 2025-07-03\nAuthor: Dana\nCategory: notes\n---\nbody";
    let post = Post::parse_content(text, String::from("t.txt")).unwrap();
    let item = post.to_rss_item("https://rss.example.com");
    assert_eq!(item.author.as_deref(), Some("Dana"));
    assert_eq!(item.category.as_deref(), Some("notes"));
}

#[test]
fn base_url_trailing_slashes_are_trimmed_in_links_only() {
    let post = Post::parse_content(&post_text("T", "2025-07-03"), String::from("t.txt")).unwrap();
    let item = post.to_rss_item("https://rss.example.com///");
    assert_eq!(item.link, "https://rss.example.com/posts/t");
    let doc = build_feed(&vec![post], "https://rss.example.com///").unwrap();
    assert_eq!(doc.link, "https://rss.example.com///");
}

#[test]
fn invalid_base_url_fails_document_validation() {
    let err = build_feed(&Vec::new(), "not a url").unwrap_err();
    assert_eq!(err, FeedError::DocumentValidationFailed);
}

#[test]
fn full_pipeline_feed_passes_rss_validation() {
    let listing = DirectoryListing::Files(vec![
        entry("jan.txt", &post_text("January Post", "2025-01-01")),
        entry("june.txt", &post_text("June Post", "15 June 2025")),
        entry("odd.txt", &post_text("Odd Post", "sometime")),
    ]);
    let result = load_posts(listing).unwrap();
    let doc = build_feed(&result.posts, "https://rss.example.com").unwrap();
    assert_eq!(doc.entries.len(), 3);
    let channel = channel_of(&doc);
    channel.validate().unwrap();
    let titles: Vec<&str> = channel.items().iter().map(|i| i.title().unwrap()).collect();
    assert_eq!(titles, vec!["June Post", "January Post", "Odd Post"]);
}
