use dp_rss::dates::{parse_date, CalendarDate, DateError};
use dp_rss::posts::{Field, ParseError, Post};

fn date(year: u16, month: u8, day: u8) -> CalendarDate {
    CalendarDate { year, month, day }
}

#[test]
fn parses_valid_post_with_all_fields() {
    let text = "Title: Hello World\nPublish Date: 2025-07-03\nSlug: hello\nLast Edit Date: 2025-07-04\nAuthor: Dana\nCategory: notes\n---\n  Body text here.  \n";
    let post = Post::parse_content(text, String::from("hello.txt")).unwrap();
    assert_eq!(post.title, "Hello World");
    assert_eq!(post.publish_date, "2025-07-03");
    assert_eq!(post.slug.as_deref(), Some("hello"));
    assert_eq!(post.last_edit_date.as_deref(), Some("2025-07-04"));
    assert_eq!(post.author.as_deref(), Some("Dana"));
    assert_eq!(post.category.as_deref(), Some("notes"));
    assert_eq!(post.content, "Body text here.");
    assert_eq!(post.filename, "hello.txt");
}

#[test]
fn content_is_text_after_first_separator_trimmed() {
    let text = "Title: T\nPublish Date: 2025-01-01\n---\n\n line one\nline two \n\n";
    let post = Post::parse_content(text, String::from("a.txt")).unwrap();
    assert_eq!(post.content, "line one\nline two");
}

#[test]
fn first_separator_occurrence_splits() {
    let text = "Title: T\nPublish Date: 2025-01-01\n---first---second";
    let post = Post::parse_content(text, String::from("a.txt")).unwrap();
    assert_eq!(post.content, "first---second");
}

#[test]
fn header_keys_are_case_insensitive() {
    let text = "TITLE: Loud\npUbLiSh DaTe: 2025-01-01\n---\nbody";
    let post = Post::parse_content(text, String::from("a.txt")).unwrap();
    assert_eq!(post.title, "Loud");
    assert_eq!(post.publish_date, "2025-01-01");
}

#[test]
fn duplicate_keys_last_write_wins() {
    let text = "Title: First\nTitle: Second\nPublish Date: 2025-01-01\n---\nbody";
    let post = Post::parse_content(text, String::from("a.txt")).unwrap();
    assert_eq!(post.title, "Second");
}

#[test]
fn lines_without_colon_are_ignored() {
    let text = "Title: T\nthis line has no colon\nPublish Date: 2025-01-01\n---\nbody";
    let post = Post::parse_content(text, String::from("a.txt")).unwrap();
    assert_eq!(post.title, "T");
}

#[test]
fn missing_separator_is_malformed() {
    let err = Post::parse_content("Title: T\nPublish Date: 2025-01-01\nbody", String::from("a.txt"))
        .unwrap_err();
    assert_eq!(err, ParseError::MalformedPost);
}

#[test]
fn missing_title_is_reported() {
    let err = Post::parse_content("Publish Date: 2025-01-01\n---\nbody", String::from("a.txt"))
        .unwrap_err();
    assert_eq!(err, ParseError::MissingField(Field::Title));
}

#[test]
fn missing_publish_date_is_reported() {
    let err = Post::parse_content("Title: T\n---\nbody", String::from("a.txt")).unwrap_err();
    assert_eq!(err, ParseError::MissingField(Field::PublishDate));
}

#[test]
fn empty_title_value_counts_as_missing() {
    let err = Post::parse_content("Title:\nPublish Date: 2025-01-01\n---\nbody",
        String::from("a.txt")).unwrap_err();
    assert_eq!(err, ParseError::MissingField(Field::Title));
}

#[test]
fn four_date_forms_give_same_calendar_date() {
    let expected = date(2025, 7, 3);
    assert_eq!(parse_date("03 July 2025").unwrap(), expected);
    assert_eq!(parse_date("July 03, 2025").unwrap(), expected);
    assert_eq!(parse_date("2025-07-03").unwrap(), expected);
    assert_eq!(parse_date("07/03/2025").unwrap(), expected);
}

#[test]
fn month_names_ignore_case() {
    assert_eq!(parse_date("03 JULY 2025").unwrap(), date(2025, 7, 3));
    assert_eq!(parse_date("december 09, 2024").unwrap(), date(2024, 12, 9));
}

#[test]
fn single_digit_day_and_month_parse() {
    assert_eq!(parse_date("3 July 2025").unwrap(), date(2025, 7, 3));
    assert_eq!(parse_date("2025-7-3").unwrap(), date(2025, 7, 3));
    assert_eq!(parse_date("7/3/2025").unwrap(), date(2025, 7, 3));
}

#[test]
fn slash_form_is_month_first() {
    assert_eq!(parse_date("02/03/2025").unwrap(), date(2025, 2, 3));
}

#[test]
fn leap_day_parses_only_in_leap_years() {
    assert_eq!(parse_date("2024-02-29").unwrap(), date(2024, 2, 29));
    assert_eq!(parse_date("2025-02-29").unwrap_err(), DateError::UnparseableDate);
}

#[test]
fn unparseable_dates_are_reported() {
    assert_eq!(parse_date("not a date").unwrap_err(), DateError::UnparseableDate);
    assert_eq!(parse_date("2025/07/03").unwrap_err(), DateError::UnparseableDate);
    assert_eq!(parse_date("13/13/2025").unwrap_err(), DateError::UnparseableDate);
    assert_eq!(parse_date("").unwrap_err(), DateError::UnparseableDate);
}
