//! Posts and single-post parsing.  A post file is split at the first
//! `---` into a header block and a body; each header line is a key/value
//! pair split at its first colon, keys compared case-insensitively, later
//! duplicates overwriting earlier ones.  `Title` and `Publish Date` are
//! required and non-empty; everything else is optional.

use vstd::prelude::*;

verus! {

use vstd::string::StrSliceExecFns;
use vstd::string::StringExecFns;
use crate::text::{trim, trim_slice, find_char_from, find_char_in, lower_seq, eq_ignore_case};

/// A required header field of a post file.
#[derive(Debug, Clone, Copy, PartialEq, Eq, Structural)]
pub enum Field {
    Title,
    PublishDate,
}

/// Why a single post file failed to parse.
#[derive(Debug, Clone, Copy, PartialEq, Eq, Structural)]
pub enum ParseError {
    /// The file has no `---` separator between headers and body.
    MalformedPost,
    /// A required header field is absent, or present with an empty value.
    MissingField(Field),
}

/// A post as mathematics sees it.
#[verifier::ext_equal]
pub ghost struct PostView {
    pub title: Seq<char>,
    pub slug: Option<Seq<char>>,
    pub publish_date: Seq<char>,
    pub last_edit_date: Option<Seq<char>>,
    pub author: Option<Seq<char>>,
    pub category: Option<Seq<char>>,
    pub content: Seq<char>,
    pub filename: Seq<char>,
}

/// One parsed unit of content, derived from a single source file.
#[derive(Debug, Clone)]
pub struct Post {
    pub title: String,
    pub slug: Option<String>,
    pub publish_date: String,
    pub last_edit_date: Option<String>,
    pub author: Option<String>,
    pub category: Option<String>,
    pub content: String,
    pub filename: String,
}

/// The view of an optional owned string.
pub open spec fn opt_view(o: Option<String>) -> Option<Seq<char>> {
    match o {
        Some(s) => Some(s@),
        None => None,
    }
}

impl View for Post {
    type V = PostView;

    open spec fn view(&self) -> PostView {
        PostView {
            title: self.title@,
            slug: opt_view(self.slug),
            publish_date: self.publish_date@,
            last_edit_date: opt_view(self.last_edit_date),
            author: opt_view(self.author),
            category: opt_view(self.category),
            content: self.content@,
            filename: self.filename@,
        }
    }
}

/// A constructed post carries a non-empty title and a non-empty raw
/// publish date; absence of either is a construction failure.
pub open spec fn post_wf(p: PostView) -> bool {
    p.title.len() > 0 && p.publish_date.len() > 0
}

impl Post {
    pub open spec fn wf(&self) -> bool {
        post_wf(self@)
    }
}

/// Whether the separator token `---` stands at index `i` of `s`.
pub open spec fn sep_at(s: Seq<char>, i: int) -> bool {
    0 <= i && i + 3 <= s.len() && s[i] == '-' && s[i + 1] == '-' && s[i + 2] == '-'
}

/// The first index at or after `i` where the separator token stands, or
/// `s.len()` if it stands nowhere.
pub open spec fn find_sep_from(s: Seq<char>, i: int) -> int
    decreases s.len() - i,
{
    if i + 3 > s.len() {
        s.len() as int
    } else if sep_at(s, i) {
        i
    } else {
        find_sep_from(s, i + 1)
    }
}

/// The key/value reading of one header line: the line is trimmed and
/// split at its first colon; a line without a colon carries nothing.
/// `Some(v)` means the line binds `key` (compared ignoring ASCII case)
/// to the trimmed value `v`.
pub open spec fn line_lookup(line: Seq<char>, key: Seq<char>) -> Option<Seq<char>> {
    let t = trim(line);
    let ci = find_char_from(t, 0, ':');
    if ci == t.len() {
        None
    } else if lower_seq(trim(t.subrange(0, ci))) == lower_seq(key) {
        Some(trim(t.subrange(ci + 1, t.len() as int)))
    } else {
        None
    }
}

/// The value the header block `s` binds to `key`: lines are split at
/// newlines and later bindings overwrite earlier ones.
pub open spec fn header_value(s: Seq<char>, key: Seq<char>) -> Option<Seq<char>>
    decreases s.len(),
{
    let nl = find_char_from(s, 0, '\n');
    if !(0 <= nl < s.len()) {
        line_lookup(s, key)
    } else {
        match header_value(s.subrange(nl + 1, s.len() as int), key) {
            Some(v) => Some(v),
            None => line_lookup(s.subrange(0, nl), key),
        }
    }
}

/// A required field's value: present and non-empty, or nothing.
pub open spec fn req_field(head: Seq<char>, key: Seq<char>) -> Option<Seq<char>> {
    match header_value(head, key) {
        Some(v) => if v.len() > 0 { Some(v) } else { None },
        None => None,
    }
}

/// What parsing a whole post file yields: the header block before the
/// first `---` read as key/value lines, the trimmed rest as the body.
pub open spec fn parse_post(s: Seq<char>, filename: Seq<char>) -> Result<PostView, ParseError> {
    let f = find_sep_from(s, 0);
    if f == s.len() {
        Err(ParseError::MalformedPost)
    } else {
        let head = s.subrange(0, f);
        match req_field(head, "title"@) {
            None => Err(ParseError::MissingField(Field::Title)),
            Some(title) => match req_field(head, "publish date"@) {
                None => Err(ParseError::MissingField(Field::PublishDate)),
                Some(pd) => Ok(PostView {
                    title: title,
                    slug: header_value(head, "slug"@),
                    publish_date: pd,
                    last_edit_date: header_value(head, "last edit date"@),
                    author: header_value(head, "author"@),
                    category: header_value(head, "category"@),
                    content: trim(s.subrange(f + 3, s.len() as int)),
                    filename: filename,
                }),
            },
        }
    }
}

/// Runtime test for [`sep_at`].
fn sep_check(s: &str, i: usize) -> (r: bool)
    requires
        i + 3 <= s@.len() <= usize::MAX,
    ensures
        r == sep_at(s@, i as int),
{
    s.get_char(i) == '-' && s.get_char(i + 1) == '-' && s.get_char(i + 2) == '-'
}

/// The first occurrence of the separator token in `s`, or `s@.len()`.
fn find_sep(s: &str) -> (r: usize)
    ensures
        r == find_sep_from(s@, 0),
        r <= s@.len(),
        r < s@.len() ==> sep_at(s@, r as int) && r + 3 <= s@.len(),
{
    let n = s.unicode_len();
    if n < 3 {
        return n;
    }
    let m = n - 3;
    let mut i: usize = 0;
    while i <= m && !sep_check(s, i)
        invariant
            i <= m + 1,
            m == n - 3 <= n == s@.len(),
            find_sep_from(s@, 0) == find_sep_from(s@, i as int),
        decreases m + 1 - i,
    {
        i = i + 1;
    }
    if i <= m {
        i
    } else {
        proof {
            assert(find_sep_from(s@, i as int) == s@.len());
        }
        n
    }
}

impl Post {
    /// Parses one post file's raw text.  The text splits at the first
    /// `---` into headers and body; `Title` and `Publish Date` must be
    /// bound to non-empty values.
    pub fn parse_content(content: &str, filename: String) -> (r: Result<Post, ParseError>)
        ensures
            match r {
                Ok(p) => parse_post(content@, filename@) == Ok::<PostView, ParseError>(p@)
                    && p.wf(),
                Err(e) => parse_post(content@, filename@) == Err::<PostView, ParseError>(e),
            },
    {
        proof {
            reveal_strlit("title");
            reveal_strlit("slug");
            reveal_strlit("publish date");
            reveal_strlit("last edit date");
            reveal_strlit("author");
            reveal_strlit("category");
        }
        let n = content.unicode_len();
        let f = find_sep(content);
        if f == n {
            return Err(ParseError::MalformedPost);
        }
        let head = content.substring_char(0, f);
        let hn = head.unicode_len();
        let body = trim_slice(content, f + 3, n);

        let mut title_slot: Option<String> = None;
        let mut slug_slot: Option<String> = None;
        let mut pd_slot: Option<String> = None;
        let mut led_slot: Option<String> = None;
        let mut author_slot: Option<String> = None;
        let mut cat_slot: Option<String> = None;

        proof {
            assert(head@.subrange(0, hn as int) =~= head@);
        }
        let mut pos: usize = 0;
        while pos <= hn
            invariant
                n == content@.len(),
                f < n,
                hn == head@.len(),
                head@ == content@.subrange(0, f as int),
                pos <= hn + 1,
                pos <= hn ==> {
                    let rest = head@.subrange(pos as int, hn as int);
                    &&& header_value(head@, "title"@) == hv_or(header_value(rest, "title"@), opt_view(title_slot))
                    &&& header_value(head@, "slug"@) == hv_or(header_value(rest, "slug"@), opt_view(slug_slot))
                    &&& header_value(head@, "publish date"@) == hv_or(header_value(rest, "publish date"@), opt_view(pd_slot))
                    &&& header_value(head@, "last edit date"@) == hv_or(header_value(rest, "last edit date"@), opt_view(led_slot))
                    &&& header_value(head@, "author"@) == hv_or(header_value(rest, "author"@), opt_view(author_slot))
                    &&& header_value(head@, "category"@) == hv_or(header_value(rest, "category"@), opt_view(cat_slot))
                },
                pos > hn ==> {
                    &&& header_value(head@, "title"@) == opt_view(title_slot)
                    &&& header_value(head@, "slug"@) == opt_view(slug_slot)
                    &&& header_value(head@, "publish date"@) == opt_view(pd_slot)
                    &&& header_value(head@, "last edit date"@) == opt_view(led_slot)
                    &&& header_value(head@, "author"@) == opt_view(author_slot)
                    &&& header_value(head@, "category"@) == opt_view(cat_slot)
                },
            decreases hn + 1 - pos,
        {
            let ghost rest = head@.subrange(pos as int, hn as int);
            let nl = find_char_in(head, pos, hn, '\n');
            let ghost line = head@.subrange(pos as int, nl as int);
            proof {
                assert(rest.subrange(0, nl - pos) =~= line);
                if nl < hn {
                    assert(rest.subrange(nl - pos + 1, rest.len() as int)
                        =~= head@.subrange(nl + 1, hn as int));
                }
                lemma_hv_step(head@, pos as int, nl as int, hn as int, "title"@);
                lemma_hv_step(head@, pos as int, nl as int, hn as int, "slug"@);
                lemma_hv_step(head@, pos as int, nl as int, hn as int, "publish date"@);
                lemma_hv_step(head@, pos as int, nl as int, hn as int, "last edit date"@);
                lemma_hv_step(head@, pos as int, nl as int, hn as int, "author"@);
                lemma_hv_step(head@, pos as int, nl as int, hn as int, "category"@);
            }
            let ghost os_title = opt_view(title_slot);
            let ghost os_slug = opt_view(slug_slot);
            let ghost os_pd = opt_view(pd_slot);
            let ghost os_led = opt_view(led_slot);
            let ghost os_author = opt_view(author_slot);
            let ghost os_cat = opt_view(cat_slot);
            let t = trim_slice(head, pos, nl);
            let tn = t.unicode_len();
            let ci = find_char_in(t, 0, tn, ':');
            proof {
                assert(t@.subrange(0, tn as int) =~= t@);
                assert(t@ == trim(line));
                assert(ci == find_char_from(t@, 0, ':'));
            }
            if ci < tn {
                let kt = trim_slice(t, 0, ci);
                let ktn = kt.unicode_len();
                let v = trim_slice(t, ci + 1, tn);
                proof {
                    assert(kt@.subrange(0, ktn as int) =~= kt@);
                }
                if eq_ignore_case(kt, 0, ktn, "title") {
                    title_slot = Some(v.to_owned());
                } else if eq_ignore_case(kt, 0, ktn, "slug") {
                    slug_slot = Some(v.to_owned());
                } else if eq_ignore_case(kt, 0, ktn, "publish date") {
                    pd_slot = Some(v.to_owned());
                } else if eq_ignore_case(kt, 0, ktn, "last edit date") {
                    led_slot = Some(v.to_owned());
                } else if eq_ignore_case(kt, 0, ktn, "author") {
                    author_slot = Some(v.to_owned());
                } else if eq_ignore_case(kt, 0, ktn, "category") {
                    cat_slot = Some(v.to_owned());
                }
            }
            proof {
                broadcast use crate::text::lemma_lower_len;

                reveal_strlit("title");
                reveal_strlit("slug");
                reveal_strlit("publish date");
                reveal_strlit("last edit date");
                reveal_strlit("author");
                reveal_strlit("category");
                assert(lower_seq("title"@).len() == 5);
                assert(lower_seq("slug"@).len() == 4);
                assert(lower_seq("publish date"@).len() == 12);
                assert(lower_seq("last edit date"@).len() == 14);
                assert(lower_seq("author"@).len() == 6);
                assert(lower_seq("category"@).len() == 8);
                assert(opt_view(title_slot) == hv_or(line_lookup(line, "title"@), os_title));
                assert(opt_view(slug_slot) == hv_or(line_lookup(line, "slug"@), os_slug));
                assert(opt_view(pd_slot) == hv_or(line_lookup(line, "publish date"@), os_pd));
                assert(opt_view(led_slot) == hv_or(line_lookup(line, "last edit date"@), os_led));
                assert(opt_view(author_slot) == hv_or(line_lookup(line, "author"@), os_author));
                assert(opt_view(cat_slot) == hv_or(line_lookup(line, "category"@), os_cat));
            }
            pos = nl + 1;
        }

        let title = match title_slot {
            None => { return Err(ParseError::MissingField(Field::Title)); },
            Some(tv) => {
                if tv.as_str().unicode_len() == 0 {
                    return Err(ParseError::MissingField(Field::Title));
                }
                tv
            },
        };
        let publish_date = match pd_slot {
            None => { return Err(ParseError::MissingField(Field::PublishDate)); },
            Some(pv) => {
                if pv.as_str().unicode_len() == 0 {
                    return Err(ParseError::MissingField(Field::PublishDate));
                }
                pv
            },
        };
        let p = Post {
            title: title,
            slug: slug_slot,
            publish_date: publish_date,
            last_edit_date: led_slot,
            author: author_slot,
            category: cat_slot,
            content: body.to_owned(),
            filename: filename,
        };
        proof {
            let pv = parse_post(content@, filename@);
            assert(pv is Ok && pv.unwrap() =~= p@);
        }
        Ok(p)
    }
}

/// A later binding wins over an earlier one.
pub open spec fn hv_or(rest: Option<Seq<char>>, earlier: Option<Seq<char>>) -> Option<Seq<char>> {
    match rest {
        Some(v) => Some(v),
        None => earlier,
    }
}

/// For every text that holds the separator and whose header block binds
/// `Title` and `Publish Date` to non-empty values, parsing succeeds; the
/// post carries those values, and its body is exactly the text after the
/// first `---`, trimmed.
pub proof fn lemma_parse_success(s: Seq<char>, filename: Seq<char>)
    requires
        find_sep_from(s, 0) < s.len(),
        req_field(s.subrange(0, find_sep_from(s, 0)), "title"@) is Some,
        req_field(s.subrange(0, find_sep_from(s, 0)), "publish date"@) is Some,
    ensures
        parse_post(s, filename) is Ok,
        parse_post(s, filename)->Ok_0.content
            == trim(s.subrange(find_sep_from(s, 0) + 3, s.len() as int)),
        parse_post(s, filename)->Ok_0.title
            == req_field(s.subrange(0, find_sep_from(s, 0)), "title"@).unwrap(),
        parse_post(s, filename)->Ok_0.publish_date
            == req_field(s.subrange(0, find_sep_from(s, 0)), "publish date"@).unwrap(),
        parse_post(s, filename)->Ok_0.filename == filename,
{
}

/// For every text that holds the separator but whose header block leaves
/// `Title` or `Publish Date` unbound or empty, parsing fails with
/// `MissingField` naming that field; `Title` is reported first.
pub proof fn lemma_parse_missing_field(s: Seq<char>, filename: Seq<char>)
    requires
        find_sep_from(s, 0) < s.len(),
    ensures
        req_field(s.subrange(0, find_sep_from(s, 0)), "title"@) is None
            ==> parse_post(s, filename)
                == Err::<PostView, ParseError>(ParseError::MissingField(Field::Title)),
        req_field(s.subrange(0, find_sep_from(s, 0)), "title"@) is Some
            && req_field(s.subrange(0, find_sep_from(s, 0)), "publish date"@) is None
            ==> parse_post(s, filename)
                == Err::<PostView, ParseError>(ParseError::MissingField(Field::PublishDate)),
{
}

/// A text without the separator never parses.
pub proof fn lemma_parse_malformed(s: Seq<char>, filename: Seq<char>)
    requires
        find_sep_from(s, 0) == s.len(),
    ensures
        parse_post(s, filename) == Err::<PostView, ParseError>(ParseError::MalformedPost),
{
}

/// Peeling the first line off a header block: the block's value for
/// `key` is the rest's value, or failing that the first line's.
proof fn lemma_hv_step(head: Seq<char>, pos: int, nl: int, hn: int, key: Seq<char>)
    requires
        0 <= pos <= nl <= hn == head.len(),
        nl - pos == find_char_from(head.subrange(pos, hn), 0, '\n'),
    ensures
        header_value(head.subrange(pos, hn), key) == (if nl < hn {
            hv_or(
                header_value(head.subrange(nl + 1, hn), key),
                line_lookup(head.subrange(pos, nl), key),
            )
        } else {
            line_lookup(head.subrange(pos, nl), key)
        }),
{
    let rest = head.subrange(pos, hn);
    let nlp = nl - pos;
    if nl < hn {
        assert(rest.subrange(nlp + 1, rest.len() as int) =~= head.subrange(nl + 1, hn));
        assert(rest.subrange(0, nlp) =~= head.subrange(pos, nl));
    } else {
        assert(rest =~= head.subrange(pos, nl));
    }
}

} // verus!
