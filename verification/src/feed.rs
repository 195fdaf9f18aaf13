//! Feed assembly: each post is projected into a feed entry — link,
//! permanent identifier, publication timestamp, author, category — and
//! the ordered list is folded into one feed document with fixed
//! channel metadata.  The document the library hands out satisfies its
//! structural validity predicate or is refused as a whole; entries are
//! never refused.

use vstd::prelude::*;

verus! {

use vstd::string::{StrSliceExecFns, StringExecFns};
use crate::posts::{Post, PostView};
use crate::dates::{parse_date, parse_date_spec, CalendarDate};

/// A feed entry as mathematics sees it.
#[verifier::ext_equal]
pub ghost struct EntryView {
    pub title: Seq<char>,
    pub link: Seq<char>,
    pub guid: Seq<char>,
    pub description: Seq<char>,
    pub pub_date: Option<Seq<char>>,
    pub author: Option<Seq<char>>,
    pub category: Option<Seq<char>>,
}

/// The projection of a post into the feed's item structure.  The guid
/// equals the link and is to be read as a permanent-link identifier.
#[derive(Debug)]
pub struct FeedEntry {
    pub title: String,
    pub link: String,
    pub guid: String,
    pub description: String,
    pub pub_date: Option<String>,
    pub author: Option<String>,
    pub category: Option<String>,
}

impl View for FeedEntry {
    type V = EntryView;

    open spec fn view(&self) -> EntryView {
        EntryView {
            title: self.title@,
            link: self.link@,
            guid: self.guid@,
            description: self.description@,
            pub_date: crate::posts::opt_view(self.pub_date),
            author: crate::posts::opt_view(self.author),
            category: crate::posts::opt_view(self.category),
        }
    }
}

/// A feed document as mathematics sees it.
#[verifier::ext_equal]
pub ghost struct FeedView {
    pub title: Seq<char>,
    pub link: Seq<char>,
    pub description: Seq<char>,
    pub entries: Seq<EntryView>,
}

/// The complete syndication output: channel metadata and entries.
#[derive(Debug)]
pub struct FeedDocument {
    pub title: String,
    pub link: String,
    pub description: String,
    pub entries: Vec<FeedEntry>,
}

impl View for FeedDocument {
    type V = FeedView;

    open spec fn view(&self) -> FeedView {
        FeedView {
            title: self.title@,
            link: self.link@,
            description: self.description@,
            entries: entry_views(self.entries@),
        }
    }
}

/// Why building a whole document fails: it would not be structurally
/// valid.  A broken document is never handed out.
#[derive(Debug, Clone, Copy, PartialEq, Eq, Structural)]
pub enum FeedError {
    DocumentValidationFailed,
}

/// The views of a sequence of entries.
pub open spec fn entry_views(s: Seq<FeedEntry>) -> Seq<EntryView> {
    s.map_values(|e: FeedEntry| e@)
}

pub broadcast proof fn lemma_entry_views_len(s: Seq<FeedEntry>)
    ensures
        #[trigger] entry_views(s).len() == s.len(),
{
}

pub broadcast proof fn lemma_entry_views_index(s: Seq<FeedEntry>, j: int)
    requires
        0 <= j < s.len(),
    ensures
        #[trigger] entry_views(s)[j] == s[j]@,
{
}

/// `s` with every trailing `/` removed.
pub open spec fn strip_trailing_slashes(s: Seq<char>) -> Seq<char>
    decreases s.len(),
{
    if s.len() > 0 && s.last() == '/' {
        strip_trailing_slashes(s.drop_last())
    } else {
        s
    }
}

pub proof fn lemma_strip_props(s: Seq<char>)
    ensures
        strip_trailing_slashes(s).len() <= s.len(),
        strip_trailing_slashes(s) == s.subrange(0, strip_trailing_slashes(s).len() as int),
        forall|j: int| strip_trailing_slashes(s).len() <= j < s.len() ==> s[j] == '/',
        strip_trailing_slashes(s).len() > 0
            ==> s[strip_trailing_slashes(s).len() - 1] != '/',
    decreases s.len(),
{
    if s.len() > 0 && s.last() == '/' {
        lemma_strip_props(s.drop_last());
        let dl = s.drop_last();
        let l = strip_trailing_slashes(dl).len() as int;
        assert(dl.subrange(0, l) =~= s.subrange(0, l));
        assert forall|j: int| l <= j < s.len() implies s[j] == '/' by {
            if j < s.len() - 1 {
                assert(dl[j] == '/');
            }
        }
        if l > 0 {
            assert(dl[l - 1] != '/');
        }
    } else {
        assert(s =~= s.subrange(0, s.len() as int));
    }
}

/// The filename with one trailing `.txt` suffix stripped.
pub open spec fn strip_txt(name: Seq<char>) -> Seq<char> {
    if name.len() >= 4 && name.subrange(name.len() - 4, name.len() as int) == ".txt"@ {
        name.subrange(0, name.len() - 4)
    } else {
        name
    }
}

/// A post's slug: its own if it carries one, else its filename minus
/// the post extension.
pub open spec fn slug_of(p: PostView) -> Seq<char> {
    match p.slug {
        Some(s) => s,
        None => strip_txt(p.filename),
    }
}

/// An entry's link: the base URL without trailing slashes, then
/// `/posts/`, then the slug.
pub open spec fn link_of(base: Seq<char>, p: PostView) -> Seq<char> {
    strip_trailing_slashes(base) + "/posts/"@ + slug_of(p)
}

/// What `to_rfc2822` of chrono renders for noon UTC of a calendar date.
pub uninterp spec fn rfc2822_of(year: int, month: int, day: int) -> Seq<char>;

/// Relies on chrono's `DateTime::to_rfc2822`: the rendering of noon UTC
/// offset zero on a calendar date is a function of the date alone, and
/// stays panic-free for years 0 through 9999, which `d.wf()` gives.
#[verifier::external_body]
fn rfc2822_noon_utc(d: &CalendarDate) -> (r: String)
    requires
        d.wf(),
    ensures
        r@ == rfc2822_of(d.year as int, d.month as int, d.day as int),
{
    let nd = chrono::NaiveDate::from_ymd_opt(d.year as i32, d.month as u32, d.day as u32)
        .expect("valid calendar date");
    let dt: chrono::DateTime<chrono::FixedOffset> = chrono::DateTime::from_naive_utc_and_offset(
        nd.and_hms_opt(12, 0, 0).expect("noon exists"),
        chrono::FixedOffset::east_opt(0).expect("zero offset"),
    );
    dt.to_rfc2822()
}

/// The entry a post projects to: title and body verbatim, link and guid
/// derived from the base URL and slug, the publication timestamp only
/// when the publish date parses, author and category when present.
pub open spec fn entry_of(p: PostView, base: Seq<char>) -> EntryView {
    EntryView {
        title: p.title,
        link: link_of(base, p),
        guid: link_of(base, p),
        description: p.content,
        pub_date: match parse_date_spec(p.publish_date) {
            Some(d) => Some(rfc2822_of(d.year, d.month, d.day)),
            None => None,
        },
        author: p.author,
        category: p.category,
    }
}

/// Whether `name` ends in `.txt`.
fn has_txt_suffix(name: &str) -> (r: bool)
    ensures
        r == (name@.len() >= 4
            && name@.subrange(name@.len() - 4, name@.len() as int) == ".txt"@),
{
    proof {
        reveal_strlit(".txt");
    }
    let n = name.unicode_len();
    if n < 4 {
        return false;
    }
    let r = name.get_char(n - 4) == '.' && name.get_char(n - 3) == 't'
        && name.get_char(n - 2) == 'x' && name.get_char(n - 1) == 't';
    proof {
        if r {
            assert(name@.subrange(n - 4, n as int) =~= ".txt"@);
        } else {
            if name@.subrange(n - 4, n as int) == ".txt"@ {
                assert(name@.subrange(n - 4, n as int)[0] == '.');
                assert(name@.subrange(n - 4, n as int)[1] == 't');
                assert(name@.subrange(n - 4, n as int)[2] == 'x');
                assert(name@.subrange(n - 4, n as int)[3] == 't');
            }
        }
    }
    r
}

impl Post {
    /// Projects this post into a feed entry.  Entry construction never
    /// fails: a missing slug falls back to the filename, an unparseable
    /// publish date merely suppresses the publication timestamp.
    pub fn to_rss_item(&self, base_url: &str) -> (r: FeedEntry)
        ensures
            r@ == entry_of(self@, base_url@),
    {
        let bn = base_url.unicode_len();
        let mut e: usize = bn;
        while e > 0 && base_url.get_char(e - 1) == '/'
            invariant
                e <= bn == base_url@.len(),
                forall|j: int| e <= j < bn ==> base_url@[j] == '/',
            decreases e,
        {
            e = e - 1;
        }
        proof {
            lemma_strip_props(base_url@);
            let l = strip_trailing_slashes(base_url@).len() as int;
            if l < e {
                assert(base_url@[e - 1] == '/');
            } else if l > e {
                assert(base_url@[l - 1] == '/');
            }
            assert(base_url@.subrange(0, e as int) == strip_trailing_slashes(base_url@));
        }
        let base = base_url.substring_char(0, e);
        let slug: String = match &self.slug {
            Some(s) => s.clone(),
            None => {
                let fname = self.filename.as_str();
                if has_txt_suffix(fname) {
                    let fl = fname.unicode_len();
                    fname.substring_char(0, fl - 4).to_owned()
                } else {
                    fname.to_owned()
                }
            },
        };
        let mut link = base.to_owned();
        link.append("/posts/");
        link.append(slug.as_str());
        let guid = link.clone();
        let pub_date: Option<String> = match parse_date(self.publish_date.as_str()) {
            Ok(d) => Some(rfc2822_noon_utc(&d)),
            Err(_) => None,
        };
        let author: Option<String> = match &self.author {
            Some(a) => Some(a.clone()),
            None => None,
        };
        let category: Option<String> = match &self.category {
            Some(c) => Some(c.clone()),
            None => None,
        };
        let r = FeedEntry {
            title: self.title.clone(),
            link: link,
            guid: guid,
            description: self.content.clone(),
            pub_date: pub_date,
            author: author,
            category: category,
        };
        proof {
            assert(r@ =~= entry_of(self@, base_url@));
        }
        r
    }
}

/// The library's structural notion of an absolute web link: an
/// `http://` or `https://` scheme followed by something other than a
/// further slash.
pub open spec fn url_wf(link: Seq<char>) -> bool {
    ||| (link.len() > 7 && link.subrange(0, 7) == "http://"@ && link[7] != '/')
    ||| (link.len() > 8 && link.subrange(0, 8) == "https://"@ && link[8] != '/')
}

/// Structural validity of a feed document: the required channel fields
/// are present and every entry carries a title and a well-formed link.
pub open spec fn feed_wf(d: FeedView) -> bool {
    &&& d.title.len() > 0
    &&& d.description.len() > 0
    &&& url_wf(d.link)
    &&& forall|i: int| 0 <= i < d.entries.len()
        ==> (#[trigger] d.entries[i]).title.len() > 0 && url_wf(d.entries[i].link)
}

/// The entries the given posts project to, in order.
pub open spec fn entries_of(posts: Seq<PostView>, base: Seq<char>) -> Seq<EntryView> {
    posts.map_values(|p: PostView| entry_of(p, base))
}

pub broadcast proof fn lemma_entries_of_len(posts: Seq<PostView>, base: Seq<char>)
    ensures
        #[trigger] entries_of(posts, base).len() == posts.len(),
{
}

pub broadcast proof fn lemma_entries_of_index(posts: Seq<PostView>, base: Seq<char>, j: int)
    requires
        0 <= j < posts.len(),
    ensures
        #[trigger] entries_of(posts, base)[j] == entry_of(posts[j], base),
{
}

/// The document assembled from the given posts: fixed channel metadata
/// and one entry per post, in order.
pub open spec fn feed_of(posts: Seq<PostView>, base: Seq<char>) -> FeedView {
    FeedView {
        title: "DPRSS"@,
        link: base,
        description: "RSS feed for my posts"@,
        entries: entries_of(posts, base),
    }
}

/// A post whose publish date is unparseable projects to an entry with
/// no publication timestamp — and to nothing less: the entry is still
/// built, and it carries a timestamp exactly when the date parses.
pub proof fn lemma_unparseable_date_entry(p: PostView, base: Seq<char>)
    ensures
        entry_of(p, base).pub_date is None <==> parse_date_spec(p.publish_date) is None,
        entry_of(p, base).title == p.title,
{
}

/// A well-formed base URL yields a structurally valid feed document
/// even over an empty post list: zero entries are no fault.
pub proof fn lemma_empty_feed_valid(base: Seq<char>)
    requires
        url_wf(base),
    ensures
        feed_wf(feed_of(Seq::empty(), base)),
        feed_of(Seq::empty(), base).entries.len() == 0,
{
    broadcast use lemma_entries_of_len;

    reveal_strlit("DPRSS");
    reveal_strlit("RSS feed for my posts");
    assert(entries_of(Seq::empty(), base).len() == 0);
}

/// Runtime test for [`url_wf`].
fn check_url(s: &str) -> (r: bool)
    ensures
        r == url_wf(s@),
{
    proof {
        reveal_strlit("http://");
        reveal_strlit("https://");
    }
    let n = s.unicode_len();
    let http = n > 7 && s.get_char(0) == 'h' && s.get_char(1) == 't' && s.get_char(2) == 't'
        && s.get_char(3) == 'p' && s.get_char(4) == ':' && s.get_char(5) == '/'
        && s.get_char(6) == '/' && s.get_char(7) != '/';
    let https = n > 8 && s.get_char(0) == 'h' && s.get_char(1) == 't' && s.get_char(2) == 't'
        && s.get_char(3) == 'p' && s.get_char(4) == 's' && s.get_char(5) == ':'
        && s.get_char(6) == '/' && s.get_char(7) == '/' && s.get_char(8) != '/';
    proof {
        if http {
            assert(s@.subrange(0, 7) =~= "http://"@);
        } else {
            if s@.len() > 7 && s@.subrange(0, 7) == "http://"@ && s@[7] != '/' {
                assert(s@.subrange(0, 7)[0] == 'h');
                assert(s@.subrange(0, 7)[1] == 't');
                assert(s@.subrange(0, 7)[2] == 't');
                assert(s@.subrange(0, 7)[3] == 'p');
                assert(s@.subrange(0, 7)[4] == ':');
                assert(s@.subrange(0, 7)[5] == '/');
                assert(s@.subrange(0, 7)[6] == '/');
            }
        }
        if https {
            assert(s@.subrange(0, 8) =~= "https://"@);
        } else {
            if s@.len() > 8 && s@.subrange(0, 8) == "https://"@ && s@[8] != '/' {
                assert(s@.subrange(0, 8)[0] == 'h');
                assert(s@.subrange(0, 8)[1] == 't');
                assert(s@.subrange(0, 8)[2] == 't');
                assert(s@.subrange(0, 8)[3] == 'p');
                assert(s@.subrange(0, 8)[4] == 's');
                assert(s@.subrange(0, 8)[5] == ':');
                assert(s@.subrange(0, 8)[6] == '/');
                assert(s@.subrange(0, 8)[7] == '/');
            }
        }
    }
    http || https
}

/// A well-formed base URL yields a well-formed entry link.
proof fn lemma_link_wf(base: Seq<char>, p: PostView)
    requires
        url_wf(base),
    ensures
        url_wf(link_of(base, p)),
{
    lemma_strip_props(base);
    let st = strip_trailing_slashes(base);
    let link = link_of(base, p);
    if base.len() > 7 && base.subrange(0, 7) == "http://"@ && base[7] != '/' {
        assert(base.subrange(0, 7)[7 - 1] == base[6]);
        if st.len() <= 7 {
            assert(base[7] == '/');
        }
        assert(link.subrange(0, 7) =~= base.subrange(0, 7));
        assert(link[7] == base[7]);
    } else {
        if st.len() <= 8 {
            assert(base[8] == '/');
        }
        assert(link.subrange(0, 8) =~= base.subrange(0, 8));
        assert(link[8] == base[8]);
    }
}

/// Folds the ordered posts into one feed document with the fixed
/// channel metadata.  The document is handed out only when it is
/// structurally valid, which depends on the base URL alone; otherwise
/// the whole build is refused — there is no partial document.
pub fn build_feed(posts: &Vec<Post>, base_url: &str) -> (r: Result<FeedDocument, FeedError>)
    requires
        forall|i: int| 0 <= i < posts@.len() ==> (#[trigger] posts@[i]).wf(),
    ensures
        match r {
            Ok(doc) => url_wf(base_url@)
                && doc@ == feed_of(crate::load::post_views(posts@), base_url@)
                && feed_wf(doc@),
            Err(e) => !url_wf(base_url@) && e == FeedError::DocumentValidationFailed,
        },
{
    broadcast use lemma_entry_views_len, lemma_entry_views_index;
    broadcast use lemma_entries_of_len, lemma_entries_of_index;
    broadcast use crate::load::lemma_post_views_len, crate::load::lemma_post_views_index;

    if !check_url(base_url) {
        return Err(FeedError::DocumentValidationFailed);
    }
    let ghost pvs = crate::load::post_views(posts@);
    let mut entries: Vec<FeedEntry> = Vec::new();
    let n = posts.len();
    let mut i: usize = 0;
    while i < n
        invariant
            i <= n == posts@.len(),
            pvs == crate::load::post_views(posts@),
            url_wf(base_url@),
            forall|j: int| 0 <= j < posts@.len() ==> (#[trigger] posts@[j]).wf(),
            entry_views(entries@) =~= entries_of(pvs.subrange(0, i as int), base_url@),
        decreases n - i,
    {
        let ghost ev0 = entries@;
        let ghost pre = entries_of(pvs.subrange(0, i as int), base_url@);
        let entry = posts[i].to_rss_item(base_url);
        entries.push(entry);
        proof {
            broadcast use lemma_entry_views_len, lemma_entry_views_index;
            broadcast use lemma_entries_of_len, lemma_entries_of_index;
            broadcast use crate::load::lemma_post_views_len, crate::load::lemma_post_views_index;

            assert(pre.len() == i as int);
            assert(entry_views(ev0).len() == ev0.len());
            assert(ev0.len() == i as int);
            assert(entries@.len() == i + 1);
            assert(entry_views(ev0) == pre);
            assert(entries@ == ev0.push(entry));
            assert(pvs[i as int] == posts@[i as int]@);
            assert(entry@ == entry_of(pvs[i as int], base_url@));
            assert forall|j: int| 0 <= j < entries@.len()
                implies entry_views(entries@)[j]
                    == entries_of(pvs.subrange(0, i + 1), base_url@)[j] by {
                assert(entries_of(pvs.subrange(0, i + 1), base_url@)[j]
                    == entry_of(pvs.subrange(0, i + 1)[j], base_url@));
                assert(entry_views(entries@)[j] == entries@[j]@);
                if j < i {
                    assert(entry_views(ev0)[j] == pre[j]);
                    assert(pre[j] == entry_of(pvs.subrange(0, i as int)[j], base_url@));
                    assert(entries@[j] == ev0[j]);
                    assert(entry_views(ev0)[j] == ev0[j]@);
                } else {
                    assert(entries@[j] == entry);
                }
            }
            assert(entry_views(entries@) =~= entries_of(pvs.subrange(0, i + 1), base_url@));
        }
        i = i + 1;
    }
    let doc = FeedDocument {
        title: String::from_str("DPRSS"),
        link: base_url.to_owned(),
        description: String::from_str("RSS feed for my posts"),
        entries: entries,
    };
    proof {
        reveal_strlit("DPRSS");
        reveal_strlit("RSS feed for my posts");
        assert(pvs.subrange(0, n as int) =~= pvs);
        assert(doc@ =~= feed_of(pvs, base_url@));
        assert forall|j: int| 0 <= j < doc@.entries.len()
            implies (#[trigger] doc@.entries[j]).title.len() > 0
                && url_wf(doc@.entries[j].link) by {
            assert(doc@.entries[j] == entry_of(pvs[j], base_url@));
            assert(pvs[j] == posts@[j]@);
            lemma_link_wf(base_url@, pvs[j]);
        }
    }
    Ok(doc)
}

} // verus!
