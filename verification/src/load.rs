//! Directory loading: every entry bearing the recognized `.txt` extension
//! is parsed; per-file failures are recorded and skipped, never fatal;
//! the surviving posts are stably sorted by parsed publish date, newest
//! first, posts with unparseable dates clustering at the end.

use vstd::prelude::*;

verus! {

use vstd::seq_lib::group_seq_properties;
use vstd::string::StrSliceExecFns;
use crate::posts::{Post, PostView, ParseError, parse_post, post_wf};
use crate::dates::{date_key_spec, date_key};

/// What the loader sees of one directory entry: the file's name and its
/// text.
pub struct FileEntry {
    pub name: String,
    pub content: String,
}

#[verifier::ext_equal]
pub ghost struct FileEntryView {
    pub name: Seq<char>,
    pub content: Seq<char>,
}

impl View for FileEntry {
    type V = FileEntryView;

    open spec fn view(&self) -> FileEntryView {
        FileEntryView { name: self.name@, content: self.content@ }
    }
}

/// What the loader sees of the directory itself: missing, or its entries
/// in enumeration order.
pub enum DirectoryListing {
    Missing,
    Files(Vec<FileEntry>),
}

/// Why a whole load fails: only a missing directory is fatal.
#[derive(Debug, Clone, Copy, PartialEq, Eq, Structural)]
pub enum LoadError {
    DirectoryNotFound,
}

/// A file the loader skipped, with the failure that caused it; skips are
/// observable to the caller but never abort the load.
#[derive(Debug)]
pub struct SkippedFile {
    pub filename: String,
    pub error: ParseError,
}

#[verifier::ext_equal]
pub ghost struct SkippedView {
    pub filename: Seq<char>,
    pub error: ParseError,
}

impl View for SkippedFile {
    type V = SkippedView;

    open spec fn view(&self) -> SkippedView {
        SkippedView { filename: self.filename@, error: self.error }
    }
}

/// A successful load: the ordered posts and the recorded skips.
#[derive(Debug)]
pub struct LoadResult {
    pub posts: Vec<Post>,
    pub skipped: Vec<SkippedFile>,
}

/// Whether a file name bears the recognized post extension.
pub open spec fn eligible(name: Seq<char>) -> bool {
    name.len() > 4 && name.subrange(name.len() - 4, name.len() as int) == ".txt"@
}

/// Runtime test for [`eligible`].
pub fn is_eligible(name: &str) -> (r: bool)
    ensures
        r == eligible(name@),
{
    proof {
        reveal_strlit(".txt");
    }
    let n = name.unicode_len();
    if n <= 4 {
        return false;
    }
    let r = name.get_char(n - 4) == '.' && name.get_char(n - 3) == 't'
        && name.get_char(n - 2) == 'x' && name.get_char(n - 1) == 't';
    proof {
        if r {
            assert(name@.subrange(n - 4, n as int) =~= ".txt"@);
        } else {
            assert(name@.subrange(n - 4, n as int) != ".txt"@) by {
                if name@.subrange(n - 4, n as int) == ".txt"@ {
                    assert(name@.subrange(n - 4, n as int)[0] == '.');
                    assert(name@.subrange(n - 4, n as int)[1] == 't');
                    assert(name@.subrange(n - 4, n as int)[2] == 'x');
                    assert(name@.subrange(n - 4, n as int)[3] == 't');
                }
            }
        }
    }
    r
}

/// The views of a sequence of posts.
pub open spec fn post_views(s: Seq<Post>) -> Seq<PostView> {
    s.map_values(|p: Post| p@)
}

pub broadcast proof fn lemma_post_views_len(s: Seq<Post>)
    ensures
        #[trigger] post_views(s).len() == s.len(),
{
}

pub broadcast proof fn lemma_post_views_index(s: Seq<Post>, j: int)
    requires
        0 <= j < s.len(),
    ensures
        #[trigger] post_views(s)[j] == s[j]@,
{
}

/// The views of a sequence of directory entries.
pub open spec fn entry_views(s: Seq<FileEntry>) -> Seq<FileEntryView> {
    s.map_values(|e: FileEntry| e@)
}

/// The views of a sequence of recorded skips.
pub open spec fn skip_views(s: Seq<SkippedFile>) -> Seq<SkippedView> {
    s.map_values(|e: SkippedFile| e@)
}

/// The posts that parsing the eligible entries yields, in enumeration
/// order.
pub open spec fn parsed_posts(entries: Seq<FileEntryView>) -> Seq<PostView>
    decreases entries.len(),
{
    if entries.len() == 0 {
        Seq::empty()
    } else {
        let rest = parsed_posts(entries.drop_last());
        let e = entries.last();
        if eligible(e.name) && parse_post(e.content, e.name) is Ok {
            rest.push(parse_post(e.content, e.name).unwrap())
        } else {
            rest
        }
    }
}

/// The skips that parsing the eligible entries yields, in enumeration
/// order.
pub open spec fn skipped_of(entries: Seq<FileEntryView>) -> Seq<SkippedView>
    decreases entries.len(),
{
    if entries.len() == 0 {
        Seq::empty()
    } else {
        let rest = skipped_of(entries.drop_last());
        let e = entries.last();
        if eligible(e.name) && parse_post(e.content, e.name) is Err {
            rest.push(SkippedView {
                filename: e.name,
                error: parse_post(e.content, e.name)->Err_0,
            })
        } else {
            rest
        }
    }
}

/// A post's ordering key.
pub open spec fn key_of(p: PostView) -> int {
    date_key_spec(p.publish_date)
}

/// Descending by date key: newest first.
pub open spec fn sorted_desc(s: Seq<PostView>) -> bool {
    forall|i: int, j: int| 0 <= i < j < s.len() ==> key_of(s[i]) >= key_of(s[j])
}

/// The first index at or after `i` whose key orders strictly below `k`,
/// or `s.len()`: a stable descending insertion goes there, after every
/// earlier post of equal key.
pub open spec fn insert_pos_from(s: Seq<PostView>, k: int, i: int) -> int
    decreases s.len() - i,
{
    if i >= s.len() {
        s.len() as int
    } else if key_of(s[i]) < k {
        i
    } else {
        insert_pos_from(s, k, i + 1)
    }
}

pub open spec fn insert_pos(s: Seq<PostView>, k: int) -> int {
    insert_pos_from(s, k, 0)
}

pub proof fn lemma_insert_pos_from(s: Seq<PostView>, k: int, i: int)
    requires
        0 <= i <= s.len(),
    ensures
        i <= insert_pos_from(s, k, i) <= s.len(),
        forall|j: int| i <= j < insert_pos_from(s, k, i) ==> key_of(s[j]) >= k,
        insert_pos_from(s, k, i) < s.len() ==> key_of(s[insert_pos_from(s, k, i)]) < k,
    decreases s.len() - i,
{
    if i < s.len() && !(key_of(s[i]) < k) {
        lemma_insert_pos_from(s, k, i + 1);
    }
}

/// The stable descending sort of `s`: each post in turn is inserted
/// after every already-placed post whose key is greater or equal, so
/// equal keys keep their enumeration order.
pub open spec fn sort_by_date(s: Seq<PostView>) -> Seq<PostView>
    decreases s.len(),
{
    if s.len() == 0 {
        Seq::empty()
    } else {
        let prev = sort_by_date(s.drop_last());
        prev.insert(insert_pos(prev, key_of(s.last())), s.last())
    }
}

/// Inserting at the insertion point keeps the sequence sorted.
proof fn lemma_insert_keeps_sorted(t: Seq<PostView>, p: PostView)
    requires
        sorted_desc(t),
    ensures
        sorted_desc(t.insert(insert_pos(t, key_of(p)), p)),
{
    let pos = insert_pos(t, key_of(p));
    lemma_insert_pos_from(t, key_of(p), 0);
    t.insert_ensures(pos, p);
    let u = t.insert(pos, p);
    assert forall|i: int, j: int| 0 <= i < j < u.len() implies key_of(u[i]) >= key_of(u[j]) by {
        if i < pos && j == pos {
            assert(u[i] == t[i] && u[j] == p);
        } else if i == pos && j > pos {
            assert(u[i] == p && u[j] == t[j - 1]);
            if pos < t.len() {
                assert(key_of(t[j - 1]) <= key_of(t[pos]));
            }
        } else if j < pos {
            assert(u[i] == t[i] && u[j] == t[j]);
        } else if i > pos {
            assert(u[i] == t[i - 1] && u[j] == t[j - 1]);
        } else {
            assert(u[i] == t[i] && u[j] == t[j - 1]);
        }
    }
}

/// The sort's output is sorted, newest first.
pub proof fn lemma_sort_sorted(s: Seq<PostView>)
    ensures
        sorted_desc(sort_by_date(s)),
    decreases s.len(),
{
    if s.len() > 0 {
        lemma_sort_sorted(s.drop_last());
        lemma_insert_keeps_sorted(sort_by_date(s.drop_last()), s.last());
    }
}

/// The sort permutes its input: nothing is lost, added or duplicated.
pub proof fn lemma_sort_permutes(s: Seq<PostView>)
    ensures
        sort_by_date(s).to_multiset() == s.to_multiset(),
    decreases s.len(),
{
    broadcast use group_seq_properties;

    if s.len() > 0 {
        lemma_sort_permutes(s.drop_last());
        let prev = sort_by_date(s.drop_last());
        let pos = insert_pos(prev, key_of(s.last()));
        lemma_insert_pos_from(prev, key_of(s.last()), 0);
        assert(s =~= s.drop_last().push(s.last()));
        assert(s.drop_last().push(s.last()).to_multiset()
            =~= s.drop_last().to_multiset().insert(s.last()));
        assert(prev.insert(pos, s.last()).to_multiset()
            =~= prev.to_multiset().insert(s.last()));
    }
}

/// Loads the posts of a directory: parses every entry with the
/// recognized extension, records and skips the failures, and returns
/// the survivors sorted by publish date, newest first, together with
/// the skips.  Fails only when the directory itself is missing.
pub fn load_posts(listing: DirectoryListing) -> (r: Result<LoadResult, LoadError>)
    ensures
        match listing {
            DirectoryListing::Missing => r is Err
                && r->Err_0 == LoadError::DirectoryNotFound,
            DirectoryListing::Files(entries) => r is Ok && {
                let lr = r.unwrap();
                &&& post_views(lr.posts@) == sort_by_date(parsed_posts(entry_views(entries@)))
                &&& skip_views(lr.skipped@) == skipped_of(entry_views(entries@))
                &&& sorted_desc(post_views(lr.posts@))
                &&& forall|j: int| 0 <= j < lr.posts@.len() ==> #[trigger] lr.posts@[j].wf()
            },
        },
{
    let entries = match listing {
        DirectoryListing::Missing => {
            return Err(LoadError::DirectoryNotFound);
        },
        DirectoryListing::Files(entries) => entries,
    };
    let n = entries.len();
    let mut posts: Vec<Post> = Vec::new();
    let mut skipped: Vec<SkippedFile> = Vec::new();
    let mut i: usize = 0;
    while i < n
        invariant
            i <= n == entries@.len(),
            post_views(posts@) == parsed_posts(entry_views(entries@.subrange(0, i as int))),
            skip_views(skipped@) == skipped_of(entry_views(entries@.subrange(0, i as int))),
            forall|j: int| 0 <= j < posts@.len() ==> #[trigger] posts@[j].wf(),
        decreases n - i,
    {
        let ghost pre = entry_views(entries@.subrange(0, i as int));
        let ghost cur = entry_views(entries@.subrange(0, i + 1));
        proof {
            assert(cur.drop_last() =~= pre);
            assert(cur.last() == entries@[i as int]@);
        }
        let e = &entries[i];
        if is_eligible(e.name.as_str()) {
            match Post::parse_content(e.content.as_str(), e.name.clone()) {
                Ok(p) => {
                    posts.push(p);
                    proof {
                        assert(post_views(posts@) =~= parsed_posts(cur));
                        assert(skip_views(skipped@) =~= skipped_of(cur));
                    }
                },
                Err(err) => {
                    skipped.push(SkippedFile { filename: e.name.clone(), error: err });
                    proof {
                        assert(post_views(posts@) =~= parsed_posts(cur));
                        assert(skip_views(skipped@) =~= skipped_of(cur));
                    }
                },
            }
        } else {
            proof {
                assert(post_views(posts@) =~= parsed_posts(cur));
                assert(skip_views(skipped@) =~= skipped_of(cur));
            }
        }
        i = i + 1;
    }
    proof {
        assert(entries@.subrange(0, n as int) =~= entries@);
    }

    let ghost all = post_views(posts@);
    let mut sorted: Vec<Post> = Vec::new();
    while posts.len() > 0
        invariant
            posts@.len() <= all.len(),
            post_views(posts@)
                =~= all.subrange(all.len() - posts@.len(), all.len() as int),
            post_views(sorted@)
                == sort_by_date(all.subrange(0, all.len() - posts@.len())),
            forall|j: int| 0 <= j < posts@.len() ==> #[trigger] posts@[j].wf(),
            forall|j: int| 0 <= j < sorted@.len() ==> #[trigger] sorted@[j].wf(),
        decreases posts@.len(),
    {
        let ghost k = all.len() - posts@.len();
        let ghost prev = posts@;
        let p = posts.remove(0);
        proof {
            broadcast use lemma_post_views_len, lemma_post_views_index;

            assert forall|j: int| 0 <= j < prev.len() implies prev[j]@ == all[k + j] by {
                assert(post_views(prev)[j] == all.subrange(k, all.len() as int)[j]);
            }
            assert(p@ == all[k]);
            assert(post_views(posts@)
                =~= all.subrange(all.len() - posts@.len(), all.len() as int));
        }
        let kp = date_key(p.publish_date.as_str());
        let mut idx: usize = 0;
        while idx < sorted.len() && date_key(sorted[idx].publish_date.as_str()) >= kp
            invariant
                idx <= sorted@.len(),
                kp == key_of(p@),
                forall|j: int| 0 <= j < idx ==> key_of(#[trigger] post_views(sorted@)[j]) >= kp,
            decreases sorted@.len() - idx,
        {
            idx = idx + 1;
        }
        proof {
            let sv = post_views(sorted@);
            lemma_insert_pos_from(sv, kp as int, 0);
            assert(insert_pos(sv, kp as int) == idx) by {
                let q = insert_pos_from(sv, kp as int, 0);
                if q < idx {
                    assert(key_of(sv[q]) >= kp);
                } else if q > idx {
                    assert(idx < sv.len() && key_of(sv[idx as int]) < kp);
                }
            }
        }
        let ghost sv0 = post_views(sorted@);
        sorted.insert(idx, p);
        proof {
            assert(post_views(sorted@) =~= sv0.insert(idx as int, p@));
            assert(all.subrange(0, k + 1).drop_last() =~= all.subrange(0, k));
            assert(all.subrange(0, k + 1).last() == all[k]);
            assert(post_views(sorted@) =~= sort_by_date(all.subrange(0, k + 1)));
        }
    }
    proof {
        assert(all.subrange(0, all.len() as int) =~= all);
        assert(post_views(sorted@) == sort_by_date(all));
        lemma_sort_sorted(all);
    }
    Ok(LoadResult { posts: sorted, skipped: skipped })
}

} // verus!
