//! Documents: the per-file ingestion pipeline, the boot-time loader with its
//! dedup-and-sort policy, and the read-only queries the page handlers use.
use vstd::prelude::*;
use crate::date::{Date, date_num};
use crate::frontmatter::{
    Frontmatter, HeaderFault, spec_split, spec_decode, split_frontmatter,
    decode_frontmatter,
};
use crate::math::{MathError, MathOutcome, spec_extract, extract_math};
use crate::render::{markdown_html, render_markdown};
use crate::text::is_space;

verus! {

/// Words per minute assumed when estimating read time.
pub const WORDS_PER_MINUTE: usize = 200;

/// One loaded document: rendered content plus its header fields.
#[derive(Debug)]
pub struct BlogPost {
    pub url: String,
    pub title: String,
    pub date: Date,
    pub archived: bool,
    pub tags: Vec<String>,
    pub content: String,
    pub estimated_read_time: usize,
}

/// The mathematical value of a [`BlogPost`].
#[verifier::ext_equal]
pub struct PostView {
    pub url: Seq<char>,
    pub title: Seq<char>,
    pub date: Date,
    pub archived: bool,
    pub tags: Seq<Seq<char>>,
    pub content: Seq<char>,
    pub estimated_read_time: nat,
}

impl View for BlogPost {
    type V = PostView;

    open spec fn view(&self) -> PostView {
        PostView {
            url: self.url@,
            title: self.title@,
            date: self.date,
            archived: self.archived,
            tags: self.tags.deep_view(),
            content: self.content@,
            estimated_read_time: self.estimated_read_time as nat,
        }
    }
}

/// The views of a sequence of posts.
pub open spec fn posts_view(ps: Seq<BlogPost>) -> Seq<PostView> {
    ps.map_values(|p: BlogPost| p@)
}

/// Words seen in `s`, continuing a word iff `in_word`: a word is a maximal
/// run of non-whitespace characters.
pub open spec fn wc_rec(s: Seq<char>, in_word: bool) -> nat
    decreases s.len(),
{
    if s.len() == 0 {
        0
    } else {
        let now_in = !is_space(s[0]);
        (if now_in && !in_word {
            1nat
        } else {
            0nat
        }) + wc_rec(s.drop_first(), now_in)
    }
}

/// The number of whitespace-separated words in `s`.
pub open spec fn word_count(s: Seq<char>) -> nat {
    wc_rec(s, false)
}

/// Counts the whitespace-separated words of `s`.
pub fn count_words(s: &str) -> (r: usize)
    ensures
        r == word_count(s@),
{
    let n = s.unicode_len();
    let mut count: usize = 0;
    let mut in_word = false;
    let mut i: usize = 0;
    proof {
        assert(s@.skip(0) =~= s@);
    }
    while i < n
        invariant
            0 <= i <= n,
            n == s@.len(),
            count <= i,
            count + wc_rec(s@.skip(i as int), in_word) == word_count(s@),
        decreases n - i,
    {
        let c = s.get_char(i);
        let now_in = !crate::text::is_space_char(c);
        proof {
            assert(s@.skip(i as int)[0] == s@[i as int]);
            assert(s@.skip(i as int).drop_first() =~= s@.skip(i + 1));
        }
        if now_in && !in_word {
            count += 1;
        }
        in_word = now_in;
        i += 1;
    }
    proof {
        assert(s@.skip(n as int) =~= Seq::<char>::empty());
    }
    count
}

/// A fault that aborts ingestion of a file, named as in the error taxonomy:
/// a missing header delimiter, a bad header block, a bad date, a failed math
/// span, or an unreadable file (the last is raised by the caller that does
/// the reading, never by the pipeline itself).
#[derive(Clone, PartialEq, Eq, Debug)]
pub enum IngestError {
    MalformedHeader,
    InvalidHeader(HeaderFault),
    InvalidDate,
    MathRender(MathError),
    Io(String),
}

/// The outcome of ingesting one file, at the specification level.
pub enum ParseOut {
    Post(PostView),
    MalformedHeader,
    InvalidHeader(HeaderFault),
    InvalidDate,
    MathUnterminated,
    MathBad(Seq<char>),
}

/// The specification-level outcome that an [`IngestError`] stands for. The
/// pipeline never produces `Io` itself (its callers promise as much), so
/// that arm is arbitrary.
pub open spec fn spec_cause(e: IngestError) -> ParseOut {
    match e {
        IngestError::MalformedHeader => ParseOut::MalformedHeader,
        IngestError::InvalidHeader(f) => ParseOut::InvalidHeader(f),
        IngestError::InvalidDate => ParseOut::InvalidDate,
        IngestError::MathRender(MathError::Unterminated) => ParseOut::MathUnterminated,
        IngestError::MathRender(MathError::Render(s)) => ParseOut::MathBad(s@),
        IngestError::Io(_) => ParseOut::MalformedHeader,
    }
}

/// Ingestion of one file: split off the header block, decode its fields,
/// render the body to HTML, run the math pass over it, and estimate the read
/// time from the raw body's word count.
pub open spec fn spec_parse_blog(url: Seq<char>, text: Seq<char>) -> ParseOut {
    match spec_split(text) {
        None => ParseOut::MalformedHeader,
        Some((header, body)) => match spec_decode(header) {
            Err(f) => if f == HeaderFault::BadDate {
                ParseOut::InvalidDate
            } else {
                ParseOut::InvalidHeader(f)
            },
            Ok(fm) => match spec_extract(markdown_html(body)) {
                MathOutcome::Unterminated => ParseOut::MathUnterminated,
                MathOutcome::Bad(e) => ParseOut::MathBad(e),
                MathOutcome::Done(html) => ParseOut::Post(
                    PostView {
                        url: url,
                        title: fm.title,
                        date: fm.date,
                        archived: fm.archived,
                        tags: fm.tags,
                        content: html,
                        estimated_read_time: word_count(body) / (WORDS_PER_MINUTE as nat),
                    },
                ),
            },
        },
    }
}

/// Ingests one file into a document, or reports the fault that spec names as
/// fatal for the whole boot.
pub fn parse_blog(url: &str, text: &str) -> (r: Result<BlogPost, IngestError>)
    ensures
        match r {
            Ok(p) => spec_parse_blog(url@, text@) == ParseOut::Post(p@),
            Err(e) => spec_parse_blog(url@, text@) == spec_cause(e) && !(e is Io),
        },
{
    let (header, body) = match split_frontmatter(text) {
        None => {
            return Err(IngestError::MalformedHeader);
        },
        Some(p) => p,
    };
    let fm = match decode_frontmatter(header.as_str()) {
        Err(f) => {
            if f == HeaderFault::BadDate {
                return Err(IngestError::InvalidDate);
            } else {
                return Err(IngestError::InvalidHeader(f));
            }
        },
        Ok(fm) => fm,
    };
    let html = render_markdown(body.as_str());
    let content = match extract_math(html.as_str()) {
        Err(e) => {
            return Err(IngestError::MathRender(e));
        },
        Ok(c) => c,
    };
    let words = count_words(body.as_str());
    let Frontmatter { title, date, archived, tags } = fm;
    Ok(
        BlogPost {
            url: url.to_owned(),
            title,
            date,
            archived,
            tags,
            content,
            estimated_read_time: words / WORDS_PER_MINUTE,
        },
    )
}

/// One raw content file handed to the loader: its file name and its text.
pub struct SourceFile {
    pub name: String,
    pub text: String,
}

pub open spec fn md_suffix() -> Seq<char> {
    seq!['.', 'm', 'd']
}

pub open spec fn markdown_suffix() -> Seq<char> {
    seq!['.', 'm', 'a', 'r', 'k', 'd', 'o', 'w', 'n']
}

/// The identifier a file name yields: its stem, for a Markdown-family
/// extension with a non-empty stem; nothing otherwise.
pub open spec fn spec_stem(name: Seq<char>) -> Option<Seq<char>> {
    if name.len() > 3 && name.subrange(name.len() - 3, name.len() as int) == md_suffix() {
        Some(name.subrange(0, name.len() - 3))
    } else if name.len() > 9 && name.subrange(name.len() - 9, name.len() as int)
        == markdown_suffix() {
        Some(name.subrange(0, name.len() - 9))
    } else {
        None
    }
}

/// The identifier a file name yields, if it has a Markdown-family extension.
pub fn stem_of(name: &str) -> (r: Option<String>)
    ensures
        r matches Some(s) ==> spec_stem(name@) == Some(s@),
        r is None ==> spec_stem(name@) is None,
{
    proof {
        reveal_strlit(".md");
        reveal_strlit(".markdown");
        assert(".md"@ =~= md_suffix());
        assert(".markdown"@ =~= markdown_suffix());
    }
    let n = name.unicode_len();
    if n > 3 && crate::text::match_at_exec(name, ".md", n - 3) {
        proof {
            assert(name@.subrange(n - 3, n as int) =~= md_suffix());
        }
        Some(crate::text::substring(name, 0, n - 3))
    } else {
        proof {
            if n > 3 {
                assert(name@.subrange(n - 3, n as int) != md_suffix()) by {
                    if name@.subrange(n - 3, n as int) == md_suffix() {
                        assert(forall|j: int|
                            0 <= j < 3 ==> name@[n - 3 + j] == #[trigger] md_suffix()[j]) by {
                            assert(forall|j: int|
                                0 <= j < 3 ==> name@.subrange(n - 3, n as int)[j]
                                    == #[trigger] md_suffix()[j]);
                        }
                    }
                }
            }
        }
        if n > 9 && crate::text::match_at_exec(name, ".markdown", n - 9) {
            proof {
                assert(name@.subrange(n - 9, n as int) =~= markdown_suffix());
            }
            Some(crate::text::substring(name, 0, n - 9))
        } else {
            proof {
                if n > 9 {
                    assert(name@.subrange(n - 9, n as int) != markdown_suffix()) by {
                        if name@.subrange(n - 9, n as int) == markdown_suffix() {
                            assert(forall|j: int|
                                0 <= j < 9 ==> name@[n - 9 + j]
                                    == #[trigger] markdown_suffix()[j]) by {
                                assert(forall|j: int|
                                    0 <= j < 9 ==> name@.subrange(n - 9, n as int)[j]
                                        == #[trigger] markdown_suffix()[j]);
                            }
                        }
                    }
                }
            }
            None
        }
    }
}

/// Why the loader skipped a file without failing.
#[derive(Clone, Copy, PartialEq, Eq, Structural, Debug)]
pub enum SkipReason {
    /// Not a Markdown-family file.
    NotMarkdown,
    /// Its identifier collides with an already-accepted document.
    DuplicateIdentifier,
}

/// A file the loader skipped, and why.
#[derive(Debug)]
pub struct Skipped {
    pub name: String,
    pub reason: SkipReason,
}

/// The mathematical value of a [`Skipped`].
#[verifier::ext_equal]
pub struct SkipView {
    pub name: Seq<char>,
    pub reason: SkipReason,
}

impl View for Skipped {
    type V = SkipView;

    open spec fn view(&self) -> SkipView {
        SkipView { name: self.name@, reason: self.reason }
    }
}

/// The views of a sequence of skip notices.
pub open spec fn skips_view(sk: Seq<Skipped>) -> Seq<SkipView> {
    sk.map_values(|s: Skipped| s@)
}

/// Whether some accepted post already carries this identifier.
pub open spec fn has_url(posts: Seq<PostView>, url: Seq<char>) -> bool {
    exists|i: int| 0 <= i < posts.len() && posts[i].url == url
}

/// The outcome of loading a directory, at the specification level.
pub enum LoadOut {
    /// The accepted posts in input order, and the skipped files in input
    /// order.
    Loaded(Seq<PostView>, Seq<SkipView>),
    /// The name of the first file whose ingestion failed, and how.
    Fail(Seq<char>, ParseOut),
}

/// The loader's walk over the files: non-Markdown names and duplicate
/// identifiers are skipped with a notice, any ingestion fault aborts the
/// whole load, and every other file appends its document in input order.
pub open spec fn spec_load(files: Seq<SourceFile>, posts: Seq<PostView>, skipped: Seq<SkipView>)
    -> LoadOut
    decreases files.len(),
{
    if files.len() == 0 {
        LoadOut::Loaded(posts, skipped)
    } else {
        let name = files[0].name@;
        let text = files[0].text@;
        match spec_stem(name) {
            None => spec_load(
                files.drop_first(),
                posts,
                skipped + seq![SkipView { name: name, reason: SkipReason::NotMarkdown }],
            ),
            Some(url) => {
                if has_url(posts, url) {
                    spec_load(
                        files.drop_first(),
                        posts,
                        skipped + seq![
                            SkipView { name: name, reason: SkipReason::DuplicateIdentifier },
                        ],
                    )
                } else {
                    match spec_parse_blog(url, text) {
                        ParseOut::Post(p) => spec_load(files.drop_first(), posts + seq![p], skipped),
                        out => LoadOut::Fail(name, out),
                    }
                }
            },
        }
    }
}

/// A fatal load error: the offending file and the underlying cause.
#[derive(Clone, PartialEq, Eq, Debug)]
pub struct LoadError {
    pub file: String,
    pub cause: IngestError,
}

/// Whether some accepted post already carries this identifier.
fn has_url_exec(posts: &Vec<BlogPost>, url: &str) -> (r: bool)
    ensures
        r == has_url(posts_view(posts@), url@),
{
    let mut i: usize = 0;
    while i < posts.len()
        invariant
            0 <= i <= posts@.len(),
            forall|k: int| 0 <= k < i ==> posts_view(posts@)[k].url != url@,
        decreases posts@.len() - i,
    {
        if crate::text::str_eq(posts[i].url.as_str(), url) {
            assert(posts_view(posts@)[i as int].url == url@);
            return true;
        }
        i += 1;
    }
    false
}

/// Walks the files once: skips non-Markdown names and duplicate identifiers
/// with a notice, ingests every other file, and aborts on the first
/// ingestion fault, naming the offending file and the cause.
pub fn load_documents(files: &Vec<SourceFile>) -> (r: Result<
    (Vec<BlogPost>, Vec<Skipped>),
    LoadError,
>)
    ensures
        match r {
            Ok(ok) => spec_load(files@, Seq::empty(), Seq::empty()) == LoadOut::Loaded(
                posts_view(ok.0@),
                skips_view(ok.1@),
            ),
            Err(e) => spec_load(files@, Seq::empty(), Seq::empty()) == LoadOut::Fail(
                e.file@,
                spec_cause(e.cause),
            ) && !(e.cause is Io),
        },
{
    let mut posts: Vec<BlogPost> = Vec::new();
    let mut skipped: Vec<Skipped> = Vec::new();
    let mut i: usize = 0;
    proof {
        assert(files@.skip(0) =~= files@);
        assert(posts_view(posts@) =~= Seq::<PostView>::empty());
        assert(skips_view(skipped@) =~= Seq::<SkipView>::empty());
    }
    while i < files.len()
        invariant
            0 <= i <= files@.len(),
            spec_load(files@, Seq::empty(), Seq::empty()) == spec_load(
                files@.skip(i as int),
                posts_view(posts@),
                skips_view(skipped@),
            ),
        decreases files@.len() - i,
    {
        proof {
            assert(files@.skip(i as int)[0] == files@[i as int]);
            assert(files@.skip(i as int).drop_first() =~= files@.skip(i + 1));
        }
        let name = &files[i].name;
        match stem_of(name.as_str()) {
            None => {
                let ghost old_skips = skips_view(skipped@);
                skipped.push(
                    Skipped { name: name.clone(), reason: SkipReason::NotMarkdown },
                );
                proof {
                    assert(skips_view(skipped@) =~= old_skips + seq![
                        SkipView { name: name@, reason: SkipReason::NotMarkdown },
                    ]);
                }
            },
            Some(url) => {
                if has_url_exec(&posts, url.as_str()) {
                    let ghost old_skips = skips_view(skipped@);
                    skipped.push(
                        Skipped { name: name.clone(), reason: SkipReason::DuplicateIdentifier },
                    );
                    proof {
                        assert(skips_view(skipped@) =~= old_skips + seq![
                            SkipView { name: name@, reason: SkipReason::DuplicateIdentifier },
                        ]);
                    }
                } else {
                    match parse_blog(url.as_str(), files[i].text.as_str()) {
                        Ok(p) => {
                            let ghost old_posts = posts_view(posts@);
                            let ghost pv = p@;
                            posts.push(p);
                            proof {
                                assert(posts_view(posts@) =~= old_posts + seq![pv]);
                            }
                        },
                        Err(cause) => {
                            return Err(LoadError { file: name.clone(), cause });
                        },
                    }
                }
            },
        }
        i += 1;
    }
    proof {
        assert(files@.skip(files@.len() as int) =~= Seq::<SourceFile>::empty());
    }
    Ok((posts, skipped))
}

/// `p` placed into `s` after every post dated the same or later: the stable
/// insertion step of a descending sort.
pub open spec fn spec_insert(p: PostView, s: Seq<PostView>) -> Seq<PostView>
    decreases s.len(),
{
    if s.len() > 0 && date_num(s[0].date) >= date_num(p.date) {
        seq![s[0]] + spec_insert(p, s.drop_first())
    } else {
        seq![p] + s
    }
}

/// Each post of `s`, in order, inserted into the accumulator.
pub open spec fn spec_sort_acc(s: Seq<PostView>, acc: Seq<PostView>) -> Seq<PostView>
    decreases s.len(),
{
    if s.len() == 0 {
        acc
    } else {
        spec_sort_acc(s.drop_first(), spec_insert(s[0], acc))
    }
}

/// The posts sorted by date descending, stably.
pub open spec fn spec_sort(s: Seq<PostView>) -> Seq<PostView> {
    spec_sort_acc(s, Seq::empty())
}

/// Dates never increase along the sequence.
pub open spec fn sorted_desc(s: Seq<PostView>) -> bool {
    forall|i: int, j: int|
        0 <= i < j < s.len() ==> date_num(#[trigger] s[i].date) >= date_num(#[trigger] s[j].date)
}

/// No two posts carry the same identifier.
pub open spec fn urls_distinct(s: Seq<PostView>) -> bool {
    forall|i: int, j: int| 0 <= i < j < s.len() ==> (#[trigger] s[i].url) != (#[trigger] s[j].url)
}

/// The predicate selecting posts dated exactly `d`.
pub open spec fn date_is(d: int) -> spec_fn(PostView) -> bool {
    |q: PostView| date_num(q.date) == d
}

proof fn lemma_insert_len(p: PostView, s: Seq<PostView>)
    ensures
        spec_insert(p, s).len() == s.len() + 1,
    decreases s.len(),
{
    if s.len() > 0 && date_num(s[0].date) >= date_num(p.date) {
        lemma_insert_len(p, s.drop_first());
    }
}

proof fn lemma_insert_membership(p: PostView, s: Seq<PostView>)
    ensures
        forall|k: int|
            0 <= k < spec_insert(p, s).len() ==> (#[trigger] spec_insert(p, s)[k] == p
                || s.contains(spec_insert(p, s)[k])),
    decreases s.len(),
{
    let out = spec_insert(p, s);
    if s.len() > 0 && date_num(s[0].date) >= date_num(p.date) {
        lemma_insert_membership(p, s.drop_first());
        assert forall|k: int| 0 <= k < out.len() implies (#[trigger] out[k] == p || s.contains(
            out[k],
        )) by {
            if k == 0 {
                assert(s[0] == out[0]);
                assert(s.contains(out[0]));
            } else {
                let inner = spec_insert(p, s.drop_first());
                assert(out[k] == inner[k - 1]);
                if inner[k - 1] == p {
                } else {
                    let j = choose|j: int|
                        0 <= j < s.drop_first().len() && s.drop_first()[j] == inner[k - 1];
                    assert(s[j + 1] == inner[k - 1]);
                }
            }
        }
    } else {
        assert forall|k: int| 0 <= k < out.len() implies (#[trigger] out[k] == p || s.contains(
            out[k],
        )) by {
            if k > 0 {
                assert(out[k] == s[k - 1]);
            }
        }
    }
}

proof fn lemma_insert_sorted(p: PostView, s: Seq<PostView>)
    requires
        sorted_desc(s),
    ensures
        sorted_desc(spec_insert(p, s)),
    decreases s.len(),
{
    let out = spec_insert(p, s);
    lemma_insert_len(p, s);
    if s.len() > 0 && date_num(s[0].date) >= date_num(p.date) {
        let rest = s.drop_first();
        assert(sorted_desc(rest));
        lemma_insert_sorted(p, rest);
        lemma_insert_membership(p, rest);
        let inner = spec_insert(p, rest);
        lemma_insert_len(p, rest);
        assert forall|i: int, j: int| 0 <= i < j < out.len() implies date_num(
            #[trigger] out[i].date,
        ) >= date_num(#[trigger] out[j].date) by {
            if i == 0 {
                assert(out[j] == inner[j - 1]);
                if inner[j - 1] == p {
                } else {
                    let w = choose|w: int| 0 <= w < rest.len() && rest[w] == inner[j - 1];
                    assert(s[w + 1] == inner[j - 1]);
                    assert(date_num(s[0].date) >= date_num(s[w + 1].date));
                }
            } else {
                assert(out[i] == inner[i - 1]);
                assert(out[j] == inner[j - 1]);
            }
        }
    } else {
        assert forall|i: int, j: int| 0 <= i < j < out.len() implies date_num(
            #[trigger] out[i].date,
        ) >= date_num(#[trigger] out[j].date) by {
            if i == 0 {
                assert(out[j] == s[j - 1]);
                if s.len() > 0 {
                    assert(date_num(s[0].date) < date_num(p.date));
                    assert(date_num(s[0].date) >= date_num(s[j - 1].date));
                }
            } else {
                assert(out[i] == s[i - 1]);
                assert(out[j] == s[j - 1]);
            }
        }
    }
}

proof fn lemma_sort_acc_sorted(s: Seq<PostView>, acc: Seq<PostView>)
    requires
        sorted_desc(acc),
    ensures
        sorted_desc(spec_sort_acc(s, acc)),
    decreases s.len(),
{
    if s.len() > 0 {
        lemma_insert_sorted(s[0], acc);
        lemma_sort_acc_sorted(s.drop_first(), spec_insert(s[0], acc));
    }
}

/// The sorted sequence is sorted by date descending.
pub proof fn lemma_sort_sorted(s: Seq<PostView>)
    ensures
        sorted_desc(spec_sort(s)),
{
    lemma_sort_acc_sorted(s, Seq::empty());
}

proof fn lemma_sort_acc_len(s: Seq<PostView>, acc: Seq<PostView>)
    ensures
        spec_sort_acc(s, acc).len() == s.len() + acc.len(),
    decreases s.len(),
{
    if s.len() > 0 {
        lemma_insert_len(s[0], acc);
        lemma_sort_acc_len(s.drop_first(), spec_insert(s[0], acc));
    }
}

/// Sorting keeps the number of posts.
pub proof fn lemma_sort_len(s: Seq<PostView>)
    ensures
        spec_sort(s).len() == s.len(),
{
    lemma_sort_acc_len(s, Seq::empty());
}

proof fn lemma_filter_single(p: PostView, d: int)
    ensures
        seq![p].filter(date_is(d)) == if date_is(d)(p) {
            seq![p]
        } else {
            Seq::<PostView>::empty()
        },
{
    reveal(Seq::filter);
    assert(seq![p].drop_last() =~= Seq::<PostView>::empty());
    assert(seq![p].last() == p);
    assert(Seq::<PostView>::empty().filter(date_is(d)) =~= Seq::<PostView>::empty());
    assert(Seq::<PostView>::empty().push(p) =~= seq![p]);
}

proof fn lemma_insert_filter(p: PostView, s: Seq<PostView>, d: int)
    requires
        sorted_desc(s),
    ensures
        spec_insert(p, s).filter(date_is(d)) == s.push(p).filter(date_is(d)),
    decreases s.len(),
{
    broadcast use vstd::prelude::Seq::filter_distributes_over_add;

    let pred = date_is(d);
    if s.len() > 0 && date_num(s[0].date) >= date_num(p.date) {
        let rest = s.drop_first();
        assert(sorted_desc(rest));
        lemma_insert_filter(p, rest, d);
        assert(spec_insert(p, s) == seq![s[0]] + spec_insert(p, rest));
        assert((seq![s[0]] + spec_insert(p, rest)).filter(pred) == seq![s[0]].filter(pred)
            + spec_insert(p, rest).filter(pred));
        assert(rest.push(p) =~= rest + seq![p]);
        assert(s.push(p) =~= seq![s[0]] + (rest + seq![p]));
        assert((seq![s[0]] + (rest + seq![p])).filter(pred) == seq![s[0]].filter(pred) + (rest
            + seq![p]).filter(pred));
    } else {
        assert(spec_insert(p, s) == seq![p] + s);
        assert((seq![p] + s).filter(pred) == seq![p].filter(pred) + s.filter(pred));
        assert(s.push(p) =~= s + seq![p]);
        assert((s + seq![p]).filter(pred) == s.filter(pred) + seq![p].filter(pred));
        lemma_filter_single(p, d);
        if date_num(p.date) == d {
            assert forall|i: int| 0 <= i < s.len() implies !pred(#[trigger] s[i]) by {
                if s.len() > 0 {
                    assert(date_num(s[0].date) < date_num(p.date));
                    if i > 0 {
                        assert(date_num(s[0].date) >= date_num(s[i].date));
                    }
                }
            }
            s.lemma_all_neg_filter_empty(pred);
            assert(s.filter(pred) =~= Seq::<PostView>::empty());
            assert(seq![p].filter(pred) + s.filter(pred) =~= s.filter(pred) + seq![p].filter(
                pred,
            ));
        } else {
            assert(seq![p].filter(pred) =~= Seq::<PostView>::empty());
            assert(seq![p].filter(pred) + s.filter(pred) =~= s.filter(pred) + seq![p].filter(
                pred,
            ));
        }
    }
}

proof fn lemma_sort_acc_filter(s: Seq<PostView>, acc: Seq<PostView>, d: int)
    requires
        sorted_desc(acc),
    ensures
        spec_sort_acc(s, acc).filter(date_is(d)) == (acc + s).filter(date_is(d)),
    decreases s.len(),
{
    broadcast use vstd::prelude::Seq::filter_distributes_over_add;

    let pred = date_is(d);
    if s.len() == 0 {
        assert(acc + s =~= acc);
    } else {
        let rest = s.drop_first();
        let acc2 = spec_insert(s[0], acc);
        lemma_insert_sorted(s[0], acc);
        lemma_sort_acc_filter(rest, acc2, d);
        lemma_insert_filter(s[0], acc, d);
        assert(acc.push(s[0]) =~= acc + seq![s[0]]);
        assert((acc2 + rest).filter(pred) == acc2.filter(pred) + rest.filter(pred));
        assert((acc + seq![s[0]]).filter(pred) == acc.filter(pred) + seq![s[0]].filter(pred));
        assert(acc + s =~= acc + (seq![s[0]] + rest));
        assert((acc + (seq![s[0]] + rest)).filter(pred) == acc.filter(pred) + (seq![s[0]]
            + rest).filter(pred));
        assert((seq![s[0]] + rest).filter(pred) == seq![s[0]].filter(pred) + rest.filter(pred));
    }
}

/// Sorting is stable: for any date, the posts bearing that date stand in the
/// sorted sequence exactly as they stood in the input.
pub proof fn lemma_sort_stable(s: Seq<PostView>, d: int)
    ensures
        spec_sort(s).filter(date_is(d)) == s.filter(date_is(d)),
{
    lemma_sort_acc_filter(s, Seq::empty(), d);
    assert(Seq::<PostView>::empty() + s =~= s);
}

proof fn lemma_insert_urls(p: PostView, s: Seq<PostView>)
    ensures
        forall|u: Seq<char>|
            #[trigger] has_url(spec_insert(p, s), u) <==> has_url(s, u) || p.url == u,
    decreases s.len(),
{
    let out = spec_insert(p, s);
    lemma_insert_len(p, s);
    assert forall|u: Seq<char>| #[trigger] has_url(out, u) <==> (has_url(s, u) || p.url == u) by {
        if has_url(out, u) {
            lemma_insert_membership(p, s);
            let i = choose|i: int| 0 <= i < out.len() && out[i].url == u;
            if out[i] == p {
            } else {
                let j = choose|j: int| 0 <= j < s.len() && s[j] == out[i];
                assert(s[j].url == u);
            }
        }
        if has_url(s, u) || p.url == u {
            if p.url == u {
                lemma_insert_contains_p(p, s);
                let i = choose|i: int| 0 <= i < out.len() && out[i] == p;
                assert(out[i].url == u);
            } else {
                let j = choose|j: int| 0 <= j < s.len() && s[j].url == u;
                lemma_insert_contains_s(p, s, j);
                let i = choose|i: int| 0 <= i < out.len() && out[i] == s[j];
                assert(out[i].url == u);
            }
        }
    }
}

proof fn lemma_insert_contains_p(p: PostView, s: Seq<PostView>)
    ensures
        exists|i: int| 0 <= i < spec_insert(p, s).len() && spec_insert(p, s)[i] == p,
    decreases s.len(),
{
    let out = spec_insert(p, s);
    if s.len() > 0 && date_num(s[0].date) >= date_num(p.date) {
        lemma_insert_contains_p(p, s.drop_first());
        let inner = spec_insert(p, s.drop_first());
        let i = choose|i: int| 0 <= i < inner.len() && inner[i] == p;
        assert(out[i + 1] == p);
    } else {
        assert(out[0] == p);
    }
}

proof fn lemma_insert_contains_s(p: PostView, s: Seq<PostView>, j: int)
    requires
        0 <= j < s.len(),
    ensures
        exists|i: int| 0 <= i < spec_insert(p, s).len() && spec_insert(p, s)[i] == s[j],
    decreases s.len(),
{
    let out = spec_insert(p, s);
    if s.len() > 0 && date_num(s[0].date) >= date_num(p.date) {
        if j == 0 {
            assert(out[0] == s[0]);
        } else {
            lemma_insert_contains_s(p, s.drop_first(), j - 1);
            let inner = spec_insert(p, s.drop_first());
            let i = choose|i: int| 0 <= i < inner.len() && inner[i] == s.drop_first()[j - 1];
            assert(out[i + 1] == s[j]);
        }
    } else {
        assert(out[j + 1] == s[j]);
    }
}

proof fn lemma_insert_distinct(p: PostView, s: Seq<PostView>)
    requires
        urls_distinct(s),
        !has_url(s, p.url),
    ensures
        urls_distinct(spec_insert(p, s)),
    decreases s.len(),
{
    let out = spec_insert(p, s);
    lemma_insert_len(p, s);
    if s.len() > 0 && date_num(s[0].date) >= date_num(p.date) {
        let rest = s.drop_first();
        assert(urls_distinct(rest));
        assert(!has_url(rest, p.url)) by {
            if has_url(rest, p.url) {
                let j = choose|j: int| 0 <= j < rest.len() && rest[j].url == p.url;
                assert(s[j + 1].url == p.url);
            }
        }
        lemma_insert_distinct(p, rest);
        lemma_insert_membership(p, rest);
        let inner = spec_insert(p, rest);
        lemma_insert_len(p, rest);
        assert forall|i: int, j: int| 0 <= i < j < out.len() implies (#[trigger] out[i].url)
            != (#[trigger] out[j].url) by {
            if i == 0 {
                assert(out[j] == inner[j - 1]);
                if inner[j - 1] == p {
                    assert(s[0].url != p.url) by {
                        if s[0].url == p.url {
                            assert(has_url(s, p.url));
                        }
                    }
                } else {
                    let w = choose|w: int| 0 <= w < rest.len() && rest[w] == inner[j - 1];
                    assert(s[w + 1] == inner[j - 1]);
                    assert(s[0].url != s[w + 1].url);
                }
            } else {
                assert(out[i] == inner[i - 1]);
                assert(out[j] == inner[j - 1]);
            }
        }
    } else {
        assert forall|i: int, j: int| 0 <= i < j < out.len() implies (#[trigger] out[i].url)
            != (#[trigger] out[j].url) by {
            if i == 0 {
                assert(out[j] == s[j - 1]);
                assert(out[0] == p);
                if p.url == s[j - 1].url {
                    assert(has_url(s, p.url));
                }
            } else {
                assert(out[i] == s[i - 1]);
                assert(out[j] == s[j - 1]);
            }
        }
    }
}

proof fn lemma_sort_acc_distinct(s: Seq<PostView>, acc: Seq<PostView>)
    requires
        urls_distinct(acc + s),
    ensures
        urls_distinct(spec_sort_acc(s, acc)),
    decreases s.len(),
{
    if s.len() == 0 {
        assert(acc + s =~= acc);
        assert(urls_distinct(acc));
    } else {
        let rest = s.drop_first();
        let whole = acc + s;
        assert(urls_distinct(acc)) by {
            assert forall|i: int, j: int| 0 <= i < j < acc.len() implies (#[trigger] acc[i].url)
                != (#[trigger] acc[j].url) by {
                assert(whole[i] == acc[i]);
                assert(whole[j] == acc[j]);
            }
        }
        assert(!has_url(acc, s[0].url)) by {
            if has_url(acc, s[0].url) {
                let j = choose|j: int| 0 <= j < acc.len() && acc[j].url == s[0].url;
                assert(whole[j] == acc[j]);
                assert(whole[acc.len() as int] == s[0]);
            }
        }
        lemma_insert_distinct(s[0], acc);
        let acc2 = spec_insert(s[0], acc);
        lemma_insert_urls(s[0], acc);
        lemma_insert_len(s[0], acc);
        assert(urls_distinct(acc2 + rest)) by {
            lemma_insert_membership(s[0], acc);
            assert forall|i: int, j: int| 0 <= i < j < (acc2 + rest).len() implies (#[trigger] (acc2
                + rest)[i].url) != (#[trigger] (acc2 + rest)[j].url) by {
                let a2 = acc2.len() as int;
                if j < a2 {
                } else if i >= a2 {
                    assert((acc2 + rest)[i] == rest[i - a2]);
                    assert((acc2 + rest)[j] == rest[j - a2]);
                    assert(whole[i - a2 + acc.len() + 1] == rest[i - a2]);
                    assert(whole[j - a2 + acc.len() + 1] == rest[j - a2]);
                } else {
                    assert((acc2 + rest)[j] == rest[j - a2]);
                    assert(whole[j - a2 + acc.len() + 1] == rest[j - a2]);
                    let x = (acc2 + rest)[i];
                    assert(acc2[i] == x);
                    if x == s[0] {
                        assert(whole[acc.len() as int] == s[0]);
                        assert(s[0].url != rest[j - a2].url);
                    } else {
                        let w = choose|w: int| 0 <= w < acc.len() && acc[w] == x;
                        assert(whole[w] == x);
                        assert(x.url != rest[j - a2].url);
                    }
                }
            }
        }
        lemma_sort_acc_distinct(rest, acc2);
    }
}

/// Sorting keeps identifiers unique.
pub proof fn lemma_sort_distinct(s: Seq<PostView>)
    requires
        urls_distinct(s),
    ensures
        urls_distinct(spec_sort(s)),
{
    assert(Seq::<PostView>::empty() + s =~= s);
    lemma_sort_acc_distinct(s, Seq::empty());
}

/// A document the loader accepts carries the identifier derived for it.
proof fn lemma_parse_blog_url(url: Seq<char>, text: Seq<char>)
    ensures
        spec_parse_blog(url, text) matches ParseOut::Post(p) ==> p.url == url,
{
}

/// Whatever the loader accepts has pairwise distinct identifiers: a file
/// whose identifier was already taken is skipped, so the first one wins and
/// the collection holds one document per distinct identifier.
pub proof fn lemma_load_distinct(files: Seq<SourceFile>, posts: Seq<PostView>, skipped: Seq<
    SkipView,
>)
    requires
        urls_distinct(posts),
    ensures
        spec_load(files, posts, skipped) matches LoadOut::Loaded(ps, sk) ==> urls_distinct(ps),
    decreases files.len(),
{
    if files.len() > 0 {
        let name = files[0].name@;
        let text = files[0].text@;
        match spec_stem(name) {
            None => {
                lemma_load_distinct(
                    files.drop_first(),
                    posts,
                    skipped + seq![SkipView { name: name, reason: SkipReason::NotMarkdown }],
                );
            },
            Some(url) => {
                if has_url(posts, url) {
                    lemma_load_distinct(
                        files.drop_first(),
                        posts,
                        skipped + seq![
                            SkipView { name: name, reason: SkipReason::DuplicateIdentifier },
                        ],
                    );
                } else {
                    match spec_parse_blog(url, text) {
                        ParseOut::Post(p) => {
                            lemma_parse_blog_url(url, text);
                            assert(urls_distinct(posts + seq![p])) by {
                                assert forall|i: int, j: int|
                                    0 <= i < j < (posts + seq![p]).len() implies (#[trigger] (posts
                                    + seq![p])[i].url) != (#[trigger] (posts + seq![p])[j].url) by {
                                    if j == posts.len() {
                                        assert((posts + seq![p])[i] == posts[i]);
                                    }
                                }
                            }
                            lemma_load_distinct(files.drop_first(), posts + seq![p], skipped);
                        },
                        _ => {},
                    }
                }
            },
        }
    }
}

proof fn lemma_insert_at(p: PostView, s: Seq<PostView>, j: int)
    requires
        0 <= j <= s.len(),
        forall|k: int| 0 <= k < j ==> date_num(#[trigger] s[k].date) >= date_num(p.date),
        j < s.len() ==> date_num(s[j].date) < date_num(p.date),
    ensures
        spec_insert(p, s) == s.insert(j, p),
    decreases j,
{
    if j == 0 {
        assert(seq![p] + s =~= s.insert(0, p));
    } else {
        assert(date_num(s[0].date) >= date_num(p.date));
        let rest = s.drop_first();
        lemma_insert_at(p, rest, j - 1);
        assert(seq![s[0]] + rest.insert(j - 1, p) =~= s.insert(j, p));
    }
}

/// Sorts the documents by date descending, stably: posts sharing a date
/// keep their relative order.
pub fn sort_documents(posts: Vec<BlogPost>) -> (r: Vec<BlogPost>)
    ensures
        posts_view(r@) == spec_sort(posts_view(posts@)),
{
    let ghost orig = posts_view(posts@);
    let mut rem = posts;
    let mut out: Vec<BlogPost> = Vec::new();
    proof {
        assert(posts_view(out@) =~= Seq::<PostView>::empty());
    }
    while rem.len() > 0
        invariant
            spec_sort_acc(posts_view(rem@), posts_view(out@)) == spec_sort(orig),
        decreases rem@.len(),
    {
        let ghost rem0 = posts_view(rem@);
        let ghost acc0 = posts_view(out@);
        let p = rem.remove(0);
        proof {
            assert(posts_view(rem@) =~= rem0.drop_first());
            assert(p@ == rem0[0]);
        }
        let key = p.date.key();
        let mut j: usize = 0;
        while j < out.len() && out[j].date.key() >= key
            invariant
                0 <= j <= out@.len(),
                key == date_num(p.date),
                forall|k: int|
                    0 <= k < j ==> date_num(#[trigger] posts_view(out@)[k].date) >= date_num(
                        p.date,
                    ),
                posts_view(out@) == acc0,
            decreases out@.len() - j,
        {
            proof {
                assert(posts_view(out@)[j as int] == out@[j as int]@);
            }
            j += 1;
        }
        proof {
            if j < out.len() {
                assert(posts_view(out@)[j as int] == out@[j as int]@);
            }
            lemma_insert_at(p@, acc0, j as int);
        }
        out.insert(j, p);
        proof {
            assert(posts_view(out@) =~= acc0.insert(j as int, p@));
        }
    }
    proof {
        assert(posts_view(rem@) =~= Seq::<PostView>::empty());
    }
    out
}

/// The immutable, process-wide document collection.
pub struct AppState {
    pub blogposts: Vec<BlogPost>,
}

/// Builds the boot-time state: loads the files and sorts the accepted
/// documents by date descending, stably; the result carries distinct
/// identifiers. Any ingestion fault fails the whole boot, naming the file.
pub fn new_state(files: &Vec<SourceFile>) -> (r: Result<(AppState, Vec<Skipped>), LoadError>)
    ensures
        match r {
            Ok(ok) => spec_load(files@, Seq::empty(), Seq::empty()) matches LoadOut::Loaded(ps, sk)
                && posts_view(ok.0.blogposts@) == spec_sort(ps) && skips_view(ok.1@) == sk
                && sorted_desc(posts_view(ok.0.blogposts@)) && urls_distinct(
                posts_view(ok.0.blogposts@),
            ),
            Err(e) => spec_load(files@, Seq::empty(), Seq::empty()) == LoadOut::Fail(
                e.file@,
                spec_cause(e.cause),
            ) && !(e.cause is Io),
        },
{
    match load_documents(files) {
        Err(e) => Err(e),
        Ok((posts, skipped)) => {
            proof {
                lemma_load_distinct(files@, Seq::empty(), Seq::empty());
                lemma_sort_sorted(posts_view(posts@));
                lemma_sort_distinct(posts_view(posts@));
            }
            let sorted = sort_documents(posts);
            Ok((AppState { blogposts: sorted }, skipped))
        },
    }
}

/// A post shown in public listings: one not archived.
pub open spec fn post_visible(p: PostView) -> bool {
    !p.archived
}

/// Whether the post carries this tag.
pub open spec fn post_has_tag(p: PostView, t: Seq<char>) -> bool {
    exists|i: int| 0 <= i < p.tags.len() && p.tags[i] == t
}

/// The position of the first post carrying this identifier, if any.
pub fn find_by_url(posts: &Vec<BlogPost>, url: &str) -> (r: Option<usize>)
    ensures
        r matches Some(i) ==> i < posts@.len() && posts_view(posts@)[i as int].url == url@ && (
        forall|k: int| 0 <= k < i ==> posts_view(posts@)[k].url != url@),
        r is None ==> !has_url(posts_view(posts@), url@),
{
    let mut i: usize = 0;
    while i < posts.len()
        invariant
            0 <= i <= posts@.len(),
            forall|k: int| 0 <= k < i ==> posts_view(posts@)[k].url != url@,
        decreases posts@.len() - i,
    {
        if crate::text::str_eq(posts[i].url.as_str(), url) {
            proof {
                assert(posts_view(posts@)[i as int].url == url@);
            }
            return Some(i);
        }
        i += 1;
    }
    None
}

/// Whether the post carries this tag.
pub fn has_tag(p: &BlogPost, tag: &str) -> (r: bool)
    ensures
        r == post_has_tag(p@, tag@),
{
    let mut i: usize = 0;
    while i < p.tags.len()
        invariant
            0 <= i <= p.tags@.len(),
            forall|k: int| 0 <= k < i ==> p@.tags[k] != tag@,
        decreases p.tags@.len() - i,
    {
        if crate::text::str_eq(p.tags[i].as_str(), tag) {
            proof {
                assert(p@.tags[i as int] == tag@);
            }
            return true;
        }
        i += 1;
    }
    false
}

/// The positions, in order, of the unarchived posts carrying this tag.
pub fn tagged_indices(posts: &Vec<BlogPost>, tag: &str) -> (r: Vec<usize>)
    ensures
        forall|a: int, b: int| 0 <= a < b < r@.len() ==> r@[a] < r@[b],
        forall|a: int|
            0 <= a < r@.len() ==> r@[a] < posts@.len() && post_visible(
                #[trigger] posts_view(posts@)[r@[a] as int],
            ) && post_has_tag(posts_view(posts@)[r@[a] as int], tag@),
        forall|i: int|
            0 <= i < posts@.len() && post_visible(#[trigger] posts_view(posts@)[i]) && post_has_tag(
                posts_view(posts@)[i],
                tag@,
            ) ==> exists|a: int| 0 <= a < r@.len() && r@[a] == i,
{
    let mut r: Vec<usize> = Vec::new();
    let mut i: usize = 0;
    while i < posts.len()
        invariant
            0 <= i <= posts@.len(),
            forall|a: int, b: int| 0 <= a < b < r@.len() ==> r@[a] < r@[b],
            forall|a: int| 0 <= a < r@.len() ==> r@[a] < i,
            forall|a: int|
                0 <= a < r@.len() ==> r@[a] < posts@.len() && post_visible(
                    #[trigger] posts_view(posts@)[r@[a] as int],
                ) && post_has_tag(posts_view(posts@)[r@[a] as int], tag@),
            forall|k: int|
                0 <= k < i && post_visible(#[trigger] posts_view(posts@)[k]) && post_has_tag(
                    posts_view(posts@)[k],
                    tag@,
                ) ==> exists|a: int| 0 <= a < r@.len() && r@[a] == k,
        decreases posts@.len() - i,
    {
        let p = &posts[i];
        proof {
            assert(posts_view(posts@)[i as int] == posts@[i as int]@);
        }
        if !p.archived && has_tag(p, tag) {
            let ghost old_r = r@;
            r.push(i);
            proof {
                assert(r@[r@.len() - 1] == i);
                assert(forall|a: int| 0 <= a < old_r.len() ==> r@[a] == old_r[a]);
            }
        }
        i += 1;
    }
    r
}

/// The positions, in order, of the unarchived posts.
pub fn visible_indices(posts: &Vec<BlogPost>) -> (r: Vec<usize>)
    ensures
        forall|a: int, b: int| 0 <= a < b < r@.len() ==> r@[a] < r@[b],
        forall|a: int|
            0 <= a < r@.len() ==> r@[a] < posts@.len() && post_visible(
                #[trigger] posts_view(posts@)[r@[a] as int],
            ),
        forall|i: int|
            0 <= i < posts@.len() && post_visible(#[trigger] posts_view(posts@)[i]) ==> exists|
                a: int,
            | 0 <= a < r@.len() && r@[a] == i,
{
    let mut r: Vec<usize> = Vec::new();
    let mut i: usize = 0;
    while i < posts.len()
        invariant
            0 <= i <= posts@.len(),
            forall|a: int, b: int| 0 <= a < b < r@.len() ==> r@[a] < r@[b],
            forall|a: int| 0 <= a < r@.len() ==> r@[a] < i,
            forall|a: int|
                0 <= a < r@.len() ==> r@[a] < posts@.len() && post_visible(
                    #[trigger] posts_view(posts@)[r@[a] as int],
                ),
            forall|k: int|
                0 <= k < i && post_visible(#[trigger] posts_view(posts@)[k]) ==> exists|a: int|
                    0 <= a < r@.len() && r@[a] == k,
        decreases posts@.len() - i,
    {
        proof {
            assert(posts_view(posts@)[i as int] == posts@[i as int]@);
        }
        if !posts[i].archived {
            let ghost old_r = r@;
            r.push(i);
            proof {
                assert(r@[r@.len() - 1] == i);
                assert(forall|a: int| 0 <= a < old_r.len() ==> r@[a] == old_r[a]);
            }
        }
        i += 1;
    }
    r
}

} // verus!
