//! The structured header block at the top of a content file: splitting it
//! from the body, decoding its key/value fields, and re-encoding them.
use vstd::prelude::*;
use crate::date::{Date, date_valid, spec_parse_date, spec_format_date, parse_date, format_date};
use crate::text::{
    match_at, find_from, trim_start_spec, is_space, match_at_exec, find_str, trim_start, str_eq,
    substring, lemma_find_from_is_first, first_char_from, lemma_first_char_from,
    lemma_first_char_unique, lemma_first_char_none, find_char, trim, trim_spec, trim_end_spec,
};

verus! {

/// A fault found while decoding a header block. `BadDate` is the date field
/// failing to parse; every other variant is a malformed or incomplete block.
#[derive(Clone, Copy, PartialEq, Eq, Structural, Debug)]
pub enum HeaderFault {
    /// A non-empty line without a key/value separator.
    Syntax,
    /// A recognized key given twice.
    DuplicateKey,
    /// A required field absent from the block.
    MissingField,
    /// A title field holding the empty string.
    EmptyTitle,
    /// An archived field that is neither `true` nor `false`.
    BadFlag,
    /// A tags field that is not a bracketed list of non-empty items.
    BadTags,
    /// A date field that is not a valid `dd-mm-yyyy` date.
    BadDate,
}

/// The delimiter that encloses the header block.
pub open spec fn marker() -> Seq<char> {
    seq!['-', '-', '-']
}

/// The header block strictly between the two markers, and the body after the
/// second marker with leading whitespace removed; nothing if the text does
/// not open with the marker or the marker never recurs.
pub open spec fn spec_split(text: Seq<char>) -> Option<(Seq<char>, Seq<char>)> {
    if text.len() >= 3 && match_at(text, marker(), 0) {
        match find_from(text, marker(), 3) {
            Some(i) => Some((text.subrange(3, i), trim_start_spec(text.skip(i + 3)))),
            None => None,
        }
    } else {
        None
    }
}

/// Separates a raw file into its header block and its body. The text must
/// open with the marker and contain a second occurrence of it; otherwise the
/// header is malformed and nothing is returned.
pub fn split_frontmatter(text: &str) -> (r: Option<(String, String)>)
    ensures
        r matches Some(p) ==> spec_split(text@) == Some((p.0@, p.1@)),
        r is None ==> spec_split(text@) is None,
{
    proof {
        reveal_strlit("---");
        assert("---"@ =~= marker());
    }
    let n = text.unicode_len();
    if n < 3 {
        return None;
    }
    if !match_at_exec(text, "---", 0) {
        return None;
    }
    match find_str(text, "---", 3) {
        None => None,
        Some(i) => {
            proof {
                lemma_find_from_is_first(text@, "---"@, 3);
            }
            let header = substring(text, 3, i);
            let tail = substring(text, i + 3, n);
            let body = trim_start(tail.as_str());
            proof {
                assert(text@.subrange(i + 3, n as int) =~= text@.skip(i + 3));
            }
            Some((header, body))
        },
    }
}

/// The decoded fields of a header block.
#[derive(Clone, PartialEq, Eq, Debug)]
pub struct Frontmatter {
    pub title: String,
    pub date: Date,
    pub archived: bool,
    pub tags: Vec<String>,
}

/// The mathematical value of a [`Frontmatter`].
#[verifier::ext_equal]
pub struct FmView {
    pub title: Seq<char>,
    pub date: Date,
    pub archived: bool,
    pub tags: Seq<Seq<char>>,
}

impl View for Frontmatter {
    type V = FmView;

    open spec fn view(&self) -> FmView {
        FmView {
            title: self.title@,
            date: self.date,
            archived: self.archived,
            tags: self.tags.deep_view(),
        }
    }
}

/// The fields gathered so far while walking the lines of a header block.
pub struct HeaderAcc {
    pub title: Option<String>,
    pub date_text: Option<String>,
    pub archived: Option<bool>,
    pub tags: Option<Vec<String>>,
}

/// The mathematical value of a [`HeaderAcc`].
#[verifier::ext_equal]
pub struct AccView {
    pub title: Option<Seq<char>>,
    pub date_text: Option<Seq<char>>,
    pub archived: Option<bool>,
    pub tags: Option<Seq<Seq<char>>>,
}

impl View for HeaderAcc {
    type V = AccView;

    open spec fn view(&self) -> AccView {
        AccView {
            title: match self.title {
                Some(ref t) => Some(t@),
                None => None,
            },
            date_text: match self.date_text {
                Some(ref t) => Some(t@),
                None => None,
            },
            archived: self.archived,
            tags: match self.tags {
                Some(ref t) => Some(t.deep_view()),
                None => None,
            },
        }
    }
}

pub open spec fn empty_acc() -> AccView {
    AccView { title: None, date_text: None, archived: None, tags: None }
}

pub open spec fn colon_space() -> Seq<char> {
    seq![':', ' ']
}

pub open spec fn title_key() -> Seq<char> {
    seq!['t', 'i', 't', 'l', 'e']
}

pub open spec fn date_key() -> Seq<char> {
    seq!['d', 'a', 't', 'e']
}

pub open spec fn archived_key() -> Seq<char> {
    seq!['a', 'r', 'c', 'h', 'i', 'v', 'e', 'd']
}

pub open spec fn tags_key() -> Seq<char> {
    seq!['t', 'a', 'g', 's']
}

pub open spec fn true_text() -> Seq<char> {
    seq!['t', 'r', 'u', 'e']
}

pub open spec fn false_text() -> Seq<char> {
    seq!['f', 'a', 'l', 's', 'e']
}

/// The items of a comma-separated list, each trimmed of surrounding
/// whitespace; nothing if any item is empty.
pub open spec fn spec_parse_items(s: Seq<char>) -> Option<Seq<Seq<char>>>
    decreases s.len(),
    via spec_parse_items_dec
{
    let i = first_char_from(s, ',', 0);
    let item = trim_spec(s.subrange(0, i));
    if item.len() == 0 {
        None
    } else if i >= s.len() {
        Some(seq![item])
    } else {
        match spec_parse_items(s.skip(i + 1)) {
            None => None,
            Some(r) => Some(seq![item] + r),
        }
    }
}

#[via_fn]
proof fn spec_parse_items_dec(s: Seq<char>) {
    lemma_first_char_from(s, ',', 0);
}

/// The tag list denoted by a bracketed, comma-separated value.
pub open spec fn spec_parse_tags(v: Seq<char>) -> Option<Seq<Seq<char>>> {
    if v.len() >= 2 && v[0] == '[' && v[v.len() - 1] == ']' {
        let inner = v.subrange(1, v.len() - 1);
        if inner.len() == 0 {
            Some(Seq::empty())
        } else {
            spec_parse_items(inner)
        }
    } else {
        None
    }
}

/// Folds one line of the header block into the accumulator: empty lines are
/// skipped, recognized keys fill their field exactly once, unknown keys are
/// ignored, and a line without a separator is a fault.
pub open spec fn spec_handle_line(line: Seq<char>, acc: AccView) -> Result<AccView, HeaderFault> {
    if line.len() == 0 {
        Ok(acc)
    } else {
        match find_from(line, colon_space(), 0) {
            None => Err(HeaderFault::Syntax),
            Some(i) => {
                let key = line.subrange(0, i);
                let value = line.skip(i + 2);
                if key == title_key() {
                    if acc.title is Some {
                        Err(HeaderFault::DuplicateKey)
                    } else {
                        Ok(AccView { title: Some(value), ..acc })
                    }
                } else if key == date_key() {
                    if acc.date_text is Some {
                        Err(HeaderFault::DuplicateKey)
                    } else {
                        Ok(AccView { date_text: Some(value), ..acc })
                    }
                } else if key == archived_key() {
                    if acc.archived is Some {
                        Err(HeaderFault::DuplicateKey)
                    } else if value == true_text() {
                        Ok(AccView { archived: Some(true), ..acc })
                    } else if value == false_text() {
                        Ok(AccView { archived: Some(false), ..acc })
                    } else {
                        Err(HeaderFault::BadFlag)
                    }
                } else if key == tags_key() {
                    if acc.tags is Some {
                        Err(HeaderFault::DuplicateKey)
                    } else {
                        match spec_parse_tags(value) {
                            None => Err(HeaderFault::BadTags),
                            Some(ts) => Ok(AccView { tags: Some(ts), ..acc }),
                        }
                    }
                } else {
                    Ok(acc)
                }
            },
        }
    }
}

/// Folds every line of the block into the accumulator.
pub open spec fn spec_decode_lines(s: Seq<char>, acc: AccView) -> Result<AccView, HeaderFault>
    decreases s.len(),
    via spec_decode_lines_dec
{
    if s.len() == 0 {
        Ok(acc)
    } else {
        let i = first_char_from(s, '\n', 0);
        let line = s.subrange(0, i);
        match spec_handle_line(line, acc) {
            Err(f) => Err(f),
            Ok(acc2) => if i >= s.len() {
                Ok(acc2)
            } else {
                spec_decode_lines(s.skip(i + 1), acc2)
            },
        }
    }
}

#[via_fn]
proof fn spec_decode_lines_dec(s: Seq<char>, acc: AccView) {
    lemma_first_char_from(s, '\n', 0);
}

/// The decoded fields of a header block, or the first fault found: the four
/// fields are required, the title must be non-empty, and the date must be a
/// valid `dd-mm-yyyy` date.
pub open spec fn spec_decode(h: Seq<char>) -> Result<FmView, HeaderFault> {
    match spec_decode_lines(h, empty_acc()) {
        Err(f) => Err(f),
        Ok(acc) => {
            if acc.title is None || acc.date_text is None || acc.archived is None
                || acc.tags is None {
                Err(HeaderFault::MissingField)
            } else if acc.title->0.len() == 0 {
                Err(HeaderFault::EmptyTitle)
            } else {
                match spec_parse_date(acc.date_text->0) {
                    None => Err(HeaderFault::BadDate),
                    Some(d) => Ok(
                        FmView {
                            title: acc.title->0,
                            date: d,
                            archived: acc.archived->0,
                            tags: acc.tags->0,
                        },
                    ),
                }
            }
        },
    }
}

/// The items of a comma-separated list, each trimmed; nothing if any item is
/// empty.
fn parse_items(s: &str) -> (r: Option<Vec<String>>)
    ensures
        r matches Some(ts) ==> spec_parse_items(s@) == Some(ts.deep_view()),
        r is None ==> spec_parse_items(s@) is None,
    decreases s@.len(),
{
    let n = s.unicode_len();
    let i = find_char(s, ',', 0);
    proof {
        lemma_first_char_from(s@, ',', 0);
    }
    let head = substring(s, 0, i);
    let item = trim(head.as_str());
    if item.as_str().unicode_len() == 0 {
        return None;
    }
    if i >= n {
        let mut v: Vec<String> = Vec::new();
        v.push(item);
        proof {
            assert(v.deep_view() =~= seq![trim_spec(s@.subrange(0, i as int))]);
        }
        Some(v)
    } else {
        let rest = substring(s, i + 1, n);
        proof {
            assert(s@.subrange(i + 1, n as int) =~= s@.skip(i + 1));
        }
        match parse_items(rest.as_str()) {
            None => None,
            Some(tail) => {
                let mut v: Vec<String> = Vec::new();
                v.push(item);
                let mut k: usize = 0;
                while k < tail.len()
                    invariant
                        0 <= k <= tail.len(),
                        v@.len() == k + 1,
                        v@[0]@ == trim_spec(s@.subrange(0, first_char_from(s@, ',', 0))),
                        forall|j: int| 0 <= j < k ==> v@[j + 1] == tail@[j],
                    decreases tail.len() - k,
                {
                    v.push(tail[k].clone());
                    k += 1;
                }
                proof {
                    assert(v.deep_view() =~= seq![
                        trim_spec(s@.subrange(0, first_char_from(s@, ',', 0))),
                    ] + tail.deep_view());
                }
                Some(v)
            },
        }
    }
}

/// The tag list denoted by a bracketed, comma-separated value.
fn parse_tags(v: &str) -> (r: Option<Vec<String>>)
    ensures
        r matches Some(ts) ==> spec_parse_tags(v@) == Some(ts.deep_view()),
        r is None ==> spec_parse_tags(v@) is None,
{
    let n = v.unicode_len();
    if n < 2 {
        return None;
    }
    if !(v.get_char(0) == '[' && v.get_char(n - 1) == ']') {
        return None;
    }
    if n == 2 {
        let empty: Vec<String> = Vec::new();
        proof {
            assert(empty.deep_view() =~= Seq::<Seq<char>>::empty());
            assert(v@.subrange(1, n - 1).len() == 0);
        }
        return Some(empty);
    }
    let inner = substring(v, 1, n - 1);
    parse_items(inner.as_str())
}

/// Folds one line of the header block into the accumulator.
fn handle_line(line: &str, acc: HeaderAcc) -> (r: Result<HeaderAcc, HeaderFault>)
    ensures
        r matches Ok(a) ==> spec_handle_line(line@, acc@) == Ok::<AccView, HeaderFault>(a@),
        r matches Err(f) ==> spec_handle_line(line@, acc@) == Err::<AccView, HeaderFault>(f),
{
    proof {
        reveal_strlit(": ");
        reveal_strlit("title");
        reveal_strlit("date");
        reveal_strlit("archived");
        reveal_strlit("tags");
        reveal_strlit("true");
        reveal_strlit("false");
        assert(": "@ =~= colon_space());
        assert("title"@ =~= title_key());
        assert("date"@ =~= date_key());
        assert("archived"@ =~= archived_key());
        assert("tags"@ =~= tags_key());
        assert("true"@ =~= true_text());
        assert("false"@ =~= false_text());
    }
    let n = line.unicode_len();
    if n == 0 {
        return Ok(acc);
    }
    match find_str(line, ": ", 0) {
        None => Err(HeaderFault::Syntax),
        Some(i) => {
            proof {
                lemma_find_from_is_first(line@, ": "@, 0);
            }
            let key = substring(line, 0, i);
            let value = substring(line, i + 2, n);
            proof {
                assert(line@.subrange(i + 2, n as int) =~= line@.skip(i + 2));
            }
            if str_eq(key.as_str(), "title") {
                if acc.title.is_some() {
                    Err(HeaderFault::DuplicateKey)
                } else {
                    Ok(HeaderAcc { title: Some(value), ..acc })
                }
            } else if str_eq(key.as_str(), "date") {
                if acc.date_text.is_some() {
                    Err(HeaderFault::DuplicateKey)
                } else {
                    Ok(HeaderAcc { date_text: Some(value), ..acc })
                }
            } else if str_eq(key.as_str(), "archived") {
                if acc.archived.is_some() {
                    Err(HeaderFault::DuplicateKey)
                } else if str_eq(value.as_str(), "true") {
                    Ok(HeaderAcc { archived: Some(true), ..acc })
                } else if str_eq(value.as_str(), "false") {
                    Ok(HeaderAcc { archived: Some(false), ..acc })
                } else {
                    Err(HeaderFault::BadFlag)
                }
            } else if str_eq(key.as_str(), "tags") {
                if acc.tags.is_some() {
                    Err(HeaderFault::DuplicateKey)
                } else {
                    match parse_tags(value.as_str()) {
                        None => Err(HeaderFault::BadTags),
                        Some(ts) => Ok(HeaderAcc { tags: Some(ts), ..acc }),
                    }
                }
            } else {
                Ok(acc)
            }
        },
    }
}

/// Folds every line of the block into the accumulator.
fn decode_lines(s: &str, acc: HeaderAcc) -> (r: Result<HeaderAcc, HeaderFault>)
    ensures
        r matches Ok(a) ==> spec_decode_lines(s@, acc@) == Ok::<AccView, HeaderFault>(a@),
        r matches Err(f) ==> spec_decode_lines(s@, acc@) == Err::<AccView, HeaderFault>(f),
    decreases s@.len(),
{
    let n = s.unicode_len();
    if n == 0 {
        return Ok(acc);
    }
    let i = find_char(s, '\n', 0);
    proof {
        lemma_first_char_from(s@, '\n', 0);
    }
    let line = substring(s, 0, i);
    match handle_line(line.as_str(), acc) {
        Err(f) => Err(f),
        Ok(acc2) => {
            if i >= n {
                Ok(acc2)
            } else {
                let rest = substring(s, i + 1, n);
                proof {
                    assert(s@.subrange(i + 1, n as int) =~= s@.skip(i + 1));
                }
                decode_lines(rest.as_str(), acc2)
            }
        },
    }
}

/// Decodes a header block into its four fields, or reports the first fault:
/// all four fields are required, the title must be non-empty, and the date
/// must be a valid `dd-mm-yyyy` date.
pub fn decode_frontmatter(h: &str) -> (r: Result<Frontmatter, HeaderFault>)
    ensures
        r matches Ok(fm) ==> spec_decode(h@) == Ok::<FmView, HeaderFault>(fm@),
        r matches Err(f) ==> spec_decode(h@) == Err::<FmView, HeaderFault>(f),
{
    let acc0 = HeaderAcc { title: None, date_text: None, archived: None, tags: None };
    proof {
        assert(acc0@ =~= empty_acc());
    }
    match decode_lines(h, acc0) {
        Err(f) => Err(f),
        Ok(acc) => {
            let HeaderAcc { title, date_text, archived, tags } = acc;
            match (title, date_text, archived, tags) {
                (Some(title), Some(date_text), Some(archived), Some(tags)) => {
                    if title.as_str().unicode_len() == 0 {
                        Err(HeaderFault::EmptyTitle)
                    } else {
                        match parse_date(date_text.as_str()) {
                            None => Err(HeaderFault::BadDate),
                            Some(date) => Ok(Frontmatter { title, date, archived, tags }),
                        }
                    }
                },
                _ => Err(HeaderFault::MissingField),
            }
        },
    }
}

/// The items joined with commas, in order.
pub open spec fn spec_join_tags(tags: Seq<Seq<char>>) -> Seq<char>
    decreases tags.len(),
{
    if tags.len() == 0 {
        Seq::empty()
    } else if tags.len() == 1 {
        tags[0]
    } else {
        tags[0] + seq![','] + spec_join_tags(tags.drop_first())
    }
}

/// A tag that the encoded form gives back unchanged: non-empty, without
/// commas or line breaks, and without surrounding whitespace.
pub open spec fn tag_ok(t: Seq<char>) -> bool {
    &&& t.len() > 0
    &&& !is_space(t[0])
    &&& !is_space(t[t.len() - 1])
    &&& forall|k: int| 0 <= k < t.len() ==> t[k] != ',' && t[k] != '\n'
}

/// Fields that the encoded form gives back unchanged: a non-empty
/// single-line title, a valid date with a four-digit year, and tags each
/// satisfying [`tag_ok`].
pub open spec fn fm_valid(fm: FmView) -> bool {
    &&& fm.title.len() > 0
    &&& forall|k: int| 0 <= k < fm.title.len() ==> fm.title[k] != '\n'
    &&& date_valid(fm.date)
    &&& fm.date.year < 10000
    &&& forall|i: int| 0 <= i < fm.tags.len() ==> tag_ok(#[trigger] fm.tags[i])
}

/// The canonical header block for the given fields: one `key: value` line
/// per field, the tags as a bracketed comma-separated list.
pub open spec fn spec_encode(fm: FmView) -> Seq<char> {
    title_key() + colon_space() + fm.title + seq!['\n'] + date_key() + colon_space()
        + spec_format_date(fm.date) + seq!['\n'] + archived_key() + colon_space() + (
    if fm.archived {
        true_text()
    } else {
        false_text()
    }) + seq!['\n'] + tags_key() + colon_space() + seq!['['] + spec_join_tags(fm.tags) + seq![']']
        + seq!['\n']
}

fn join_tags_from(tags: &Vec<String>, i: usize) -> (r: String)
    requires
        i <= tags.len(),
    ensures
        r@ == spec_join_tags(tags.deep_view().skip(i as int)),
    decreases tags.len() - i,
{
    proof {
        reveal_strlit(",");
    }
    if i >= tags.len() {
        proof {
            assert(tags.deep_view().skip(i as int) =~= Seq::<Seq<char>>::empty());
        }
        String::new()
    } else if i == tags.len() - 1 {
        proof {
            assert(tags.deep_view().skip(i as int).len() == 1);
            assert(tags.deep_view().skip(i as int)[0] == tags@[i as int]@);
        }
        tags[i].clone()
    } else {
        let mut s = tags[i].clone();
        s.append(",");
        let rest = join_tags_from(tags, i + 1);
        s.append(rest.as_str());
        proof {
            let d = tags.deep_view().skip(i as int);
            assert(d.len() >= 2);
            assert(d[0] == tags@[i as int]@);
            assert(d.drop_first() =~= tags.deep_view().skip(i + 1));
            assert(s@ =~= d[0] + seq![','] + spec_join_tags(d.drop_first()));
        }
        s
    }
}

/// The tags joined with commas, in order.
pub fn join_tags(tags: &Vec<String>) -> (r: String)
    ensures
        r@ == spec_join_tags(tags.deep_view()),
{
    let r = join_tags_from(tags, 0);
    proof {
        assert(tags.deep_view().skip(0) =~= tags.deep_view());
    }
    r
}

/// Renders the four fields back into their canonical header block.
#[verifier::rlimit(50)]
pub fn encode_frontmatter(fm: &Frontmatter) -> (r: String)
    requires
        date_valid(fm.date),
        fm.date.year < 10000,
    ensures
        r@ == spec_encode(fm@),
{
    proof {
        reveal_strlit("title: ");
        reveal_strlit("date: ");
        reveal_strlit("archived: ");
        reveal_strlit("tags: [");
        reveal_strlit("]");
        reveal_strlit("\n");
        reveal_strlit("true");
        reveal_strlit("false");
    }
    let mut s = String::new();
    s.append("title: ");
    s.append(fm.title.as_str());
    s.append("\n");
    s.append("date: ");
    let d = format_date(&fm.date);
    s.append(d.as_str());
    s.append("\n");
    s.append("archived: ");
    s.append(if fm.archived { "true" } else { "false" });
    s.append("\n");
    s.append("tags: [");
    let j = join_tags(&fm.tags);
    s.append(j.as_str());
    s.append("]");
    s.append("\n");
    proof {
        assert(s@ =~= spec_encode(fm@));
    }
    s
}

proof fn lemma_line_key_value(key: Seq<char>, value: Seq<char>)
    requires
        forall|k: int| 0 <= k < key.len() ==> key[k] != ':',
    ensures
        find_from(key + colon_space() + value, colon_space(), 0) == Some(key.len() as int),
        (key + colon_space() + value).subrange(0, key.len() as int) == key,
        (key + colon_space() + value).skip(key.len() as int + 2) == value,
        (key + colon_space() + value).len() > 0,
{
    let line = key + colon_space() + value;
    assert(line[key.len() as int] == ':');
    assert(line[key.len() as int + 1] == ' ');
    assert(match_at(line, colon_space(), key.len() as int));
    assert forall|k: int| 0 <= k < key.len() implies !match_at(line, colon_space(), k) by {
        assert(line[k] == key[k]);
        assert(colon_space()[0] == ':');
    }
    crate::text::lemma_find_from_unique(line, colon_space(), 0, key.len() as int);
    assert(line.subrange(0, key.len() as int) =~= key);
    assert(line.skip(key.len() as int + 2) =~= value);
}

proof fn lemma_handle_title_line(title: Seq<char>, acc: AccView)
    requires
        acc.title is None,
    ensures
        spec_handle_line(title_key() + colon_space() + title, acc) == Ok::<AccView, HeaderFault>(
            AccView { title: Some(title), ..acc },
        ),
{
    lemma_line_key_value(title_key(), title);
}

proof fn lemma_handle_date_line(dt: Seq<char>, acc: AccView)
    requires
        acc.date_text is None,
    ensures
        spec_handle_line(date_key() + colon_space() + dt, acc) == Ok::<AccView, HeaderFault>(
            AccView { date_text: Some(dt), ..acc },
        ),
{
    lemma_line_key_value(date_key(), dt);
    assert(date_key().len() != title_key().len());
}

proof fn lemma_handle_archived_line(b: bool, acc: AccView)
    requires
        acc.archived is None,
    ensures
        spec_handle_line(
            archived_key() + colon_space() + (if b {
                true_text()
            } else {
                false_text()
            }),
            acc,
        ) == Ok::<AccView, HeaderFault>(AccView { archived: Some(b), ..acc }),
{
    let value = if b {
        true_text()
    } else {
        false_text()
    };
    lemma_line_key_value(archived_key(), value);
    assert(archived_key().len() != title_key().len());
    assert(archived_key().len() != date_key().len());
    assert(true_text().len() != false_text().len());
}

proof fn lemma_handle_tags_line(tags: Seq<Seq<char>>, acc: AccView)
    requires
        acc.tags is None,
        forall|i: int| 0 <= i < tags.len() ==> tag_ok(#[trigger] tags[i]),
    ensures
        spec_handle_line(
            tags_key() + colon_space() + (seq!['['] + spec_join_tags(tags) + seq![']']),
            acc,
        ) == Ok::<AccView, HeaderFault>(AccView { tags: Some(tags), ..acc }),
{
    let value = seq!['['] + spec_join_tags(tags) + seq![']'];
    lemma_line_key_value(tags_key(), value);
    assert(tags_key().len() != title_key().len());
    assert(tags_key().len() != archived_key().len());
    assert(tags_key()[0] != date_key()[0]);
    assert(tags_key() != date_key());
    assert(value[0] == '[');
    assert(value[value.len() - 1] == ']');
    let inner = value.subrange(1, value.len() - 1);
    assert(inner =~= spec_join_tags(tags));
    if tags.len() == 0 {
        assert(inner.len() == 0);
        assert(spec_parse_tags(value) == Some(Seq::<Seq<char>>::empty()));
        assert(Some(Seq::<Seq<char>>::empty()) == Some(tags)) by {
            assert(tags =~= Seq::<Seq<char>>::empty());
        }
    } else {
        lemma_parse_join(tags);
        assert(inner.len() > 0);
    }
}

proof fn lemma_trim_id(t: Seq<char>)
    requires
        t.len() > 0,
        !is_space(t[0]),
        !is_space(t[t.len() - 1]),
    ensures
        trim_spec(t) == t,
{
    assert(trim_start_spec(t) == t);
    assert(trim_end_spec(t) == t);
}

proof fn lemma_parse_join(tags: Seq<Seq<char>>)
    requires
        tags.len() > 0,
        forall|i: int| 0 <= i < tags.len() ==> tag_ok(#[trigger] tags[i]),
    ensures
        spec_parse_items(spec_join_tags(tags)) == Some(tags),
        spec_join_tags(tags).len() > 0,
    decreases tags.len(),
{
    let s = spec_join_tags(tags);
    let t0 = tags[0];
    if tags.len() == 1 {
        assert(s == t0);
        assert forall|k: int| 0 <= k < s.len() implies s[k] != ',' by {
            assert(t0[k] != ',');
        }
        lemma_first_char_none(s, ',', 0);
        assert(s.subrange(0, s.len() as int) =~= s);
        lemma_trim_id(t0);
        assert(spec_parse_items(s) == Some(seq![t0]));
        assert(seq![t0] =~= tags);
    } else {
        let rest = tags.drop_first();
        assert(s == t0 + seq![','] + spec_join_tags(rest));
        assert(s[t0.len() as int] == ',');
        assert forall|k: int| 0 <= k < t0.len() implies s[k] != ',' by {
            assert(s[k] == t0[k]);
        }
        lemma_first_char_unique(s, ',', 0, t0.len() as int);
        assert(s.subrange(0, t0.len() as int) =~= t0);
        lemma_trim_id(t0);
        assert(forall|i: int| 0 <= i < rest.len() ==> tag_ok(#[trigger] rest[i]));
        lemma_parse_join(rest);
        assert(s.skip(t0.len() as int + 1) =~= spec_join_tags(rest));
        assert(spec_parse_items(s) == Some(seq![t0] + rest));
        assert(seq![t0] + rest =~= tags);
    }
}

proof fn lemma_decode_one_line(line: Seq<char>, rest: Seq<char>, acc: AccView)
    requires
        forall|k: int| 0 <= k < line.len() ==> line[k] != '\n',
        spec_handle_line(line, acc) is Ok,
    ensures
        spec_decode_lines(line + seq!['\n'] + rest, acc) == spec_decode_lines(
            rest,
            spec_handle_line(line, acc)->Ok_0,
        ),
{
    let s = line + seq!['\n'] + rest;
    assert(s[line.len() as int] == '\n');
    assert forall|k: int| 0 <= k < line.len() implies s[k] != '\n' by {
        assert(s[k] == line[k]);
    }
    lemma_first_char_unique(s, '\n', 0, line.len() as int);
    assert(s.subrange(0, line.len() as int) =~= line);
    assert(s.skip(line.len() as int + 1) =~= rest);
}

/// Decoding the canonical encoding of well-formed fields gives back exactly
/// those fields: the decoder and the encoder invert each other.
pub proof fn lemma_decode_encode(fm: FmView)
    requires
        fm_valid(fm),
    ensures
        spec_decode(spec_encode(fm)) == Ok::<FmView, HeaderFault>(fm),
{
    let nl = seq!['\n'];
    let l1 = title_key() + colon_space() + fm.title;
    let dt = spec_format_date(fm.date);
    let l2 = date_key() + colon_space() + dt;
    let av = if fm.archived {
        true_text()
    } else {
        false_text()
    };
    let l3 = archived_key() + colon_space() + av;
    let tv = seq!['['] + spec_join_tags(fm.tags) + seq![']'];
    let l4 = tags_key() + colon_space() + tv;
    let s = spec_encode(fm);
    let r2 = l2 + nl + (l3 + nl + (l4 + nl + Seq::<char>::empty()));
    let r3 = l3 + nl + (l4 + nl + Seq::<char>::empty());
    let r4 = l4 + nl + Seq::<char>::empty();

    let acc0 = empty_acc();
    lemma_handle_title_line(fm.title, acc0);
    let acc1 = spec_handle_line(l1, acc0)->Ok_0;
    lemma_handle_date_line(dt, acc1);
    let acc2 = spec_handle_line(l2, acc1)->Ok_0;
    lemma_handle_archived_line(fm.archived, acc2);
    let acc3 = spec_handle_line(l3, acc2)->Ok_0;
    lemma_handle_tags_line(fm.tags, acc3);
    let acc4 = spec_handle_line(l4, acc3)->Ok_0;

    assert(forall|k: int| 0 <= k < l1.len() ==> l1[k] != '\n') by {
        assert(forall|k: int| 0 <= k < fm.title.len() ==> fm.title[k] != '\n');
    }
    assert forall|k: int| 0 <= k < l2.len() implies l2[k] != '\n' by {
        if k >= date_key().len() + 2 {
            assert(l2[k] == dt[k - 6]);
        }
    }
    assert forall|k: int| 0 <= k < l3.len() implies l3[k] != '\n' by {
        if k >= archived_key().len() + 2 {
            assert(l3[k] == av[k - 10]);
        }
    }
    assert forall|k: int| 0 <= k < l4.len() implies l4[k] != '\n' by {
        if k >= tags_key().len() + 2 {
            assert(l4[k] == tv[k - 6]);
            if 1 <= k - 6 < tv.len() - 1 {
                lemma_join_no_newline(fm.tags, k - 7);
            }
        }
    }

    assert(s =~= l1 + nl + r2);
    lemma_decode_one_line(l1, r2, acc0);
    assert(r2 =~= l2 + nl + r3);
    lemma_decode_one_line(l2, r3, acc1);
    assert(r3 =~= l3 + nl + r4);
    lemma_decode_one_line(l3, r4, acc2);
    assert(r4 =~= l4 + nl + Seq::<char>::empty());
    lemma_decode_one_line(l4, Seq::empty(), acc3);
    assert(spec_decode_lines(s, acc0) == Ok::<AccView, HeaderFault>(acc4));

    crate::date::lemma_date_round_trip(fm.date);
    assert(spec_decode(s) == Ok::<FmView, HeaderFault>(
        FmView { title: fm.title, date: fm.date, archived: fm.archived, tags: fm.tags },
    ));
    assert(FmView { title: fm.title, date: fm.date, archived: fm.archived, tags: fm.tags } =~= fm);
}

proof fn lemma_join_no_newline(tags: Seq<Seq<char>>, k: int)
    requires
        forall|i: int| 0 <= i < tags.len() ==> tag_ok(#[trigger] tags[i]),
        0 <= k < spec_join_tags(tags).len(),
    ensures
        spec_join_tags(tags)[k] != '\n',
    decreases tags.len(),
{
    let s = spec_join_tags(tags);
    if tags.len() == 0 {
    } else if tags.len() == 1 {
        assert(s[k] == tags[0][k]);
    } else {
        let t0 = tags[0];
        let rest = tags.drop_first();
        if k < t0.len() {
            assert(s[k] == t0[k]);
        } else if k == t0.len() {
            assert(s[k] == ',');
        } else {
            assert(forall|i: int| 0 <= i < rest.len() ==> tag_ok(#[trigger] rest[i]));
            assert(s[k] == spec_join_tags(rest)[k - t0.len() - 1]);
            lemma_join_no_newline(rest, k - t0.len() - 1);
        }
    }
}

} // verus!
