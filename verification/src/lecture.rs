//! Lecture records and how a file name becomes one.
//!
//! A recording is a file named `<date>_<title>.webm`. Its record keeps the
//! name without the extension, the part before the first underscore as the
//! date, and whatever follows that underscore as the title.

use vstd::prelude::*;
use vstd::std_specs::iter::IteratorSpec;

use crate::paths::file_path;
use crate::paths::joined_path;
use crate::storage::EntryKind;
use crate::storage::FileEntry;
use crate::storage::FileEntryView;

verus! {

/// The character between date and title.
pub const SEPARATOR: char = '_';

/// One recorded lecture.
#[derive(Clone, Debug, PartialEq, Eq)]
pub struct LectureInfo {
    /// The file's name without its extension; the key of the lecture.
    pub filename: String,
    /// The part of `filename` before the first separator. It is kept and
    /// ordered as text and never read as a calendar date.
    pub date: String,
    /// The part of `filename` after the first separator; empty without one.
    pub title: String,
    /// Where the file is.
    pub path: String,
}

/// The mathematical form of a [`LectureInfo`].
pub struct LectureRecord {
    pub filename: Seq<char>,
    pub date: Seq<char>,
    pub title: Seq<char>,
    pub path: Seq<char>,
}

impl View for LectureInfo {
    type V = LectureRecord;

    open spec fn view(&self) -> LectureRecord {
        LectureRecord {
            filename: self.filename@,
            date: self.date@,
            title: self.title@,
            path: self.path@,
        }
    }
}

impl DeepView for LectureInfo {
    type V = LectureRecord;

    open spec fn deep_view(&self) -> LectureRecord {
        self.view()
    }
}

impl LectureRecord {
    /// What holds of every record the library hands out: the date is the
    /// part of the file name before its first separator.
    pub open spec fn well_formed(self) -> bool {
        self.date == self.filename.take(separator_index(self.filename))
    }
}

/// The ending of a recording's file name: a dot and the extension.
pub open spec fn media_suffix() -> Seq<char> {
    ".webm"@
}

/// Whether `name` is the name of a recording: something, then the suffix.
/// Upper and lower case differ. A name that is nothing but the suffix has no
/// extension at all and is not one.
pub open spec fn is_media_name(name: Seq<char>) -> bool {
    &&& name.len() > media_suffix().len()
    &&& name.skip(name.len() - media_suffix().len()) == media_suffix()
}

/// The name of a recording without its suffix.
pub open spec fn stem_of(name: Seq<char>) -> Seq<char> {
    name.take(name.len() - media_suffix().len())
}

/// Whether `at` is where `text` is cut: at its first separator, or at its end
/// when it has none.
pub open spec fn is_cut(text: Seq<char>, at: int) -> bool {
    &&& 0 <= at <= text.len()
    &&& forall|i: int| 0 <= i < at ==> text[i] != SEPARATOR
    &&& at < text.len() ==> text[at] == SEPARATOR
}

/// The position of the first separator in `text`, or the length of `text`
/// when it has none.
pub open spec fn separator_index(text: Seq<char>) -> int {
    choose|at: int| is_cut(text, at)
}

/// A text is cut at one position only.
pub proof fn lemma_cut_is_unique(text: Seq<char>, at: int)
    requires
        is_cut(text, at),
    ensures
        separator_index(text) == at,
{
    let chosen = separator_index(text);
    assert(is_cut(text, chosen));
    if chosen < at {
        assert(text[chosen] == SEPARATOR);
    }
    if at < chosen {
        assert(text[at] == SEPARATOR);
    }
}

/// The record of the recording named `name` in the directory `dir`.
pub open spec fn record_of(dir: Seq<char>, name: Seq<char>) -> LectureRecord {
    let stem = stem_of(name);
    let cut = separator_index(stem);
    LectureRecord {
        filename: stem,
        date: stem.take(cut),
        title: if cut < stem.len() {
            stem.skip(cut + 1)
        } else {
            Seq::empty()
        },
        path: joined_path(dir, name),
    }
}

/// Whether a directory entry is a recording: a regular file whose name is
/// valid text and ends in the suffix.
pub open spec fn is_lecture_entry(entry: FileEntryView) -> bool {
    &&& entry.kind == EntryKind::File
    &&& entry.name is Some
    &&& is_media_name(entry.name->0)
}

/// Decides whether `name` is the name of a recording.
pub fn has_media_extension(name: &str) -> (recognized: bool)
    ensures
        recognized == is_media_name(name@),
{
    proof {
        reveal_strlit(".webm");
    }
    let n: usize = name.unicode_len();
    if n <= 5 {
        return false;
    }
    let start: usize = n - 5;
    let ends = name.get_char(start) == '.' && name.get_char(start + 1) == 'w' && name.get_char(
        start + 2,
    ) == 'e' && name.get_char(start + 3) == 'b' && name.get_char(start + 4) == 'm';
    proof {
        let tail = name@.skip(start as int);
        assert(tail.len() == 5);
        assert(tail[0] == name@[start as int]);
        assert(tail[1] == name@[start + 1]);
        assert(tail[2] == name@[start + 2]);
        assert(tail[3] == name@[start + 3]);
        assert(tail[4] == name@[start + 4]);
        if ends {
            assert(tail =~= media_suffix());
        }
    }
    ends
}

/// Finds where `text` is cut.
fn find_separator(text: &str) -> (at: usize)
    ensures
        at == separator_index(text@),
        is_cut(text@, at as int),
{
    let n: usize = text.unicode_len();
    let mut rest = text.chars();
    let mut at: usize = 0;
    let mut found = false;
    while !found && at < n
        invariant
            n == text@.len(),
            at <= n,
            !found ==> rest.remaining() == text@.skip(at as int),
            forall|i: int| 0 <= i < at ==> text@[i] != SEPARATOR,
            found ==> at < n && text@[at as int] == SEPARATOR,
        decreases (n - at) + (if found { 0int } else { 1int }),
    {
        let ghost before = rest.remaining();
        assert(before.len() > 0);
        assert(before[0] == text@[at as int]);
        match rest.next() {
            Some(c) => {
                if c == SEPARATOR {
                    found = true;
                } else {
                    assert(before.drop_first() =~= text@.skip(at + 1));
                    at += 1;
                }
            },
            None => {
                assert(false);
            },
        }
    }
    proof {
        lemma_cut_is_unique(text@, at as int);
    }
    at
}

/// Builds the record of a recording from its name.
fn parse_media_name(dir: &str, name: &str) -> (lecture: LectureInfo)
    requires
        is_media_name(name@),
    ensures
        lecture@ == record_of(dir@, name@),
        lecture@.well_formed(),
{
    proof {
        reveal_strlit(".webm");
    }
    let n: usize = name.unicode_len();
    let stem = name.substring_char(0, n - 5);
    let stem_len: usize = stem.unicode_len();
    let cut: usize = find_separator(stem);
    let date = stem.substring_char(0, cut);
    let title = if cut < stem_len {
        stem.substring_char(cut + 1, stem_len).to_owned()
    } else {
        String::new()
    };
    LectureInfo {
        filename: stem.to_owned(),
        date: date.to_owned(),
        title,
        path: file_path(dir, name),
    }
}

/// Reads one directory entry of the directory `dir` as a lecture. The
/// answer is a record exactly when the entry is a recording; any other entry
/// is passed over.
pub fn parse_entry(dir: &str, entry: &FileEntry) -> (parsed: Option<LectureInfo>)
    ensures
        is_lecture_entry(entry@) ==> parsed.deep_view() == Some(
            record_of(dir@, entry@.name->0),
        ),
        !is_lecture_entry(entry@) ==> parsed is None,
        parsed is Some ==> parsed->0@.well_formed(),
{
    match entry.kind {
        EntryKind::File => {},
        _ => {
            return None;
        },
    }
    match &entry.name {
        None => None,
        Some(name) => {
            if has_media_extension(name.as_str()) {
                Some(parse_media_name(dir, name.as_str()))
            } else {
                None
            }
        },
    }
}

} // verus!
