//! What is known of each discovered file once it has been read.
use vstd::prelude::*;

use crate::path::{cur_part, lemma_special_parts_distinct, part_kind, path_views, PathName};
use crate::text::{decimal, decimal_text, right_aligned, right_aligned_text, split_lines, text_lines};
use crate::tokenizer::{tokenize, tokens_of};

verus! {

/// A path without its leading `.` component, if it has one.
pub open spec fn without_dot(p: Seq<Seq<char>>) -> Seq<Seq<char>> {
    if p.len() > 0 && p[0] == cur_part() {
        p.drop_first()
    } else {
        p
    }
}

/// The path without a leading `./`, as `Path::strip_prefix(".")` leaves it.
pub fn strip_dot_prefix(path: &PathName) -> (r: PathName)
    ensures
        r@ == without_dot(path@),
{
    if path.component_count() > 0 && part_kind(&path.parts[0]) == 1 {
        assert(path.parts@[0]@ == path@[0]);
        let r = path.skip(1);
        assert(r@ =~= path@.drop_first());
        r
    } else {
        proof {
            lemma_special_parts_distinct();
        }
        if path.component_count() > 0 {
            assert(path.parts@[0]@ == path@[0]);
        }
        path.duplicate()
    }
}

/// How a file was handled when it was read.
#[derive(Clone, Copy, Debug, PartialEq, Eq, Structural)]
pub enum ReadStatus {
    /// Excluded by a glob or an ignore rule; not read.
    ExcludedExplicitly,
    /// Read far enough to see that it is binary; its content is left out.
    ExcludedBinaryDetected,
    /// Read as text.
    Read,
    /// Read as text, and its tokens counted.
    TokenCounted(usize),
}

/// The path of a file and how it was handled.
#[derive(Debug)]
pub struct FileMeta {
    pub path: PathName,
    pub read_status: ReadStatus,
}

/// Whether a file so handled has its content left out.
pub open spec fn status_excluded(s: ReadStatus) -> bool {
    s is ExcludedExplicitly || s is ExcludedBinaryDetected
}

/// The token count of a file so handled, zero where none was counted.
pub open spec fn status_tokens(s: ReadStatus) -> nat {
    match s {
        ReadStatus::TokenCounted(n) => n as nat,
        _ => 0,
    }
}

impl View for FileMeta {
    type V = (Seq<Seq<char>>, ReadStatus);

    open spec fn view(&self) -> (Seq<Seq<char>>, ReadStatus) {
        (self.path@, self.read_status)
    }
}

/// The views of a list of records.
pub open spec fn meta_views(v: Seq<FileMeta>) -> Seq<(Seq<Seq<char>>, ReadStatus)> {
    v.map_values(|m: FileMeta| m@)
}

impl FileMeta {
    /// Whether the file's content is left out.
    pub open spec fn spec_is_excluded(&self) -> bool {
        status_excluded(self.read_status)
    }

    /// The file's token count, zero where its tokens were not counted.
    pub open spec fn spec_token_count(&self) -> nat {
        status_tokens(self.read_status)
    }

    /// Whether the file's content is left out.
    pub fn is_excluded(&self) -> (r: bool)
        ensures
            r == self.spec_is_excluded(),
    {
        match self.read_status {
            ReadStatus::ExcludedExplicitly | ReadStatus::ExcludedBinaryDetected => true,
            _ => false,
        }
    }

    /// The file's token count, zero where its tokens were not counted.
    pub fn token_count_or_zero(&self) -> (r: usize)
        ensures
            r == self.spec_token_count(),
    {
        match self.read_status {
            ReadStatus::TokenCounted(n) => n,
            _ => 0,
        }
    }

    /// A copy of this record.
    pub fn duplicate(&self) -> (r: FileMeta)
        ensures
            r.path@ == self.path@,
            r.read_status == self.read_status,
    {
        FileMeta { path: self.path.duplicate(), read_status: self.read_status }
    }
}

/// A read file: its text, numbered by line, where it was read as text.
#[derive(Debug)]
pub struct FileInfo {
    pub utf8: Option<String>,
    pub meta: FileMeta,
}

/// The lines of a text, each after its right-aligned number and a space,
/// each ended by a newline.
pub open spec fn numbered_lines(lines: Seq<Seq<char>>, width: nat) -> Seq<char>
    decreases lines.len(),
{
    if lines.len() == 0 {
        Seq::empty()
    } else {
        numbered_lines(lines.drop_last(), width) + right_aligned(lines.len(), width) + seq![' ']
            + lines.last() + seq!['\n']
    }
}

/// A text with its lines numbered from one, the numbers right-aligned to
/// the width of the largest; empty when the text has no lines.
pub open spec fn annotated(text: Seq<char>) -> Seq<char> {
    let lines = text_lines(text);
    if lines.len() == 0 {
        Seq::empty()
    } else {
        numbered_lines(lines, decimal(lines.len()).len())
    }
}

/// Numbers the lines of a text, as `annotated` describes.
pub fn annotate_line_numbers(text: &str) -> (r: String)
    ensures
        r@ == annotated(text@),
{
    let lines = split_lines(text);
    let count = lines.len();
    if count == 0 {
        return String::new();
    }
    let width = decimal_text(count).as_str().unicode_len();
    let mut numbered = String::new();
    let mut i: usize = 0;
    while i < count
        invariant
            i <= count == lines.len(),
            crate::path::views(lines@) == text_lines(text@),
            width == decimal(count as nat).len(),
            numbered@ == numbered_lines(crate::path::views(lines@).subrange(0, i as int), width as nat),
        decreases count - i,
    {
        let ghost before = crate::path::views(lines@).subrange(0, i as int);
        let label = right_aligned_text(i + 1, width);
        numbered.append(label.as_str());
        numbered.append(" ");
        numbered.append(lines[i].as_str());
        numbered.append("\n");
        proof {
            reveal_strlit(" ");
            reveal_strlit("\n");
            let after = crate::path::views(lines@).subrange(0, i + 1);
            assert(after.drop_last() =~= before);
            assert(after.last() == lines@[i as int]@);
        }
        i += 1;
    }
    assert(crate::path::views(lines@).subrange(0, count as int) =~= crate::path::views(lines@));
    numbered
}

impl FileInfo {
    /// A file excluded by a glob or an ignore rule: it is not read.
    pub fn excluded(path: PathName) -> (r: FileInfo)
        ensures
            r.meta.path@ == path@,
            r.meta.read_status == ReadStatus::ExcludedExplicitly,
            r.utf8 is None,
    {
        FileInfo { meta: FileMeta { path, read_status: ReadStatus::ExcludedExplicitly }, utf8: None }
    }

    /// A file found to be binary: its content is left out.
    pub fn binary(path: PathName) -> (r: FileInfo)
        ensures
            r.meta.path@ == path@,
            r.meta.read_status == ReadStatus::ExcludedBinaryDetected,
            r.utf8 is None,
    {
        FileInfo {
            meta: FileMeta { path, read_status: ReadStatus::ExcludedBinaryDetected },
            utf8: None,
        }
    }

    /// A file read as text: its lines are numbered, and where asked, the
    /// tokens of the numbered text are counted. Where the encoder fails on
    /// the text, the file is kept as read, without a count.
    pub fn from_text(path: PathName, text: &str, count_tokens: bool) -> (r: FileInfo)
        ensures
            r.meta.path@ == path@,
            r.utf8 matches Some(content) && content@ == annotated(text@),
            count_tokens ==> match tokens_of(annotated(text@)) {
                Some(t) => r.meta.read_status == ReadStatus::TokenCounted(t.len() as usize),
                None => r.meta.read_status == ReadStatus::Read,
            },
            !count_tokens ==> r.meta.read_status == ReadStatus::Read,
    {
        let content = annotate_line_numbers(text);
        let read_status = if count_tokens {
            match tokenize(content.as_str()) {
                Some(tokens) => ReadStatus::TokenCounted(tokens.len()),
                None => ReadStatus::Read,
            }
        } else {
            ReadStatus::Read
        };
        FileInfo { meta: FileMeta { path, read_status }, utf8: Some(content) }
    }
}

/// The paths of the files whose content is left out, in the order given.
pub open spec fn excluded_list(metas: Seq<FileMeta>) -> Seq<Seq<Seq<char>>>
    decreases metas.len(),
{
    if metas.len() == 0 {
        Seq::empty()
    } else if metas.last().spec_is_excluded() {
        excluded_list(metas.drop_last()).push(metas.last().path@)
    } else {
        excluded_list(metas.drop_last())
    }
}

/// The paths of the files whose content is left out, in the order given.
pub fn excluded_paths(metas: &Vec<FileMeta>) -> (r: Vec<PathName>)
    ensures
        path_views(r@) == excluded_list(metas@),
{
    let mut out: Vec<PathName> = Vec::new();
    let mut j: usize = 0;
    while j < metas.len()
        invariant
            j <= metas.len(),
            path_views(out@) == excluded_list(metas@.subrange(0, j as int)),
        decreases metas.len() - j,
    {
        assert(metas@.subrange(0, j + 1).drop_last() =~= metas@.subrange(0, j as int));
        if metas[j].is_excluded() {
            let p = metas[j].path.duplicate();
            let ghost before = out@;
            out.push(p);
            assert(path_views(out@) =~= path_views(before).push(p@));
        }
        j += 1;
    }
    assert(metas@.subrange(0, metas.len() as int) =~= metas@);
    out
}

} // verus!
