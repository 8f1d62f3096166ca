//! What the commands print: token totals, the top files, the prompt text.
use vstd::prelude::*;

use crate::files::{meta_views, status_excluded, status_tokens, FileInfo, FileMeta};
use crate::files::ReadStatus;
use crate::path::{path_lt, path_text, PathName};
use crate::text::{decimal, decimal_text};

verus! {

/// Which token counts are computed.
#[derive(Clone, Copy, Debug, PartialEq, Eq, Hash, Structural)]
pub enum TokenCountOptions {
    /// No tokens are counted.
    Off,
    /// The tokens of the final prompt are counted.
    Final,
    /// The tokens of the final prompt and of each file are counted.
    All,
}

impl Default for TokenCountOptions {
    fn default() -> (r: Self)
        ensures
            r == TokenCountOptions::Final,
    {
        TokenCountOptions::Final
    }
}

impl TokenCountOptions {
    /// The option's name on the command line.
    pub fn name(&self) -> (r: &'static str)
        ensures
            *self == TokenCountOptions::Off ==> r@ == "none"@,
            *self == TokenCountOptions::Final ==> r@ == "final"@,
            *self == TokenCountOptions::All ==> r@ == "all"@,
    {
        match self {
            TokenCountOptions::Off => "none",
            TokenCountOptions::Final => "final",
            TokenCountOptions::All => "all",
        }
    }

    /// The option with this name, if any.
    pub fn parse(text: &str) -> (r: Option<TokenCountOptions>)
        ensures
            r == Some(TokenCountOptions::Off) <==> text@ == "none"@,
            r == Some(TokenCountOptions::Final) <==> text@ == "final"@,
            r == Some(TokenCountOptions::All) <==> text@ == "all"@,
    {
        proof {
            reveal_strlit("none");
            reveal_strlit("final");
            reveal_strlit("all");
            assert("none"@.len() == 4 && "final"@.len() == 5 && "all"@.len() == 3);
        }
        if crate::path::same_text(text, "none") {
            Some(TokenCountOptions::Off)
        } else if crate::path::same_text(text, "final") {
            Some(TokenCountOptions::Final)
        } else if crate::path::same_text(text, "all") {
            Some(TokenCountOptions::All)
        } else {
            None
        }
    }

    /// Whether each file's tokens are counted.
    pub fn counts_files(&self) -> (r: bool)
        ensures
            r == (*self == TokenCountOptions::All),
    {
        match self {
            TokenCountOptions::All => true,
            _ => false,
        }
    }

    /// Whether the final prompt's tokens are counted.
    pub fn counts_prompt(&self) -> (r: bool)
        ensures
            r == (*self != TokenCountOptions::Off),
    {
        match self {
            TokenCountOptions::Off => false,
            _ => true,
        }
    }
}

/// How the prompt is written.
#[derive(Clone, Copy, Debug, PartialEq, Eq, Hash, Structural)]
pub enum Format {
    Plaintext,
    Json,
    Yaml,
}

impl Default for Format {
    fn default() -> (r: Self)
        ensures
            r == Format::Plaintext,
    {
        Format::Plaintext
    }
}

impl Format {
    /// The format's name, as the command line takes and shows it.
    pub fn name(&self) -> (r: &'static str)
        ensures
            *self == Format::Plaintext ==> r@ == "plaintext"@,
            *self == Format::Json ==> r@ == "json"@,
            *self == Format::Yaml ==> r@ == "yaml"@,
    {
        match self {
            Format::Plaintext => "plaintext",
            Format::Json => "json",
            Format::Yaml => "yaml",
        }
    }

    /// The format with this name, if any.
    pub fn parse(text: &str) -> (r: Option<Format>)
        ensures
            r == Some(Format::Plaintext) <==> text@ == "plaintext"@,
            r == Some(Format::Json) <==> text@ == "json"@,
            r == Some(Format::Yaml) <==> text@ == "yaml"@,
    {
        proof {
            reveal_strlit("plaintext");
            reveal_strlit("json");
            reveal_strlit("yaml");
            assert("plaintext"@.len() == 9 && "json"@.len() == 4 && "json"@[0] != "yaml"@[0]);
        }
        if crate::path::same_text(text, "plaintext") {
            Some(Format::Plaintext)
        } else if crate::path::same_text(text, "json") {
            Some(Format::Json)
        } else if crate::path::same_text(text, "yaml") {
            Some(Format::Yaml)
        } else {
            None
        }
    }
}

/// What a record shows: its path and how the file was handled.
pub type MetaRecord = (Seq<Seq<char>>, ReadStatus);

/// The sum of the files' token counts.
pub open spec fn token_sum(metas: Seq<MetaRecord>) -> nat
    decreases metas.len(),
{
    if metas.len() == 0 {
        0
    } else {
        token_sum(metas.drop_last()) + status_tokens(metas.last().1)
    }
}

/// `n`, or the largest `usize` where `n` is larger.
pub open spec fn capped(n: nat) -> nat {
    if n > usize::MAX {
        usize::MAX as nat
    } else {
        n
    }
}

/// The files' total token count; the largest `usize` where it is larger.
pub fn total_token_count(metas: &Vec<FileMeta>) -> (r: usize)
    ensures
        r == capped(token_sum(meta_views(metas@))),
{
    let mut total: usize = 0;
    let mut i: usize = 0;
    while i < metas.len()
        invariant
            i <= metas.len(),
            total == capped(token_sum(meta_views(metas@).subrange(0, i as int))),
        decreases metas.len() - i,
    {
        assert(meta_views(metas@).subrange(0, i + 1).drop_last() =~= meta_views(metas@).subrange(0, i as int));
        assert(meta_views(metas@)[i as int] == metas@[i as int]@);
        total = total.saturating_add(metas[i].token_count_or_zero());
        i += 1;
    }
    assert(meta_views(metas@).subrange(0, metas.len() as int) =~= meta_views(metas@));
    total
}

/// The file-tree section of a plain-text prompt.
pub open spec fn filetree_text(tree: Seq<char>) -> Seq<char> {
    "Files:\n\n"@ + tree + "\n"@
}

/// The file-tree section of a plain-text prompt.
pub fn write_filetree(tree: &str) -> (r: String)
    ensures
        r@ == filetree_text(tree@),
{
    let mut text = String::from_str("Files:\n\n");
    text.append(tree);
    text.append("\n");
    text
}

/// `order` lists indices below `n`, each once.
pub open spec fn is_ordering(order: Seq<usize>, n: nat) -> bool {
    &&& order.len() == n
    &&& forall|i: int| 0 <= i < order.len() ==> #[trigger] order[i] < n
    &&& forall|i: int, j: int| 0 <= i < j < order.len() ==> #[trigger] order[i] != #[trigger] order[j]
}

/// Inserting `x` at `k` into an ordering of `n` indices that lacks `x`
/// gives an ordering of `n + 1` indices.
proof fn lemma_ordering_insert(order: Seq<usize>, n: nat, k: int, x: usize)
    requires
        is_ordering(order, n),
        x == n,
        0 <= k <= order.len(),
    ensures
        is_ordering(order.insert(k, x), n + 1),
{
    let o = order.insert(k, x);
    assert forall|i: int, j: int| 0 <= i < j < o.len() implies #[trigger] o[i] != #[trigger] o[j] by {
        if i < k && j < k {
            assert(order[i] != order[j]);
        } else if i < k && j > k {
            assert(order[i] != order[j - 1]);
        } else if i > k && j > k {
            assert(order[i - 1] != order[j - 1]);
        }
    }
}

/// The order of indices that lists `paths` by path, equal paths in the
/// order given.
pub fn order_by_path(paths: &Vec<PathName>) -> (r: Vec<usize>)
    ensures
        is_ordering(r@, paths.len() as nat),
        forall|i: int, j: int|
            0 <= i < j < r.len() ==> !path_lt(
                #[trigger] paths@[r@[j] as int]@,
                #[trigger] paths@[r@[i] as int]@,
            ),
{
    let mut order: Vec<usize> = Vec::new();
    let mut n: usize = 0;
    while n < paths.len()
        invariant
            n <= paths.len(),
            is_ordering(order@, n as nat),
            forall|i: int, j: int|
                0 <= i < j < order.len() ==> !path_lt(
                    #[trigger] paths@[order@[j] as int]@,
                    #[trigger] paths@[order@[i] as int]@,
                ),
        decreases paths.len() - n,
    {
        let mut k: usize = order.len();
        while k > 0 && crate::path::precedes(&paths[n], &paths[order[k - 1]])
            invariant
                n < paths.len(),
                k <= order.len() == n,
                is_ordering(order@, n as nat),
                forall|i: int| k <= i < order.len() ==> path_lt(paths@[n as int]@, #[trigger] paths@[order@[i] as int]@),
            decreases k,
        {
            k -= 1;
        }
        proof {
            lemma_ordering_insert(order@, n as nat, k as int, n);
            let o = order@.insert(k as int, n);
            assert forall|i: int, j: int|
                0 <= i < j < o.len() implies !path_lt(
                    #[trigger] paths@[o[j] as int]@,
                    #[trigger] paths@[o[i] as int]@,
                ) by {
                let x = paths@[n as int]@;
                if i < k && j < k {
                    assert(o[i] == order@[i] && o[j] == order@[j]);
                } else if i < k && j == k {
                    if k > 0 {
                        let prev = paths@[order@[k - 1] as int]@;
                        if i < k - 1 {
                            assert(!path_lt(prev, paths@[order@[i] as int]@));
                            if path_lt(x, paths@[order@[i] as int]@) {
                                crate::path::lemma_path_lt_total(x, prev);
                                if x != prev {
                                    if path_lt(prev, x) {
                                        crate::path::lemma_path_lt_transitive(prev, x, paths@[order@[i] as int]@);
                                    }
                                }
                            }
                        }
                    }
                } else if i < k && j > k {
                    assert(o[i] == order@[i] && o[j] == order@[j - 1]);
                } else if i == k {
                    assert(o[j] == order@[j - 1]);
                    crate::path::lemma_path_lt_asymmetric(x, paths@[order@[j - 1] as int]@);
                } else {
                    assert(o[i] == order@[i - 1] && o[j] == order@[j - 1]);
                }
            }
        }
        order.insert(k, n);
        n += 1;
    }
    order
}

/// `order` lists every record once, by token count, largest first.
pub open spec fn ranks_by_tokens(metas: Seq<MetaRecord>, order: Seq<usize>) -> bool {
    &&& is_ordering(order, metas.len())
    &&& forall|i: int, j: int|
        0 <= i < j < order.len() ==> status_tokens((#[trigger] metas[order[j] as int]).1)
            <= status_tokens((#[trigger] metas[order[i] as int]).1)
}

/// The records listed by `order`.
pub open spec fn arranged(metas: Seq<MetaRecord>, order: Seq<usize>) -> Seq<MetaRecord> {
    order.map_values(|i: usize| metas[i as int])
}

/// The records of the files whose content was read, in order.
pub open spec fn read_ones(metas: Seq<MetaRecord>) -> Seq<MetaRecord>
    decreases metas.len(),
{
    if metas.len() == 0 {
        Seq::empty()
    } else if status_excluded(metas.last().1) {
        read_ones(metas.drop_last())
    } else {
        read_ones(metas.drop_last()).push(metas.last())
    }
}

/// One line of the top report.
pub open spec fn top_line(m: MetaRecord) -> Seq<char> {
    path_text(m.0) + ": "@ + decimal(status_tokens(m.1)) + " tokens\n"@
}

/// The top report's lines for these records, in order.
pub open spec fn top_lines(ms: Seq<MetaRecord>) -> Seq<char>
    decreases ms.len(),
{
    if ms.len() == 0 {
        Seq::empty()
    } else {
        top_lines(ms.drop_last()) + top_line(ms.last())
    }
}

/// The top report for the read files listed largest first, of which the
/// first `top` are shown, with `skipped` files left out.
pub open spec fn top_report_text(ranked: Seq<MetaRecord>, top: nat, skipped: nat) -> Seq<char> {
    let shown = if top < ranked.len() {
        ranked.subrange(0, top as int)
    } else {
        ranked
    };
    top_lines(shown) + "\n"@ + "Top "@ + decimal(shown.len()) + " files = "@ + decimal(
        capped(token_sum(shown)),
    ) + " tokens\n"@ + "All "@ + decimal(ranked.len()) + " files = "@ + decimal(
        capped(token_sum(ranked)),
    ) + " tokens\n"@ + if skipped > 0 {
        decimal(skipped) + " files skipped (excluded or binary detected)\n"@
    } else {
        Seq::empty()
    }
}

/// The order of indices that lists `metas` by token count, largest first,
/// equal counts in the order given.
pub fn order_by_tokens(metas: &Vec<FileMeta>) -> (r: Vec<usize>)
    ensures
        ranks_by_tokens(meta_views(metas@), r@),
{
    let ghost mv = meta_views(metas@);
    let mut order: Vec<usize> = Vec::new();
    let mut n: usize = 0;
    while n < metas.len()
        invariant
            n <= metas.len(),
            mv == meta_views(metas@),
            is_ordering(order@, n as nat),
            forall|i: int, j: int|
                0 <= i < j < order.len() ==> status_tokens((#[trigger] mv[order@[j] as int]).1)
                    <= status_tokens((#[trigger] mv[order@[i] as int]).1),
        decreases metas.len() - n,
    {
        let count = metas[n].token_count_or_zero();
        let mut k: usize = order.len();
        while k > 0 && metas[order[k - 1]].token_count_or_zero() < count
            invariant
                n < metas.len(),
                mv == meta_views(metas@),
                k <= order.len() == n,
                is_ordering(order@, n as nat),
                count == status_tokens(mv[n as int].1),
                forall|i: int| k <= i < order.len() ==> status_tokens((#[trigger] mv[order@[i] as int]).1) < count,
            decreases k,
        {
            assert(mv[order@[k - 1] as int] == metas@[order@[k - 1] as int]@);
            k -= 1;
        }
        proof {
            lemma_ordering_insert(order@, n as nat, k as int, n);
            let o = order@.insert(k as int, n);
            assert forall|i: int, j: int|
                0 <= i < j < o.len() implies status_tokens((#[trigger] mv[o[j] as int]).1)
                    <= status_tokens((#[trigger] mv[o[i] as int]).1) by {
                if i < k && j < k {
                    assert(o[i] == order@[i] && o[j] == order@[j]);
                } else if i < k && j == k {
                    assert(o[i] == order@[i]);
                    if i < k - 1 {
                        assert(status_tokens(mv[order@[k - 1] as int].1) <= status_tokens(mv[order@[i] as int].1));
                    }
                } else if i < k && j > k {
                    assert(o[i] == order@[i] && o[j] == order@[j - 1]);
                } else if i == k {
                    assert(o[j] == order@[j - 1]);
                } else {
                    assert(o[i] == order@[i - 1] && o[j] == order@[j - 1]);
                }
            }
        }
        order.insert(k, n);
        n += 1;
    }
    order
}

/// The report of the files with the most tokens: the `top` largest read
/// files with their counts, largest first, then the totals of those and of
/// all read files, and how many files were left out.
pub fn write_top(metas: &Vec<FileMeta>, top: u32) -> (r: String)
    ensures
        exists|order: Seq<usize>|
            #[trigger] ranks_by_tokens(read_ones(meta_views(metas@)), order) && r@ == top_report_text(
                arranged(read_ones(meta_views(metas@)), order),
                top as nat,
                (metas.len() - read_ones(meta_views(metas@)).len()) as nat,
            ),
{
    let mut kept: Vec<FileMeta> = Vec::new();
    let mut i: usize = 0;
    while i < metas.len()
        invariant
            i <= metas.len(),
            kept.len() <= i,
            meta_views(kept@) == read_ones(meta_views(metas@).subrange(0, i as int)),
        decreases metas.len() - i,
    {
        proof {
            let s = meta_views(metas@).subrange(0, i + 1);
            assert(s.drop_last() =~= meta_views(metas@).subrange(0, i as int));
            assert(s.last() == metas@[i as int]@);
        }
        if !metas[i].is_excluded() {
            let m = metas[i].duplicate();
            let ghost before = kept@;
            kept.push(m);
            assert(meta_views(kept@) =~= meta_views(before).push(m@));
        }
        i += 1;
    }
    assert(meta_views(metas@).subrange(0, metas.len() as int) =~= meta_views(metas@));
    let skipped = metas.len() - kept.len();
    let order = order_by_tokens(&kept);
    let ghost ranked = arranged(meta_views(kept@), order@);
    let shown: usize = if (top as usize) < order.len() {
        top as usize
    } else {
        order.len()
    };
    let mut text = String::new();
    let mut top_total: usize = 0;
    let mut k: usize = 0;
    while k < shown
        invariant
            k <= shown <= order.len(),
            ranked == arranged(meta_views(kept@), order@),
            is_ordering(order@, kept.len() as nat),
            text@ == top_lines(ranked.subrange(0, k as int)),
            top_total == capped(token_sum(ranked.subrange(0, k as int))),
        decreases shown - k,
    {
        let m = &kept[order[k]];
        assert(ranked[k as int] == m@);
        text.append(m.path.to_text().as_str());
        text.append(": ");
        text.append(decimal_text(m.token_count_or_zero()).as_str());
        text.append(" tokens\n");
        top_total = top_total.saturating_add(m.token_count_or_zero());
        assert(ranked.subrange(0, k + 1).drop_last() =~= ranked.subrange(0, k as int));
        k += 1;
    }
    let mut all_total: usize = top_total;
    while k < order.len()
        invariant
            shown <= k <= order.len(),
            ranked == arranged(meta_views(kept@), order@),
            is_ordering(order@, kept.len() as nat),
            all_total == capped(token_sum(ranked.subrange(0, k as int))),
        decreases order.len() - k,
    {
        let m = &kept[order[k]];
        assert(ranked[k as int] == m@);
        all_total = all_total.saturating_add(m.token_count_or_zero());
        assert(ranked.subrange(0, k + 1).drop_last() =~= ranked.subrange(0, k as int));
        k += 1;
    }
    assert(ranked.subrange(0, order.len() as int) =~= ranked);
    text.append("\n");
    text.append("Top ");
    text.append(decimal_text(shown).as_str());
    text.append(" files = ");
    text.append(decimal_text(top_total).as_str());
    text.append(" tokens\n");
    text.append("All ");
    text.append(decimal_text(kept.len()).as_str());
    text.append(" files = ");
    text.append(decimal_text(all_total).as_str());
    text.append(" tokens\n");
    if skipped > 0 {
        text.append(decimal_text(skipped).as_str());
        text.append(" files skipped (excluded or binary detected)\n");
    }
    proof {
        let sh = if (top as nat) < ranked.len() {
            ranked.subrange(0, top as int)
        } else {
            ranked
        };
        assert(sh =~= ranked.subrange(0, shown as int));
        assert(ranks_by_tokens(meta_views(kept@), order@));
    }
    text
}

/// What the prompt shows of a read file: its path, how it was handled,
/// and its numbered text (empty where it has none).
pub open spec fn info_view(f: FileInfo) -> (Seq<Seq<char>>, ReadStatus, Seq<char>) {
    (
        f.meta.path@,
        f.meta.read_status,
        match f.utf8 {
            Some(t) => t@,
            None => Seq::empty(),
        },
    )
}

/// The prompt's section for one file: none for a file whose content is
/// left out.
pub open spec fn file_section(f: (Seq<Seq<char>>, ReadStatus, Seq<char>)) -> Seq<char> {
    if status_excluded(f.1) {
        Seq::empty()
    } else {
        path_text(f.0) + ":\n\n"@ + f.2 + "\n---\n"@
    }
}

/// The prompt's sections for these files, in order.
pub open spec fn file_sections(fs: Seq<(Seq<Seq<char>>, ReadStatus, Seq<char>)>) -> Seq<char>
    decreases fs.len(),
{
    if fs.len() == 0 {
        Seq::empty()
    } else {
        file_sections(fs.drop_last()) + file_section(fs.last())
    }
}

/// `order` lists every file once, by path.
pub open spec fn ranks_by_path(files: Seq<FileInfo>, order: Seq<usize>) -> bool {
    &&& is_ordering(order, files.len())
    &&& forall|i: int, j: int|
        0 <= i < j < order.len() ==> !path_lt(
            (#[trigger] files[order[j] as int]).meta.path@,
            (#[trigger] files[order[i] as int]).meta.path@,
        )
}

/// The files' contents for the prompt, by path: for each file that was
/// read, its path, a blank line, its numbered text and a `---` line.
pub fn write_files_content(files: &Vec<FileInfo>) -> (r: String)
    ensures
        exists|order: Seq<usize>|
            #[trigger] ranks_by_path(files@, order) && r@ == file_sections(
                order.map_values(|i: usize| info_view(files@[i as int])),
            ),
{
    let mut paths: Vec<PathName> = Vec::new();
    let mut i: usize = 0;
    while i < files.len()
        invariant
            i <= files.len(),
            paths.len() == i,
            forall|k: int| 0 <= k < i ==> (#[trigger] paths@[k])@ == files@[k].meta.path@,
        decreases files.len() - i,
    {
        paths.push(files[i].meta.path.duplicate());
        i += 1;
    }
    let order = order_by_path(&paths);
    let ghost arranged_files = order@.map_values(|i: usize| info_view(files@[i as int]));
    let mut text = String::new();
    let mut k: usize = 0;
    while k < order.len()
        invariant
            k <= order.len() == files.len() == paths.len(),
            is_ordering(order@, files.len() as nat),
            arranged_files == order@.map_values(|i: usize| info_view(files@[i as int])),
            text@ == file_sections(arranged_files.subrange(0, k as int)),
        decreases order.len() - k,
    {
        let f = &files[order[k]];
        assert(arranged_files[k as int] == info_view(*f));
        if !f.meta.is_excluded() {
            text.append(f.meta.path.to_text().as_str());
            text.append(":\n\n");
            match &f.utf8 {
                Some(t) => text.append(t.as_str()),
                None => {},
            }
            text.append("\n---\n");
        }
        assert(arranged_files.subrange(0, k + 1).drop_last() =~= arranged_files.subrange(0, k as int));
        k += 1;
    }
    assert(arranged_files.subrange(0, order.len() as int) =~= arranged_files);
    proof {
        assert forall|i: int, j: int|
            0 <= i < j < order@.len() implies !path_lt(
                (#[trigger] files@[order@[j] as int]).meta.path@,
                (#[trigger] files@[order@[i] as int]).meta.path@,
            ) by {
            assert(!path_lt(paths@[order@[j] as int]@, paths@[order@[i] as int]@));
        }
        assert(ranks_by_path(files@, order@));
    }
    text
}

} // verus!
