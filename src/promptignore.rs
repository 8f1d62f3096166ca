//! Cascading `.promptignore` resolution.
//!
//! A file is tested against the global `.promptignore` of the user's home
//! directory, then against the `.promptignore` of each directory from its
//! root down to its parent. A later (deeper) verdict replaces an earlier
//! one, so a deeper file can re-include what a shallower one ignored.
use vstd::prelude::*;

use crate::discovery::DiscoveredFile;
use crate::path::{
    has_prefix, cur_part, lemma_path_lt_irreflexive, lemma_sorted_insert, locate,
    path_lt, path_text, path_views, root_part, strictly_sorted, views, PathName,
};
use crate::text::{split_lines, text_lines};

verus! {

/// `ignore::gitignore::Gitignore`, a compiled ignore file, held as an
/// opaque value.
#[verifier::external_type_specification]
#[verifier::external_body]
pub struct ExGitignore(ignore::gitignore::Gitignore);

/// `ignore::gitignore::GitignoreBuilder`, the rules of an ignore file being
/// gathered, held as an opaque value.
#[verifier::external_type_specification]
#[verifier::external_body]
pub struct ExGitignoreBuilder(ignore::gitignore::GitignoreBuilder);

/// The outcome of testing a path against one ignore file.
#[derive(Clone, Copy, Debug, PartialEq, Eq, Structural)]
pub enum PromptignoreDecision {
    /// No rule of the file matches.
    NoMatch,
    /// The deciding rule ignores the path.
    Ignore,
    /// The deciding rule is a negated one: it re-includes the path.
    Whitelist,
}

impl PromptignoreDecision {
    /// Whether the decision ignores the path.
    pub fn is_ignore(self) -> (r: bool)
        ensures
            r == (self == PromptignoreDecision::Ignore),
    {
        match self {
            PromptignoreDecision::Ignore => true,
            _ => false,
        }
    }
}

/// The directory a gitignore builder was made for.
pub uninterp spec fn builder_root(b: ignore::gitignore::GitignoreBuilder) -> Seq<char>;

/// The lines a gitignore builder has accepted so far, in order.
pub uninterp spec fn builder_lines(b: ignore::gitignore::GitignoreBuilder) -> Seq<Seq<char>>;

/// The directory a built gitignore matcher matches relative to.
pub uninterp spec fn matcher_root(g: ignore::gitignore::Gitignore) -> Seq<char>;

/// The lines a built gitignore matcher was made from, in order.
pub uninterp spec fn matcher_lines(g: ignore::gitignore::Gitignore) -> Seq<Seq<char>>;

/// Whether `GitignoreBuilder::build` compiles the rules gathered for the
/// directory `root` from `lines`.
pub uninterp spec fn rules_compile(root: Seq<char>, lines: Seq<Seq<char>>) -> bool;

/// Whether `GitignoreBuilder::add_line` accepts a line.
pub uninterp spec fn rule_line_is_valid(line: Seq<char>) -> bool;

/// What a gitignore matcher made for the directory `root` from `lines`
/// decides for the file `path`, its parent directories included.
pub uninterp spec fn ignore_verdict(root: Seq<char>, lines: Seq<Seq<char>>, path: Seq<char>) -> PromptignoreDecision;

/// Relies on `GitignoreBuilder::new`: a builder for the directory, with no
/// rules yet.
#[verifier::external_body]
fn new_builder(root: &str) -> (b: ignore::gitignore::GitignoreBuilder)
    ensures
        builder_root(b) == root@,
        builder_lines(b) == Seq::<Seq<char>>::empty(),
{
    ignore::gitignore::GitignoreBuilder::new(root)
}

/// Relies on `GitignoreBuilder::add_line`: an accepted line is added, and
/// the builder's directory is kept.
#[verifier::external_body]
fn add_rule_line(b: &mut ignore::gitignore::GitignoreBuilder, line: &str) -> (ok: bool)
    ensures
        ok == rule_line_is_valid(line@),
        builder_root(*final(b)) == builder_root(*old(b)),
        ok ==> builder_lines(*final(b)) == builder_lines(*old(b)).push(line@),
{
    b.add_line(None, line).is_ok()
}

/// Relies on `GitignoreBuilder::build`: the matcher for the builder's
/// directory and lines, where the rules compile.
#[verifier::external_body]
fn build_matcher(b: &ignore::gitignore::GitignoreBuilder) -> (r: Option<ignore::gitignore::Gitignore>)
    ensures
        r is Some <==> rules_compile(builder_root(*b), builder_lines(*b)),
        r matches Some(g) ==> matcher_root(g) == builder_root(*b) && matcher_lines(g) == builder_lines(*b),
{
    b.build().ok()
}

/// A component as `Path::components` yields it below the first: not empty,
/// and without a separator.
pub open spec fn plain_part(s: Seq<char>) -> bool {
    s.len() > 0 && !s.contains('/')
}

/// A path that a matcher for `dir` can be asked about: `dir` starts at the
/// root or at a component other than `.`, and `p` lies in it. Every
/// component of a path that `Path::components` yields passes.
pub open spec fn lies_under(p: Seq<Seq<char>>, dir: Seq<Seq<char>>) -> bool {
    &&& dir.len() > 0
    &&& (dir[0] == root_part() || (plain_part(dir[0]) && dir[0] != cur_part()))
    &&& forall|i: int| 1 <= i < dir.len() ==> plain_part(#[trigger] dir[i])
    &&& has_prefix(p, dir)
    &&& forall|i: int| dir.len() <= i < p.len() ==> plain_part(#[trigger] p[i])
}

/// Relies on `Gitignore::matched_path_or_any_parents`, asked about a file:
/// its verdict for the path. It panics on a path that is not below the
/// matcher's directory, which the precondition rules out.
#[verifier::external_body]
fn decide(g: &ignore::gitignore::Gitignore, path: &str) -> (r: PromptignoreDecision)
    requires
        exists|d: Seq<Seq<char>>, p: Seq<Seq<char>>|
            lies_under(p, d) && matcher_root(*g) == path_text(d) && path@ == path_text(p),
    ensures
        r == ignore_verdict(matcher_root(*g), matcher_lines(*g), path@),
{
    match g.matched_path_or_any_parents(std::path::Path::new(path), false) {
        ignore::Match::None => PromptignoreDecision::NoMatch,
        ignore::Match::Ignore(_) => PromptignoreDecision::Ignore,
        ignore::Match::Whitelist(_) => PromptignoreDecision::Whitelist,
    }
}

/// Whether the path is one a matcher can be made for: its first component
/// the root or a plain one other than `.`, the others plain.
fn is_plain_path(p: &PathName) -> (r: bool)
    ensures
        r == (p@.len() > 0 && (p@[0] == root_part() || (plain_part(p@[0]) && p@[0] != cur_part()))
            && forall|i: int| 1 <= i < p@.len() ==> plain_part(#[trigger] p@[i])),
{
    if p.parts.len() == 0 {
        return false;
    }
    let first = &p.parts[0];
    assert(first@ == p@[0]);
    proof {
        crate::path::lemma_special_parts_distinct();
    }
    let kind = crate::path::part_kind(first);
    if kind != 0 && (kind == 1 || !is_plain_part(first)) {
        return false;
    }
    let mut i: usize = 1;
    while i < p.parts.len()
        invariant
            1 <= i <= p.parts.len(),
            forall|j: int| 1 <= j < i ==> plain_part(#[trigger] p@[j]),
        decreases p.parts.len() - i,
    {
        assert(p.parts@[i as int]@ == p@[i as int]);
        if !is_plain_part(&p.parts[i]) {
            return false;
        }
        i += 1;
    }
    true
}

fn is_plain_part(s: &String) -> (r: bool)
    ensures
        r == plain_part(s@),
{
    let t = s.as_str();
    let n = t.unicode_len();
    if n == 0 {
        return false;
    }
    let mut i: usize = 0;
    while i < n
        invariant
            i <= n == t@.len(),
            t@ == s@,
            forall|j: int| 0 <= j < i ==> t@[j] != '/',
        decreases n - i,
    {
        if t.get_char(i) == '/' {
            assert(s@.contains('/'));
            return false;
        }
        i += 1;
    }
    true
}

/// A leading byte-order mark taken off, as many times as it occurs.
pub open spec fn without_bom(line: Seq<char>) -> Seq<char>
    decreases line.len(),
{
    if line.len() > 0 && line[0] == '\u{feff}' {
        without_bom(line.drop_first())
    } else {
        line
    }
}

/// The rule lines of an ignore file's text: its lines, the first without a
/// leading byte-order mark.
pub open spec fn rule_lines_of(text: Seq<char>) -> Seq<Seq<char>> {
    let lines = text_lines(text);
    if lines.len() > 0 {
        lines.update(0, without_bom(lines[0]))
    } else {
        lines
    }
}

fn strip_bom(line: &str) -> (r: String)
    ensures
        r@ == without_bom(line@),
{
    let n = line.unicode_len();
    let mut k: usize = 0;
    assert(line@.subrange(0, n as int) =~= line@);
    while k < n && line.get_char(k) == '\u{feff}'
        invariant
            k <= n == line@.len(),
            without_bom(line@) == without_bom(line@.subrange(k as int, n as int)),
        decreases n - k,
    {
        let ghost rest = line@.subrange(k as int, n as int);
        assert(rest.drop_first() =~= line@.subrange(k + 1, n as int));
        k += 1;
    }
    let r = line.substring_char(k, n).to_owned();
    let ghost rest = line@.subrange(k as int, n as int);
    assert(rest.len() == 0 || rest[0] != '\u{feff}');
    r
}

/// Every line is a valid rule (comments and blank lines are).
pub open spec fn all_valid(lines: Seq<Seq<char>>) -> bool {
    forall|i: int| 0 <= i < lines.len() ==> rule_line_is_valid(#[trigger] lines[i])
}

/// The text of an ignore file in `dir` compiles: every line is valid and
/// the rules build together.
pub open spec fn compiles(dir: Seq<Seq<char>>, text: Seq<char>) -> bool {
    all_valid(rule_lines_of(text)) && rules_compile(path_text(dir), rule_lines_of(text))
}

/// White space, as `char::is_whitespace` has it (the Unicode `White_Space`
/// property).
pub open spec fn is_space(c: char) -> bool {
    let v = c as u32;
    (0x9 <= v <= 0xD) || v == 0x20 || v == 0x85 || v == 0xA0 || v == 0x1680 || (0x2000 <= v
        <= 0x200A) || v == 0x2028 || v == 0x2029 || v == 0x202F || v == 0x205F || v == 0x3000
}

/// A line that `GitignoreBuilder::add_line` turns into a rule: not a
/// comment, and not blank once trailing white space is trimmed.
pub open spec fn is_rule_line(line: Seq<char>) -> bool {
    line.len() > 0 && line[0] != '#' && exists|i: int| 0 <= i < line.len() && !is_space(#[trigger] line[i])
}

/// Some line is a rule.
pub open spec fn has_rules(lines: Seq<Seq<char>>) -> bool {
    exists|i: int| 0 <= i < lines.len() && is_rule_line(#[trigger] lines[i])
}

/// The text of an ignore file in `dir` is used: it compiles and holds at
/// least one rule. A file of comments and blank lines decides nothing, so
/// it counts as absent.
pub open spec fn usable(dir: Seq<Seq<char>>, text: Seq<char>) -> bool {
    compiles(dir, text) && has_rules(rule_lines_of(text))
}

fn is_space_char(c: char) -> (r: bool)
    ensures
        r == is_space(c),
{
    let v = c as u32;
    (0x9 <= v && v <= 0xD) || v == 0x20 || v == 0x85 || v == 0xA0 || v == 0x1680 || (0x2000 <= v
        && v <= 0x200A) || v == 0x2028 || v == 0x2029 || v == 0x202F || v == 0x205F || v == 0x3000
}

fn is_rule_text(line: &String) -> (r: bool)
    ensures
        r == is_rule_line(line@),
{
    let t = line.as_str();
    let n = t.unicode_len();
    if n == 0 || t.get_char(0) == '#' {
        return false;
    }
    let mut i: usize = 0;
    while i < n
        invariant
            i <= n == t@.len(),
            t@ == line@,
            n > 0,
            t@[0] != '#',
            forall|j: int| 0 <= j < i ==> is_space(#[trigger] t@[j]),
        decreases n - i,
    {
        if !is_space_char(t.get_char(i)) {
            return true;
        }
        i += 1;
    }
    false
}

/// Loads the `.promptignore` of `dir` from its text, if it has one: none
/// where there is no file or it holds no rule, and none with the fault
/// where it does not compile.
pub fn load_promptignore_from_dir(dir: &PathName, contents: Option<&str>) -> (r: (
    Option<IgnoreFile>,
    Option<IgnoreFault>,
))
    ensures
        contents is None ==> r.0 is None && r.1 is None,
        contents matches Some(t) ==> (r.0 is Some <==> usable(dir@, t@)),
        contents matches Some(t) ==> (r.1 is Some <==> !compiles(dir@, t@)),
        r.0 matches Some(f) ==> (f.wf() && f.dir() == dir@ && (contents matches Some(t) && f.rule_lines()
            == rule_lines_of(t@))),
{
    match contents {
        None => (None, None),
        Some(text) => match IgnoreFile::compile(dir, text) {
            Ok(f) => {
                if f.any_rules() {
                    (Some(f), None)
                } else {
                    (None, None)
                }
            },
            Err(e) => (None, Some(e)),
        },
    }
}

/// The rules of one `.promptignore` file, compiled for its directory.
///
/// Its fields are private: a value is only made by `IgnoreFile::compile`.
pub struct IgnoreFile {
    dir: PathName,
    lines: Vec<String>,
    matcher: ignore::gitignore::Gitignore,
}

/// Why an ignore file's rules were not used.
#[derive(Debug)]
pub enum IgnoreFault {
    /// The line with this number, counted from one, is not a valid rule.
    BadLine(usize),
    /// The rules did not compile together.
    BuildFailed,
}

impl IgnoreFault {
    /// A sentence for a warning.
    pub fn message(&self) -> (r: String)
        ensures
            self matches IgnoreFault::BadLine(n) ==> r@ == "invalid rule on line "@ + crate::text::decimal(n as nat),
            self is BuildFailed ==> r@ == "the rules do not compile"@,
    {
        match self {
            IgnoreFault::BadLine(i) => {
                let mut text = String::from_str("invalid rule on line ");
                text.append(crate::text::decimal_text(*i).as_str());
                text
            },
            IgnoreFault::BuildFailed => String::from_str("the rules do not compile"),
        }
    }
}

impl IgnoreFile {
    /// The directory the file's rules are relative to.
    pub closed spec fn dir(&self) -> Seq<Seq<char>> {
        self.dir@
    }

    /// The file's rule lines, in order.
    pub closed spec fn rule_lines(&self) -> Seq<Seq<char>> {
        views(self.lines@)
    }

    /// The matcher was compiled for this directory from these lines.
    pub closed spec fn wf(&self) -> bool {
        &&& matcher_root(self.matcher) == path_text(self.dir@)
        &&& matcher_lines(self.matcher) == views(self.lines@)
    }

    /// Whether some line of the file is a rule.
    pub fn any_rules(&self) -> (r: bool)
        ensures
            r == has_rules(self.rule_lines()),
    {
        let mut i: usize = 0;
        while i < self.lines.len()
            invariant
                i <= self.lines.len(),
                forall|j: int| 0 <= j < i ==> !is_rule_line(#[trigger] views(self.lines@)[j]),
            decreases self.lines.len() - i,
        {
            assert(views(self.lines@)[i as int] == self.lines@[i as int]@);
            if is_rule_text(&self.lines[i]) {
                return true;
            }
            i += 1;
        }
        false
    }

    /// The directory the file's rules are relative to.
    pub fn directory(&self) -> (r: &PathName)
        ensures
            r@ == self.dir(),
    {
        &self.dir
    }

    /// Compiles the text of a `.promptignore` file found in `dir`. A file
    /// with a line that is not a valid rule is not used at all.
    pub fn compile(dir: &PathName, text: &str) -> (r: Result<IgnoreFile, IgnoreFault>)
        ensures
            r matches Ok(f) ==> f.wf() && f.dir() == dir@ && f.rule_lines() == rule_lines_of(text@),
            r is Ok <==> compiles(dir@, text@),
            r matches Err(IgnoreFault::BadLine(n)) ==> 1 <= n <= rule_lines_of(text@).len()
                && !rule_line_is_valid(rule_lines_of(text@)[n - 1]) && forall|i: int|
                0 <= i < n - 1 ==> rule_line_is_valid(#[trigger] rule_lines_of(text@)[i]),
            !all_valid(rule_lines_of(text@)) ==> r matches Err(IgnoreFault::BadLine(_)),
            r matches Err(IgnoreFault::BuildFailed) ==> all_valid(rule_lines_of(text@)) && !rules_compile(
                path_text(dir@),
                rule_lines_of(text@),
            ),
    {
        let raw = split_lines(text);
        let mut lines: Vec<String> = Vec::new();
        let mut i: usize = 0;
        while i < raw.len()
            invariant
                i <= raw.len(),
                views(raw@) == text_lines(text@),
                views(lines@) == rule_lines_of(text@).subrange(0, i as int),
            decreases raw.len() - i,
        {
            let line = if i == 0 {
                strip_bom(raw[i].as_str())
            } else {
                raw[i].clone()
            };
            let ghost before = lines@;
            lines.push(line);
            proof {
                assert(views(lines@) =~= views(before).push(line@));
                assert(rule_lines_of(text@)[i as int] == line@);
                assert(rule_lines_of(text@).subrange(0, i + 1) =~= rule_lines_of(text@).subrange(
                    0,
                    i as int,
                ).push(line@));
            }
            i += 1;
        }
        assert(rule_lines_of(text@).subrange(0, raw.len() as int) =~= rule_lines_of(text@));
        let root = dir.to_text();
        let mut builder = new_builder(root.as_str());
        let mut k: usize = 0;
        while k < lines.len()
            invariant
                k <= lines.len(),
                views(lines@) == rule_lines_of(text@),
                builder_root(builder) == path_text(dir@),
                builder_lines(builder) == views(lines@).subrange(0, k as int),
                forall|j: int| 0 <= j < k ==> rule_line_is_valid(#[trigger] views(lines@)[j]),
            decreases lines.len() - k,
        {
            assert(views(lines@)[k as int] == lines@[k as int]@);
            if !add_rule_line(&mut builder, lines[k].as_str()) {
                return Err(IgnoreFault::BadLine(k + 1));
            }
            assert(views(lines@).subrange(0, k + 1) =~= views(lines@).subrange(0, k as int).push(
                lines@[k as int]@,
            ));
            k += 1;
        }
        assert(views(lines@).subrange(0, lines.len() as int) =~= views(lines@));
        match build_matcher(&builder) {
            Some(matcher) => Ok(IgnoreFile { dir: dir.duplicate(), lines, matcher }),
            None => Err(IgnoreFault::BuildFailed),
        }
    }

    /// The file's verdict for `path`; no match where `path` does not lie
    /// under the file's directory.
    pub fn decision_for(&self, path: &PathName) -> (r: PromptignoreDecision)
        requires
            self.wf(),
        ensures
            r == file_decision(*self, path@),
    {
        if path.starts_with(&self.dir) && is_plain_path(&self.dir) && is_plain_below(path, &self.dir) {
            let text = path.to_text();
            assert(lies_under(path@, self.dir@));
            decide(&self.matcher, text.as_str())
        } else {
            PromptignoreDecision::NoMatch
        }
    }
}

fn is_plain_below(p: &PathName, d: &PathName) -> (r: bool)
    ensures
        r == forall|i: int| d@.len() <= i < p@.len() ==> plain_part(#[trigger] p@[i]),
{
    let mut i: usize = d.parts.len();
    while i < p.parts.len()
        invariant
            d@.len() <= i <= p@.len() || p@.len() < d@.len(),
            i >= d@.len(),
            forall|j: int| d@.len() <= j < i && j < p@.len() ==> plain_part(#[trigger] p@[j]),
        decreases p.parts.len() - i,
    {
        assert(p.parts@[i as int]@ == p@[i as int]);
        if !is_plain_part(&p.parts[i]) {
            return false;
        }
        i += 1;
    }
    true
}

/// The verdict of an ignore file for a path: that of its matcher where the
/// path lies under the file's directory, else no match.
pub open spec fn file_decision(f: IgnoreFile, path: Seq<Seq<char>>) -> PromptignoreDecision {
    if lies_under(path, f.dir()) {
        ignore_verdict(path_text(f.dir()), f.rule_lines(), path_text(path))
    } else {
        PromptignoreDecision::NoMatch
    }
}

/// The last decision that is not `NoMatch`, after the global one.
pub open spec fn resolve(global: PromptignoreDecision, locals: Seq<PromptignoreDecision>) -> PromptignoreDecision
    decreases locals.len(),
{
    if locals.len() == 0 {
        global
    } else if locals.last() != PromptignoreDecision::NoMatch {
        locals.last()
    } else {
        resolve(global, locals.drop_last())
    }
}

/// The directories from `root` down to the parent of `path`, outermost
/// first; none where `path` does not lie strictly inside `root`, or has no
/// parent (it is the root directory itself).
pub open spec fn chain(path: Seq<Seq<char>>, root: Seq<Seq<char>>) -> Seq<Seq<Seq<char>>> {
    if has_prefix(path, root) && root.len() < path.len() && path.last() != root_part() {
        Seq::new((path.len() - root.len()) as nat, |k: int| path.subrange(0, root.len() + k))
    } else {
        Seq::empty()
    }
}

/// The directories from `root` down to the parent of `path`, outermost
/// first.
pub fn directory_chain_within(path: &PathName, root: &PathName) -> (r: Vec<PathName>)
    ensures
        path_views(r@) == chain(path@, root@),
{
    let mut out: Vec<PathName> = Vec::new();
    if !path.starts_with(root) || root.parts.len() >= path.parts.len()
        || crate::path::part_kind(&path.parts[path.parts.len() - 1]) == 0 {
        proof {
            if path@.len() > 0 {
                assert(path.parts@[path@.len() - 1]@ == path@.last());
            }
        }
        assert(path_views(out@) =~= chain(path@, root@));
        return out;
    }
    assert(path.parts@[path@.len() - 1]@ == path@.last());
    let mut len: usize = root.parts.len();
    let mut dir = root.duplicate();
    while len < path.parts.len()
        invariant
            root@.len() <= len <= path@.len(),
            root@.len() < path@.len(),
            path@.last() != root_part(),
            has_prefix(path@, root@),
            dir@ == path@.subrange(0, len as int),
            path_views(out@) == chain(path@, root@).subrange(0, len - root@.len()),
        decreases path.parts.len() - len,
    {
        let next = dir.join(path.parts[len].as_str());
        let ghost before = out@;
        out.push(dir);
        proof {
            assert(path_views(out@) =~= path_views(before).push(path@.subrange(0, len as int)));
            assert(chain(path@, root@).subrange(0, len + 1 - root@.len()) =~= chain(
                path@,
                root@,
            ).subrange(0, len - root@.len()).push(path@.subrange(0, len as int)));
            assert(next@ =~= path@.subrange(0, len + 1));
        }
        dir = next;
        len += 1;
    }
    assert(chain(path@, root@).subrange(0, path@.len() - root@.len()) =~= chain(path@, root@));
    out
}

/// Among the roots that `path` begins with, one with the most components;
/// none where it begins with no root. Two such roots are the same path.
pub open spec fn owning_root(path: Seq<Seq<char>>, roots: Seq<Seq<Seq<char>>>) -> Option<Seq<Seq<char>>> {
    if exists|i: int| 0 <= i < roots.len() && has_prefix(path, #[trigger] roots[i]) {
        Some(
            choose|r: Seq<Seq<char>>|
                (exists|i: int| 0 <= i < roots.len() && #[trigger] roots[i] == r) && has_prefix(path, r)
                    && forall|j: int|
                    0 <= j < roots.len() && has_prefix(path, #[trigger] roots[j]) ==> roots[j].len()
                        <= r.len(),
        )
    } else {
        None
    }
}

/// Two prefixes of a path with as many components are the same.
pub proof fn lemma_prefix_unique(p: Seq<Seq<char>>, a: Seq<Seq<char>>, b: Seq<Seq<char>>)
    requires
        has_prefix(p, a),
        has_prefix(p, b),
        a.len() == b.len(),
    ensures
        a == b,
{
}

/// Among the roots that `path` begins with, one with the most components.
pub fn find_root_for_path<'a>(path: &PathName, roots: &'a Vec<PathName>) -> (r: Option<&'a PathName>)
    ensures
        r is None <==> owning_root(path@, path_views(roots@)) is None,
        r matches Some(root) ==> owning_root(path@, path_views(roots@)) == Some(root@),
{
    let ghost rs = path_views(roots@);
    let mut best: Option<usize> = None;
    let mut i: usize = 0;
    while i < roots.len()
        invariant
            i <= roots.len(),
            rs == path_views(roots@),
            best is None <==> forall|j: int| 0 <= j < i ==> !has_prefix(path@, #[trigger] rs[j]),
            best matches Some(b) ==> b < i && has_prefix(path@, rs[b as int]) && forall|j: int|
                0 <= j < i && has_prefix(path@, #[trigger] rs[j]) ==> rs[j].len() <= rs[b as int].len(),
        decreases roots.len() - i,
    {
        assert(rs[i as int] == roots@[i as int]@);
        if path.starts_with(&roots[i]) {
            match best {
                Some(b) => {
                    assert(rs[b as int] == roots@[b as int]@);
                    if roots[i].component_count() >= roots[b].component_count() {
                        best = Some(i);
                    }
                },
                None => {
                    best = Some(i);
                },
            }
        }
        i += 1;
    }
    match best {
        Some(b) => {
            proof {
                let x = rs[b as int];
                assert(exists|i: int| 0 <= i < rs.len() && has_prefix(path@, #[trigger] rs[i])) by {
                    assert(has_prefix(path@, rs[b as int]));
                }
                assert((exists|i: int| 0 <= i < rs.len() && #[trigger] rs[i] == x) && has_prefix(path@, x)
                    && forall|j: int| 0 <= j < rs.len() && has_prefix(path@, #[trigger] rs[j]) ==> rs[j].len()
                        <= x.len());
                let c = owning_root(path@, rs)->0;
                let ci = choose|i: int| 0 <= i < rs.len() && #[trigger] rs[i] == c;
                assert(c.len() <= x.len());
                assert(x.len() <= c.len());
                lemma_prefix_unique(path@, c, x);
            }
            Some(&roots[b])
        },
        None => None,
    }
}

/// The `.promptignore` rules known so far: the global file, and for each
/// directory looked at, its file if it has a usable one.
pub struct PromptignoreMatcher {
    dirs: Vec<PathName>,
    rules: Vec<Option<IgnoreFile>>,
    global: Option<IgnoreFile>,
    known: Ghost<Map<Seq<Seq<char>>, Option<IgnoreFile>>>,
}

impl PromptignoreMatcher {
    /// The directories looked at, and what was found in each.
    pub closed spec fn cache(&self) -> Map<Seq<Seq<char>>, Option<IgnoreFile>> {
        self.known@
    }

    /// The global file, if there is one.
    pub closed spec fn global_file(&self) -> Option<IgnoreFile> {
        self.global
    }

    /// The lists agree, the directories are sorted, and every file was
    /// compiled for its directory.
    pub closed spec fn wf(&self) -> bool {
        &&& self.dirs.len() == self.rules.len()
        &&& strictly_sorted(path_views(self.dirs@))
        &&& forall|i: int|
            0 <= i < self.rules.len() ==> (#[trigger] self.rules@[i] matches Some(f) ==> f.wf()
                && f.dir() == self.dirs@[i]@)
        &&& (self.global matches Some(f) ==> f.wf())
        &&& forall|d: Seq<Seq<char>>| #[trigger] self.known@.contains_key(d) <==> exists|i: int|
            0 <= i < self.dirs.len() && self.dirs@[i]@ == d
        &&& forall|i: int| 0 <= i < self.dirs.len() ==> self.known@[#[trigger] self.dirs@[i]@] == self.rules@[i]
    }

    /// The global file's verdict for `path`: only where `path` lies in its
    /// directory.
    pub open spec fn global_decision(&self, path: Seq<Seq<char>>) -> PromptignoreDecision {
        match self.global_file() {
            Some(f) => if has_prefix(path, f.dir()) {
                file_decision(f, path)
            } else {
                PromptignoreDecision::NoMatch
            },
            None => PromptignoreDecision::NoMatch,
        }
    }

    /// The verdict of the file of directory `dir` for `path`; no match
    /// where the directory has none or was not looked at.
    pub open spec fn local_decision(&self, dir: Seq<Seq<char>>, path: Seq<Seq<char>>) -> PromptignoreDecision {
        if self.cache().contains_key(dir) {
            match self.cache()[dir] {
                Some(f) => file_decision(f, path),
                None => PromptignoreDecision::NoMatch,
            }
        } else {
            PromptignoreDecision::NoMatch
        }
    }

    /// The verdicts of the files from `root` down to the parent of `path`.
    pub open spec fn local_decisions(&self, path: Seq<Seq<char>>, root: Seq<Seq<char>>) -> Seq<PromptignoreDecision> {
        chain(path, root).map_values(|d: Seq<Seq<char>>| self.local_decision(d, path))
    }

    /// The final verdict for `path` under `root`: the global verdict, then
    /// each directory's in turn, the deepest that matches deciding.
    pub open spec fn verdict(&self, path: Seq<Seq<char>>, root: Option<Seq<Seq<char>>>) -> PromptignoreDecision {
        match root {
            Some(r) => resolve(self.global_decision(path), self.local_decisions(path, r)),
            None => self.global_decision(path),
        }
    }

    /// A matcher with the given global file and no directory looked at yet.
    pub fn new(global: Option<IgnoreFile>) -> (r: PromptignoreMatcher)
        requires
            global matches Some(f) ==> f.wf(),
        ensures
            r.wf(),
            r.global_file() == global,
            r.cache() == Map::<Seq<Seq<char>>, Option<IgnoreFile>>::empty(),
    {
        let r = PromptignoreMatcher {
            dirs: Vec::new(),
            rules: Vec::new(),
            global,
            known: Ghost(Map::empty()),
        };
        assert(r.cache() =~= Map::<Seq<Seq<char>>, Option<IgnoreFile>>::empty());
        r
    }

    /// Whether the directory has been looked at.
    pub fn is_cached(&self, dir: &PathName) -> (r: bool)
        requires
            self.wf(),
        ensures
            r == self.cache().contains_key(dir@),
    {
        match locate(&self.dirs, dir) {
            Ok(_) => true,
            Err(_) => {
                assert forall|i: int| 0 <= i < self.dirs.len() implies self.dirs@[i]@ != dir@ by {
                    lemma_path_lt_irreflexive(dir@);
                }
                false
            },
        }
    }

    /// Records what was found in a directory: the text of its
    /// `.promptignore`, or none. A file that cannot be compiled is recorded
    /// as absent, and the fault is handed back for a warning; so is a file
    /// without rules, with no fault. A directory already looked at keeps
    /// what was recorded first.
    pub fn cache_dir(&mut self, dir: &PathName, contents: Option<&str>) -> (fault: Option<IgnoreFault>)
        requires
            old(self).wf(),
        ensures
            final(self).wf(),
            final(self).global_file() == old(self).global_file(),
            old(self).cache().contains_key(dir@) ==> final(self).cache() == old(self).cache(),
            !old(self).cache().contains_key(dir@) ==> final(self).cache().contains_key(dir@)
                && final(self).cache().remove(dir@) == old(self).cache(),
            old(self).cache().contains_key(dir@) ==> fault is None,
            !old(self).cache().contains_key(dir@) ==> (final(self).cache()[dir@] is Some <==> (
            contents matches Some(t) && usable(dir@, t@))),
            !old(self).cache().contains_key(dir@) ==> (final(self).cache()[dir@] matches Some(f) ==> f.dir() == dir@
                && f.rule_lines() == rule_lines_of(contents->0@)),
            !old(self).cache().contains_key(dir@) ==> (fault is Some <==> (contents matches Some(t) && !compiles(
                dir@,
                t@,
            ))),
    {
        match locate(&self.dirs, dir) {
            Ok(_) => None,
            Err(k) => {
                let (rules, fault) = load_promptignore_from_dir(dir, contents);
                let ghost old_dirs = self.dirs@;
                let ghost old_rules = self.rules@;
                let ghost old_cache = self.cache();
                let d = dir.duplicate();
                proof {
                    assert forall|i: int| 0 <= i < k implies path_lt(#[trigger] path_views(old_dirs)[i], d@) by {
                        assert(path_views(old_dirs)[i] == old_dirs[i]@);
                    }
                    assert forall|i: int| k <= i < path_views(old_dirs).len() implies path_lt(d@, #[trigger] path_views(old_dirs)[i]) by {
                        assert(path_views(old_dirs)[i] == old_dirs[i]@);
                    }
                    lemma_sorted_insert(path_views(old_dirs), k as int, d@);
                    assert(path_views(old_dirs).insert(k as int, d@) =~= path_views(old_dirs.insert(k as int, d)));
                    assert forall|i: int| 0 <= i < old_dirs.len() implies old_dirs[i]@ != dir@ by {
                        lemma_path_lt_irreflexive(dir@);
                    }
                }
                self.dirs.insert(k, d);
                self.rules.insert(k, rules);
                self.known = Ghost(old_cache.insert(dir@, rules));
                proof {
                    assert forall|i: int| 0 <= i < self.rules.len() implies (#[trigger] self.rules@[i] matches Some(f) ==> f.wf()
                        && f.dir() == self.dirs@[i]@) by {
                        if i < k {
                            assert(self.rules@[i] == old_rules[i] && self.dirs@[i] == old_dirs[i]);
                        } else if i > k {
                            assert(self.rules@[i] == old_rules[i - 1] && self.dirs@[i] == old_dirs[i - 1]);
                        }
                    }
                    assert forall|i: int| 0 <= i < self.dirs.len() implies self.known@[#[trigger] self.dirs@[i]@] == self.rules@[i] by {
                        if i < k {
                            assert(self.rules@[i] == old_rules[i] && self.dirs@[i] == old_dirs[i]);
                        } else if i > k {
                            assert(self.rules@[i] == old_rules[i - 1] && self.dirs@[i] == old_dirs[i - 1]);
                        }
                    }
                    assert forall|e: Seq<Seq<char>>| #[trigger] self.known@.contains_key(e) <==> exists|i: int|
                        0 <= i < self.dirs.len() && self.dirs@[i]@ == e by {
                        if self.known@.contains_key(e) {
                            if e == dir@ {
                                assert(self.dirs@[k as int]@ == e);
                            } else {
                                let j = choose|j: int| 0 <= j < old_dirs.len() && old_dirs[j]@ == e;
                                if j < k {
                                    assert(self.dirs@[j] == old_dirs[j]);
                                } else {
                                    assert(self.dirs@[j + 1] == old_dirs[j]);
                                }
                            }
                        }
                        if exists|i: int| 0 <= i < self.dirs.len() && self.dirs@[i]@ == e {
                            let i = choose|i: int| 0 <= i < self.dirs.len() && self.dirs@[i]@ == e;
                            if i < k {
                                assert(self.dirs@[i] == old_dirs[i]);
                            } else if i > k {
                                assert(self.dirs@[i] == old_dirs[i - 1]);
                            }
                        }
                    }
                    assert(self.known@.remove(dir@) =~= old_cache);
                }
                fault
            },
        }
    }

    /// Records what was found in each directory of `dirs`: `contents[i]`
    /// is the text of the `.promptignore` of `dirs[i]`, if it has one. The
    /// faults of files that do not compile come back with their index.
    pub fn cache_dirs(&mut self, dirs: &Vec<PathName>, contents: &Vec<Option<String>>) -> (faults: Vec<(usize, IgnoreFault)>)
        requires
            old(self).wf(),
            dirs.len() == contents.len(),
        ensures
            final(self).wf(),
            final(self).global_file() == old(self).global_file(),
            forall|i: int| 0 <= i < dirs.len() ==> final(self).cache().contains_key(#[trigger] dirs@[i]@),
            forall|d: Seq<Seq<char>>| #[trigger] old(self).cache().contains_key(d) ==> final(self).cache().contains_key(d)
                && final(self).cache()[d] == old(self).cache()[d],
            forall|d: Seq<Seq<char>>| #[trigger] final(self).cache().contains_key(d) ==> old(self).cache().contains_key(d)
                || exists|i: int| 0 <= i < dirs.len() && dirs@[i]@ == d,
            forall|i: int|
                0 <= i < dirs.len() && !old(self).cache().contains_key(#[trigger] dirs@[i]@) && (forall|j: int|
                    0 <= j < i ==> dirs@[j]@ != dirs@[i]@) ==> (final(self).cache()[dirs@[i]@] is Some <==> (
                contents@[i] matches Some(t) && usable(dirs@[i]@, t@))),
            forall|k: int| 0 <= k < faults.len() ==> (#[trigger] faults@[k]).0 < dirs.len(),
    {
        let mut faults: Vec<(usize, IgnoreFault)> = Vec::new();
        let mut i: usize = 0;
        while i < dirs.len()
            invariant
                self.wf(),
                i <= dirs.len() == contents.len(),
                self.global_file() == old(self).global_file(),
                forall|m: int| 0 <= m < i ==> self.cache().contains_key(#[trigger] dirs@[m]@),
                forall|d: Seq<Seq<char>>| #[trigger] old(self).cache().contains_key(d) ==> self.cache().contains_key(d)
                    && self.cache()[d] == old(self).cache()[d],
                forall|d: Seq<Seq<char>>| #[trigger] self.cache().contains_key(d) ==> old(self).cache().contains_key(d)
                    || exists|m: int| 0 <= m < i && dirs@[m]@ == d,
                forall|m: int|
                    0 <= m < i && !old(self).cache().contains_key(#[trigger] dirs@[m]@) && (forall|j: int|
                        0 <= j < m ==> dirs@[j]@ != dirs@[m]@) ==> (self.cache()[dirs@[m]@] is Some <==> (
                    contents@[m] matches Some(t) && usable(dirs@[m]@, t@))),
                forall|k: int| 0 <= k < faults.len() ==> (#[trigger] faults@[k]).0 < dirs.len(),
            decreases dirs.len() - i,
        {
            let ghost before = self.cache();
            let text = match &contents[i] {
                Some(t) => Some(t.as_str()),
                None => None,
            };
            let fault = self.cache_dir(&dirs[i], text);
            proof {
                let d = dirs@[i as int]@;
                if !before.contains_key(d) {
                    assert(self.cache().remove(d) == before);
                    assert forall|e: Seq<Seq<char>>| e != d && #[trigger] before.contains_key(e) implies self.cache()[e] == before[e] by {
                        assert(self.cache().remove(d).contains_key(e));
                    }
                    assert forall|e: Seq<Seq<char>>| #[trigger] self.cache().contains_key(e) && e != d implies before.contains_key(e) by {
                        assert(self.cache().remove(d).contains_key(e));
                    }
                }
                assert forall|m: int|
                    0 <= m <= i && !old(self).cache().contains_key(#[trigger] dirs@[m]@) && (forall|j: int|
                        0 <= j < m ==> dirs@[j]@ != dirs@[m]@) implies (self.cache()[dirs@[m]@] is Some <==> (
                    contents@[m] matches Some(t) && usable(dirs@[m]@, t@))) by {
                    if m < i {
                        assert(before.contains_key(dirs@[m]@));
                        if dirs@[m]@ != d {
                            assert(self.cache()[dirs@[m]@] == before[dirs@[m]@]);
                        } else {
                            assert(dirs@[m]@ == dirs@[i as int]@);
                        }
                    } else {
                        if before.contains_key(d) {
                            let j = choose|j: int| 0 <= j < i && dirs@[j]@ == d;
                            assert(dirs@[j]@ != dirs@[m]@);
                        }
                    }
                }
            }
            match fault {
                Some(f) => faults.push((i, f)),
                None => {},
            }
            i += 1;
        }
        faults
    }

    /// The file recorded for a directory, if it has one.
    pub fn matcher_for_dir(&self, dir: &PathName) -> (r: Option<&IgnoreFile>)
        requires
            self.wf(),
        ensures
            r matches Some(f) ==> self.cache().contains_key(dir@) && self.cache()[dir@] == Some(*f)
                && f.wf(),
            r is None ==> !self.cache().contains_key(dir@) || self.cache()[dir@] is None,
    {
        match locate(&self.dirs, dir) {
            Ok(k) => {
                proof {
                    assert(self.known@[self.dirs@[k as int]@] == self.rules@[k as int]);
                    assert(self.cache().contains_key(dir@));
                }
                match &self.rules[k] {
                    Some(f) => Some(f),
                    None => None,
                }
            },
            Err(_) => {
                assert forall|i: int| 0 <= i < self.dirs.len() implies self.dirs@[i]@ != dir@ by {
                    lemma_path_lt_irreflexive(dir@);
                }
                None
            },
        }
    }

    /// The global file's verdict for `path`.
    pub fn global_match(&self, path: &PathName) -> (r: PromptignoreDecision)
        requires
            self.wf(),
        ensures
            r == self.global_decision(path@),
    {
        match &self.global {
            Some(f) => {
                if path.starts_with(f.directory()) {
                    f.decision_for(path)
                } else {
                    PromptignoreDecision::NoMatch
                }
            },
            None => PromptignoreDecision::NoMatch,
        }
    }

    /// The final verdict for `path` under `root`, as `verdict` describes.
    pub fn decide_path(&self, path: &PathName, root: Option<&PathName>) -> (r: PromptignoreDecision)
        requires
            self.wf(),
        ensures
            r == self.verdict(path@, match root { Some(x) => Some(x@), None => None }),
    {
        let mut decision = self.global_match(path);
        match root {
            Some(root) => {
                {
                    let dirs = directory_chain_within(path, root);
                    let ghost locals = self.local_decisions(path@, root@);
                    let mut i: usize = 0;
                    while i < dirs.len()
                        invariant
                            self.wf(),
                            i <= dirs.len(),
                            path_views(dirs@) == chain(path@, root@),
                            locals == self.local_decisions(path@, root@),
                            decision == resolve(self.global_decision(path@), locals.subrange(0, i as int)),
                        decreases dirs.len() - i,
                    {
                        assert(path_views(dirs@)[i as int] == dirs@[i as int]@);
                        let d = self.local_match(&dirs[i], path);
                        assert(locals[i as int] == d);
                        assert(locals.subrange(0, i + 1).drop_last() =~= locals.subrange(0, i as int));
                        if d != PromptignoreDecision::NoMatch {
                            decision = d;
                        }
                        i += 1;
                    }
                    assert(locals.subrange(0, dirs.len() as int) =~= locals);
                }
                decision
            },
            None => decision,
        }
    }

    /// The verdict of the file of `dir` for `path`.
    fn local_match(&self, dir: &PathName, path: &PathName) -> (r: PromptignoreDecision)
        requires
            self.wf(),
        ensures
            r == self.local_decision(dir@, path@),
    {
        match self.matcher_for_dir(dir) {
            Some(f) => f.decision_for(path),
            None => PromptignoreDecision::NoMatch,
        }
    }

    /// Whether the final verdict for `path` under `root` ignores it.
    pub fn matches(&self, path: &PathName, root: Option<&PathName>) -> (r: bool)
        requires
            self.wf(),
        ensures
            r == (self.verdict(path@, match root { Some(x) => Some(x@), None => None })
                == PromptignoreDecision::Ignore),
    {
        self.decide_path(path, root).is_ignore()
    }
}

/// The directories whose `.promptignore` files decide for `path`: the
/// chain from its owning root down to its parent; none where no root owns
/// it.
pub open spec fn file_chain(path: Seq<Seq<char>>, roots: Seq<Seq<Seq<char>>>) -> Seq<Seq<Seq<char>>> {
    match owning_root(path, roots) {
        Some(root) => chain(path, root),
        None => Seq::empty(),
    }
}

/// Marks as excluded each discovered file whose final `.promptignore`
/// verdict ignores it. `canonical` holds, for each entry, its canonical
/// path (or its path as found where that failed); `roots` are the
/// canonical directories that bound the search. An entry already excluded
/// stays excluded.
pub fn apply_promptignore(
    discovered: &mut Vec<DiscoveredFile>,
    canonical: &Vec<PathName>,
    roots: &Vec<PathName>,
    matcher: &PromptignoreMatcher,
)
    requires
        old(discovered).len() == canonical.len(),
        matcher.wf(),
    ensures
        promptignore_applied(old(discovered)@, canonical@, roots@, *matcher, final(discovered)@),
{
    let mut i: usize = 0;
    while i < discovered.len()
        invariant
            i <= discovered.len() == old(discovered).len() == canonical.len(),
            matcher.wf(),
            forall|j: int|
                0 <= j < discovered.len() ==> (#[trigger] discovered@[j]).path@ == old(
                    discovered,
                )@[j].path@,
            forall|j: int|
                i <= j < discovered.len() ==> (#[trigger] discovered@[j]).excluded == old(
                    discovered,
                )@[j].excluded,
            forall|j: int|
                0 <= j < i ==> (#[trigger] discovered@[j]).excluded == (old(discovered)@[j].excluded
                    || matcher.verdict(canonical@[j]@, owning_root(canonical@[j]@, path_views(roots@)))
                    == PromptignoreDecision::Ignore),
        decreases discovered.len() - i,
    {
        let absolute = &canonical[i];
        let root = find_root_for_path(absolute, roots);
        let ignored = matcher.matches(absolute, root);
        if ignored {
            let mut entry = discovered[i].clone_entry();
            entry.excluded = true;
            discovered.set(i, entry);
        }
        i += 1;
    }
}

/// `after` is `before` with each entry marked excluded where the final
/// `.promptignore` verdict for its canonical path ignores it.
pub open spec fn promptignore_applied(
    before: Seq<DiscoveredFile>,
    canonical: Seq<PathName>,
    roots: Seq<PathName>,
    matcher: PromptignoreMatcher,
    after: Seq<DiscoveredFile>,
) -> bool {
    &&& after.len() == before.len()
    &&& forall|i: int|
        0 <= i < after.len() ==> (#[trigger] after[i]).path@ == before[i].path@ && after[i].excluded == (
        before[i].excluded || matcher.verdict(canonical[i]@, owning_root(canonical[i]@, path_views(roots)))
            == PromptignoreDecision::Ignore)
}

/// The directories whose `.promptignore` decides some of the given files:
/// those of the chain from each file's owning root down to its parent.
/// Sorted, without repeats.
pub fn promptignore_dirs(canonical: &Vec<PathName>, roots: &Vec<PathName>) -> (r: Vec<PathName>)
    ensures
        strictly_sorted(path_views(r@)),
        forall|i: int, k: int|
            0 <= i < canonical.len() && 0 <= k < file_chain(canonical@[i]@, path_views(roots@)).len()
                ==> path_views(r@).contains(#[trigger] file_chain(canonical@[i]@, path_views(roots@))[k]),
{
    let mut out: Vec<PathName> = Vec::new();
    let mut i: usize = 0;
    while i < canonical.len()
        invariant
            i <= canonical.len(),
            strictly_sorted(path_views(out@)),
            forall|j: int, k: int|
                0 <= j < i && 0 <= k < file_chain(canonical@[j]@, path_views(roots@)).len()
                    ==> path_views(out@).contains(#[trigger] file_chain(canonical@[j]@, path_views(roots@))[k]),
        decreases canonical.len() - i,
    {
        let path = &canonical[i];
        match find_root_for_path(path, roots) {
            Some(root) => {
                {
                    let dirs = directory_chain_within(path, root);
                    let mut k: usize = 0;
                    while k < dirs.len()
                        invariant
                            k <= dirs.len(),
                            strictly_sorted(path_views(out@)),
                            forall|m: int| 0 <= m < k ==> path_views(out@).contains(#[trigger] path_views(dirs@)[m]),
                            forall|j: int, m: int|
                                0 <= j < i && 0 <= m < file_chain(canonical@[j]@, path_views(roots@)).len()
                                    ==> path_views(out@).contains(#[trigger] file_chain(canonical@[j]@, path_views(roots@))[m]),
                        decreases dirs.len() - k,
                    {
                        let ghost before = path_views(out@);
                        insert_sorted(&mut out, &dirs[k]);
                        proof {
                            assert forall|e: Seq<Seq<char>>| before.contains(e) implies path_views(out@).contains(e) by {}
                            assert(path_views(dirs@)[k as int] == dirs@[k as int]@);
                        }
                        k += 1;
                    }
                }
            },
            None => {},
        }
        i += 1;
    }
    out
}

/// Adds a path to a strictly sorted list, unless it is there already.
fn insert_sorted(v: &mut Vec<PathName>, p: &PathName)
    requires
        strictly_sorted(path_views(old(v)@)),
    ensures
        strictly_sorted(path_views(final(v)@)),
        path_views(final(v)@).contains(p@),
        forall|e: Seq<Seq<char>>| #[trigger] path_views(final(v)@).contains(e) <==> (path_views(old(v)@).contains(e) || e == p@),
{
    match locate(v, p) {
        Ok(k) => {
            assert(path_views(v@)[k as int] == p@);
        },
        Err(k) => {
            let ghost old_v = v@;
            let q = p.duplicate();
            proof {
                assert forall|i: int| 0 <= i < k implies path_lt(#[trigger] path_views(old_v)[i], q@) by {
                    assert(path_views(old_v)[i] == old_v[i]@);
                }
                assert forall|i: int| k <= i < path_views(old_v).len() implies path_lt(q@, #[trigger] path_views(old_v)[i]) by {
                    assert(path_views(old_v)[i] == old_v[i]@);
                }
                lemma_sorted_insert(path_views(old_v), k as int, q@);
                assert(path_views(old_v).insert(k as int, q@) =~= path_views(old_v.insert(k as int, q)));
            }
            v.insert(k, q);
            proof {
                assert(path_views(v@) == path_views(old_v).insert(k as int, q@));
                assert(path_views(v@)[k as int] == p@);
                assert forall|e: Seq<Seq<char>>| #[trigger] path_views(v@).contains(e) <==> (path_views(old_v).contains(e) || e == p@) by {
                    let nv = path_views(v@);
                    let ov = path_views(old_v);
                    if nv.contains(e) {
                        let j = choose|j: int| 0 <= j < nv.len() && nv[j] == e;
                        if j < k {
                            assert(ov[j] == e);
                        } else if j > k {
                            assert(ov[j - 1] == e);
                        }
                    }
                    if ov.contains(e) {
                        let j = choose|j: int| 0 <= j < ov.len() && ov[j] == e;
                        if j < k {
                            assert(nv[j] == e);
                        } else {
                            assert(nv[j + 1] == e);
                        }
                    }
                }
            }
        },
    }
}

/// The directory whose `.promptignore` applies to every file: the override
/// directory where one is set, else the user's home directory.
pub fn prompt_home_dir(override_dir: Option<PathName>, home: Option<PathName>) -> (r: Option<PathName>)
    ensures
        override_dir matches Some(o) ==> r matches Some(x) && x@ == o@,
        override_dir is None ==> (r is Some <==> home is Some),
        override_dir is None ==> (home matches Some(h) ==> r matches Some(x) && x@ == h@),
{
    match override_dir {
        Some(o) => Some(o),
        None => home,
    }
}

/// Loads the global `.promptignore` of the home directory from its text:
/// none where there is no home directory, no file, or a file without
/// rules, and none, with the fault, where the file's rules cannot be
/// compiled.
pub fn load_global_promptignore(home: Option<PathName>, contents: Option<&str>) -> (r: (
    Option<IgnoreFile>,
    Option<IgnoreFault>,
))
    ensures
        (home is None || contents is None) ==> r.0 is None && r.1 is None,
        home matches Some(h) ==> (contents matches Some(t) ==> (r.0 is Some <==> usable(h@, t@))),
        home matches Some(h) ==> (contents matches Some(t) ==> (r.1 is Some <==> !compiles(h@, t@))),
        r.0 matches Some(f) ==> (f.wf() && (home matches Some(h) && f.dir() == h@) && (contents matches Some(t)
            && f.rule_lines() == rule_lines_of(t@))),
{
    match home {
        Some(h) => load_promptignore_from_dir(&h, contents),
        None => (None, None),
    }
}

/// Once every directory that `promptignore_dirs` lists has been looked at,
/// every directory on the chain of every file has been: resolving the
/// files then reads the same files as looking each directory up on demand.
pub proof fn every_chain_is_loaded(
    canonical: Seq<PathName>,
    roots: Seq<PathName>,
    dirs: Seq<PathName>,
    matcher: PromptignoreMatcher,
)
    requires
        forall|i: int, k: int|
            0 <= i < canonical.len() && 0 <= k < file_chain(canonical[i]@, path_views(roots)).len()
                ==> path_views(dirs).contains(#[trigger] file_chain(canonical[i]@, path_views(roots))[k]),
        forall|i: int| 0 <= i < dirs.len() ==> matcher.cache().contains_key(#[trigger] dirs[i]@),
    ensures
        forall|i: int, k: int|
            0 <= i < canonical.len() && 0 <= k < file_chain(canonical[i]@, path_views(roots)).len()
                ==> matcher.cache().contains_key(#[trigger] file_chain(canonical[i]@, path_views(roots))[k]),
{
    assert forall|i: int, k: int|
        0 <= i < canonical.len() && 0 <= k < file_chain(canonical[i]@, path_views(roots)).len()
            implies matcher.cache().contains_key(#[trigger] file_chain(canonical[i]@, path_views(roots))[k]) by {
        let d = file_chain(canonical[i]@, path_views(roots))[k];
        assert(path_views(dirs).contains(d));
        let m = choose|m: int| 0 <= m < path_views(dirs).len() && path_views(dirs)[m] == d;
        assert(dirs[m]@ == d);
    }
}

/// Deepest match wins: where a directory's file ignores a path and a file
/// of a deeper directory on the way to it re-includes it, with no deeper
/// file deciding, the path is not ignored.
pub proof fn deeper_whitelist_wins(
    global: PromptignoreDecision,
    locals: Seq<PromptignoreDecision>,
    i: int,
    j: int,
)
    requires
        0 <= i < j < locals.len(),
        locals[i] == PromptignoreDecision::Ignore,
        locals[j] == PromptignoreDecision::Whitelist,
        forall|k: int| j < k < locals.len() ==> #[trigger] locals[k] == PromptignoreDecision::NoMatch,
    ensures
        resolve(global, locals) == PromptignoreDecision::Whitelist,
    decreases locals.len(),
{
    if j < locals.len() - 1 {
        assert(locals.last() == locals[locals.len() - 1]);
        let rest = locals.drop_last();
        assert forall|k: int| j < k < rest.len() implies #[trigger] rest[k] == PromptignoreDecision::NoMatch by {
            assert(rest[k] == locals[k]);
        }
        deeper_whitelist_wins(global, rest, i, j);
    }
}

/// The same, for a file: under its root, where the file of one
/// directory on its chain ignores it and a deeper one re-includes it, with
/// no deeper file deciding, the final verdict does not ignore it.
pub proof fn deeper_whitelist_wins_for_path(
    matcher: PromptignoreMatcher,
    path: Seq<Seq<char>>,
    root: Seq<Seq<char>>,
    i: int,
    j: int,
)
    requires
        0 <= i < j < chain(path, root).len(),
        matcher.local_decision(chain(path, root)[i], path) == PromptignoreDecision::Ignore,
        matcher.local_decision(chain(path, root)[j], path) == PromptignoreDecision::Whitelist,
        forall|k: int|
            j < k < chain(path, root).len() ==> matcher.local_decision(#[trigger] chain(path, root)[k], path)
                == PromptignoreDecision::NoMatch,
    ensures
        matcher.verdict(path, Some(root)) == PromptignoreDecision::Whitelist,
{
    let locals = matcher.local_decisions(path, root);
    assert forall|k: int| j < k < locals.len() implies #[trigger] locals[k] == PromptignoreDecision::NoMatch by {
        assert(locals[k] == matcher.local_decision(chain(path, root)[k], path));
    }
    deeper_whitelist_wins(matcher.global_decision(path), locals, i, j);
}

/// The global file decides where no directory's file does: a path it
/// ignores, and that no file of its chain matches, is ignored.
pub proof fn global_ignore_applies(
    matcher: PromptignoreMatcher,
    path: Seq<Seq<char>>,
    root: Option<Seq<Seq<char>>>,
)
    requires
        matcher.global_decision(path) == PromptignoreDecision::Ignore,
        root matches Some(r) ==> forall|k: int|
            0 <= k < chain(path, r).len() ==> matcher.local_decision(#[trigger] chain(path, r)[k], path)
                == PromptignoreDecision::NoMatch,
    ensures
        matcher.verdict(path, root) == PromptignoreDecision::Ignore,
{
    match root {
        Some(r) => {
            let locals = matcher.local_decisions(path, r);
            assert forall|k: int| 0 <= k < locals.len() implies #[trigger] locals[k] == PromptignoreDecision::NoMatch by {
                assert(locals[k] == matcher.local_decision(chain(path, r)[k], path));
            }
            lemma_resolve_no_local(matcher.global_decision(path), locals);
        },
        None => {},
    }
}

proof fn lemma_resolve_no_local(global: PromptignoreDecision, locals: Seq<PromptignoreDecision>)
    requires
        forall|k: int| 0 <= k < locals.len() ==> #[trigger] locals[k] == PromptignoreDecision::NoMatch,
    ensures
        resolve(global, locals) == global,
    decreases locals.len(),
{
    if locals.len() > 0 {
        assert(locals.last() == locals[locals.len() - 1]);
        let rest = locals.drop_last();
        assert forall|k: int| 0 <= k < rest.len() implies #[trigger] rest[k] == PromptignoreDecision::NoMatch by {
            assert(rest[k] == locals[k]);
        }
        lemma_resolve_no_local(global, rest);
    }
}

/// An exclusion by an exclude glob is never undone: a walked file whose
/// match fragment matches a glob is recorded excluded, its merged entry is
/// excluded whatever other roots recorded for the same path, and it stays
/// excluded once the `.promptignore` rules are applied.
pub proof fn glob_exclusion_is_final(
    path: Seq<Seq<char>>,
    bases: Seq<Seq<Seq<char>>>,
    excludes: Seq<crate::exclude::ExcludePattern>,
    found: Seq<DiscoveredFile>,
    j: int,
    merged: Seq<DiscoveredFile>,
    canonical: Seq<PathName>,
    roots: Seq<PathName>,
    matcher: PromptignoreMatcher,
    result: Seq<DiscoveredFile>,
)
    requires
        0 <= j < found.len(),
        crate::discovery::recorded(path, bases, excludes, found[j]),
        crate::exclude::any_glob_matches(excludes, path_text(crate::discovery::match_fragment(path, bases))),
        crate::discovery::is_merge_of(merged, found),
        promptignore_applied(merged, canonical, roots, matcher, result),
    ensures
        exists|i: int| 0 <= i < result.len() && (#[trigger] result[i]).path@ == crate::files::without_dot(path)
            && result[i].excluded,
{
    let i = choose|i: int| 0 <= i < merged.len() && (#[trigger] merged[i]).path@ == found[j].path@;
    assert(crate::discovery::found_excluded(found, merged[i].path@));
    assert(result[i].path@ == merged[i].path@);
}

/// Discovery is repeatable: two walks of an unchanged tree record the same
/// files, perhaps in another order; merged, and resolved against the same
/// rules and canonical paths, they give the same list, in the same order,
/// with the same verdicts.
pub proof fn discovery_is_repeatable(
    found1: Seq<DiscoveredFile>,
    found2: Seq<DiscoveredFile>,
    merged1: Seq<DiscoveredFile>,
    merged2: Seq<DiscoveredFile>,
    canonical: Seq<PathName>,
    roots: Seq<PathName>,
    matcher: PromptignoreMatcher,
    result1: Seq<DiscoveredFile>,
    result2: Seq<DiscoveredFile>,
)
    requires
        crate::discovery::same_records(found1, found2),
        crate::discovery::is_merge_of(merged1, found1),
        crate::discovery::is_merge_of(merged2, found2),
        promptignore_applied(merged1, canonical, roots, matcher, result1),
        promptignore_applied(merged2, canonical, roots, matcher, result2),
    ensures
        crate::discovery::file_paths(result1) == crate::discovery::file_paths(result2),
        forall|i: int| 0 <= i < result1.len() ==> (#[trigger] result1[i]).excluded == result2[i].excluded,
{
    crate::discovery::merge_is_order_independent(found1, found2, merged1, merged2);
    let a = crate::discovery::file_paths(merged1);
    let b = crate::discovery::file_paths(merged2);
    assert(a.len() == b.len());
    assert forall|i: int| 0 <= i < result1.len() implies (#[trigger] result1[i]).excluded == result2[i].excluded by {
        assert(a[i] == b[i]);
        assert(merged1[i].excluded == merged2[i].excluded);
    }
    assert(crate::discovery::file_paths(result1) =~= crate::discovery::file_paths(result2)) by {
        assert forall|i: int| 0 <= i < result1.len() implies crate::discovery::file_paths(result1)[i]
            == crate::discovery::file_paths(result2)[i] by {
            assert(a[i] == b[i]);
        }
    }
}

} // verus!
