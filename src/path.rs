//! Paths as sequences of components.
//!
//! A path is held as the list of its components, in the form that
//! `std::path::Path::components` yields them: a leading `/` stands for the
//! root directory, a leading `.` for the current directory, `..` for the
//! parent directory, and every other component is a plain name.
use vstd::prelude::*;

verus! {

/// The text of the root-directory component.
pub open spec fn root_part() -> Seq<char> {
    seq!['/']
}

/// The text of the current-directory component.
pub open spec fn cur_part() -> Seq<char> {
    seq!['.']
}

/// The text of the parent-directory component.
pub open spec fn parent_part() -> Seq<char> {
    seq!['.', '.']
}

/// Components are ordered by kind first (root, current, parent, plain name),
/// as `std::path::Component` is.
pub open spec fn part_rank(s: Seq<char>) -> int {
    if s == root_part() {
        0
    } else if s == cur_part() {
        1
    } else if s == parent_part() {
        2
    } else {
        3
    }
}

/// Lexicographic order of texts by code point (the order of their UTF-8 bytes).
pub open spec fn text_lt(a: Seq<char>, b: Seq<char>) -> bool
    decreases a.len(),
{
    if a.len() == 0 {
        b.len() > 0
    } else if b.len() == 0 {
        false
    } else if a[0] != b[0] {
        (a[0] as int) < (b[0] as int)
    } else {
        text_lt(a.drop_first(), b.drop_first())
    }
}

/// Order of two components: by kind, then by text.
pub open spec fn part_lt(a: Seq<char>, b: Seq<char>) -> bool {
    part_rank(a) < part_rank(b) || (part_rank(a) == part_rank(b) && text_lt(a, b))
}

/// Lexicographic order of paths on their components.
pub open spec fn path_lt(a: Seq<Seq<char>>, b: Seq<Seq<char>>) -> bool
    decreases a.len(),
{
    if a.len() == 0 {
        b.len() > 0
    } else if b.len() == 0 {
        false
    } else if a[0] != b[0] {
        part_lt(a[0], b[0])
    } else {
        path_lt(a.drop_first(), b.drop_first())
    }
}

/// `p` begins with all the components of `base`.
pub open spec fn has_prefix(p: Seq<Seq<char>>, base: Seq<Seq<char>>) -> bool {
    base.len() <= p.len() && p.subrange(0, base.len() as int) == base
}

/// The text of a path: its components joined as `PathBuf::push` joins them,
/// with a separator wherever the text so far does not already end in one.
pub open spec fn path_text(p: Seq<Seq<char>>) -> Seq<char>
    decreases p.len(),
{
    if p.len() == 0 {
        Seq::empty()
    } else {
        let prev = path_text(p.drop_last());
        if prev.len() > 0 && prev.last() != '/' {
            prev + seq!['/'] + p.last()
        } else {
            prev + p.last()
        }
    }
}

/// The three special components differ from one another.
pub proof fn lemma_special_parts_distinct()
    ensures
        root_part() != cur_part(),
        root_part() != parent_part(),
        cur_part() != parent_part(),
        part_rank(cur_part()) == 1,
{
    assert(root_part()[0] != cur_part()[0]);
    assert(root_part().len() != parent_part().len());
    assert(cur_part().len() != parent_part().len());
}

pub proof fn lemma_text_lt_irreflexive(a: Seq<char>)
    ensures
        !text_lt(a, a),
    decreases a.len(),
{
    if a.len() > 0 {
        lemma_text_lt_irreflexive(a.drop_first());
    }
}

pub proof fn lemma_text_lt_transitive(a: Seq<char>, b: Seq<char>, c: Seq<char>)
    requires
        text_lt(a, b),
        text_lt(b, c),
    ensures
        text_lt(a, c),
    decreases a.len(),
{
    if a.len() > 0 && b.len() > 0 && c.len() > 0 {
        if a[0] == b[0] && b[0] == c[0] {
            lemma_text_lt_transitive(a.drop_first(), b.drop_first(), c.drop_first());
        }
    }
}

pub proof fn lemma_text_lt_total(a: Seq<char>, b: Seq<char>)
    requires
        a != b,
    ensures
        text_lt(a, b) || text_lt(b, a),
    decreases a.len(),
{
    if a.len() > 0 && b.len() > 0 {
        if a[0] == b[0] {
            if a.drop_first() == b.drop_first() {
                assert(a == seq![a[0]] + a.drop_first());
                assert(b == seq![b[0]] + b.drop_first());
            }
            lemma_text_lt_total(a.drop_first(), b.drop_first());
        }
    } else if a.len() == 0 && b.len() == 0 {
        assert(a =~= b);
    }
}

pub proof fn lemma_text_lt_asymmetric(a: Seq<char>, b: Seq<char>)
    requires
        text_lt(a, b),
    ensures
        !text_lt(b, a),
    decreases a.len(),
{
    if a.len() > 0 && b.len() > 0 && a[0] == b[0] {
        lemma_text_lt_asymmetric(a.drop_first(), b.drop_first());
    }
}

pub proof fn lemma_path_lt_irreflexive(a: Seq<Seq<char>>)
    ensures
        !path_lt(a, a),
    decreases a.len(),
{
    if a.len() > 0 {
        lemma_path_lt_irreflexive(a.drop_first());
    }
}

pub proof fn lemma_path_lt_transitive(a: Seq<Seq<char>>, b: Seq<Seq<char>>, c: Seq<Seq<char>>)
    requires
        path_lt(a, b),
        path_lt(b, c),
    ensures
        path_lt(a, c),
    decreases a.len(),
{
    if a.len() > 0 && b.len() > 0 && c.len() > 0 {
        if a[0] == b[0] && b[0] == c[0] {
            lemma_path_lt_transitive(a.drop_first(), b.drop_first(), c.drop_first());
        } else if a[0] != b[0] && b[0] != c[0] && a[0] != c[0] {
            if part_rank(a[0]) == part_rank(b[0]) && part_rank(b[0]) == part_rank(c[0]) {
                lemma_text_lt_transitive(a[0], b[0], c[0]);
            }
        } else if a[0] != b[0] && b[0] != c[0] && a[0] == c[0] {
            if part_rank(a[0]) == part_rank(b[0]) {
                lemma_text_lt_asymmetric(a[0], b[0]);
            }
        }
    }
}

pub proof fn lemma_path_lt_total(a: Seq<Seq<char>>, b: Seq<Seq<char>>)
    requires
        a != b,
    ensures
        path_lt(a, b) || path_lt(b, a),
    decreases a.len(),
{
    if a.len() > 0 && b.len() > 0 {
        if a[0] == b[0] {
            if a.drop_first() == b.drop_first() {
                assert(a == seq![a[0]] + a.drop_first());
                assert(b == seq![b[0]] + b.drop_first());
            }
            lemma_path_lt_total(a.drop_first(), b.drop_first());
        } else {
            lemma_text_lt_total(a[0], b[0]);
        }
    } else if a.len() == 0 && b.len() == 0 {
        assert(a =~= b);
    }
}

pub proof fn lemma_path_lt_asymmetric(a: Seq<Seq<char>>, b: Seq<Seq<char>>)
    requires
        path_lt(a, b),
    ensures
        !path_lt(b, a),
    decreases a.len(),
{
    if a.len() > 0 && b.len() > 0 {
        if a[0] == b[0] {
            lemma_path_lt_asymmetric(a.drop_first(), b.drop_first());
        } else if part_rank(a[0]) == part_rank(b[0]) {
            lemma_text_lt_asymmetric(a[0], b[0]);
        }
    }
}

/// Compares two texts by code point, as `str`'s `Ord` orders them.
fn text_cmp(a: &str, b: &str) -> (r: core::cmp::Ordering)
    ensures
        r == core::cmp::Ordering::Less <==> text_lt(a@, b@),
        r == core::cmp::Ordering::Greater <==> text_lt(b@, a@),
        r == core::cmp::Ordering::Equal <==> a@ == b@,
{
    let n = a.unicode_len();
    let m = b.unicode_len();
    let mut i: usize = 0;
    assert(a@.subrange(0, n as int) =~= a@);
    assert(b@.subrange(0, m as int) =~= b@);
    while i < n && i < m
        invariant
            i <= n == a@.len(),
            i <= m == b@.len(),
            a@.subrange(0, i as int) =~= b@.subrange(0, i as int),
            text_lt(a@, b@) == text_lt(a@.subrange(i as int, n as int), b@.subrange(i as int, m as int)),
            text_lt(b@, a@) == text_lt(b@.subrange(i as int, m as int), a@.subrange(i as int, n as int)),
        decreases n - i,
    {
        let x = a.get_char(i);
        let y = b.get_char(i);
        let ghost sa = a@.subrange(i as int, n as int);
        let ghost sb = b@.subrange(i as int, m as int);
        assert(sa[0] == x && sb[0] == y);
        if x != y {
            if (x as u32) < (y as u32) {
                assert(text_lt(sa, sb) && !text_lt(sb, sa));
                return core::cmp::Ordering::Less;
            } else {
                assert(text_lt(sb, sa) && !text_lt(sa, sb));
                return core::cmp::Ordering::Greater;
            }
        }
        assert(sa.drop_first() =~= a@.subrange(i + 1, n as int));
        assert(sb.drop_first() =~= b@.subrange(i + 1, m as int));
        i += 1;
    }
    if n < m {
        assert(a@.subrange(i as int, n as int).len() == 0);
        assert(b@.subrange(i as int, m as int).len() > 0);
        core::cmp::Ordering::Less
    } else if n > m {
        assert(b@.subrange(i as int, m as int).len() == 0);
        core::cmp::Ordering::Greater
    } else {
        assert(a@ =~= b@);
        proof {
            lemma_text_lt_irreflexive(a@);
        }
        core::cmp::Ordering::Equal
    }
}

/// Whether two texts are the same.
pub(crate) fn same_text(a: &str, b: &str) -> (r: bool)
    ensures
        r == (a@ == b@),
{
    match text_cmp(a, b) {
        core::cmp::Ordering::Equal => true,
        _ => false,
    }
}

/// Relies on `String::push`: the character is appended.
#[verifier::external_body]
pub(crate) fn push_char(s: &mut String, c: char)
    ensures
        final(s)@ == old(s)@.push(c),
{
    s.push(c)
}

pub(crate) fn part_kind(s: &String) -> (r: u8)
    ensures
        r as int == part_rank(s@),
{
    let n = s.as_str().unicode_len();
    if n == 1 {
        let c = s.as_str().get_char(0);
        if c == '/' {
            assert(s@ =~= root_part());
            return 0;
        } else if c == '.' {
            assert(s@ =~= cur_part());
            return 1;
        }
    } else if n == 2 {
        let c0 = s.as_str().get_char(0);
        let c1 = s.as_str().get_char(1);
        if c0 == '.' && c1 == '.' {
            assert(s@ =~= parent_part());
            return 2;
        }
    }
    3
}

/// A path, as the list of its components.
#[derive(Clone, Debug, PartialEq, Eq, Hash)]
pub struct PathName {
    pub parts: Vec<String>,
}

/// The texts of a list of strings.
pub open spec fn views(v: Seq<String>) -> Seq<Seq<char>> {
    v.map_values(|s: String| s@)
}

pub proof fn lemma_views_push(v: Seq<String>, s: String)
    ensures
        views(v.push(s)) == views(v).push(s@),
{
    assert(views(v.push(s)) =~= views(v).push(s@));
}

impl View for PathName {
    type V = Seq<Seq<char>>;

    open spec fn view(&self) -> Seq<Seq<char>> {
        views(self.parts@)
    }
}

impl PathName {
    /// The path made of the given components.
    pub fn new(parts: Vec<String>) -> (r: PathName)
        ensures
            r.parts@ == parts@,
    {
        PathName { parts }
    }

    /// The empty path.
    pub fn empty() -> (r: PathName)
        ensures
            r@ == Seq::<Seq<char>>::empty(),
    {
        let r = PathName { parts: Vec::new() };
        assert(r@ =~= Seq::<Seq<char>>::empty());
        r
    }

    /// The number of components.
    pub fn component_count(&self) -> (r: usize)
        ensures
            r == self@.len(),
    {
        self.parts.len()
    }

    /// A copy of this path.
    pub fn duplicate(&self) -> (r: PathName)
        ensures
            r@ == self@,
    {
        let mut parts: Vec<String> = Vec::new();
        let mut i: usize = 0;
        while i < self.parts.len()
            invariant
                i <= self.parts.len(),
                views(parts@) =~= self@.subrange(0, i as int),
            decreases self.parts.len() - i,
        {
            let c = self.parts[i].clone();
            proof {
                lemma_views_push(parts@, c);
            }
            parts.push(c);
            assert(views(parts@) =~= self@.subrange(0, i + 1));
            i += 1;
        }
        assert(self@.subrange(0, self@.len() as int) =~= self@);
        PathName { parts }
    }

    /// Whether the two paths have the same components.
    pub fn same_as(&self, other: &PathName) -> (r: bool)
        ensures
            r == (self@ == other@),
    {
        if self.parts.len() != other.parts.len() {
            return false;
        }
        let mut i: usize = 0;
        while i < self.parts.len()
            invariant
                i <= self.parts.len(),
                self.parts.len() == other.parts.len(),
                self@.subrange(0, i as int) =~= other@.subrange(0, i as int),
            decreases self.parts.len() - i,
        {
            if self.parts[i] != other.parts[i] {
                assert(self@[i as int] != other@[i as int]);
                return false;
            }
            i += 1;
        }
        assert(self@.subrange(0, self@.len() as int) =~= self@);
        assert(other@.subrange(0, other@.len() as int) =~= other@);
        true
    }

    /// Whether this path begins with every component of `base`, as
    /// `Path::starts_with` decides.
    pub fn starts_with(&self, base: &PathName) -> (r: bool)
        ensures
            r == has_prefix(self@, base@),
    {
        if base.parts.len() > self.parts.len() {
            return false;
        }
        let mut i: usize = 0;
        while i < base.parts.len()
            invariant
                i <= base.parts.len() <= self.parts.len(),
                self@.subrange(0, i as int) =~= base@.subrange(0, i as int),
            decreases base.parts.len() - i,
        {
            if self.parts[i] != base.parts[i] {
                assert(self@.subrange(0, base@.len() as int)[i as int] != base@[i as int]);
                return false;
            }
            i += 1;
        }
        assert(self@.subrange(0, base@.len() as int) =~= base@);
        true
    }

    /// The components from index `start` on.
    pub fn skip(&self, start: usize) -> (r: PathName)
        requires
            start <= self@.len(),
        ensures
            r@ == self@.subrange(start as int, self@.len() as int),
    {
        let mut parts: Vec<String> = Vec::new();
        let mut i: usize = start;
        while i < self.parts.len()
            invariant
                start <= i <= self.parts.len(),
                views(parts@) =~= self@.subrange(start as int, i as int),
            decreases self.parts.len() - i,
        {
            let c = self.parts[i].clone();
            proof {
                lemma_views_push(parts@, c);
            }
            parts.push(c);
            assert(views(parts@) =~= self@.subrange(start as int, i + 1));
            i += 1;
        }
        PathName { parts }
    }

    /// What remains after `base`, when this path begins with it, as
    /// `Path::strip_prefix` gives it.
    pub fn strip_prefix(&self, base: &PathName) -> (r: Option<PathName>)
        ensures
            r is Some <==> has_prefix(self@, base@),
            r matches Some(rest) ==> rest@ == self@.subrange(
                base@.len() as int,
                self@.len() as int,
            ),
    {
        if self.starts_with(base) {
            Some(self.skip(base.parts.len()))
        } else {
            None
        }
    }

    /// The path without its last component, as `Path::parent` gives it: none
    /// for the empty path and for the root alone.
    pub fn parent(&self) -> (r: Option<PathName>)
        ensures
            r is Some <==> (self@.len() > 0 && self@.last() != root_part()),
            r matches Some(p) ==> p@ == self@.drop_last(),
    {
        let n = self.parts.len();
        if n == 0 {
            return None;
        }
        if part_kind(&self.parts[n - 1]) == 0 {
            return None;
        }
        let mut parts: Vec<String> = Vec::new();
        let mut i: usize = 0;
        while i < n - 1
            invariant
                n == self.parts.len(),
                n > 0,
                i <= n - 1,
                views(parts@) =~= self@.subrange(0, i as int),
            decreases n - 1 - i,
        {
            let c = self.parts[i].clone();
            proof {
                lemma_views_push(parts@, c);
            }
            parts.push(c);
            assert(views(parts@) =~= self@.subrange(0, i + 1));
            i += 1;
        }
        let r = PathName { parts };
        assert(r@ =~= self@.drop_last());
        Some(r)
    }

    /// The path with `name` added at the end.
    pub fn join(&self, name: &str) -> (r: PathName)
        ensures
            r@ == self@.push(name@),
    {
        let mut r = self.duplicate();
        r.parts.push(name.to_owned());
        assert(r@ =~= self@.push(name@));
        r
    }

    /// The text of this path, its components joined by `/`.
    pub fn to_text(&self) -> (r: String)
        ensures
            r@ == path_text(self@),
    {
        let mut text = String::new();
        let mut i: usize = 0;
        while i < self.parts.len()
            invariant
                i <= self.parts.len(),
                text@ == path_text(self@.subrange(0, i as int)),
            decreases self.parts.len() - i,
        {
            let ghost prev = text@;
            let n = text.as_str().unicode_len();
            if n > 0 && text.as_str().get_char(n - 1) != '/' {
                push_char(&mut text, '/');
            }
            text.append(self.parts[i].as_str());
            assert(self@.subrange(0, i + 1).drop_last() =~= self@.subrange(0, i as int));
            i += 1;
        }
        assert(self@.subrange(0, self@.len() as int) =~= self@);
        text
    }

    /// Compares two paths component by component, as `Path`'s `Ord` does.
    pub fn compare(&self, other: &PathName) -> (r: core::cmp::Ordering)
        ensures
            r == core::cmp::Ordering::Less <==> path_lt(self@, other@),
            r == core::cmp::Ordering::Greater <==> path_lt(other@, self@),
            r == core::cmp::Ordering::Equal <==> self@ == other@,
    {
        let mut i: usize = 0;
        assert(self@.subrange(0, self@.len() as int) =~= self@);
        assert(other@.subrange(0, other@.len() as int) =~= other@);
        while i < self.parts.len() && i < other.parts.len()
            invariant
                i <= self.parts.len(),
                i <= other.parts.len(),
                self@.subrange(0, i as int) =~= other@.subrange(0, i as int),
                path_lt(self@, other@) == path_lt(
                    self@.subrange(i as int, self@.len() as int),
                    other@.subrange(i as int, other@.len() as int),
                ),
                path_lt(other@, self@) == path_lt(
                    other@.subrange(i as int, other@.len() as int),
                    self@.subrange(i as int, self@.len() as int),
                ),
            decreases self.parts.len() - i,
        {
            let ka = part_kind(&self.parts[i]);
            let kb = part_kind(&other.parts[i]);
            assert(self.parts[i as int]@ == self@[i as int]);
            assert(other.parts[i as int]@ == other@[i as int]);
            let ghost sa = self@.subrange(i as int, self@.len() as int);
            let ghost sb = other@.subrange(i as int, other@.len() as int);
            assert(sa[0] == self@[i as int]);
            assert(sb[0] == other@[i as int]);
            assert(sa.len() > 0 && sb.len() > 0);
            if ka < kb {
                assert(path_lt(sa, sb) && !path_lt(sb, sa));
                return core::cmp::Ordering::Less;
            } else if ka > kb {
                assert(path_lt(sb, sa) && !path_lt(sa, sb));
                return core::cmp::Ordering::Greater;
            }
            match text_cmp(self.parts[i].as_str(), other.parts[i].as_str()) {
                core::cmp::Ordering::Less => {
                    proof {
                        lemma_text_lt_irreflexive(self@[i as int]);
                        lemma_text_lt_asymmetric(self@[i as int], other@[i as int]);
                        assert(path_lt(sa, sb) && !path_lt(sb, sa));
                    }
                    return core::cmp::Ordering::Less;
                },
                core::cmp::Ordering::Greater => {
                    proof {
                        lemma_text_lt_irreflexive(self@[i as int]);
                        lemma_text_lt_asymmetric(other@[i as int], self@[i as int]);
                        assert(path_lt(sb, sa) && !path_lt(sa, sb));
                    }
                    return core::cmp::Ordering::Greater;
                },
                core::cmp::Ordering::Equal => {},
            }
            assert(sa.drop_first() =~= self@.subrange(i + 1, self@.len() as int));
            assert(sb.drop_first() =~= other@.subrange(i + 1, other@.len() as int));
            i += 1;
        }
        if self.parts.len() < other.parts.len() {
            core::cmp::Ordering::Less
        } else if self.parts.len() > other.parts.len() {
            core::cmp::Ordering::Greater
        } else {
            assert(self@ =~= other@);
            proof {
                lemma_path_lt_irreflexive(self@);
            }
            core::cmp::Ordering::Equal
        }
    }
}

/// Whether `a` comes strictly before `b`.
pub fn precedes(a: &PathName, b: &PathName) -> (r: bool)
    ensures
        r == path_lt(a@, b@),
{
    match a.compare(b) {
        core::cmp::Ordering::Less => true,
        _ => false,
    }
}

/// The views of a list of paths.
pub open spec fn path_views(v: Seq<PathName>) -> Seq<Seq<Seq<char>>> {
    v.map_values(|p: PathName| p@)
}

/// Each path comes strictly before the next ones.
pub open spec fn strictly_sorted(s: Seq<Seq<Seq<char>>>) -> bool {
    forall|i: int, j: int| 0 <= i < j < s.len() ==> path_lt(#[trigger] s[i], #[trigger] s[j])
}

/// Finds `key` in a strictly sorted list of paths: `Ok` with its index, or
/// `Err` with the index at which it would be inserted.
pub fn locate(v: &Vec<PathName>, key: &PathName) -> (r: Result<usize, usize>)
    requires
        strictly_sorted(path_views(v@)),
    ensures
        r matches Ok(k) ==> k < v.len() && v@[k as int]@ == key@,
        r matches Err(k) ==> k <= v.len() && (forall|i: int|
            0 <= i < k ==> path_lt(#[trigger] v@[i]@, key@)) && (forall|i: int|
            k <= i < v.len() ==> path_lt(key@, #[trigger] v@[i]@)),
{
    let ghost s = path_views(v@);
    let mut lo: usize = 0;
    let mut hi: usize = v.len();
    while lo < hi
        invariant
            lo <= hi <= v.len(),
            s == path_views(v@),
            strictly_sorted(s),
            forall|i: int| 0 <= i < lo ==> path_lt(#[trigger] v@[i]@, key@),
            forall|i: int| hi <= i < v.len() ==> path_lt(key@, #[trigger] v@[i]@),
        decreases hi - lo,
    {
        let mid = lo + (hi - lo) / 2;
        match v[mid].compare(key) {
            core::cmp::Ordering::Equal => {
                return Ok(mid);
            },
            core::cmp::Ordering::Less => {
                assert forall|i: int| 0 <= i < mid + 1 implies path_lt(#[trigger] v@[i]@, key@) by {
                    if i < mid {
                        assert(path_lt(s[i], s[mid as int]));
                        lemma_path_lt_transitive(v@[i]@, v@[mid as int]@, key@);
                    }
                }
                lo = mid + 1;
            },
            core::cmp::Ordering::Greater => {
                assert forall|i: int| mid <= i < v.len() implies path_lt(key@, #[trigger] v@[i]@) by {
                    if i > mid {
                        assert(path_lt(s[mid as int], s[i]));
                        lemma_path_lt_transitive(key@, v@[mid as int]@, v@[i]@);
                    }
                }
                hi = mid;
            },
        }
    }
    Err(lo)
}

/// Inserting a path at the place that `locate` reports keeps the list
/// strictly sorted.
pub proof fn lemma_sorted_insert(s: Seq<Seq<Seq<char>>>, k: int, key: Seq<Seq<char>>)
    requires
        strictly_sorted(s),
        0 <= k <= s.len(),
        forall|i: int| 0 <= i < k ==> path_lt(#[trigger] s[i], key),
        forall|i: int| k <= i < s.len() ==> path_lt(key, #[trigger] s[i]),
    ensures
        strictly_sorted(s.insert(k, key)),
{
    let t = s.insert(k, key);
    assert forall|i: int, j: int| 0 <= i < j < t.len() implies path_lt(#[trigger] t[i], #[trigger] t[j]) by {
        if i < k && j < k {
            assert(path_lt(s[i], s[j]));
        } else if i < k && j == k {
        } else if i < k && j > k {
            assert(path_lt(s[i], s[j - 1]));
        } else if i == k {
        } else {
            assert(path_lt(s[i - 1], s[j - 1]));
        }
    }
}

} // verus!
