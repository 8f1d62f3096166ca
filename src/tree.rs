//! The tree of discovered files, for display.
//!
//! A node keeps every entry below it in one sorted list, keyed by the path
//! from the node down to the entry; its children are derived from that list.
use vstd::prelude::*;

use crate::files::{strip_dot_prefix, FileMeta, ReadStatus};
use crate::path::{
    lemma_path_lt_irreflexive, lemma_sorted_insert, locate, path_lt, path_views,
    strictly_sorted, PathName,
};
use crate::text::decimal;

verus! {

/// A node of the file tree: a directory or a file.
pub struct FiletreeNode {
    name: String,
    meta: Option<FileMeta>,
    paths: Vec<PathName>,
    metas: Vec<Option<FileMeta>>,
    known: Ghost<Map<Seq<Seq<char>>, Option<MetaView>>>,
}

/// What the tree shows of a file's record: its path and how it was read.
pub type MetaView = (Seq<Seq<char>>, ReadStatus);

/// The view of an optional record.
pub open spec fn meta_view(m: Option<FileMeta>) -> Option<MetaView> {
    match m {
        Some(f) => Some((f.path@, f.read_status)),
        None => None,
    }
}

/// The entries that inserting `comps` adds where they are missing: each
/// proper prefix as a directory, and `comps` itself with `meta`.
pub open spec fn path_entries(comps: Seq<Seq<char>>, meta: Option<MetaView>) -> Map<Seq<Seq<char>>, Option<MetaView>> {
    Map::new(
        |q: Seq<Seq<char>>| 1 <= q.len() <= comps.len() && q == comps.subrange(0, q.len() as int),
        |q: Seq<Seq<char>>| if q.len() == comps.len() {
            meta
        } else {
            None
        },
    )
}

impl FiletreeNode {
    /// The node's name.
    pub closed spec fn spec_name(&self) -> Seq<char> {
        self.name@
    }

    /// The node's own record, for a file.
    pub closed spec fn spec_meta(&self) -> Option<MetaView> {
        meta_view(self.meta)
    }

    /// Every entry below the node, by its path from the node.
    pub closed spec fn entries(&self) -> Map<Seq<Seq<char>>, Option<MetaView>> {
        self.known@
    }

    /// The list of entries is sorted and agrees with `entries`.
    pub closed spec fn wf(&self) -> bool {
        &&& self.paths.len() == self.metas.len()
        &&& strictly_sorted(path_views(self.paths@))
        &&& forall|q: Seq<Seq<char>>| #[trigger] self.known@.contains_key(q) <==> exists|i: int|
            0 <= i < self.paths.len() && self.paths@[i]@ == q
        &&& forall|i: int| 0 <= i < self.paths.len() ==> self.known@[#[trigger] self.paths@[i]@] == meta_view(self.metas@[i])
    }

    /// A node with nothing below it.
    pub fn new(name: &str, meta: Option<FileMeta>) -> (r: FiletreeNode)
        ensures
            r.wf(),
            r.spec_name() == name@,
            r.spec_meta() == meta_view(meta),
            r.entries() == Map::<Seq<Seq<char>>, Option<MetaView>>::empty(),
    {
        let r = FiletreeNode {
            name: name.to_owned(),
            meta,
            paths: Vec::new(),
            metas: Vec::new(),
            known: Ghost(Map::empty()),
        };
        assert(r.known@ =~= Map::<Seq<Seq<char>>, Option<MetaView>>::empty());
        r
    }

    /// The node's name.
    pub fn name(&self) -> (r: &str)
        ensures
            r@ == self.spec_name(),
    {
        self.name.as_str()
    }

    /// The node's own record, for a file.
    pub fn meta(&self) -> (r: &Option<FileMeta>)
        ensures
            meta_view(*r) == self.spec_meta(),
    {
        &self.meta
    }

    /// Adds one entry unless it is there already.
    fn add_entry(&mut self, q: PathName, meta: Option<FileMeta>)
        requires
            old(self).wf(),
        ensures
            final(self).wf(),
            final(self).spec_name() == old(self).spec_name(),
            final(self).spec_meta() == old(self).spec_meta(),
            old(self).entries().contains_key(q@) ==> final(self).entries() == old(self).entries(),
            !old(self).entries().contains_key(q@) ==> final(self).entries() == old(self).entries().insert(q@, meta_view(meta)),
    {
        match locate(&self.paths, &q) {
            Ok(k) => {
                assert(self.known@.contains_key(self.paths@[k as int]@));
            },
            Err(k) => {
                let ghost old_paths = self.paths@;
                let ghost old_metas = self.metas@;
                let ghost old_known = self.known@;
                let ghost qv = q@;
                proof {
                    assert forall|i: int| 0 <= i < k implies path_lt(#[trigger] path_views(old_paths)[i], qv) by {
                        assert(path_views(old_paths)[i] == old_paths[i]@);
                    }
                    assert forall|i: int| k <= i < path_views(old_paths).len() implies path_lt(qv, #[trigger] path_views(old_paths)[i]) by {
                        assert(path_views(old_paths)[i] == old_paths[i]@);
                    }
                    lemma_sorted_insert(path_views(old_paths), k as int, qv);
                    assert(path_views(old_paths).insert(k as int, qv) =~= path_views(old_paths.insert(k as int, q)));
                    assert forall|i: int| 0 <= i < old_paths.len() implies old_paths[i]@ != qv by {
                        lemma_path_lt_irreflexive(qv);
                    }
                    assert(!old_known.contains_key(qv));
                }
                self.paths.insert(k, q);
                self.metas.insert(k, meta);
                self.known = Ghost(old_known.insert(qv, meta_view(meta)));
                proof {
                    assert forall|i: int| 0 <= i < self.paths.len() implies self.known@[#[trigger] self.paths@[i]@] == meta_view(self.metas@[i]) by {
                        if i < k {
                            assert(self.metas@[i] == old_metas[i] && self.paths@[i] == old_paths[i]);
                        } else if i > k {
                            assert(self.metas@[i] == old_metas[i - 1] && self.paths@[i] == old_paths[i - 1]);
                        }
                    }
                    assert forall|e: Seq<Seq<char>>| #[trigger] self.known@.contains_key(e) <==> exists|i: int|
                        0 <= i < self.paths.len() && self.paths@[i]@ == e by {
                        if self.known@.contains_key(e) {
                            if e == qv {
                                assert(self.paths@[k as int]@ == e);
                            } else {
                                let j = choose|j: int| 0 <= j < old_paths.len() && old_paths[j]@ == e;
                                if j < k {
                                    assert(self.paths@[j] == old_paths[j]);
                                } else {
                                    assert(self.paths@[j + 1] == old_paths[j]);
                                }
                            }
                        }
                        if exists|i: int| 0 <= i < self.paths.len() && self.paths@[i]@ == e {
                            let i = choose|i: int| 0 <= i < self.paths.len() && self.paths@[i]@ == e;
                            if i < k {
                                assert(self.paths@[i] == old_paths[i]);
                            } else if i > k {
                                assert(self.paths@[i] == old_paths[i - 1]);
                            }
                        }
                    }
                }
            },
        }
    }

    /// Adds the file at `components` below this node with its record, and
    /// each directory on the way to it; entries already there are kept.
    pub fn insert_path(&mut self, components: &Vec<String>, meta: Option<FileMeta>)
        requires
            old(self).wf(),
        ensures
            final(self).wf(),
            final(self).spec_name() == old(self).spec_name(),
            final(self).spec_meta() == old(self).spec_meta(),
            final(self).entries() == path_entries(crate::path::views(components@), meta_view(meta)).union_prefer_right(
                old(self).entries(),
            ),
    {
        let ghost comps = crate::path::views(components@);
        let ghost start = self.entries();
        let mut prefix = PathName::empty();
        let mut k: usize = 0;
        while k < components.len()
            invariant
                self.wf(),
                self.spec_name() == old(self).spec_name(),
                self.spec_meta() == old(self).spec_meta(),
                start == old(self).entries(),
                comps == crate::path::views(components@),
                k <= components.len(),
                prefix@ == comps.subrange(0, k as int),
                self.entries() == path_entries(comps, meta_view(meta)).restrict(
                    Set::new(|q: Seq<Seq<char>>| q.len() <= k),
                ).union_prefer_right(start),
            decreases components.len() - k,
        {
            prefix = prefix.join(components[k].as_str());
            let entry_meta = if k + 1 == components.len() {
                clone_meta(&meta)
            } else {
                None
            };
            let ghost before = self.entries();
            self.add_entry(prefix.duplicate(), entry_meta);
            proof {
                assert(prefix@ =~= comps.subrange(0, k + 1));
                let lhs = self.entries();
                let rhs = path_entries(comps, meta_view(meta)).restrict(Set::new(|q: Seq<Seq<char>>| q.len() <= k + 1)).union_prefer_right(start);
                assert(path_entries(comps, meta_view(meta)).contains_key(prefix@));
                assert(lhs =~= rhs);
            }
            k += 1;
        }
        proof {
            assert(path_entries(comps, meta_view(meta)).restrict(Set::new(|q: Seq<Seq<char>>| q.len() <= components.len()))
                =~= path_entries(comps, meta_view(meta)));
        }
    }
}

/// The entries below the child `name` of a node with entries `e`, by their
/// path from that child.
pub open spec fn subtree_entries(e: Map<Seq<Seq<char>>, Option<MetaView>>, name: Seq<char>) -> Map<Seq<Seq<char>>, Option<MetaView>> {
    Map::new(
        |q: Seq<Seq<char>>| q.len() >= 1 && e.contains_key(seq![name] + q),
        |q: Seq<Seq<char>>| e[seq![name] + q],
    )
}

/// The label of a file node: its name, and what became of the file.
pub open spec fn file_label(name: Seq<char>, status: ReadStatus) -> Seq<char> {
    match status {
        ReadStatus::ExcludedExplicitly => name + " (excluded)"@,
        ReadStatus::ExcludedBinaryDetected => name + " (auto-excluded, binary detected)"@,
        ReadStatus::Read => name,
        ReadStatus::TokenCounted(n) => name + " ("@ + decimal(n as nat) + " tokens)"@,
    }
}

/// The entries of a tree built from file records: each record's path,
/// without a leading `./`, with the record, and the directories on the way;
/// an earlier record keeps its place.
pub open spec fn tree_entries(metas: Seq<FileMeta>) -> Map<Seq<Seq<char>>, Option<MetaView>>
    decreases metas.len(),
{
    if metas.len() == 0 {
        Map::empty()
    } else {
        path_entries(
            crate::files::without_dot(metas.last().path@),
            Some((metas.last().path@, metas.last().read_status)),
        ).union_prefer_right(tree_entries(metas.drop_last()))
    }
}

impl FiletreeNode {
    /// The node's label: its name, and for a file what became of it.
    pub fn label(&self) -> (r: String)
        ensures
            r@ == match self.spec_meta() {
                Some(m) => file_label(self.spec_name(), m.1),
                None => self.spec_name(),
            },
    {
        let mut text = self.name.clone();
        match &self.meta {
            Some(meta) => {
                match meta.read_status {
                    ReadStatus::ExcludedExplicitly => {
                        text.append(" (excluded)");
                    },
                    ReadStatus::ExcludedBinaryDetected => {
                        text.append(" (auto-excluded, binary detected)");
                    },
                    ReadStatus::Read => {},
                    ReadStatus::TokenCounted(n) => {
                        text.append(" (");
                        text.append(crate::text::decimal_text(n).as_str());
                        text.append(" tokens)");
                    },
                }
            },
            None => {},
        }
        text
    }

    /// The children of the node, in order of their names: one for each
    /// entry right below it, holding the entries below that one.
    pub fn children(&self) -> (r: Vec<FiletreeNode>)
        requires
            self.wf(),
        ensures
            forall|q: Seq<Seq<char>>|
                q.len() == 1 && #[trigger] self.entries().contains_key(q) ==> exists|i: int|
                    0 <= i < r.len() && r@[i].spec_name() == q[0],
            forall|i: int|
                0 <= i < r.len() ==> {
                    let c = #[trigger] r@[i];
                    &&& c.wf()
                    &&& self.entries().contains_key(seq![c.spec_name()])
                    &&& c.spec_meta() == self.entries()[seq![c.spec_name()]]
                    &&& c.entries() == subtree_entries(self.entries(), c.spec_name())
                },
            forall|i: int, j: int|
                0 <= i < j < r.len() ==> path_lt(seq![(#[trigger] r@[i]).spec_name()], seq![(#[trigger] r@[j]).spec_name()]),
    {
        let mut out: Vec<FiletreeNode> = Vec::new();
        let n = self.paths.len();
        let mut i: usize = 0;
        let ghost mut from: Seq<int> = Seq::empty();
        while i < n
            invariant
                self.wf(),
                n == self.paths.len(),
                i <= n,
                from.len() == out.len(),
                forall|k: int| 0 <= k < from.len() ==> 0 <= #[trigger] from[k] < i && self.paths@[from[k]]@ == seq![out@[k].spec_name()],
                forall|a: int, b: int| 0 <= a < b < from.len() ==> #[trigger] from[a] < #[trigger] from[b],
                forall|m: int|
                    0 <= m < i && self.paths@[m]@.len() == 1 ==> exists|k: int|
                        0 <= k < out.len() && out@[k].spec_name() == (#[trigger] self.paths@[m])@[0],
                forall|k: int|
                    0 <= k < out.len() ==> {
                        let c = #[trigger] out@[k];
                        &&& c.wf()
                        &&& self.entries().contains_key(seq![c.spec_name()])
                        &&& c.spec_meta() == self.entries()[seq![c.spec_name()]]
                        &&& c.entries() == subtree_entries(self.entries(), c.spec_name())
                    },
            decreases n - i,
        {
            if self.paths[i].component_count() == 1 {
                let name = &self.paths[i].parts[0];
                let ghost nv = name@;
                assert(self.paths@[i as int]@ =~= seq![nv]);
                let mut child = FiletreeNode::new(name.as_str(), clone_meta(&self.metas[i]));
                let mut j: usize = 0;
                while j < n
                    invariant
                        self.wf(),
                        n == self.paths.len(),
                        j <= n,
                        i < n,
                        self.paths@[i as int]@ == seq![nv],
                        name@ == nv,
                        forall|m: int|
                            0 <= m < i && self.paths@[m]@.len() == 1 ==> exists|k: int|
                                0 <= k < out.len() && out@[k].spec_name() == (#[trigger] self.paths@[m])@[0],
                        forall|k: int|
                            0 <= k < out.len() ==> {
                                let c = #[trigger] out@[k];
                                &&& c.wf()
                                &&& self.entries().contains_key(seq![c.spec_name()])
                                &&& c.spec_meta() == self.entries()[seq![c.spec_name()]]
                                &&& c.entries() == subtree_entries(self.entries(), c.spec_name())
                            },
                        child.spec_meta() == meta_view(self.metas@[i as int]),
                        child.wf(),
                        child.spec_name() == nv,
                        forall|q: Seq<Seq<char>>| #[trigger] child.entries().contains_key(q) <==> (q.len() >= 1
                            && exists|m: int| 0 <= m < j && self.paths@[m]@ == seq![nv] + q),
                        forall|q: Seq<Seq<char>>| #[trigger] child.entries().contains_key(q) ==> child.entries()[q]
                            == self.entries()[seq![nv] + q],
                    decreases n - j,
                {
                    let p = &self.paths[j];
                    let long = p.component_count() > 1;
                    let same = long && crate::path::same_text(p.parts[0].as_str(), name.as_str());
                    proof {
                        if long {
                            assert(p.parts@[0]@ == p@[0]);
                            assert(same == (p@[0] == nv));
                        }
                    }
                    if same {
                        let rest = p.skip(1);
                        proof {
                            assert(p.parts@[0]@ == p@[0]);
                            assert(p@ =~= seq![nv] + rest@);
                            assert forall|m: int| 0 <= m < j implies self.paths@[m]@ != p@ by {
                                assert(path_lt(path_views(self.paths@)[m], path_views(self.paths@)[j as int]));
                                lemma_path_lt_irreflexive(p@);
                            }
                            assert(!child.entries().contains_key(rest@)) by {
                                if child.entries().contains_key(rest@) {
                                    let m = choose|m: int| 0 <= m < j && self.paths@[m]@ == seq![nv] + rest@;
                                }
                            }
                            assert(self.entries()[p@] == meta_view(self.metas@[j as int]));
                        }
                        child.add_entry(rest, clone_meta(&self.metas[j]));
                        proof {
                            assert forall|q: Seq<Seq<char>>| #[trigger] child.entries().contains_key(q) <==> (q.len() >= 1
                                && exists|m: int| 0 <= m < j + 1 && self.paths@[m]@ == seq![nv] + q) by {
                                if q == rest@ {
                                    assert(self.paths@[j as int]@ == seq![nv] + q);
                                } else if q.len() >= 1 && exists|m: int| 0 <= m < j + 1 && self.paths@[m]@ == seq![nv] + q {
                                    let m = choose|m: int| 0 <= m < j + 1 && self.paths@[m]@ == seq![nv] + q;
                                    if m == j {
                                        assert((seq![nv] + q).subrange(1, (seq![nv] + q).len() as int) =~= q);
                                        assert((seq![nv] + rest@).subrange(1, (seq![nv] + rest@).len() as int) =~= rest@);
                                    }
                                }
                            }
                        }
                    } else {
                        proof {
                            assert forall|q: Seq<Seq<char>>| #[trigger] child.entries().contains_key(q) <==> (q.len() >= 1
                                && exists|m: int| 0 <= m < j + 1 && self.paths@[m]@ == seq![nv] + q) by {
                                if q.len() >= 1 && exists|m: int| 0 <= m < j + 1 && self.paths@[m]@ == seq![nv] + q {
                                    let m = choose|m: int| 0 <= m < j + 1 && self.paths@[m]@ == seq![nv] + q;
                                    if m == j {
                                        assert(p@ == seq![nv] + q);
                                        assert(p@[0] == nv);
                                        assert(p@.len() > 1);
                                    }
                                }
                            }
                        }
                    }
                    j += 1;
                }
                proof {
                    assert(child.entries() =~= subtree_entries(self.entries(), nv)) by {
                        assert forall|q: Seq<Seq<char>>| #[trigger] subtree_entries(self.entries(), nv).contains_key(q)
                            implies child.entries().contains_key(q) by {
                            let e = seq![nv] + q;
                            assert(self.entries().contains_key(e));
                            let m = choose|m: int| 0 <= m < self.paths.len() && self.paths@[m]@ == e;
                        }
                    }
                    assert(self.entries()[self.paths@[i as int]@] == meta_view(self.metas@[i as int]));
                    assert(self.entries().contains_key(self.paths@[i as int]@));
                }
                let ghost before = out@;
                out.push(child);
                proof {
                    assert(out@[out.len() - 1].spec_name() == self.paths@[i as int]@[0]);
                    assert forall|k: int| 0 <= k < before.len() implies out@[k] == before[k] by {}
                    from = from.push(i as int);
                }
            }
            i += 1;
        }
        proof {
            assert forall|q: Seq<Seq<char>>|
                q.len() == 1 && #[trigger] self.entries().contains_key(q) implies exists|i: int|
                    0 <= i < out.len() && out@[i].spec_name() == q[0] by {
                let m = choose|m: int| 0 <= m < self.paths.len() && self.paths@[m]@ == q;
                assert(self.paths@[m]@.len() == 1);
            }
            assert forall|a: int, b: int|
                0 <= a < b < out.len() implies path_lt(seq![(#[trigger] out@[a]).spec_name()], seq![(#[trigger] out@[b]).spec_name()]) by {
                assert(from[a] < from[b]);
                assert(path_lt(path_views(self.paths@)[from[a]], path_views(self.paths@)[from[b]]));
            }
        }
        out
    }

    /// The tree of the given file records, under a root named `.`.
    pub fn from_metas(metas: &Vec<FileMeta>) -> (r: FiletreeNode)
        ensures
            r.wf(),
            r.spec_name() == "."@,
            r.spec_meta() is None,
            r.entries() == tree_entries(metas@),
    {
        let mut root = FiletreeNode::new(".", None);
        let mut i: usize = 0;
        while i < metas.len()
            invariant
                i <= metas.len(),
                root.wf(),
                root.spec_name() == "."@,
                root.spec_meta() is None,
                root.entries() == tree_entries(metas@.subrange(0, i as int)),
            decreases metas.len() - i,
        {
            let path = strip_dot_prefix(&metas[i].path);
            root.insert_path(&path.parts, Some(metas[i].duplicate()));
            proof {
                let s = metas@.subrange(0, i + 1);
                assert(s.drop_last() =~= metas@.subrange(0, i as int));
                assert(s.last() == metas@[i as int]);
            }
            i += 1;
        }
        assert(metas@.subrange(0, metas.len() as int) =~= metas@);
        root
    }
}

/// A copy of an optional record.
fn clone_meta(meta: &Option<FileMeta>) -> (r: Option<FileMeta>)
    ensures
        meta_view(r) == meta_view(*meta),
{
    match meta {
        Some(m) => Some(m.duplicate()),
        None => None,
    }
}

} // verus!
