//! Locating the project configuration file.
use vstd::prelude::*;

use crate::path::{path_views, root_part, PathName};

verus! {

/// The project configuration. It holds no settings yet.
#[derive(Debug, Default)]
pub struct PromptConfig {}

/// A path, then each of its parents in turn, as `Path::parent` gives them.
pub open spec fn ancestors(p: Seq<Seq<char>>) -> Seq<Seq<Seq<char>>>
    decreases p.len(),
{
    if p.len() > 0 && p.last() != root_part() {
        seq![p] + ancestors(p.drop_last())
    } else {
        seq![p]
    }
}

/// Where a configuration file is looked for below a directory.
pub open spec fn config_below(dir: Seq<Seq<char>>) -> Seq<Seq<char>> {
    dir + seq![".prompt"@, "config.toml"@]
}

/// The places a configuration file is looked for, nearest first: below
/// `start`, then below each of its parents.
pub open spec fn config_places(start: Seq<Seq<char>>) -> Seq<Seq<Seq<char>>> {
    ancestors(start).map_values(|d: Seq<Seq<char>>| config_below(d))
}

/// The places a configuration file is looked for, nearest first.
pub fn config_candidates(start: &PathName) -> (r: Vec<PathName>)
    ensures
        path_views(r@) == config_places(start@),
{
    let mut out: Vec<PathName> = Vec::new();
    let mut current = start.duplicate();
    let ghost visited: Seq<Seq<Seq<char>>> = Seq::empty();
    loop
        invariant
            ancestors(start@) == visited + ancestors(current@),
            path_views(out@) == visited.map_values(|d: Seq<Seq<char>>| config_below(d)),
        decreases current@.len(),
    {
        let candidate = current.join(".prompt").join("config.toml");
        proof {
            reveal_strlit(".prompt");
            reveal_strlit("config.toml");
            assert(candidate@ =~= config_below(current@));
        }
        let ghost before = out@;
        out.push(candidate);
        proof {
            assert(path_views(out@) =~= path_views(before).push(candidate@));
            assert(visited.push(current@).map_values(|d: Seq<Seq<char>>| config_below(d)) =~= visited.map_values(
                |d: Seq<Seq<char>>| config_below(d),
            ).push(config_below(current@)));
        }
        match current.parent() {
            Some(parent) => {
                proof {
                    assert(ancestors(current@) == seq![current@] + ancestors(parent@));
                    assert(visited + ancestors(current@) =~= visited.push(current@) + ancestors(parent@));
                    visited = visited.push(current@);
                }
                current = parent;
            },
            None => {
                proof {
                    assert(ancestors(current@) == seq![current@]);
                    assert(visited + ancestors(current@) =~= visited.push(current@));
                    visited = visited.push(current@);
                }
                assert(ancestors(start@) == visited);
                return out;
            },
        }
    }
}

/// The first place, nearest first, where a configuration file exists.
pub open spec fn first_existing(places: Seq<Seq<Seq<char>>>, exists: Seq<bool>) -> Option<Seq<Seq<char>>>
    decreases places.len(),
{
    if places.len() == 0 || exists.len() == 0 {
        None
    } else if exists[0] {
        Some(places[0])
    } else {
        first_existing(places.drop_first(), exists.drop_first())
    }
}

/// The configuration file that applies from `start`: the nearest of the
/// candidates, given whether each exists.
pub fn find_config_path(candidates: &Vec<PathName>, exists: &Vec<bool>) -> (r: Option<PathName>)
    ensures
        match r {
            Some(p) => first_existing(path_views(candidates@), exists@) == Some(p@),
            None => first_existing(path_views(candidates@), exists@) is None,
        },
{
    let mut i: usize = 0;
    assert(path_views(candidates@).subrange(0, candidates.len() as int) =~= path_views(candidates@));
    assert(exists@.subrange(0, exists.len() as int) =~= exists@);
    while i < candidates.len() && i < exists.len()
        invariant
            i <= candidates.len(),
            i <= exists.len(),
            first_existing(path_views(candidates@), exists@) == first_existing(
                path_views(candidates@).subrange(i as int, candidates.len() as int),
                exists@.subrange(i as int, exists.len() as int),
            ),
        decreases candidates.len() - i,
    {
        let ghost ps = path_views(candidates@).subrange(i as int, candidates.len() as int);
        let ghost es = exists@.subrange(i as int, exists.len() as int);
        assert(ps[0] == candidates@[i as int]@);
        if exists[i] {
            return Some(candidates[i].duplicate());
        }
        assert(ps.drop_first() =~= path_views(candidates@).subrange(i + 1, candidates.len() as int));
        assert(es.drop_first() =~= exists@.subrange(i + 1, exists.len() as int));
        i += 1;
    }
    assert(path_views(candidates@).subrange(i as int, candidates.len() as int).len() == 0 || exists@.subrange(
        i as int,
        exists.len() as int,
    ).len() == 0);
    None
}

} // verus!
