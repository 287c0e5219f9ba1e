//! Per-node attribute records, and the join that rebuilds cliques of vertex
//! identifiers as cliques of records.

use vstd::prelude::*;

verus! {

/// The statistics kept for one node of the network.
#[derive(Debug, Clone, Copy, PartialEq, Eq, Structural, Hash)]
pub struct NodeStats {
    pub new_id: u32,
    pub views: u32,
    pub mature: bool,
    pub partner: bool,
}

/// The first record of `stats` whose `new_id` is `id`, if any.
pub open spec fn first_match(stats: Seq<NodeStats>, id: u32) -> Option<NodeStats>
    decreases stats.len(),
{
    if stats.len() == 0 {
        None
    } else if stats[0].new_id == id {
        Some(stats[0])
    } else {
        first_match(stats.drop_first(), id)
    }
}

/// One clique of identifiers turned into records: each identifier becomes its
/// first matching record, in clique order; one without a match is dropped.
pub open spec fn joined_clique(stats: Seq<NodeStats>, ids: Seq<u32>) -> Seq<NodeStats>
    decreases ids.len(),
{
    if ids.len() == 0 {
        Seq::empty()
    } else {
        let rest = joined_clique(stats, ids.drop_last());
        match first_match(stats, ids.last()) {
            Some(n) => rest.push(n),
            None => rest,
        }
    }
}

proof fn lemma_first_match_at(stats: Seq<NodeStats>, id: u32, k: int)
    requires
        0 <= k < stats.len(),
        stats[k].new_id == id,
        forall|j: int| 0 <= j < k ==> stats[j].new_id != id,
    ensures
        first_match(stats, id) == Some(stats[k]),
    decreases k,
{
    if k == 0 {
    } else {
        assert(stats[0].new_id != id);
        assert(stats.drop_first()[k - 1] == stats[k]);
        lemma_first_match_at(stats.drop_first(), id, k - 1);
    }
}

proof fn lemma_first_match_none(stats: Seq<NodeStats>, id: u32)
    requires
        forall|j: int| 0 <= j < stats.len() ==> stats[j].new_id != id,
    ensures
        first_match(stats, id) is None,
    decreases stats.len(),
{
    if stats.len() == 0 {
    } else {
        assert(stats[0].new_id != id);
        lemma_first_match_none(stats.drop_first(), id);
    }
}

/// The first record with the wanted identifier, scanning front to back.
fn find_stat(stats: &Vec<NodeStats>, id: u32) -> (r: Option<NodeStats>)
    ensures
        r == first_match(stats@, id),
{
    let n: usize = stats.len();
    for t in 0..n
        invariant
            n == stats@.len(),
            forall|s: int| 0 <= s < t ==> stats@[s].new_id != id,
    {
        if stats[t].new_id == id {
            proof {
                lemma_first_match_at(stats@, id, t as int);
            }
            return Some(stats[t]);
        }
    }
    proof {
        lemma_first_match_none(stats@, id);
    }
    None
}

/// Rebuilds each clique of identifiers as a clique of records: every
/// identifier is replaced by the first record carrying it as `new_id`, and
/// identifiers without a record are dropped.
pub fn replace_u32_cliques(stats: &Vec<NodeStats>, cliques: &Vec<Vec<u32>>) -> (out: Vec<
    Vec<NodeStats>,
>)
    ensures
        out@.len() == cliques@.len(),
        forall|i: int|
            0 <= i < cliques@.len() ==> (#[trigger] out@[i])@ == joined_clique(
                stats@,
                cliques@[i]@,
            ),
{
    let n: usize = cliques.len();
    let mut out: Vec<Vec<NodeStats>> = Vec::new();
    for i in 0..n
        invariant
            n == cliques@.len(),
            out@.len() == i,
            forall|t: int|
                0 <= t < i ==> (#[trigger] out@[t])@ == joined_clique(stats@, cliques@[t]@),
    {
        let clique = &cliques[i];
        let m: usize = clique.len();
        let mut node_clique: Vec<NodeStats> = Vec::new();
        for j in 0..m
            invariant
                m == clique@.len(),
                node_clique@ == joined_clique(stats@, clique@.subrange(0, j as int)),
        {
            match find_stat(stats, clique[j]) {
                Some(node) => node_clique.push(node),
                None => {},
            }
            proof {
                let pre = clique@.subrange(0, j as int);
                let cur = clique@.subrange(0, j + 1);
                assert(cur.drop_last() =~= pre);
                assert(cur.last() == clique@[j as int]);
            }
        }
        proof {
            assert(clique@.subrange(0, m as int) =~= clique@);
        }
        out.push(node_clique);
    }
    out
}

} // verus!
