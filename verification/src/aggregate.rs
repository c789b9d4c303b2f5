//! The aggregator: the one cumulative frame tree a running tool keeps.
//! Every successfully parsed sample is merged into it exactly once; a
//! sample that cannot be merged leaves it untouched; a reset replaces it
//! with a bare sentinel root.

use vstd::prelude::*;
use crate::node::FlameGraphNode;
use crate::node::lemma_count_le_max;
use crate::node::lemma_count_reaches;
use crate::parse::block_count;
use crate::parse::parse_stack_trace;
use crate::split::spec_blocks;
use crate::split::spec_lines;
use crate::split::split_blocks;
use crate::split::split_lines;
use crate::split::view_blocks;
use crate::split::view_lines;

verus! {

broadcast use vstd::seq::group_seq_axioms, vstd::seq_lib::group_seq_lib_default, vstd::std_specs::vec::group_vec_axioms;

/// The per-thread blocks of a raw dump text.
pub open spec fn dump_blocks(text: Seq<char>) -> Seq<Seq<Seq<char>>> {
    spec_blocks(spec_lines(text))
}

/// The hit counts that the blocks from position `i` on contribute at a
/// path.
pub open spec fn sum_counts_from(blocks: Seq<Seq<Seq<char>>>, i: int, p: Seq<Seq<char>>) -> nat
    decreases blocks.len() - i,
{
    if i < 0 || i >= blocks.len() {
        0
    } else {
        block_count(blocks[i], p) + sum_counts_from(blocks, i + 1, p)
    }
}

/// The total hit count a raw dump text contributes at a path: the sum of
/// its blocks' contributions.
pub open spec fn dump_count(text: Seq<char>, p: Seq<Seq<char>>) -> nat {
    sum_counts_from(dump_blocks(text), 0, p)
}

/// Merging the whole dump into `root` overflows no hit count.
pub open spec fn dump_fits(root: FlameGraphNode, text: Seq<char>) -> bool {
    forall|p: Seq<Seq<char>>| root.count_at(p) + #[trigger] dump_count(text, p) <= u32::MAX
}

/// The owner of the cumulative frame tree.
#[derive(Debug)]
pub struct Aggregator {
    pub root: FlameGraphNode,
}

impl Aggregator {
    /// A fresh aggregator: a bare sentinel root, no samples yet.
    pub fn new() -> (r: Aggregator)
        ensures
            r.root.wf(),
            r.root.name@ == "Root"@,
            r.root.num == 0,
            r.root.children@.len() == 0,
            forall|p: Seq<Seq<char>>| #[trigger] r.root.count_at(p) == 0,
    {
        Aggregator { root: FlameGraphNode::new("Root", 0) }
    }

    /// A copy of the cumulative tree, for rendering: same root name, same
    /// hit count at every path.
    pub fn snapshot(&self) -> (r: FlameGraphNode)
        requires
            self.root.wf(),
        ensures
            r.wf(),
            r.name@ == self.root.name@,
            forall|p: Seq<Seq<char>>| #[trigger] r.count_at(p) == self.root.count_at(p),
    {
        self.root.copy_tree()
    }

    /// Parse a raw dump text and merge every one of its thread blocks into
    /// the cumulative tree, as one atomic step: either every block's
    /// counts are added — exactly when no hit count would overflow — or
    /// the tree is left exactly as it was and `false` comes back.
    #[verifier::rlimit(30)]
    #[verifier::loop_isolation(false)]
    pub fn merge_dump(&mut self, text: &str) -> (ok: bool)
        requires
            old(self).root.wf(),
        ensures
            final(self).root.wf(),
            final(self).root.name@ == old(self).root.name@,
            ok == dump_fits(old(self).root, text@),
            ok ==> (forall|p: Seq<Seq<char>>|
                #[trigger] final(self).root.count_at(p) == old(self).root.count_at(p)
                    + dump_count(text@, p)),
            !ok ==> *final(self) == *old(self),
    {
        let lines = split_lines(text);
        let blocks = split_blocks(&lines);
        let ghost bv = view_blocks(blocks@);
        proof {
            assert(bv == dump_blocks(text@));
        }
        let mut sample = FlameGraphNode::new("Root", 0);
        let mut i: usize = 0;
        while i < blocks.len()
            invariant
                i <= blocks.len(),
                sample.wf(),
                bv == view_blocks(blocks@),
                bv == dump_blocks(text@),
                blocks@.len() == bv.len(),
                forall|p: Seq<Seq<char>>|
                    #[trigger] sample.count_at(p) + sum_counts_from(bv, i as int, p) == dump_count(
                        text@,
                        p,
                    ),
            decreases blocks.len() - i,
        {
            let bt = parse_stack_trace(&blocks[i]);
            proof {
                assert(bv[i as int] == view_lines(blocks@[i as int]@));
            }
            if !sample.can_merge(&bt) {
                proof {
                    let p = choose|p: Seq<Seq<char>>|
                        #[trigger] bt.reaches(p) && sample.count_at(p) + bt.count_at(p)
                            > u32::MAX;
                    assert(bt.reaches(p) && sample.count_at(p) + bt.count_at(p) > u32::MAX);
                    assert(sum_counts_from(bv, i as int, p) == block_count(bv[i as int], p)
                        + sum_counts_from(bv, i + 1 as int, p));
                    assert(dump_count(text@, p) >= sample.count_at(p) + bt.count_at(p));
                    assert(old(self).root.count_at(p) + dump_count(text@, p) > u32::MAX);
                    assert(!dump_fits(old(self).root, text@));
                }
                return false;
            }
            let ghost sample0 = sample;
            sample.merge(bt);
            proof {
                assert forall|p: Seq<Seq<char>>|
                    #[trigger] sample.count_at(p) + sum_counts_from(bv, i + 1 as int, p)
                        == dump_count(text@, p) by {
                    assert(sample0.count_at(p) + sum_counts_from(bv, i as int, p) == dump_count(
                        text@,
                        p,
                    ));
                    assert(sum_counts_from(bv, i as int, p) == block_count(bv[i as int], p)
                        + sum_counts_from(bv, i + 1 as int, p));
                    assert(sample.count_at(p) == sample0.count_at(p) + block_count(
                        bv[i as int],
                        p,
                    ));
                }
            }
            i = i + 1;
        }
        proof {
            assert(forall|p: Seq<Seq<char>>|
                #[trigger] sample.count_at(p) == dump_count(text@, p));
        }
        if !self.root.can_merge(&sample) {
            proof {
                let p = choose|p: Seq<Seq<char>>|
                    #[trigger] sample.reaches(p) && self.root.count_at(p) + sample.count_at(p)
                        > u32::MAX;
                assert(sample.reaches(p) && self.root.count_at(p) + sample.count_at(p)
                    > u32::MAX);
                assert(!dump_fits(old(self).root, text@));
            }
            return false;
        }
        proof {
            assert forall|p: Seq<Seq<char>>|
                old(self).root.count_at(p) + #[trigger] dump_count(text@, p)
                    <= u32::MAX by {
                if dump_count(text@, p) == 0 {
                    lemma_count_le_max(old(self).root, p);
                } else {
                    lemma_count_reaches(sample, p);
                    assert(sample.reaches(p));
                }
            }
        }
        self.root.merge(sample);
        true
    }
}

/// Reset the cumulative state: afterwards the tree is the bare sentinel
/// root again, with no children and count zero everywhere.
pub fn clear_jstack_info(agg: &mut Aggregator)
    ensures
        final(agg).root.wf(),
        final(agg).root.name@ == "Root"@,
        final(agg).root.num == 0,
        final(agg).root.children@.len() == 0,
        forall|p: Seq<Seq<char>>| #[trigger] final(agg).root.count_at(p) == 0,
{
    agg.root = FlameGraphNode::new("Root", 0);
}

} // verus!
