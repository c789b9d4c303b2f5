//! The single-trace parser: one thread's line group becomes a one-branch
//! frame tree `Root -> thread name -> innermost frame -> ... -> entry
//! frame`. Frame lines are inserted in reverse of dump order, so the tree
//! grows from the thread's current execution point back toward its entry
//! point. A block without a quoted thread name, and a block of an
//! infrastructure thread, contributes nothing; either way the block is
//! skipped and the scan of the other blocks goes on.

use vstd::prelude::*;
use crate::node::FlameGraphNode;
use crate::node::forest_count;
use crate::node::forest_has;
use crate::node::forest_idx;
use crate::normalize::frame_label;
use crate::normalize::frame_label_of;
use crate::normalize::header_name;
use crate::normalize::header_name_of;
use crate::normalize::is_frame_line;
use crate::normalize::is_infra_line;
use crate::normalize::is_infra_line_str;
use crate::split::view_lines;
use vstd::string::StringExecFns;

verus! {

broadcast use vstd::seq::group_seq_axioms, vstd::seq_lib::group_seq_lib_default, vstd::std_specs::vec::group_vec_axioms;

/// The canonical labels of the block's frame lines, innermost (last
/// printed) first; lines that are no call frames contribute nothing.
pub open spec fn block_frames(lines: Seq<Seq<char>>) -> Seq<Seq<char>>
    decreases lines.len(),
{
    if lines.len() <= 1 {
        Seq::<Seq<char>>::empty()
    } else {
        let rest = block_frames(lines.drop_last());
        if is_frame_line(lines.last()) {
            seq![frame_label(lines.last())] + rest
        } else {
            rest
        }
    }
}

/// Some line of the block names an infrastructure thread.
pub open spec fn has_infra(lines: Seq<Seq<char>>) -> bool {
    exists|i: int| 0 <= i < lines.len() && is_infra_line(#[trigger] lines[i])
}

/// The branch a block contributes: the thread's canonical name followed
/// by the frame labels in reverse dump order — or nothing, where the
/// header carries no quoted name or the block belongs to an
/// infrastructure thread.
pub open spec fn block_chain(lines: Seq<Seq<char>>) -> Option<Seq<Seq<char>>> {
    if lines.len() == 0 || has_infra(lines) {
        None
    } else {
        match header_name(lines[0]) {
            Some(n) => Some(seq![n] + block_frames(lines)),
            None => None,
        }
    }
}

/// The hit count a single parsed block carries at the given path below
/// the root: one on every prefix of the block's chain, zero elsewhere and
/// zero everywhere for a discarded block.
pub open spec fn block_count(lines: Seq<Seq<char>>, p: Seq<Seq<char>>) -> nat {
    match block_chain(lines) {
        Some(chain) => if p.len() <= chain.len() && p == chain.take(p.len() as int) {
            1nat
        } else {
            0nat
        },
        None => 0,
    }
}

/// The hit count below the head of a chain `c`: one on every prefix of
/// the chain's tail.
pub open spec fn chain_count(c: Seq<Seq<char>>, q: Seq<Seq<char>>) -> nat {
    if q.len() + 1 <= c.len() && q == c.skip(1).take(q.len() as int) {
        1nat
    } else {
        0nat
    }
}

/// A block whose header has no quoted thread name contributes nothing to
/// the tree, whatever its other lines hold; the block is dropped without
/// failing the parse of the rest of the dump.
pub proof fn lemma_headerless_block_adds_nothing(lines: Seq<Seq<char>>, p: Seq<Seq<char>>)
    requires
        lines.len() == 0 || header_name(lines[0]) is None,
    ensures
        block_count(lines, p) == 0,
{
}

/// Wrap the chain tree `acc` for chain `c` in one more node, labelled
/// `label`: the tree of the chain `label :: c`.
#[verifier::rlimit(30)]
fn chain_push(acc: Option<FlameGraphNode>, label: String, Ghost(c): Ghost<Seq<Seq<char>>>) -> (r:
    FlameGraphNode)
    requires
        match acc {
            None => c.len() == 0,
            Some(t) => c.len() > 0 && t.wf() && t.num == 1 && t.name@ == c[0] && (forall|
                q: Seq<Seq<char>>,
            |
                #[trigger] t.count_at(q) == chain_count(c, q)),
        },
    ensures
        r.wf(),
        r.num == 1,
        r.name@ == label@,
        forall|q: Seq<Seq<char>>| #[trigger] r.count_at(q) == chain_count(seq![label@] + c, q),
{
    let ghost lab = label@;
    let mut cs: Vec<FlameGraphNode> = Vec::new();
    match acc {
        None => {
        },
        Some(t) => {
            cs.push(t);
        },
    }
    let r = FlameGraphNode { name: label, num: 1, children: cs };
    proof {
        let nc = seq![lab] + c;
        assert(nc.skip(1) =~= c);
        assert forall|q: Seq<Seq<char>>| #[trigger] r.count_at(q) == chain_count(nc, q) by {
            if q.len() == 0 {
                assert(q =~= nc.skip(1).take(0));
                assert(chain_count(nc, q) == 1);
            } else {
                if c.len() == 0 {
                    assert(r.children@.len() == 0);
                    assert(!forest_has(r.children@, q[0]));
                    assert(r.count_at(q) == 0);
                    assert(chain_count(nc, q) == 0);
                } else {
                    let t = acc->Some_0;
                    assert(r.children@ =~= seq![t]);
                    if q[0] == c[0] {
                        assert(r.children@[0].name@ == q[0]);
                        assert(forest_has(r.children@, q[0]));
                        let i = forest_idx(r.children@, q[0]);
                        assert(0 <= i < 1);
                        assert(r.count_at(q) == t.count_at(q.skip(1)));
                        assert(t.count_at(q.skip(1)) == chain_count(c, q.skip(1)));
                        if q.skip(1).len() + 1 <= c.len() && q.skip(1) == c.skip(1).take(
                            q.skip(1).len() as int,
                        ) {
                            assert forall|j: int| 0 <= j < q.len() implies q[j] == c.take(
                                q.len() as int,
                            )[j] by {
                                if j > 0 {
                                    assert(q[j] == q.skip(1)[j - 1]);
                                    assert(q.skip(1)[j - 1] == c.skip(1).take(
                                        q.skip(1).len() as int,
                                    )[j - 1]);
                                    assert(c.skip(1)[j - 1] == c[j]);
                                }
                            }
                            assert(q =~= c.take(q.len() as int));
                            assert(chain_count(nc, q) == 1);
                        } else {
                            if q.len() <= c.len() && q == nc.skip(1).take(q.len() as int) {
                                assert(q == c.take(q.len() as int));
                                assert(q.skip(1) =~= c.skip(1).take(q.skip(1).len() as int));
                                assert(false);
                            }
                            assert(chain_count(nc, q) == 0);
                        }
                    } else {
                        if forest_has(r.children@, q[0]) {
                            let i = forest_idx(r.children@, q[0]);
                            assert(0 <= i < 1);
                            assert(r.children@[0].name@ == q[0]);
                            assert(false);
                        }
                        assert(r.count_at(q) == 0);
                        if q.len() <= c.len() && q == nc.skip(1).take(q.len() as int) {
                            assert(q[0] == c.take(q.len() as int)[0]);
                            assert(false);
                        }
                        assert(chain_count(nc, q) == 0);
                    }
                }
            }
        }
    }
    r
}

/// Parse one thread's line group into a one-branch tree under a fresh
/// sentinel root. The root counts one hit for an accepted block; a block
/// without a quoted thread name, or of an infrastructure thread, yields
/// the bare sentinel.
#[verifier::rlimit(30)]
pub fn parse_stack_trace(lines: &Vec<String>) -> (r: FlameGraphNode)
    ensures
        r.wf(),
        r.name@ == "Root"@,
        forall|p: Seq<Seq<char>>| #[trigger] r.count_at(p) == block_count(view_lines(lines@), p),
{
    let ghost lv = view_lines(lines@);
    if lines.len() == 0 {
        let r = FlameGraphNode::new("Root", 0);
        proof {
            assert(forall|p: Seq<Seq<char>>| #[trigger] block_count(lv, p) == 0);
        }
        return r;
    }
    let mut i: usize = 0;
    while i < lines.len()
        invariant
            i <= lines.len(),
            lv == view_lines(lines@),
            forall|j: int| 0 <= j < i ==> !is_infra_line(#[trigger] lv[j]),
        decreases lines.len() - i,
    {
        if is_infra_line_str(lines[i].as_str()) {
            let r = FlameGraphNode::new("Root", 0);
            proof {
                assert(is_infra_line(lv[i as int]));
                assert(has_infra(lv));
                assert(forall|p: Seq<Seq<char>>| #[trigger] block_count(lv, p) == 0);
            }
            return r;
        }
        i = i + 1;
    }
    proof {
        if has_infra(lv) {
            let j = choose|j: int| 0 <= j < lv.len() && is_infra_line(#[trigger] lv[j]);
            assert(!is_infra_line(lv[j]));
        }
    }
    let name = match header_name_of(lines[0].as_str()) {
        None => {
            let r = FlameGraphNode::new("Root", 0);
            proof {
                assert(lv[0] == lines@[0]@);
                assert(forall|p: Seq<Seq<char>>| #[trigger] block_count(lv, p) == 0);
            }
            return r;
        },
        Some(n) => n,
    };
    let mut acc: Option<FlameGraphNode> = None;
    let mut i: usize = 1;
    proof {
        assert(block_frames(lv.take(1)).len() == 0);
    }
    while i < lines.len()
        invariant
            1 <= i <= lines.len(),
            lv == view_lines(lines@),
            lines@.len() == lv.len(),
            match acc {
                None => block_frames(lv.take(i as int)).len() == 0,
                Some(t) => {
                    let c = block_frames(lv.take(i as int));
                    c.len() > 0 && t.wf() && t.num == 1 && t.name@ == c[0] && (forall|
                        q: Seq<Seq<char>>,
                    |
                        #[trigger] t.count_at(q) == chain_count(c, q))
                },
            },
        decreases lines.len() - i,
    {
        let ghost c_old = block_frames(lv.take(i as int));
        proof {
            assert(lv.take(i + 1 as int).drop_last() =~= lv.take(i as int));
            assert(lv.take(i + 1 as int).last() == lv[i as int]);
            assert(lv[i as int] == lines@[i as int]@);
        }
        match frame_label_of(lines[i].as_str()) {
            None => {
                proof {
                    assert(block_frames(lv.take(i + 1 as int)) == c_old);
                }
            },
            Some(lab) => {
                proof {
                    assert(block_frames(lv.take(i + 1 as int)) == seq![frame_label(lv[i as int])]
                        + c_old);
                    assert(lab@ == frame_label(lv[i as int]));
                }
                let nn = chain_push(acc, lab, Ghost(c_old));
                proof {
                    let nc = block_frames(lv.take(i + 1 as int));
                    assert(nc =~= seq![lab@] + c_old);
                    assert(nc.len() > 0 && nn.name@ == nc[0]);
                }
                acc = Some(nn);
            },
        }
        i = i + 1;
    }
    proof {
        assert(lv.take(lv.len() as int) =~= lv);
    }
    let ghost frames = block_frames(lv);
    let ghost nm = name@;
    let tn = chain_push(acc, name, Ghost(frames));
    let mut rcs: Vec<FlameGraphNode> = Vec::new();
    rcs.push(tn);
    let r = FlameGraphNode { name: new_root_name(), num: 1, children: rcs };
    proof {
        let chain = seq![nm] + frames;
        assert(block_chain(lv) == Some(chain));
        assert(r.children@ =~= seq![tn]);
        assert(r.wf());
        assert forall|p: Seq<Seq<char>>| #[trigger] r.count_at(p) == block_count(lv, p) by {
            if p.len() == 0 {
                assert(p =~= chain.take(0));
                assert(block_count(lv, p) == 1);
            } else {
                if p[0] == nm {
                    assert(r.children@[0].name@ == p[0]);
                    assert(forest_has(r.children@, p[0]));
                    let i2 = forest_idx(r.children@, p[0]);
                    assert(0 <= i2 < 1);
                    assert(r.count_at(p) == tn.count_at(p.skip(1)));
                    assert(tn.count_at(p.skip(1)) == chain_count(chain, p.skip(1)));
                    if p.skip(1).len() + 1 <= chain.len() && p.skip(1) == chain.skip(1).take(
                        p.skip(1).len() as int,
                    ) {
                        assert forall|j: int| 0 <= j < p.len() implies p[j] == chain.take(
                            p.len() as int,
                        )[j] by {
                            if j > 0 {
                                assert(p[j] == p.skip(1)[j - 1]);
                                assert(p.skip(1)[j - 1] == chain.skip(1).take(
                                    p.skip(1).len() as int,
                                )[j - 1]);
                                assert(chain.skip(1)[j - 1] == chain[j]);
                            }
                        }
                        assert(p =~= chain.take(p.len() as int));
                        assert(block_count(lv, p) == 1);
                    } else {
                        if p.len() <= chain.len() && p == chain.take(p.len() as int) {
                            assert(p.skip(1) =~= chain.skip(1).take(p.skip(1).len() as int));
                            assert(false);
                        }
                        assert(block_count(lv, p) == 0);
                    }
                } else {
                    if forest_has(r.children@, p[0]) {
                        let i2 = forest_idx(r.children@, p[0]);
                        assert(0 <= i2 < 1);
                        assert(false);
                    }
                    assert(r.count_at(p) == 0);
                    if p.len() <= chain.len() && p == chain.take(p.len() as int) {
                        assert(p[0] == chain.take(p.len() as int)[0]);
                        assert(false);
                    }
                    assert(block_count(lv, p) == 0);
                }
            }
        }
    }
    r
}

/// A fresh owned copy of the sentinel root's name.
fn new_root_name() -> (r: String)
    ensures
        r@ == "Root"@,
{
    let r = String::new();
    let mut r = r;
    r.append("Root");
    proof {
        assert(Seq::<char>::empty() + "Root"@ =~= "Root"@);
    }
    r
}

} // verus!
