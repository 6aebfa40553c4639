//! Control-flow analysis: the edges between the basic blocks of a function.
use vstd::prelude::*;

use crate::cil::{CilBlock, CilFile, CilInst, CilLabel, CilMethod};
use crate::parsers::disasm::{block_offsets, decoded_at, is_disassembly, jumps_to, lowers_to, trace};
use crate::parsers::decode::spec_decode;

verus! {

/// The arcs `(src, dst)` of the branches among `insts`, in order, leaving block `src`.
pub open spec fn inst_arcs(src: CilLabel, insts: Seq<CilInst>) -> Seq<(CilLabel, CilLabel)>
    decreases insts.len(),
{
    if insts.len() == 0 {
        seq![]
    } else {
        let rest = inst_arcs(src, insts.drop_last());
        match insts.last() {
            CilInst::Branch(_, dst) => rest.push((src, dst)),
            _ => rest,
        }
    }
}

/// The arcs of the branches of all blocks, block by block, each leaving its block's label.
pub open spec fn block_arcs(blocks: Seq<CilBlock>) -> Seq<(CilLabel, CilLabel)>
    decreases blocks.len(),
{
    if blocks.len() == 0 {
        seq![]
    } else {
        block_arcs(blocks.drop_last()) + inst_arcs(blocks.last().label, blocks.last().insts@)
    }
}

/// The targets, in order, of the arcs that leave the block with index `b`.
pub open spec fn arc_targets(arcs: Seq<(CilLabel, CilLabel)>, b: int) -> Seq<CilLabel>
    decreases arcs.len(),
{
    if arcs.len() == 0 {
        seq![]
    } else {
        let rest = arc_targets(arcs.drop_last(), b);
        if arcs.last().0.spec_index() == b {
            rest.push(arcs.last().1)
        } else {
            rest
        }
    }
}

/// The sources, in order, of the arcs that enter the block with index `b`.
pub open spec fn arc_sources(arcs: Seq<(CilLabel, CilLabel)>, b: int) -> Seq<CilLabel>
    decreases arcs.len(),
{
    if arcs.len() == 0 {
        seq![]
    } else {
        let rest = arc_sources(arcs.drop_last(), b);
        if arcs.last().1.spec_index() == b {
            rest.push(arcs.last().0)
        } else {
            rest
        }
    }
}

/// Every block's label, and every label that a branch names, is the index of a block.
pub open spec fn labels_in_range(blocks: Seq<CilBlock>) -> bool {
    forall|i: int|
        #![trigger blocks[i]]
        0 <= i < blocks.len() ==> 0 <= blocks[i].label.spec_index() < blocks.len() && forall|k: int|
            0 <= k < blocks[i].insts@.len() ==> (#[trigger] blocks[i].insts@[k] matches CilInst::Branch(
                _,
                l,
            ) ==> 0 <= l.spec_index() < blocks.len())
}

/// `after` is `before` with the arcs of `before` recorded: each block lists, after those it
/// had, the targets of the arcs that leave it and the sources of those that enter it.
pub open spec fn analyzed(before: Seq<CilBlock>, after: Seq<CilBlock>) -> bool {
    &&& after.len() == before.len()
    &&& forall|b: int|
        #![trigger after[b]]
        0 <= b < before.len() ==> after[b].label == before[b].label && after[b].offset
            == before[b].offset && after[b].insts@ == before[b].insts@ && after[b].outgoing@
            == before[b].outgoing@ + arc_targets(block_arcs(before), b) && after[b].incoming@
            == before[b].incoming@ + arc_sources(block_arcs(before), b)
}

proof fn lemma_inst_arcs_in_range(src: CilLabel, insts: Seq<CilInst>, n: int)
    requires
        0 <= src.spec_index() < n,
        forall|k: int|
            0 <= k < insts.len() ==> (#[trigger] insts[k] matches CilInst::Branch(_, l) ==> 0
                <= l.spec_index() < n),
    ensures
        forall|j: int|
            0 <= j < inst_arcs(src, insts).len() ==> 0 <= (#[trigger] inst_arcs(
                src,
                insts,
            )[j]).0.spec_index() < n && 0 <= inst_arcs(src, insts)[j].1.spec_index() < n,
    decreases insts.len(),
{
    if insts.len() > 0 {
        let pre = insts.drop_last();
        assert forall|k: int| 0 <= k < pre.len() implies (#[trigger] pre[k] matches CilInst::Branch(_, l) ==> 0
                <= l.spec_index() < n) by {
            assert(pre[k] == insts[k]);
        }
        lemma_inst_arcs_in_range(src, pre, n);
        let rest = inst_arcs(src, pre);
        let all = inst_arcs(src, insts);
        assert(insts.last() == insts[insts.len() - 1]);
        assert forall|j: int| 0 <= j < all.len() implies 0 <= (#[trigger] all[j]).0.spec_index() < n && 0 <= all[j].1.spec_index() < n by {
            if j < rest.len() {
                assert(all[j] == rest[j]);
            }
        }
    }
}

proof fn lemma_block_arcs_in_range(blocks: Seq<CilBlock>, m: int, n: int)
    requires
        0 <= m <= blocks.len(),
        labels_in_range(blocks),
        n == blocks.len(),
    ensures
        forall|j: int|
            0 <= j < block_arcs(blocks.take(m)).len() ==> 0 <= (#[trigger] block_arcs(
                blocks.take(m),
            )[j]).0.spec_index() < n && 0 <= block_arcs(blocks.take(m))[j].1.spec_index() < n,
    decreases m,
{
    if m > 0 {
        let pre = blocks.take(m);
        assert(pre.drop_last() =~= blocks.take(m - 1));
        lemma_block_arcs_in_range(blocks, m - 1, n);
        let b = blocks[m - 1];
        assert(pre.last() == b);
        assert forall|k: int| 0 <= k < b.insts@.len() implies (#[trigger] b.insts@[k] matches CilInst::Branch(_, l) ==> 0
                <= l.spec_index() < n) by {
            assert(blocks[m - 1].insts@[k] == b.insts@[k]);
        }
        lemma_inst_arcs_in_range(b.label, b.insts@, n);
        let rest = block_arcs(blocks.take(m - 1));
        let mine = inst_arcs(b.label, b.insts@);
        let all = block_arcs(pre);
        assert(all == rest + mine);
        assert forall|j: int| 0 <= j < all.len() implies 0 <= (#[trigger] all[j]).0.spec_index() < n && 0 <= all[j].1.spec_index() < n by {
            if j < rest.len() {
                assert(all[j] == rest[j]);
            } else {
                assert(all[j] == mine[j - rest.len()]);
            }
        }
    }
}

/// Records the arcs of the branches of `blocks`: each branch from block `src` to block `dst`
/// adds `dst` to the outgoing labels of `src` and `src` to the incoming labels of `dst`.
pub fn analyze_arcs(blocks: &mut Vec<CilBlock>)
    requires
        labels_in_range(old(blocks)@),
    ensures
        analyzed(old(blocks)@, final(blocks)@),
{
    let ghost b0 = blocks@;
    let mut arcs: Vec<(CilLabel, CilLabel)> = Vec::new();
    let n = blocks.len();
    for bi in 0..n
        invariant
            n == blocks@.len(),
            blocks@ == b0,
            arcs@ == block_arcs(b0.take(bi as int)),
    {
        let src = blocks[bi].label;
        let m = blocks[bi].insts.len();
        let ghost before = arcs@;
        for k in 0..m
            invariant
                n == blocks@.len(),
                blocks@ == b0,
                bi < n,
                src == b0[bi as int].label,
                m == b0[bi as int].insts@.len(),
                arcs@ == before + inst_arcs(src, b0[bi as int].insts@.take(k as int)),
        {
            let ghost insts = b0[bi as int].insts@;
            assert(insts.take(k + 1).drop_last() =~= insts.take(k as int));
            match blocks[bi].insts[k] {
                CilInst::Branch(_, dst) => {
                    arcs.push((src, dst));
                },
                _ => {},
            }
            assert(arcs@ =~= before + inst_arcs(src, insts.take(k + 1)));
        }
        proof {
            let pre = b0.take(bi + 1);
            assert(pre.drop_last() =~= b0.take(bi as int));
            assert(pre.last() == b0[bi as int]);
            assert(b0[bi as int].insts@.take(m as int) =~= b0[bi as int].insts@);
        }
    }
    proof {
        assert(b0.take(n as int) =~= b0);
        lemma_block_arcs_in_range(b0, n as int, n as int);
    }
    let ghost all = arcs@;
    let na = arcs.len();
    for a in 0..na
        invariant
            na == all.len(),
            arcs@ == all,
            n == b0.len(),
            blocks@.len() == n,
            forall|j: int|
                0 <= j < all.len() ==> 0 <= (#[trigger] all[j]).0.spec_index() < n && 0
                    <= all[j].1.spec_index() < n,
            forall|b: int|
                #![trigger blocks@[b]]
                0 <= b < n ==> blocks@[b].label == b0[b].label && blocks@[b].offset == b0[b].offset
                    && blocks@[b].insts@ == b0[b].insts@ && blocks@[b].outgoing@ == b0[b].outgoing@
                    + arc_targets(all.take(a as int), b) && blocks@[b].incoming@
                    == b0[b].incoming@ + arc_sources(all.take(a as int), b),
    {
        let (src, dst) = arcs[a];
        proof {
            assert(all.take(a + 1).drop_last() =~= all.take(a as int));
            assert(all.take(a + 1).last() == all[a as int]);
        }
        let si = src.index();
        let di = dst.index();
        blocks[si].outgoing.push(dst);
        blocks[di].incoming.push(src);
        proof {
            assert forall|b: int| #![trigger blocks@[b]] 0 <= b < n implies blocks@[b].outgoing@ == b0[b].outgoing@
                    + arc_targets(all.take(a + 1), b) && blocks@[b].incoming@
                    == b0[b].incoming@ + arc_sources(all.take(a + 1), b) by {
                assert((b0[b].outgoing@ + arc_targets(all.take(a as int), b)).push(dst) =~= b0[b].outgoing@ + arc_targets(all.take(a as int), b).push(dst));
                assert((b0[b].incoming@ + arc_sources(all.take(a as int), b)).push(src) =~= b0[b].incoming@ + arc_sources(all.take(a as int), b).push(src));
            }
        }
    }
    proof {
        assert(all.take(na as int) =~= all);
    }
}

/// `after` is `before` with the arcs of its body recorded, when it has one.
pub open spec fn method_analyzed(before: CilMethod, after: CilMethod) -> bool {
    &&& after.name@ == before.name@
    &&& after.params@ == before.params@
    &&& match (before.body, after.body) {
        (None, None) => true,
        (Some(f0), Some(f1)) => analyzed(f0.blocks@, f1.blocks@) && f1.locals@ == f0.locals@,
        _ => false,
    }
}

/// A method can be analyzed: its body, if any, names only blocks it has.
pub open spec fn method_analyzable(m: CilMethod) -> bool {
    m.body matches Some(f) ==> labels_in_range(f.blocks@)
}

/// Records the arcs between the blocks of the method's body, if it has one.
pub fn analyze_method(method: &mut CilMethod)
    requires
        method_analyzable(*old(method)),
    ensures
        method_analyzed(*old(method), *final(method)),
{
    match &mut method.body {
        Some(body) => analyze_arcs(&mut body.blocks),
        None => {},
    }
}

/// Records the arcs between the blocks of every method body of the assembly.
pub fn analyze_assembly(file: CilFile) -> (r: CilFile)
    requires
        forall|i: int| 0 <= i < file.methods@.len() ==> method_analyzable(#[trigger] file.methods@[i]),
    ensures
        r.types@ == file.types@,
        r.methods@.len() == file.methods@.len(),
        forall|i: int|
            0 <= i < file.methods@.len() ==> method_analyzed(
                #[trigger] file.methods@[i],
                r.methods@[i],
            ),
{
    let ghost m0 = file.methods@;
    let ghost t0 = file.types@;
    let mut file = file;
    let n = file.methods.len();
    for i in 0..n
        invariant
            n == m0.len(),
            file.methods@.len() == n,
            file.types@ == t0,
            forall|j: int| 0 <= j < n ==> method_analyzable(#[trigger] m0[j]),
            forall|j: int| 0 <= j < i ==> method_analyzed(#[trigger] m0[j], file.methods@[j]),
            forall|j: int| i <= j < n ==> #[trigger] file.methods@[j] == m0[j],
    {
        analyze_method(&mut file.methods[i]);
    }
    file
}

/// How many times `x` occurs in `s`.
pub open spec fn count_of(s: Seq<CilLabel>, x: CilLabel) -> nat
    decreases s.len(),
{
    if s.len() == 0 {
        0
    } else {
        count_of(s.drop_last(), x) + if s.last() == x {
            1nat
        } else {
            0nat
        }
    }
}

/// How many of `arcs` go from the block with index `s` to that with index `t`.
pub open spec fn num_arcs(arcs: Seq<(CilLabel, CilLabel)>, s: int, t: int) -> nat
    decreases arcs.len(),
{
    if arcs.len() == 0 {
        0
    } else {
        num_arcs(arcs.drop_last(), s, t) + if arcs.last().0.spec_index() == s
            && arcs.last().1.spec_index() == t {
            1nat
        } else {
            0nat
        }
    }
}

proof fn lemma_count_targets(arcs: Seq<(CilLabel, CilLabel)>, s: int, l: CilLabel)
    ensures
        count_of(arc_targets(arcs, s), l) == num_arcs(arcs, s, l.spec_index()),
    decreases arcs.len(),
{
    if arcs.len() > 0 {
        lemma_count_targets(arcs.drop_last(), s, l);
        let rest = arc_targets(arcs.drop_last(), s);
        if arcs.last().0.spec_index() == s {
            assert(rest.push(arcs.last().1).drop_last() =~= rest);
        }
    }
}

proof fn lemma_count_sources(arcs: Seq<(CilLabel, CilLabel)>, t: int, l: CilLabel)
    ensures
        count_of(arc_sources(arcs, t), l) == num_arcs(arcs, l.spec_index(), t),
    decreases arcs.len(),
{
    if arcs.len() > 0 {
        lemma_count_sources(arcs.drop_last(), t, l);
        let rest = arc_sources(arcs.drop_last(), t);
        if arcs.last().1.spec_index() == t {
            assert(rest.push(arcs.last().0).drop_last() =~= rest);
        }
    }
}

/// Once the arcs are recorded in blocks labelled by their indices that had none, block `s`
/// lists block `t` among its successors exactly as many times as `t` lists `s` among its
/// predecessors.
pub proof fn law_arcs_symmetric(before: Seq<CilBlock>, after: Seq<CilBlock>, s: int, t: int)
    requires
        analyzed(before, after),
        forall|i: int| 0 <= i < before.len() ==> (#[trigger] before[i]).label.spec_index() == i,
        forall|i: int|
            0 <= i < before.len() ==> (#[trigger] before[i]).outgoing@.len() == 0
                && before[i].incoming@.len() == 0,
        0 <= s < before.len(),
        0 <= t < before.len(),
    ensures
        count_of(after[s].outgoing@, after[t].label) == count_of(
            after[t].incoming@,
            after[s].label,
        ),
{
    let arcs = block_arcs(before);
    assert(before[s].outgoing@ + arc_targets(arcs, s) =~= arc_targets(arcs, s));
    assert(before[t].incoming@ + arc_sources(arcs, t) =~= arc_sources(arcs, t));
    lemma_count_targets(arcs, s, after[t].label);
    lemma_count_sources(arcs, t, after[s].label);
}

/// How many of the instructions `insts` are branches to the block with index `t`.
pub open spec fn branches_to(insts: Seq<CilInst>, t: int) -> nat
    decreases insts.len(),
{
    if insts.len() == 0 {
        0
    } else {
        branches_to(insts.drop_last(), t) + if insts.last() matches CilInst::Branch(_, d)
            && d.spec_index() == t {
            1nat
        } else {
            0nat
        }
    }
}

proof fn lemma_num_arcs_concat(a: Seq<(CilLabel, CilLabel)>, b: Seq<(CilLabel, CilLabel)>, s: int, t: int)
    ensures
        num_arcs(a + b, s, t) == num_arcs(a, s, t) + num_arcs(b, s, t),
    decreases b.len(),
{
    if b.len() > 0 {
        lemma_num_arcs_concat(a, b.drop_last(), s, t);
        assert((a + b).drop_last() =~= a + b.drop_last());
        assert((a + b).last() == b.last());
    } else {
        assert(a + b =~= a);
    }
}

proof fn lemma_num_inst_arcs(src: CilLabel, insts: Seq<CilInst>, s: int, t: int)
    ensures
        num_arcs(inst_arcs(src, insts), s, t) == if src.spec_index() == s {
            branches_to(insts, t)
        } else {
            0
        },
    decreases insts.len(),
{
    if insts.len() > 0 {
        lemma_num_inst_arcs(src, insts.drop_last(), s, t);
        let rest = inst_arcs(src, insts.drop_last());
        if let CilInst::Branch(_, dst) = insts.last() {
            assert(rest.push((src, dst)).drop_last() =~= rest);
        }
    }
}

proof fn lemma_num_block_arcs(blocks: Seq<CilBlock>, m: int, s: int, t: int)
    requires
        0 <= m <= blocks.len(),
        forall|i: int| 0 <= i < blocks.len() ==> (#[trigger] blocks[i]).label.spec_index() == i,
    ensures
        num_arcs(block_arcs(blocks.take(m)), s, t) == if 0 <= s < m {
            branches_to(blocks[s].insts@, t)
        } else {
            0
        },
    decreases m,
{
    if m > 0 {
        let pre = blocks.take(m);
        assert(pre.drop_last() =~= blocks.take(m - 1));
        assert(pre.last() == blocks[m - 1]);
        lemma_num_block_arcs(blocks, m - 1, s, t);
        lemma_num_arcs_concat(
            block_arcs(blocks.take(m - 1)),
            inst_arcs(blocks[m - 1].label, blocks[m - 1].insts@),
            s,
            t,
        );
        lemma_num_inst_arcs(blocks[m - 1].label, blocks[m - 1].insts@, s, t);
    }
}

/// Once the arcs are recorded in blocks labelled by their indices that had none, block `s`
/// lists block `t` among its successors, and `t` lists `s` among its predecessors, once for
/// each branch to `t` among the instructions of `s`.
pub proof fn law_arcs_match_branches(before: Seq<CilBlock>, after: Seq<CilBlock>, s: int, t: int)
    requires
        analyzed(before, after),
        forall|i: int| 0 <= i < before.len() ==> (#[trigger] before[i]).label.spec_index() == i,
        forall|i: int|
            0 <= i < before.len() ==> (#[trigger] before[i]).outgoing@.len() == 0
                && before[i].incoming@.len() == 0,
        0 <= s < before.len(),
        0 <= t < before.len(),
    ensures
        count_of(after[s].outgoing@, after[t].label) == branches_to(after[s].insts@, t),
        count_of(after[t].incoming@, after[s].label) == branches_to(after[s].insts@, t),
{
    law_arcs_symmetric(before, after, s, t);
    let arcs = block_arcs(before);
    assert(before[s].outgoing@ + arc_targets(arcs, s) =~= arc_targets(arcs, s));
    lemma_count_targets(arcs, s, after[t].label);
    assert(before.take(before.len() as int) =~= before);
    lemma_num_block_arcs(before, before.len() as int, s, t);
}

/// A branch that is the instruction at its position, or a jump to a block, names a block.
proof fn lemma_branch_in_range(image: Seq<u8>, begins: Seq<int>, p: int, inst: CilInst)
    requires
        decoded_at(image, begins, p, inst) || jumps_to(begins, p, inst),
    ensures
        inst matches CilInst::Branch(_, l) ==> 0 <= l.spec_index() < begins.len(),
{
    if decoded_at(image, begins, p, inst) {
        let (d, e) = spec_decode(image, p)->Ok_0;
        assert(lowers_to(d, e, inst, begins));
    }
}

/// The blocks that the disassembler makes name only blocks it made, so their arcs can be
/// recorded.
pub proof fn law_disassembly_analyzable(image: Seq<u8>, pos: int, blocks: Seq<CilBlock>)
    requires
        is_disassembly(image, pos, blocks),
    ensures
        labels_in_range(blocks),
{
    let begins = block_offsets(blocks);
    assert forall|i: int| #![trigger blocks[i]] 0 <= i < blocks.len() implies 0 <= blocks[i].label.spec_index() < blocks.len() && forall|k: int|
            0 <= k < blocks[i].insts@.len() ==> (#[trigger] blocks[i].insts@[k] matches CilInst::Branch(
                _,
                l,
            ) ==> 0 <= l.spec_index() < blocks.len()) by {
        let insts = blocks[i].insts@;
        assert(crate::parsers::disasm::block_traced(image, begins, insts, blocks[i].offset as int));
        let ps = choose|ps: Seq<int>| trace(image, begins, insts, ps, blocks[i].offset as int);
        assert forall|k: int| 0 <= k < insts.len() implies (#[trigger] insts[k] matches CilInst::Branch(
                _,
                l,
            ) ==> 0 <= l.spec_index() < blocks.len()) by {
            if k < insts.len() - 1 {
                lemma_branch_in_range(image, begins, ps[k], insts[k]);
            } else {
                lemma_branch_in_range(
                    image,
                    begins,
                    crate::parsers::disasm::chain_end(image, ps, blocks[i].offset as int),
                    insts[k],
                );
            }
        }
    }
}

} // verus!
