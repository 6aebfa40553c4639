//! The disassembler as a state machine: what `disassemble` computes, step by step.
use vstd::prelude::*;

use crate::cil::{CilBlock, CilCond, CilInst, CilLabel};
use crate::parsers::decode::{spec_decode, DecodeInst};
use crate::parsers::disasm::{branch_target, DisasmError};

verus! {

/// A block under construction: its instructions with their positions, the range of the image
/// it covers, and whether its decoding is over.
pub struct SBlock {
    pub insts: Seq<(usize, CilInst)>,
    pub begin: usize,
    pub end: usize,
    pub finished: bool,
}

/// The disassembler's state: its blocks (block `i` labelled `i`), the stack of blocks still to
/// decode, and the block being decoded, if any.
pub struct DisasmState {
    pub blocks: Seq<SBlock>,
    pub work: Seq<int>,
    pub cur: Option<int>,
}

/// How the disassembler ends: with its blocks, or with an error.
pub enum DisasmOutcome {
    Blocks(Seq<SBlock>),
    Failed(DisasmError),
}

pub enum DisasmStep {
    Next(DisasmState),
    Done(DisasmOutcome),
}

/// A block not yet decoded, at `pos`.
pub open spec fn fresh_at(pos: usize) -> SBlock {
    SBlock { insts: seq![], begin: pos, end: pos, finished: false }
}

/// The state the disassembler starts in: one block at `pos`, to be decoded.
pub open spec fn initial(pos: usize) -> DisasmState {
    DisasmState { blocks: seq![fresh_at(pos)], work: seq![0], cur: None }
}

/// The label of block `i`.
pub open spec fn label_of(i: int) -> CilLabel {
    CilLabel(i as u32)
}

/// The block that begins at `offset`.
pub open spec fn find_target_spec(blocks: Seq<SBlock>, offset: usize) -> Option<int> {
    if exists|i: int| 0 <= i < blocks.len() && blocks[i].begin == offset {
        Some(choose|i: int| 0 <= i < blocks.len() && blocks[i].begin == offset)
    } else {
        None
    }
}

/// Block `j` begins last of those that begin before `offset`.
pub open spec fn begins_last_before(blocks: Seq<SBlock>, offset: usize, j: int) -> bool {
    &&& 0 <= j < blocks.len()
    &&& blocks[j].begin < offset
    &&& forall|i: int|
        #![trigger blocks[i]]
        0 <= i < blocks.len() && blocks[i].begin < offset ==> blocks[i].begin <= blocks[j].begin
}

/// The block whose range holds `offset`: of the blocks that begin before `offset`, the one that
/// begins last, when `offset` lies before its end.
pub open spec fn find_block_spec(blocks: Seq<SBlock>, offset: usize) -> Option<int> {
    if exists|j: int| begins_last_before(blocks, offset, j) {
        let j = choose|j: int| begins_last_before(blocks, offset, j);
        if offset < blocks[j].end {
            Some(j)
        } else {
            None
        }
    } else {
        None
    }
}

/// `s` is the first position of `insts` that holds an instruction at `pos`.
pub open spec fn first_at(insts: Seq<(usize, CilInst)>, pos: usize, s: int) -> bool {
    &&& 0 <= s < insts.len()
    &&& insts[s].0 == pos
    &&& forall|k: int| 0 <= k < s ==> insts[k].0 != pos
}

/// Splits `b` at its instruction at `pos`: the part before it, closed by a branch to block
/// `new_label` placed where `b`'s range ended, with its range now ending at `pos`, and a
/// finished block of the rest.
pub open spec fn split_spec(b: SBlock, pos: usize, new_label: int) -> Option<(SBlock, SBlock)> {
    if exists|s: int| first_at(b.insts, pos, s) {
        let s = choose|s: int| first_at(b.insts, pos, s);
        Some(
            (
                SBlock {
                    insts: b.insts.take(s).push(
                        (b.end, CilInst::Branch(CilCond::Always, label_of(new_label))),
                    ),
                    end: pos,
                    ..b
                },
                SBlock {
                    insts: b.insts.subrange(s, b.insts.len() as int),
                    begin: pos,
                    end: b.end,
                    finished: true,
                },
            ),
        )
    } else {
        None
    }
}

/// The instruction of the IR for a decoded instruction other than a branch.
pub open spec fn lower_spec(d: DecodeInst) -> CilInst {
    match d {
        DecodeInst::Nop => CilInst::Nop,
        DecodeInst::Break => CilInst::Break,
        DecodeInst::Load(slot) => CilInst::Load(slot),
        DecodeInst::Addr(slot) => CilInst::Addr(slot),
        DecodeInst::Store(slot) => CilInst::Store(slot),
        DecodeInst::Arith(arith) => CilInst::Arith(arith),
        DecodeInst::Const(cst) => CilInst::Const(cst),
        DecodeInst::Call(token) => CilInst::Call(token),
        DecodeInst::Prefix(prefix) => CilInst::Prefix(prefix),
        DecodeInst::Compare(cond) => CilInst::Compare(cond),
        _ => CilInst::Return,
    }
}

/// Finds or makes the block at `target` for a branch of block `c`: the blocks and stack after
/// that, the block that is to hold the branch and the target block. It fails when a new block
/// would need a label past the last that 32 bits hold, and when the target lies inside an
/// instruction of a decoded block.
pub open spec fn resolve_spec(s: DisasmState, c: int, target: usize) -> Result<
    (Seq<SBlock>, Seq<int>, int, int),
    DisasmError,
> {
    let blocks = s.blocks;
    let n = blocks.len();
    match find_target_spec(blocks, target) {
        Some(tb) => Ok((blocks, s.work, c, tb)),
        None => if n >= u32::MAX {
            Err(DisasmError::TooManyBlocks)
        } else {
            match find_block_spec(blocks, target) {
                Some(tb) => match split_spec(blocks[tb], target, n as int) {
                    Some((first, rest)) => Ok(
                        (
                            blocks.update(tb, first).push(rest),
                            s.work.push(n as int),
                            if tb == c {
                                n as int
                            } else {
                                c
                            },
                            n as int,
                        ),
                    ),
                    None => Err(DisasmError::BadBranchTarget),
                },
                None => Ok((blocks.push(fresh_at(target)), s.work.push(n as int), c, n as int)),
            }
        },
    }
}

/// Records the branch at `pos`, which ends at `end`, in block `si`, and finishes that block;
/// a conditional branch with no block where it falls through gets one, closed by a branch to it
/// placed at `end`. It fails when that block would need a label past the last that 32 bits hold.
pub open spec fn record_spec(
    blocks: Seq<SBlock>,
    work: Seq<int>,
    si: int,
    tl: int,
    pos: usize,
    end: usize,
    cond: CilCond,
) -> Result<DisasmState, DisasmError> {
    let b = blocks[si];
    let b1 = SBlock {
        insts: b.insts.push((pos, CilInst::Branch(cond, label_of(tl)))),
        end: end,
        finished: true,
        ..b
    };
    let blocks1 = blocks.update(si, b1);
    if cond != CilCond::Always && find_target_spec(blocks1, end) is None {
        let n = blocks1.len() as int;
        if n >= u32::MAX {
            Err(DisasmError::TooManyBlocks)
        } else {
            let b2 = SBlock {
                insts: b1.insts.push((end, CilInst::Branch(CilCond::Always, label_of(n)))),
                ..b1
            };
            Ok(
                DisasmState {
                    blocks: blocks1.update(si, b2).push(fresh_at(end)),
                    work: work.push(n),
                    cur: None,
                },
            )
        }
    } else {
        Ok(DisasmState { blocks: blocks1, work, cur: None })
    }
}

/// One step of the disassembler: take the next block from the stack, or decode one instruction
/// of the current block (handling a branch, together with the blocks it makes, in one step).
pub open spec fn step(image: Seq<u8>, s: DisasmState) -> DisasmStep {
    match s.cur {
        None => if s.work.len() == 0 {
            DisasmStep::Done(DisasmOutcome::Blocks(s.blocks))
        } else {
            DisasmStep::Next(
                DisasmState { blocks: s.blocks, work: s.work.drop_last(), cur: Some(s.work.last()) },
            )
        },
        Some(c) => {
            let b = s.blocks[c];
            if b.finished {
                DisasmStep::Next(DisasmState { cur: None, ..s })
            } else {
                let pos = b.end;
                let found = if pos < usize::MAX {
                    find_block_spec(s.blocks, (pos + 1) as usize)
                } else {
                    None
                };
                match found {
                    Some(li) => if pos == s.blocks[li].begin && s.blocks[li].end
                        > s.blocks[li].begin {
                        let b1 = SBlock {
                            insts: b.insts.push(
                                (pos, CilInst::Branch(CilCond::Always, label_of(li))),
                            ),
                            finished: true,
                            ..b
                        };
                        DisasmStep::Next(
                            DisasmState { blocks: s.blocks.update(c, b1), work: s.work, cur: None },
                        )
                    } else {
                        DisasmStep::Done(DisasmOutcome::Failed(DisasmError::BadInstructionStream))
                    },
                    None => match spec_decode(image, pos as int) {
                        Err(e) => DisasmStep::Done(DisasmOutcome::Failed(DisasmError::Decode(e))),
                        Ok((d, e)) => match d {
                            DecodeInst::Branch(cond, offset) => {
                                let target = branch_target(e, offset) as usize;
                                match resolve_spec(s, c, target) {
                                    Ok((blocks1, work1, si, tl)) => match record_spec(
                                        blocks1,
                                        work1,
                                        si,
                                        tl,
                                        pos,
                                        e as usize,
                                        cond,
                                    ) {
                                        Ok(s2) => DisasmStep::Next(s2),
                                        Err(err) => DisasmStep::Done(DisasmOutcome::Failed(err)),
                                    },
                                    Err(err) => DisasmStep::Done(DisasmOutcome::Failed(err)),
                                }
                            },
                            DecodeInst::Return => {
                                let b1 = SBlock {
                                    insts: b.insts.push((pos, CilInst::Return)),
                                    end: e as usize,
                                    finished: true,
                                    ..b
                                };
                                DisasmStep::Next(
                                    DisasmState {
                                        blocks: s.blocks.update(c, b1),
                                        work: s.work,
                                        cur: None,
                                    },
                                )
                            },
                            _ => {
                                let b1 = SBlock {
                                    insts: b.insts.push((pos, lower_spec(d))),
                                    end: e as usize,
                                    ..b
                                };
                                DisasmStep::Next(
                                    DisasmState {
                                        blocks: s.blocks.update(c, b1),
                                        work: s.work,
                                        cur: Some(c),
                                    },
                                )
                            },
                        },
                    },
                }
            }
        },
    }
}

/// The state after `m` steps from `s0`, if the disassembler has not stopped by then.
pub open spec fn reach(image: Seq<u8>, s0: DisasmState, m: nat) -> Option<DisasmState>
    decreases m,
{
    if m == 0 {
        Some(s0)
    } else {
        match reach(image, s0, (m - 1) as nat) {
            Some(s) => match step(image, s) {
                DisasmStep::Next(s2) => Some(s2),
                DisasmStep::Done(_) => None,
            },
            None => None,
        }
    }
}

/// How the disassembler ends, when it ends with step `m + 1` from `s0`.
pub open spec fn outcome(image: Seq<u8>, s0: DisasmState, m: nat) -> Option<DisasmOutcome> {
    match reach(image, s0, m) {
        Some(s) => match step(image, s) {
            DisasmStep::Done(o) => Some(o),
            DisasmStep::Next(_) => None,
        },
        None => None,
    }
}

/// The blocks of the IR for the blocks `bs` of the disassembler: block `i` labelled `i`, at the
/// position where its decoding began, with its instructions, and with no arcs yet.
pub open spec fn lowered(bs: Seq<SBlock>, out: Seq<CilBlock>) -> bool {
    &&& out.len() == bs.len()
    &&& forall|i: int|
        #![trigger out[i]]
        0 <= i < out.len() ==> out[i].label == label_of(i) && out[i].offset == bs[i].begin
            && out[i].insts@ == Seq::new(bs[i].insts.len(), |k: int| bs[i].insts[k].1)
            && out[i].incoming@.len() == 0 && out[i].outgoing@.len() == 0
}

/// What `disassemble` returns is how its state machine ends, from its initial state.
pub open spec fn disassembles_to(
    image: Seq<u8>,
    pos: usize,
    r: Result<Vec<CilBlock>, DisasmError>,
) -> bool {
    exists|m: nat|
        match #[trigger] outcome(image, initial(pos), m) {
            Some(DisasmOutcome::Blocks(bs)) => r matches Ok(out) && lowered(bs, out@),
            Some(DisasmOutcome::Failed(e)) => r matches Err(e2) && e2 == e,
            None => false,
        }
}

proof fn lemma_reach_stops(image: Seq<u8>, s0: DisasmState, m: nat, m2: nat)
    requires
        reach(image, s0, m) is None,
        m <= m2,
    ensures
        reach(image, s0, m2) is None,
    decreases m2 - m,
{
    if m < m2 {
        lemma_reach_stops(image, s0, m, (m2 - 1) as nat);
    }
}

/// The state machine ends in at most one way: its steps are determined by its state.
pub proof fn law_outcome_unique(image: Seq<u8>, s0: DisasmState, m1: nat, m2: nat)
    requires
        outcome(image, s0, m1) is Some,
        outcome(image, s0, m2) is Some,
    ensures
        m1 == m2,
        outcome(image, s0, m1) == outcome(image, s0, m2),
{
    if m1 < m2 {
        assert(reach(image, s0, m1 + 1) is None);
        lemma_reach_stops(image, s0, m1 + 1, m2);
    } else if m2 < m1 {
        assert(reach(image, s0, m2 + 1) is None);
        lemma_reach_stops(image, s0, m2 + 1, m1);
    }
}

} // verus!
