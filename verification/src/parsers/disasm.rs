//! Splitting a method's instruction stream into basic blocks.
use vstd::prelude::*;

use crate::cil::{CilBlock, CilCond, CilInst, CilLabel};
use crate::parsers::decode::{decode, lemma_decode_advances, spec_decode, DecodeError, DecodeInst};
use crate::parsers::disasm_model::{
    begins_last_before, disassembles_to, find_block_spec, find_target_spec, first_at, initial,
    label_of, lower_spec, lowered, outcome, reach, record_spec, resolve_spec, split_spec, step,
    DisasmOutcome, DisasmState, DisasmStep, SBlock,
};

verus! {

/// Why a method body could not be split into blocks.
#[derive(Clone, Copy, Debug, PartialEq, Eq)]
pub enum DisasmError {
    /// An instruction on some path could not be decoded.
    Decode(DecodeError),
    /// A branch goes into the middle of an instruction of a decoded block.
    BadBranchTarget,
    /// Decoding ran into the middle of a decoded block.
    BadInstructionStream,
    /// The code has more blocks than labels of 32 bits can name.
    TooManyBlocks,
}

/// Where a branch with `offset` that ends at `end` goes: the sum taken as a machine word.
pub open spec fn branch_target(end: int, offset: i32) -> int {
    if end + offset >= 0 {
        end + offset
    } else {
        end + offset + usize::MAX + 1
    }
}

/// `inst` is the decoded instruction `d`, which ends at `end`, with a branch naming the block
/// that begins at the branch's target; `begins[l]` is where block `l` begins.
pub open spec fn lowers_to(d: DecodeInst, end: int, inst: CilInst, begins: Seq<int>) -> bool {
    match d {
        DecodeInst::Nop => inst == CilInst::Nop,
        DecodeInst::Break => inst == CilInst::Break,
        DecodeInst::Load(s) => inst == CilInst::Load(s),
        DecodeInst::Store(s) => inst == CilInst::Store(s),
        DecodeInst::Addr(s) => inst == CilInst::Addr(s),
        DecodeInst::Arith(a) => inst == CilInst::Arith(a),
        DecodeInst::Const(c) => inst == CilInst::Const(c),
        DecodeInst::Compare(c) => inst == CilInst::Compare(c),
        DecodeInst::Call(t) => inst == CilInst::Call(t),
        DecodeInst::Prefix(p) => inst == CilInst::Prefix(p),
        DecodeInst::Return => inst == CilInst::Return,
        DecodeInst::Branch(cond, offset) => match inst {
            CilInst::Branch(c, l) => c == cond && 0 <= l.spec_index() < begins.len()
                && begins[l.spec_index()] == branch_target(end, offset),
            _ => false,
        },
    }
}

/// `inst` is the instruction that the image holds at `p`.
pub open spec fn decoded_at(image: Seq<u8>, begins: Seq<int>, p: int, inst: CilInst) -> bool {
    match spec_decode(image, p) {
        Ok((d, e)) => lowers_to(d, e, inst, begins),
        Err(_) => false,
    }
}

/// The position just past the instruction at `p`.
pub open spec fn decode_end(image: Seq<u8>, p: int) -> int {
    match spec_decode(image, p) {
        Ok((_, e)) => e,
        Err(_) => p,
    }
}

/// `inst` is an unconditional branch to the block that begins at `p`.
pub open spec fn jumps_to(begins: Seq<int>, p: int, inst: CilInst) -> bool {
    match inst {
        CilInst::Branch(CilCond::Always, l) => 0 <= l.spec_index() < begins.len()
            && begins[l.spec_index()] == p,
        _ => false,
    }
}

/// A branch or a return: an instruction after which a block's run of instructions stops.
pub open spec fn is_terminator(inst: CilInst) -> bool {
    inst is Return || inst is Branch
}

/// A branch that may fall through to the instruction after it.
pub open spec fn is_conditional(inst: CilInst) -> bool {
    inst matches CilInst::Branch(c, _) && c != CilCond::Always
}

/// Where the instruction after the first `n - 1` of the positions `ps` begins: just past the
/// next-to-last instruction, or at `begin` for a block of one instruction.
pub open spec fn chain_end(image: Seq<u8>, ps: Seq<int>, begin: int) -> int {
    if ps.len() >= 2 {
        decode_end(image, ps[ps.len() - 2])
    } else {
        begin
    }
}

/// A block of instructions `insts` at positions `ps`, entered at `begin`. All but the last
/// instruction are the ones that the image holds at their positions, each followed by the
/// next; none of them is a branch or a return, but for a conditional branch just before the
/// last instruction, which is then an unconditional branch to the block that begins where the
/// conditional branch falls through. The last instruction ends the block: it is a branch or a
/// return that the image holds where the run of instructions before it ends (`chain_end`), or
/// an unconditional branch to the block that begins there; a conditional branch goes on to a
/// block where it falls through.
pub open spec fn trace(
    image: Seq<u8>,
    begins: Seq<int>,
    insts: Seq<CilInst>,
    ps: Seq<int>,
    begin: int,
) -> bool {
    let n = insts.len();
    let q = chain_end(image, ps, begin);
    &&& n > 0
    &&& ps.len() == n
    &&& ps[0] == begin
    &&& forall|k: int|
        #![trigger insts[k]]
        0 <= k < n - 1 ==> decoded_at(image, begins, ps[k], insts[k]) && (k + 1 < n - 1 ==> (
        decode_end(image, ps[k]) == ps[k + 1] && !is_terminator(insts[k])))
    &&& n >= 2 && is_terminator(insts[n - 2]) ==> is_conditional(insts[n - 2]) && jumps_to(
        begins,
        q,
        insts[n - 1],
    )
    &&& (ps[n - 1] == q && decoded_at(image, begins, q, insts[n - 1])) || (n >= 2 && jumps_to(
        begins,
        q,
        insts[n - 1],
    ))
    &&& is_terminator(insts[n - 1])
    &&& is_conditional(insts[n - 1]) ==> begins.contains(decode_end(image, q))
}

/// The block of instructions `insts` entered at `begin` is a run of decoded instructions (see
/// `trace`).
pub open spec fn block_traced(image: Seq<u8>, begins: Seq<int>, insts: Seq<CilInst>, begin: int) -> bool {
    exists|ps: Seq<int>| trace(image, begins, insts, ps, begin)
}

/// Where each block of `blocks` begins.
pub open spec fn block_offsets(blocks: Seq<CilBlock>) -> Seq<int> {
    Seq::new(blocks.len(), |i: int| blocks[i].offset as int)
}

/// `blocks` is a splitting into basic blocks of the code that the image holds from `pos`:
/// block 0 is entered at `pos`, block `i` is labelled `i`, no two blocks begin at the same
/// place, every block begins inside the image, each block is a straight run of decoded
/// instructions (see `trace`) whose branches name blocks that begin at their targets, and no
/// edges have been recorded yet.
pub open spec fn is_disassembly(image: Seq<u8>, pos: int, blocks: Seq<CilBlock>) -> bool {
    &&& blocks.len() > 0
    &&& blocks[0].offset == pos
    &&& forall|i: int| 0 <= i < blocks.len() ==> (#[trigger] blocks[i]).label.spec_index() == i
    &&& forall|i: int, j: int|
        0 <= i < blocks.len() && 0 <= j < blocks.len() && i != j ==> blocks[i].offset
            != blocks[j].offset
    &&& forall|i: int|
        0 <= i < blocks.len() ==> (#[trigger] blocks[i]).incoming@.len() == 0
            && blocks[i].outgoing@.len() == 0
    &&& forall|i: int| 0 <= i < blocks.len() ==> 0 <= (#[trigger] blocks[i]).offset < image.len()
    &&& forall|i: int|
        0 <= i < blocks.len() ==> block_traced(
            image,
            block_offsets(blocks),
            (#[trigger] blocks[i]).insts@,
            blocks[i].offset as int,
        )
}

/// A block under construction: the decoded instructions with their positions, the range of
/// the image it covers, and whether its decoding is over.
struct DecodeBlock {
    insts: Vec<(usize, CilInst)>,
    begin: usize,
    end: usize,
    finished: bool,
}

spec fn sview(b: DecodeBlock) -> SBlock {
    SBlock { insts: b.insts@, begin: b.begin, end: b.end, finished: b.finished }
}

spec fn blocks_view(blocks: Seq<DecodeBlock>) -> Seq<SBlock> {
    Seq::new(blocks.len(), |i: int| sview(blocks[i]))
}

spec fn work_view(work: Seq<CilLabel>) -> Seq<int> {
    Seq::new(work.len(), |j: int| work[j].spec_index())
}

spec fn state_view(blocks: Seq<DecodeBlock>, work: Seq<CilLabel>, cur: Option<int>) -> DisasmState {
    DisasmState { blocks: blocks_view(blocks), work: work_view(work), cur }
}

spec fn begins_of(blocks: Seq<DecodeBlock>) -> Seq<int> {
    Seq::new(blocks.len(), |i: int| blocks[i].begin as int)
}

spec fn insts_of(insts: Seq<(usize, CilInst)>) -> Seq<CilInst> {
    Seq::new(insts.len(), |k: int| insts[k].1)
}

spec fn positions_of(insts: Seq<(usize, CilInst)>) -> Seq<int> {
    Seq::new(insts.len(), |k: int| insts[k].0 as int)
}

/// A block whose decoding is over; its last instruction stands where the run before it ends,
/// or at or past the end of the block's range.
spec fn done_block(image: Seq<u8>, begins: Seq<int>, b: DecodeBlock) -> bool {
    let ps = positions_of(b.insts@);
    &&& trace(image, begins, insts_of(b.insts@), ps, b.begin as int)
    &&& ps[ps.len() - 1] == chain_end(image, ps, b.begin as int) || ps[ps.len() - 1] >= b.end
}

/// A block not yet decoded.
spec fn fresh_block(b: DecodeBlock) -> bool {
    b.insts@.len() == 0 && b.begin == b.end && !b.finished
}

/// A block being decoded: a run of decoded non-branch instructions from `begin` to `end`.
spec fn open_block(image: Seq<u8>, begins: Seq<int>, b: DecodeBlock) -> bool {
    open_run(image, begins, b.insts@, b.begin as int, b.end as int)
}

/// A run of decoded non-branch instructions from `begin` to `end`.
spec fn open_run(
    image: Seq<u8>,
    begins: Seq<int>,
    insts: Seq<(usize, CilInst)>,
    begin: int,
    end: int,
) -> bool {
    let n = insts.len();
    &&& n == 0 ==> begin == end
    &&& n > 0 ==> insts[0].0 == begin && decode_end(image, insts[n - 1].0 as int) == end
    &&& n > 0 ==> end <= image.len()
    &&& forall|k: int|
        #![trigger insts[k]]
        0 <= k < n ==> decoded_at(image, begins, insts[k].0 as int, insts[k].1)
            && !is_terminator(insts[k].1) && (k + 1 < n ==> decode_end(image, insts[k].0 as int)
            == insts[k + 1].0)
}

impl DecodeBlock {
    fn finish(&self, label: CilLabel) -> (b: CilBlock)
        ensures
            b.label == label,
            b.offset == self.begin,
            b.insts@ == insts_of(self.insts@),
            b.incoming@.len() == 0,
            b.outgoing@.len() == 0,
    {
        let mut insts: Vec<CilInst> = Vec::new();
        let n = self.insts.len();
        for k in 0..n
            invariant
                n == self.insts@.len(),
                insts@ == insts_of(self.insts@).take(k as int),
        {
            insts.push(self.insts[k].1);
            assert(insts@ =~= insts_of(self.insts@).take(k + 1));
        }
        assert(insts@ =~= insts_of(self.insts@));
        CilBlock { insts, label, offset: self.begin, incoming: Vec::new(), outgoing: Vec::new() }
    }

    /// Splits the block at `pos`, the position of one of its instructions: the instructions
    /// from there on move to a new finished block, and this block ends with a branch to
    /// `new_label`, placed where its range ended; its range now ends at `pos`.
    fn split(&mut self, pos: usize, new_label: CilLabel) -> (r: Result<DecodeBlock, DisasmError>)
        ensures
            match r {
                Ok(nb) => exists|s: int|
                    0 <= s < old(self).insts@.len() && old(self).insts@[s].0 == pos && (forall|
                        k: int,
                    | 0 <= k < s ==> old(self).insts@[k].0 != pos) && nb.insts@ == old(
                        self,
                    ).insts@.subrange(s, old(self).insts@.len() as int) && final(self).insts@
                        == old(self).insts@.take(s).push(
                        (old(self).end, CilInst::Branch(CilCond::Always, new_label)),
                    ),
                Err(e) => e == DisasmError::BadBranchTarget && *final(self) == *old(self) && (
                forall|k: int| 0 <= k < old(self).insts@.len() ==> old(self).insts@[k].0 != pos),
            },
            r matches Ok(nb) ==> nb.begin == pos && nb.end == old(self).end && nb.finished
                && final(self).begin == old(self).begin && final(self).end == pos
                && final(self).finished == old(self).finished,
            match r {
                Ok(nb) => split_spec(sview(*old(self)), pos, new_label.spec_index())
                    == Some((sview(*final(self)), sview(nb))),
                Err(_) => split_spec(sview(*old(self)), pos, new_label.spec_index()) is None,
            },
    {
        let n = self.insts.len();
        let mut split: usize = 0;
        while split < n && self.insts[split].0 != pos
            invariant
                n == self.insts@.len(),
                split <= n,
                forall|k: int| 0 <= k < split ==> self.insts@[k].0 != pos,
            decreases n - split,
        {
            split = split + 1;
        }
        if split == n {
            proof {
                assert(!exists|c: int| first_at(self.insts@, pos, c));
            }
            return Err(DisasmError::BadBranchTarget);
        }
        let mut new_insts: Vec<(usize, CilInst)> = Vec::new();
        let mut k = split;
        while k < n
            invariant
                n == self.insts@.len(),
                split <= k <= n,
                new_insts@ == self.insts@.subrange(split as int, k as int),
            decreases n - k,
        {
            new_insts.push(self.insts[k]);
            assert(new_insts@ =~= self.insts@.subrange(split as int, k + 1));
            k = k + 1;
        }
        let ghost old_insts = self.insts@;
        assert(old_insts[split as int].0 == pos);
        let new_block = DecodeBlock { insts: new_insts, begin: pos, end: self.end, finished: true };
        let ghost old_end = self.end;
        self.insts.truncate(split);
        self.insts.push((self.end, CilInst::Branch(CilCond::Always, new_label)));
        self.end = pos;
        assert(self.insts@ == old_insts.take(split as int).push(
            (old_end, CilInst::Branch(CilCond::Always, new_label)),
        ));
        assert(new_block.insts@ == old_insts.subrange(split as int, old_insts.len() as int));
        proof {
            assert(first_at(old_insts, pos, split as int));
            let c = choose|c: int| first_at(old_insts, pos, c);
            assert(c == split) by {
                if c < split {
                    assert(old_insts[c].0 != pos);
                } else if c > split {
                    assert(old_insts[split as int].0 != pos);
                }
            }
            assert(label_of(new_label.spec_index()) == new_label);
        }
        Ok(new_block)
    }
}

/// The block whose range holds `offset`: of the blocks that begin before `offset`, the one that
/// begins last, when `offset` lies before its end.
fn find_block(blocks: &Vec<DecodeBlock>, offset: usize) -> (r: Option<CilLabel>)
    requires
        blocks@.len() <= u32::MAX,
        forall|i: int, j: int|
            0 <= i < blocks@.len() && 0 <= j < blocks@.len() && i != j ==> blocks@[i].begin
                != blocks@[j].begin,
    ensures
        match r {
            Some(l) => find_block_spec(blocks_view(blocks@), offset) == Some(l.spec_index()),
            None => find_block_spec(blocks_view(blocks@), offset) is None,
        },
        match r {
            Some(l) => 0 <= l.spec_index() < blocks@.len() && blocks@[l.spec_index()].begin
                < offset < blocks@[l.spec_index()].end && forall|i: int|
                #![trigger blocks@[i]]
                0 <= i < blocks@.len() && blocks@[i].begin < offset ==> blocks@[i].begin
                    <= blocks@[l.spec_index()].begin,
            None => forall|i: int|
                #![trigger blocks@[i]]
                0 <= i < blocks@.len() && blocks@[i].begin < offset && (forall|j: int|
                    #![trigger blocks@[j]]
                    0 <= j < blocks@.len() && blocks@[j].begin < offset ==> blocks@[j].begin
                        <= blocks@[i].begin) ==> blocks@[i].end <= offset,
        },
{
    let n = blocks.len();
    let mut best: Option<usize> = None;
    let mut i: usize = 0;
    while i < n
        invariant
            n == blocks@.len(),
            n <= u32::MAX,
            i <= n,
            match best {
                Some(b) => b < i && blocks@[b as int].begin < offset && forall|j: int|
                    #![trigger blocks@[j]]
                    0 <= j < i && blocks@[j].begin < offset ==> blocks@[j].begin
                        <= blocks@[b as int].begin,
                None => forall|j: int| 0 <= j < i ==> blocks@[j].begin >= offset,
            },
        decreases n - i,
    {
        if blocks[i].begin < offset {
            match best {
                Some(b) => {
                    if blocks[i].begin > blocks[b].begin {
                        best = Some(i);
                    }
                },
                None => {
                    best = Some(i);
                },
            }
        }
        i = i + 1;
    }
    let ghost bv = blocks_view(blocks@);
    match best {
        Some(b) => {
            proof {
                assert(begins_last_before(bv, offset, b as int));
                let j = choose|j: int| begins_last_before(bv, offset, j);
                assert(bv[j].begin <= bv[b as int].begin);
                assert(bv[b as int].begin <= bv[j].begin);
                assert(j == b);
            }
            if offset < blocks[b].end {
                let l = CilLabel::new(b);
                assert(l.spec_index() == b);
                Some(l)
            } else {
                None
            }
        },
        None => {
            proof {
                assert(!exists|j: int| begins_last_before(bv, offset, j));
            }
            None
        },
    }
}

/// The block that begins at `offset`.
fn find_target(blocks: &Vec<DecodeBlock>, offset: usize) -> (r: Option<CilLabel>)
    requires
        blocks@.len() <= u32::MAX,
        forall|i: int, j: int|
            0 <= i < blocks@.len() && 0 <= j < blocks@.len() && i != j ==> blocks@[i].begin
                != blocks@[j].begin,
    ensures
        match r {
            Some(l) => find_target_spec(blocks_view(blocks@), offset) == Some(l.spec_index()),
            None => find_target_spec(blocks_view(blocks@), offset) is None,
        },
        match r {
            Some(l) => 0 <= l.spec_index() < blocks@.len() && blocks@[l.spec_index()].begin
                == offset,
            None => forall|i: int| 0 <= i < blocks@.len() ==> blocks@[i].begin != offset,
        },
{
    let n = blocks.len();
    let mut i: usize = 0;
    while i < n
        invariant
            n == blocks@.len(),
            n <= u32::MAX,
            i <= n,
            forall|j: int| 0 <= j < i ==> blocks@[j].begin != offset,
            forall|a: int, b: int|
                0 <= a < blocks@.len() && 0 <= b < blocks@.len() && a != b ==> blocks@[a].begin
                    != blocks@[b].begin,
        decreases n - i,
    {
        if blocks[i].begin == offset {
            proof {
                let bv = blocks_view(blocks@);
                assert(bv[i as int].begin == offset);
                let j = choose|j: int| 0 <= j < bv.len() && bv[j].begin == offset;
                assert(blocks@[j].begin == offset);
                assert(j == i);
            }
            return Some(CilLabel::new(i));
        }
        i = i + 1;
    }
    None
}

/// `begins` lists the first blocks of `begins2`, which may list more.
spec fn extends(begins: Seq<int>, begins2: Seq<int>) -> bool {
    begins.len() <= begins2.len() && forall|i: int| 0 <= i < begins.len() ==> begins2[i] == begins[i]
}

/// The branch at `p` has its target, and its fall-through when it is conditional, among the
/// beginnings of blocks.
spec fn branch_recorded(image: Seq<u8>, begins: Seq<int>, p: int) -> bool {
    match spec_decode(image, p) {
        Ok((DecodeInst::Branch(c, off), e)) => begins.contains(branch_target(e, off)) && (c
            != CilCond::Always ==> begins.contains(e)),
        _ => false,
    }
}

spec fn work_has(work: Seq<CilLabel>, i: int) -> bool {
    exists|j: int| 0 <= j < work.len() && work[j].spec_index() == i
}

/// What the disassembler keeps true of its blocks, its work list of blocks still to decode and
/// the set `d` of positions of the branches it has handled, while it decodes block `cur` (or
/// none, when `cur` is negative).
spec fn wf_state(
    image: Seq<u8>,
    pos: int,
    blocks: Seq<DecodeBlock>,
    work: Seq<CilLabel>,
    d: Set<int>,
    cur: int,
) -> bool {
    let begins = begins_of(blocks);
    &&& image.len() <= isize::MAX
    &&& blocks.len() > 0
    &&& blocks[0].begin == pos
    &&& forall|i: int, j: int|
        0 <= i < blocks.len() && 0 <= j < blocks.len() && i != j ==> blocks[i].begin
            != blocks[j].begin
    &&& forall|i: int|
        #![trigger blocks[i]]
        0 <= i < blocks.len() ==> if i == cur {
            (open_block(image, begins, blocks[i]) && !blocks[i].finished) || (done_block(
                image,
                begins,
                blocks[i],
            ) && blocks[i].finished)
        } else {
            fresh_block(blocks[i]) || done_block(image, begins, blocks[i])
        }
    &&& forall|i: int|
        #![trigger blocks[i]]
        0 <= i < blocks.len() && i != cur && fresh_block(blocks[i]) ==> work_has(work, i)
    &&& forall|j: int|
        #![trigger work[j]]
        0 <= j < work.len() ==> 0 <= work[j].spec_index() < blocks.len() && work[j].spec_index()
            != cur && (fresh_block(blocks[work[j].spec_index()]) || (done_block(
            image,
            begins,
            blocks[work[j].spec_index()],
        ) && blocks[work[j].spec_index()].finished))
    &&& forall|j1: int, j2: int|
        0 <= j1 < work.len() && 0 <= j2 < work.len() && j1 != j2 ==> work[j1].spec_index()
            != work[j2].spec_index()
    &&& d.finite()
    &&& d.len() <= image.len()
    &&& forall|p: int| #[trigger] d.contains(p) ==> 0 <= p < image.len() && branch_recorded(image, begins, p)
    &&& blocks.len() <= u32::MAX
}

/// What decreases with each block the disassembler takes from its work list.
spec fn measure(image_len: int, work: Seq<CilLabel>, d: Set<int>) -> int {
    work.len() + 2 * (image_len - d.len())
}

proof fn lemma_decoded_at_mono(image: Seq<u8>, begins: Seq<int>, begins2: Seq<int>, p: int, inst: CilInst)
    requires
        extends(begins, begins2),
        decoded_at(image, begins, p, inst),
    ensures
        decoded_at(image, begins2, p, inst),
{
}

proof fn lemma_contains_mono(begins: Seq<int>, begins2: Seq<int>, x: int)
    requires
        extends(begins, begins2),
        begins.contains(x),
    ensures
        begins2.contains(x),
{
    let i = choose|i: int| 0 <= i < begins.len() && begins[i] == x;
    assert(begins2[i] == x);
}

proof fn lemma_trace_mono(
    image: Seq<u8>,
    begins: Seq<int>,
    begins2: Seq<int>,
    insts: Seq<CilInst>,
    ps: Seq<int>,
    begin: int,
)
    requires
        extends(begins, begins2),
        trace(image, begins, insts, ps, begin),
    ensures
        trace(image, begins2, insts, ps, begin),
{
    let n = insts.len();
    let q = chain_end(image, ps, begin);
    assert forall|k: int| #![trigger insts[k]] 0 <= k < n - 1 implies decoded_at(image, begins2, ps[k], insts[k]) by {
        lemma_decoded_at_mono(image, begins, begins2, ps[k], insts[k]);
    }
    if decoded_at(image, begins, q, insts[n - 1]) {
        lemma_decoded_at_mono(image, begins, begins2, q, insts[n - 1]);
    }
    if is_conditional(insts[n - 1]) {
        lemma_contains_mono(begins, begins2, decode_end(image, q));
    }
}

proof fn lemma_open_mono(image: Seq<u8>, begins: Seq<int>, begins2: Seq<int>, b: DecodeBlock)
    requires
        extends(begins, begins2),
        open_block(image, begins, b),
    ensures
        open_block(image, begins2, b),
{
    lemma_open_run_mono(image, begins, begins2, b.insts@, b.begin as int, b.end as int);
}

proof fn lemma_open_run_mono(
    image: Seq<u8>,
    begins: Seq<int>,
    begins2: Seq<int>,
    insts: Seq<(usize, CilInst)>,
    begin: int,
    end: int,
)
    requires
        extends(begins, begins2),
        open_run(image, begins, insts, begin, end),
    ensures
        open_run(image, begins2, insts, begin, end),
{
    assert forall|k: int| #![trigger insts[k]] 0 <= k < insts.len() implies decoded_at(image, begins2, insts[k].0 as int, insts[k].1) by {
        lemma_decoded_at_mono(image, begins, begins2, insts[k].0 as int, insts[k].1);
    }
}

proof fn lemma_done_mono(image: Seq<u8>, begins: Seq<int>, begins2: Seq<int>, b: DecodeBlock)
    requires
        extends(begins, begins2),
        done_block(image, begins, b),
    ensures
        done_block(image, begins2, b),
{
    lemma_trace_mono(image, begins, begins2, insts_of(b.insts@), positions_of(b.insts@), b.begin as int);
}

proof fn lemma_recorded_mono(image: Seq<u8>, begins: Seq<int>, begins2: Seq<int>, p: int)
    requires
        extends(begins, begins2),
        branch_recorded(image, begins, p),
    ensures
        branch_recorded(image, begins2, p),
{
    if let Ok((DecodeInst::Branch(c, off), e)) = spec_decode(image, p) {
        lemma_contains_mono(begins, begins2, branch_target(e, off));
        if c != CilCond::Always {
            lemma_contains_mono(begins, begins2, e);
        }
    }
}

/// The set of handled branches never holds more positions than the image has.
proof fn lemma_d_len(image_len: int, d: Set<int>)
    requires
        0 <= image_len,
        forall|p: int| #[trigger] d.contains(p) ==> 0 <= p < image_len,
    ensures
        d.finite(),
        d.len() <= image_len,
{
    vstd::set_lib::lemma_int_range(0, image_len);
    vstd::set_lib::lemma_len_subset(d, vstd::set_lib::set_int_range(0, image_len));
}

fn compute_target(end: usize, offset: i32) -> (t: usize)
    requires
        end <= isize::MAX,
    ensures
        t == branch_target(end as int, offset),
{
    let s: i128 = end as i128 + offset as i128;
    if s >= 0 {
        s as usize
    } else {
        usize::MAX - ((-(s + 1)) as usize)
    }
}

/// A jump to the block that begins at `p` means that some block begins at `p`.
proof fn lemma_jump_begins(begins: Seq<int>, p: int, inst: CilInst)
    requires
        jumps_to(begins, p, inst),
    ensures
        begins.contains(p),
{
    if let CilInst::Branch(_, l) = inst {
        assert(begins[l.spec_index()] == p);
    }
}

/// The part of a finished block before its `s`-th instruction, at `t`, where no block begins,
/// closed by a branch to the block that begins at `t` placed at `end`, and the part from there
/// on, are both traced blocks; `end` lies past `t`, and past the last position unless that is
/// where the run before it ends.
proof fn lemma_split_trace(
    image: Seq<u8>,
    begins: Seq<int>,
    begins1: Seq<int>,
    insts: Seq<(usize, CilInst)>,
    begin: int,
    end: usize,
    s: int,
    t: usize,
    label: CilLabel,
)
    requires
        extends(begins, begins1),
        trace(image, begins, insts_of(insts), positions_of(insts), begin),
        positions_of(insts)[insts.len() - 1] == chain_end(image, positions_of(insts), begin)
            || positions_of(insts)[insts.len() - 1] >= end,
        0 < s < insts.len(),
        insts[s].0 == t,
        t < end,
        !begins.contains(t as int),
        0 <= label.spec_index() < begins1.len(),
        begins1[label.spec_index()] == t,
    ensures
        trace(
            image,
            begins1,
            insts_of(insts.take(s).push((end, CilInst::Branch(CilCond::Always, label)))),
            positions_of(insts.take(s).push((end, CilInst::Branch(CilCond::Always, label)))),
            begin,
        ),
        trace(
            image,
            begins1,
            insts_of(insts.subrange(s, insts.len() as int)),
            positions_of(insts.subrange(s, insts.len() as int)),
            t as int,
        ),
        positions_of(insts.subrange(s, insts.len() as int))[insts.len() - s - 1] == chain_end(
            image,
            positions_of(insts.subrange(s, insts.len() as int)),
            t as int,
        ) || positions_of(insts.subrange(s, insts.len() as int))[insts.len() - s - 1] >= end,
{
    let n = insts.len();
    let oi = insts_of(insts);
    let op = positions_of(insts);
    let q = chain_end(image, op, begin);
    lemma_trace_mono(image, begins, begins1, oi, op, begin);
    assert(op[s] == t);
    if s == n - 1 {
        assert(op[n - 1] == q);
        if jumps_to(begins, q, oi[n - 1]) {
            lemma_jump_begins(begins, q, oi[n - 1]);
        }
        if is_terminator(oi[n - 2]) {
            lemma_jump_begins(begins, q, oi[n - 1]);
        }
        assert(decoded_at(image, begins, q, oi[n - 1]));
    } else {
        assert(oi[s - 1] == oi[s - 1]);
    }
    assert(decode_end(image, op[s - 1]) == t);
    assert(!is_terminator(oi[s - 1]));
    let first = insts.take(s).push((end, CilInst::Branch(CilCond::Always, label)));
    let fi = insts_of(first);
    let fp = positions_of(first);
    assert forall|k: int| #![trigger fi[k]] 0 <= k < fi.len() - 1 implies decoded_at(image, begins1, fp[k], fi[k]) && (k + 1 < fi.len() - 1 ==> (decode_end(image, fp[k]) == fp[k + 1] && !is_terminator(fi[k]))) by {
        assert(fi[k] == oi[k]);
        assert(fp[k] == op[k]);
        if k + 1 < fi.len() - 1 {
            assert(fp[k + 1] == op[k + 1]);
        }
    }
    assert(fi[s - 1] == oi[s - 1]);
    assert(fp[s - 1] == op[s - 1]);
    assert(chain_end(image, fp, begin) == t);
    assert(fi[s] == CilInst::Branch(CilCond::Always, label));
    assert(fp[0] == op[0]);
    let tail = insts.subrange(s, n as int);
    let ti = insts_of(tail);
    let tp = positions_of(tail);
    let nt = tail.len();
    assert forall|k: int| #![trigger ti[k]] 0 <= k < nt - 1 implies decoded_at(image, begins1, tp[k], ti[k]) && (k + 1 < nt - 1 ==> (decode_end(image, tp[k]) == tp[k + 1] && !is_terminator(ti[k]))) by {
        assert(ti[k] == oi[k + s]);
        assert(tp[k] == op[k + s]);
        if k + 1 < nt - 1 {
            assert(tp[k + 1] == op[k + s + 1]);
        }
    }
    assert(ti[nt - 1] == oi[n - 1]);
    assert(tp[nt - 1] == op[n - 1]);
    assert(tp[0] == t);
    if nt >= 2 {
        assert(ti[nt - 2] == oi[n - 2]);
        assert(tp[nt - 2] == op[n - 2]);
        assert(chain_end(image, tp, t as int) == q);
    }
}

/// Splitting an open run ending at `end` at position `s` leaves a traced block before it,
/// closed by a branch placed at `end` to the block that begins at the `s`-th instruction, and an
/// open run from there on.
proof fn lemma_split_open(
    image: Seq<u8>,
    begins: Seq<int>,
    begins1: Seq<int>,
    insts: Seq<(usize, CilInst)>,
    begin: int,
    end: usize,
    s: int,
    t: usize,
    label: CilLabel,
)
    requires
        extends(begins, begins1),
        open_run(image, begins, insts, begin, end as int),
        0 < s < insts.len(),
        insts[s].0 == t,
        0 <= label.spec_index() < begins1.len(),
        begins1[label.spec_index()] == t,
    ensures
        trace(
            image,
            begins1,
            insts_of(insts.take(s).push((end, CilInst::Branch(CilCond::Always, label)))),
            positions_of(insts.take(s).push((end, CilInst::Branch(CilCond::Always, label)))),
            begin,
        ),
        open_run(image, begins1, insts.subrange(s, insts.len() as int), t as int, end as int),
{
    lemma_open_run_mono(image, begins, begins1, insts, begin, end as int);
    let n = insts.len();
    let first = insts.take(s).push((end, CilInst::Branch(CilCond::Always, label)));
    let fi = insts_of(first);
    let fp = positions_of(first);
    assert forall|k: int| #![trigger fi[k]] 0 <= k < fi.len() - 1 implies decoded_at(image, begins1, fp[k], fi[k]) && (k + 1 < fi.len() - 1 ==> (decode_end(image, fp[k]) == fp[k + 1] && !is_terminator(fi[k]))) by {
        assert(first[k] == insts[k]);
        if k + 1 < s {
            assert(first[k + 1] == insts[k + 1]);
        }
    }
    assert(first[s - 1] == insts[s - 1]);
    assert(insts[s - 1] == insts[s - 1]);
    assert(chain_end(image, fp, begin) == t);
    assert(!is_terminator(fi[s - 1]));
    assert(fi[s] == CilInst::Branch(CilCond::Always, label));
    let tail = insts.subrange(s, n as int);
    assert forall|k: int| #![trigger tail[k]] 0 <= k < tail.len() implies decoded_at(image, begins1, tail[k].0 as int, tail[k].1)
        && !is_terminator(tail[k].1) && (k + 1 < tail.len() ==> decode_end(image, tail[k].0 as int) == tail[k + 1].0) by {
        assert(tail[k] == insts[k + s]);
        if k + 1 < tail.len() {
            assert(tail[k + 1] == insts[k + s + 1]);
        }
    }
    assert(tail[tail.len() - 1] == insts[n - 1]);
}

/// An open run ending at `p`, followed by the terminator `x` at `p`, is a traced block whose
/// last instruction stands where the run ends.
proof fn lemma_run_close(
    image: Seq<u8>,
    begins: Seq<int>,
    insts: Seq<(usize, CilInst)>,
    begin: int,
    p: usize,
    x: CilInst,
)
    requires
        open_run(image, begins, insts, begin, p as int),
        decoded_at(image, begins, p as int, x) || (insts.len() > 0 && jumps_to(begins, p as int, x)),
        is_terminator(x),
        is_conditional(x) ==> begins.contains(decode_end(image, p as int)),
    ensures
        trace(image, begins, insts_of(insts.push((p, x))), positions_of(insts.push((p, x))), begin),
        chain_end(image, positions_of(insts.push((p, x))), begin) == p,
{
    let all = insts.push((p, x));
    let ai = insts_of(all);
    let ap = positions_of(all);
    assert forall|k: int| #![trigger ai[k]] 0 <= k < ai.len() - 1 implies decoded_at(image, begins, ap[k], ai[k]) && (k + 1 < ai.len() - 1 ==> (decode_end(image, ap[k]) == ap[k + 1] && !is_terminator(ai[k]))) by {
        assert(all[k] == insts[k]);
        if k + 1 < insts.len() {
            assert(all[k + 1] == insts[k + 1]);
        }
    }
    if insts.len() > 0 {
        assert(all[insts.len() - 1] == insts[insts.len() - 1]);
        assert(!is_terminator(ai[insts.len() - 1]));
    }
    assert(ap[ai.len() - 1] == p);
    assert(ai[ai.len() - 1] == x);
    assert(chain_end(image, ap, begin) == p);
}

/// An open run ending at `p`, followed by the conditional branch `x` at `p` and the branch `y`
/// to the block that begins just past `x`, placed there, is a traced block.
proof fn lemma_run_close_fallthrough(
    image: Seq<u8>,
    begins: Seq<int>,
    insts: Seq<(usize, CilInst)>,
    begin: int,
    p: usize,
    x: CilInst,
    e: usize,
    y: CilInst,
)
    requires
        open_run(image, begins, insts, begin, p as int),
        decoded_at(image, begins, p as int, x),
        is_conditional(x),
        decode_end(image, p as int) == e,
        jumps_to(begins, e as int, y),
    ensures
        trace(
            image,
            begins,
            insts_of(insts.push((p, x)).push((e, y))),
            positions_of(insts.push((p, x)).push((e, y))),
            begin,
        ),
        chain_end(image, positions_of(insts.push((p, x)).push((e, y))), begin) == e,
{
    let all = insts.push((p, x)).push((e, y));
    let ai = insts_of(all);
    let ap = positions_of(all);
    let n = insts.len();
    assert forall|k: int| #![trigger ai[k]] 0 <= k < ai.len() - 1 implies decoded_at(image, begins, ap[k], ai[k]) && (k + 1 < ai.len() - 1 ==> (decode_end(image, ap[k]) == ap[k + 1] && !is_terminator(ai[k]))) by {
        if k < n {
            assert(all[k] == insts[k]);
            if k + 1 < n {
                assert(all[k + 1] == insts[k + 1]);
            }
        }
    }
    assert(ap[n as int] == p);
    assert(ai[n as int] == x);
    assert(ap[n as int + 1] == e);
    assert(ai[n as int + 1] == y);
    assert(ap[0] == begin) by {
        if n > 0 {
            assert(all[0] == insts[0]);
        }
    }
}

/// An open run ending at `p`, followed by the non-terminator `x` at `p`, is an open run ending
/// past `x`.
proof fn lemma_run_extend(
    image: Seq<u8>,
    begins: Seq<int>,
    insts: Seq<(usize, CilInst)>,
    begin: int,
    p: usize,
    x: CilInst,
)
    requires
        open_run(image, begins, insts, begin, p as int),
        decoded_at(image, begins, p as int, x),
        !is_terminator(x),
        decode_end(image, p as int) <= image.len(),
    ensures
        open_run(image, begins, insts.push((p, x)), begin, decode_end(image, p as int)),
{
    let all = insts.push((p, x));
    assert forall|k: int| #![trigger all[k]] 0 <= k < all.len() implies decoded_at(image, begins, all[k].0 as int, all[k].1)
        && !is_terminator(all[k].1) && (k + 1 < all.len() ==> decode_end(image, all[k].0 as int) == all[k + 1].0) by {
        if k < insts.len() {
            assert(all[k] == insts[k]);
            if k + 1 < insts.len() {
                assert(all[k + 1] == insts[k + 1]);
            }
        }
    }
}

/// The state between finding where a branch goes and recording the branch: block `si`, which
/// is to take the branch, is open up to `pos`, and block `tl` begins at the branch's target.
spec fn mid_state(
    image: Seq<u8>,
    pos0: int,
    blocks: Seq<DecodeBlock>,
    work: Seq<CilLabel>,
    d: Set<int>,
    c: int,
    si: int,
    pos: int,
    tl: int,
    target: int,
) -> bool {
    let begins = begins_of(blocks);
    &&& image.len() <= isize::MAX
    &&& 0 < blocks.len() <= u32::MAX
    &&& blocks[0].begin == pos0
    &&& forall|i: int, j: int|
        0 <= i < blocks.len() && 0 <= j < blocks.len() && i != j ==> blocks[i].begin
            != blocks[j].begin
    &&& 0 <= si < blocks.len()
    &&& open_block(image, begins, blocks[si])
    &&& blocks[si].end == pos
    &&& forall|i: int|
        #![trigger blocks[i]]
        0 <= i < blocks.len() && i != si ==> fresh_block(blocks[i]) || done_block(
            image,
            begins,
            blocks[i],
        )
    &&& forall|i: int|
        #![trigger blocks[i]]
        0 <= i < blocks.len() && i != si && fresh_block(blocks[i]) ==> work_has(work, i)
    &&& forall|j: int|
        #![trigger work[j]]
        0 <= j < work.len() ==> 0 <= work[j].spec_index() < blocks.len() && work[j].spec_index()
            != c && (work[j].spec_index() == si || fresh_block(blocks[work[j].spec_index()]) || (
        done_block(image, begins, blocks[work[j].spec_index()])
            && blocks[work[j].spec_index()].finished))
    &&& forall|j1: int, j2: int|
        0 <= j1 < work.len() && 0 <= j2 < work.len() && j1 != j2 ==> work[j1].spec_index()
            != work[j2].spec_index()
    &&& 0 <= tl < blocks.len()
    &&& blocks[tl].begin == target
    &&& d.finite()
    &&& d.len() <= image.len()
    &&& forall|p: int| #[trigger] d.contains(p) ==> 0 <= p < image.len() && branch_recorded(image, begins, p)
}

/// Finds or makes the block that begins at `target`, splitting the block whose range holds it;
/// returns the label of the block that is to take the branch (the current one, or the part of it
/// from `target` on when it is the block split) and that of the target block.
fn resolve_target(
    image: &[u8],
    blocks: &mut Vec<DecodeBlock>,
    work: &mut Vec<CilLabel>,
    cur_label: CilLabel,
    pos: usize,
    end: usize,
    cond: CilCond,
    offset: i32,
    Ghost(pos0): Ghost<int>,
    Ghost(d): Ghost<Set<int>>,
) -> (r: Result<(CilLabel, CilLabel), DisasmError>)
    requires
        wf_state(image@, pos0, old(blocks)@, old(work)@, d, cur_label.spec_index()),
        0 <= cur_label.spec_index() < old(blocks)@.len(),
        open_block(image@, begins_of(old(blocks)@), old(blocks)@[cur_label.spec_index()]),
        !old(blocks)@[cur_label.spec_index()].finished,
        old(blocks)@[cur_label.spec_index()].end == pos,
        spec_decode(image@, pos as int) == Ok::<(DecodeInst, int), DecodeError>(
            (DecodeInst::Branch(cond, offset), end as int),
        ),
        pos < end <= image@.len(),
    ensures
        match r {
            Ok((si, tl)) => mid_state(
                image@,
                pos0,
                final(blocks)@,
                final(work)@,
                d,
                cur_label.spec_index(),
                si.spec_index(),
                pos as int,
                tl.spec_index(),
                branch_target(end as int, offset),
            ) && extends(begins_of(old(blocks)@), begins_of(final(blocks)@))
                && final(blocks)@.len() - old(blocks)@.len() == final(work)@.len() - old(work)@.len()
                && final(blocks)@.len() <= old(blocks)@.len() + 1
                && (final(blocks)@.len() > old(blocks)@.len() ==> !d.contains(pos as int)),
            Err(e) => e == DisasmError::BadBranchTarget || e == DisasmError::TooManyBlocks,
        },
        match r {
            Ok((si, tl)) => resolve_spec(
                state_view(old(blocks)@, old(work)@, Some(cur_label.spec_index())),
                cur_label.spec_index(),
                branch_target(end as int, offset) as usize,
            ) == Ok::<(Seq<SBlock>, Seq<int>, int, int), DisasmError>(
                (
                    blocks_view(final(blocks)@),
                    work_view(final(work)@),
                    si.spec_index(),
                    tl.spec_index(),
                ),
            ),
            Err(e) => resolve_spec(
                state_view(old(blocks)@, old(work)@, Some(cur_label.spec_index())),
                cur_label.spec_index(),
                branch_target(end as int, offset) as usize,
            ) == Err::<(Seq<SBlock>, Seq<int>, int, int), DisasmError>(e),
        },
{
    let ghost b0 = blocks@;
    let ghost w0 = work@;
    let ghost begins0 = begins_of(b0);
    let ghost c = cur_label.spec_index();
    proof {
        lemma_d_len(image@.len() as int, d);
    }
    let target = compute_target(end, offset);
    if let Some(tb) = find_target(blocks, target) {
        assert(mid_state(image@, pos0, blocks@, work@, d, c, c, pos as int, tb.spec_index(), target as int));
        assert(extends(begins0, begins_of(blocks@)));
        return Ok((cur_label, tb));
    }
    proof {
        if d.contains(pos as int) {
            assert(branch_recorded(image@, begins0, pos as int));
            let i = choose|i: int| 0 <= i < begins0.len() && begins0[i] == target;
            assert(blocks@[i].begin == target);
        }
    }
    if blocks.len() >= u32::MAX as usize {
        return Err(DisasmError::TooManyBlocks);
    }
    match find_block(blocks, target) {
        Some(tb) => {
            let label = CilLabel::new(blocks.len());
            let ti = tb.index();
            proof {
                assert(!fresh_block(b0[ti as int]));
            }
            let new_block = match blocks[ti].split(target, label) {
                Ok(nb) => nb,
                Err(e) => {
                    proof {
                        assert(blocks_view(blocks@)[ti as int] == sview(blocks@[ti as int]));
                    }
                    return Err(e);
                },
            };
            let self_label = if ti == cur_label.index() {
                label
            } else {
                cur_label
            };
            let ghost first = blocks@[ti as int];
            let ghost old_b = b0[ti as int];
            blocks.push(new_block);
            work.push(label);
            proof {
                let n = old_b.insts@.len();
                let sp = choose|sp: int|
                    0 <= sp < n && old_b.insts@[sp].0 == target && (forall|k: int|
                        0 <= k < sp ==> old_b.insts@[k].0 != target) && new_block.insts@
                        == old_b.insts@.subrange(sp, n as int) && first.insts@
                        == old_b.insts@.take(sp).push(
                        (old_b.end, CilInst::Branch(CilCond::Always, label)),
                    );
                let begins1 = begins_of(blocks@);
                assert(begins1 =~= begins0.push(target as int));
                assert(extends(begins0, begins1));
                assert(begins1[label.spec_index()] == target);
                let si = self_label.spec_index();
                assert(target < old_b.end);
                let fps = positions_of(first.insts@);
                assert(fps[fps.len() - 1] == old_b.end);
                if ti as int == c {
                    assert(old_b.insts@[0].0 == old_b.begin);
                    lemma_split_open(image@, begins0, begins1, old_b.insts@, old_b.begin as int, old_b.end, sp, target, label);
                    assert(done_block(image@, begins1, blocks@[c]));
                    assert(open_block(image@, begins1, blocks@[si]));
                } else {
                    assert(done_block(image@, begins0, old_b));
                    assert(positions_of(old_b.insts@)[0] == old_b.begin);
                    assert(!begins0.contains(target as int)) by {
                        if begins0.contains(target as int) {
                            let i = choose|i: int| 0 <= i < begins0.len() && begins0[i] == target;
                            assert(b0[i].begin == target);
                        }
                    }
                    lemma_split_trace(image@, begins0, begins1, old_b.insts@, old_b.begin as int, old_b.end, sp, target, label);
                    assert(done_block(image@, begins1, blocks@[ti as int]));
                    assert(done_block(image@, begins1, blocks@[label.spec_index()]));
                    lemma_open_mono(image@, begins0, begins1, b0[c]);
                    assert(open_block(image@, begins1, blocks@[si]));
                }
                assert forall|i: int| #![trigger blocks@[i]] 0 <= i < blocks@.len() && i != si implies
                    fresh_block(blocks@[i]) || done_block(image@, begins1, blocks@[i]) by {
                    if i < b0.len() && i != ti && done_block(image@, begins0, b0[i]) {
                        lemma_done_mono(image@, begins0, begins1, b0[i]);
                    }
                }
                assert forall|p: int| #[trigger] d.contains(p) implies 0 <= p < image@.len() && branch_recorded(image@, begins1, p) by {
                    lemma_recorded_mono(image@, begins0, begins1, p);
                }
                assert forall|j: int| #![trigger work@[j]] 0 <= j < work@.len() implies
                    0 <= work@[j].spec_index() < blocks@.len() && work@[j].spec_index() != c && (work@[j].spec_index() == si || fresh_block(blocks@[work@[j].spec_index()]) || (
                    done_block(image@, begins1, blocks@[work@[j].spec_index()])
                    && blocks@[work@[j].spec_index()].finished)) by {
                    if j < w0.len() {
                        let k = w0[j].spec_index();
                        if k != ti && done_block(image@, begins0, b0[k]) {
                            lemma_done_mono(image@, begins0, begins1, b0[k]);
                        }
                    }
                }
                assert forall|i: int| #![trigger blocks@[i]] 0 <= i < blocks@.len() && i != si && fresh_block(blocks@[i]) implies work_has(work@, i) by {
                    if i < b0.len() {
                        let j = choose|j: int| 0 <= j < w0.len() && w0[j].spec_index() == i;
                        assert(work@[j] == w0[j]);
                    } else {
                        assert(work@[w0.len() as int].spec_index() == i);
                    }
                }
                let bv0 = blocks_view(b0);
                assert(bv0[ti as int] == sview(old_b));
                assert(blocks_view(blocks@) =~= bv0.update(ti as int, sview(first)).push(sview(new_block)));
                assert(work_view(work@) =~= work_view(w0).push(b0.len() as int));
            }
            Ok((self_label, label))
        },
        None => {
            let label = CilLabel::new(blocks.len());
            blocks.push(DecodeBlock { insts: Vec::new(), begin: target, end: target, finished: false });
            work.push(label);
            proof {
                let begins1 = begins_of(blocks@);
                assert(begins1 =~= begins0.push(target as int));
                assert(extends(begins0, begins1));
                assert forall|i: int| #![trigger blocks@[i]] 0 <= i < blocks@.len() && i != c implies
                    fresh_block(blocks@[i]) || done_block(image@, begins1, blocks@[i]) by {
                    if i < b0.len() && done_block(image@, begins0, b0[i]) {
                        lemma_done_mono(image@, begins0, begins1, b0[i]);
                    }
                }
                lemma_open_mono(image@, begins0, begins1, b0[c]);
                assert forall|p: int| #[trigger] d.contains(p) implies 0 <= p < image@.len() && branch_recorded(image@, begins1, p) by {
                    lemma_recorded_mono(image@, begins0, begins1, p);
                }
                assert forall|j: int| #![trigger work@[j]] 0 <= j < work@.len() implies
                    0 <= work@[j].spec_index() < blocks@.len() && work@[j].spec_index() != c && (work@[j].spec_index() == c || fresh_block(blocks@[work@[j].spec_index()]) || (
                    done_block(image@, begins1, blocks@[work@[j].spec_index()])
                    && blocks@[work@[j].spec_index()].finished)) by {
                    if j < w0.len() {
                        let k = w0[j].spec_index();
                        if done_block(image@, begins0, b0[k]) {
                            lemma_done_mono(image@, begins0, begins1, b0[k]);
                        }
                    }
                }
                assert forall|i: int| #![trigger blocks@[i]] 0 <= i < blocks@.len() && i != c && fresh_block(blocks@[i]) implies work_has(work@, i) by {
                    if i < b0.len() {
                        let j = choose|j: int| 0 <= j < w0.len() && w0[j].spec_index() == i;
                        assert(work@[j] == w0[j]);
                    } else {
                        assert(work@[w0.len() as int].spec_index() == i);
                    }
                }
                assert(blocks_view(blocks@) =~= blocks_view(b0).push(crate::parsers::disasm_model::fresh_at(target)));
                assert(work_view(work@) =~= work_view(w0).push(b0.len() as int));
            }
            Ok((cur_label, label))
        },
    }
}

/// Records the branch at `pos` in block `si` and, when it is conditional and no block begins
/// where it falls through, makes that block; the branch's position joins the handled ones.
fn record_branch(
    image: &[u8],
    blocks: &mut Vec<DecodeBlock>,
    work: &mut Vec<CilLabel>,
    cur_label: CilLabel,
    si_label: CilLabel,
    target_label: CilLabel,
    pos: usize,
    end: usize,
    cond: CilCond,
    offset: i32,
    Ghost(pos0): Ghost<int>,
    Ghost(d): Ghost<Set<int>>,
    Ghost(b0len): Ghost<int>,
    Ghost(w0len): Ghost<int>,
) -> (r: Result<Ghost<Set<int>>, DisasmError>)
    requires
        mid_state(
            image@,
            pos0,
            old(blocks)@,
            old(work)@,
            d,
            cur_label.spec_index(),
            si_label.spec_index(),
            pos as int,
            target_label.spec_index(),
            branch_target(end as int, offset),
        ),
        spec_decode(image@, pos as int) == Ok::<(DecodeInst, int), DecodeError>(
            (DecodeInst::Branch(cond, offset), end as int),
        ),
        pos < end <= image@.len(),
        old(blocks)@.len() - b0len == old(work)@.len() - w0len,
        b0len <= old(blocks)@.len() <= b0len + 1,
        old(blocks)@.len() > b0len ==> !d.contains(pos as int),
    ensures
        match r {
            Ok(d2) => wf_state(image@, pos0, final(blocks)@, final(work)@, d2@, -1) && measure(
                image@.len() as int,
                final(work)@,
                d2@,
            ) <= w0len + 2 * (image@.len() - d.len()) && record_spec(
                blocks_view(old(blocks)@),
                work_view(old(work)@),
                si_label.spec_index(),
                target_label.spec_index(),
                pos,
                end,
                cond,
            ) == Ok::<DisasmState, DisasmError>(state_view(final(blocks)@, final(work)@, None)),
            Err(e) => record_spec(
                blocks_view(old(blocks)@),
                work_view(old(work)@),
                si_label.spec_index(),
                target_label.spec_index(),
                pos,
                end,
                cond,
            ) == Err::<DisasmState, DisasmError>(e),
        },
{
    let ghost b1 = blocks@;
    let ghost w1 = work@;
    let ghost begins1 = begins_of(b1);
    let ghost c = cur_label.spec_index();
    let ghost old_si = b1[si_label.spec_index()];
    let si = si_label.index();
    let br = CilInst::Branch(cond, target_label);
    proof {
        lemma_d_len(image@.len() as int, d);
        assert(decoded_at(image@, begins1, pos as int, br));
    }
    blocks[si].insts.push((pos, br));
    blocks[si].end = end;
    blocks[si].finished = true;
    let ghost mut created = false;
    let ghost bv1 = blocks_view(b1);
    let ghost nb1 = SBlock {
        insts: bv1[si as int].insts.push((pos, CilInst::Branch(cond, label_of(target_label.spec_index())))),
        end: end,
        finished: true,
        ..bv1[si as int]
    };
    proof {
        assert(label_of(target_label.spec_index()) == target_label);
        assert(blocks_view(blocks@) =~= bv1.update(si as int, nb1));
    }
    let ghost bv2 = blocks_view(blocks@);
    match cond {
        CilCond::Always => {},
        _ => {
            let fall = find_target(blocks, end);
            if fall.is_none() {
                if blocks.len() >= u32::MAX as usize {
                    return Err(DisasmError::TooManyBlocks);
                }
                let cont_label = CilLabel::new(blocks.len());
                blocks[si].insts.push((end, CilInst::Branch(CilCond::Always, cont_label)));
                blocks.push(DecodeBlock { insts: Vec::new(), begin: end, end, finished: false });
                work.push(cont_label);
                proof {
                    created = true;
                    assert(label_of(b1.len() as int) == cont_label);
                    let nb2 = SBlock {
                        insts: nb1.insts.push((end, CilInst::Branch(CilCond::Always, label_of(b1.len() as int)))),
                        ..nb1
                    };
                    assert(blocks_view(blocks@) =~= bv2.update(si as int, nb2).push(crate::parsers::disasm_model::fresh_at(end)));
                    assert(work_view(work@) =~= work_view(w1).push(b1.len() as int));
                    let begins2 = begins_of(blocks@);
                    assert(begins2 =~= begins1.push(end as int));
                    assert(extends(begins1, begins2));
                    lemma_open_run_mono(image@, begins1, begins2, old_si.insts@, old_si.begin as int, pos as int);
                    lemma_decoded_at_mono(image@, begins1, begins2, pos as int, br);
                    assert(decode_end(image@, pos as int) == end);
                    lemma_run_close_fallthrough(image@, begins2, old_si.insts@, old_si.begin as int, pos, br, end, CilInst::Branch(CilCond::Always, cont_label));
                    if d.contains(pos as int) {
                        assert(branch_recorded(image@, begins1, pos as int));
                        let i = choose|i: int| 0 <= i < begins1.len() && begins1[i] == end;
                        assert(b1[i].begin == end);
                    }
                }
            } else {
                proof {
                    let l = fall->0.spec_index();
                    assert(begins1[l] == end);
                    assert(begins1.contains(end as int));
                }
            }
        },
    }
    let ghost d2 = d.insert(pos as int);
    proof {
        let begins2 = begins_of(blocks@);
        assert(extends(begins1, begins2));
        let b = blocks@[si as int];
        if !created {
            assert(blocks@.len() == b1.len());
            assert(begins2 =~= begins1);
            lemma_run_close(image@, begins1, old_si.insts@, old_si.begin as int, pos, br);
            assert(b.insts@ == old_si.insts@.push((pos, br)));
        }
        assert(done_block(image@, begins2, b));
        assert forall|i: int| #![trigger blocks@[i]] 0 <= i < blocks@.len() implies
            fresh_block(blocks@[i]) || done_block(image@, begins2, blocks@[i]) by {
            if i < b1.len() && i != si && done_block(image@, begins1, b1[i]) {
                lemma_done_mono(image@, begins1, begins2, b1[i]);
            }
        }
        assert forall|p: int| #[trigger] d2.contains(p) implies 0 <= p < image@.len() && branch_recorded(image@, begins2, p) by {
            if p != pos {
                lemma_recorded_mono(image@, begins1, begins2, p);
            } else {
                assert(begins2[target_label.spec_index()] == branch_target(end as int, offset));
                if cond != CilCond::Always {
                    if created {
                        assert(begins2[b1.len() as int] == end);
                    } else {
                        lemma_contains_mono(begins1, begins2, end as int);
                    }
                }
            }
        }
        assert forall|j: int| #![trigger work@[j]] 0 <= j < work@.len() implies
            0 <= work@[j].spec_index() < blocks@.len() && work@[j].spec_index() != -1 && (fresh_block(blocks@[work@[j].spec_index()]) || (
            done_block(image@, begins2, blocks@[work@[j].spec_index()])
            && blocks@[work@[j].spec_index()].finished)) by {
            if j < w1.len() {
                let k = w1[j].spec_index();
                if k != si && done_block(image@, begins1, b1[k]) {
                    lemma_done_mono(image@, begins1, begins2, b1[k]);
                }
            }
        }
        assert forall|i: int| #![trigger blocks@[i]] 0 <= i < blocks@.len() && i != -1 && fresh_block(blocks@[i]) implies work_has(work@, i) by {
            if i < b1.len() {
                let j = choose|j: int| 0 <= j < w1.len() && w1[j].spec_index() == i;
                assert(work@[j] == w1[j]);
            } else {
                assert(work@[w1.len() as int].spec_index() == i);
            }
        }
        lemma_d_len(image@.len() as int, d2);
    }
    Ok(Ghost(d2))
}

/// The instruction of the IR for a decoded non-branch instruction.
fn lower(d: DecodeInst) -> (inst: CilInst)
    requires
        !(d is Branch),
    ensures
        inst == lower_spec(d),
        forall|e: int, begins: Seq<int>| lowers_to(d, e, inst, begins),
        !is_terminator(inst) <==> !(d is Return),
{
    match d {
        DecodeInst::Nop => CilInst::Nop,
        DecodeInst::Break => CilInst::Break,
        DecodeInst::Load(slot) => CilInst::Load(slot),
        DecodeInst::Addr(slot) => CilInst::Addr(slot),
        DecodeInst::Store(slot) => CilInst::Store(slot),
        DecodeInst::Arith(arith) => CilInst::Arith(arith),
        DecodeInst::Const(cst) => CilInst::Const(cst),
        DecodeInst::Call(token) => CilInst::Call(token),
        DecodeInst::Prefix(prefix) => CilInst::Prefix(prefix),
        DecodeInst::Compare(cond) => CilInst::Compare(cond),
        DecodeInst::Return => CilInst::Return,
        DecodeInst::Branch(_, _) => CilInst::Return,
    }
}

/// Decodes block `cur_label` from where it begins until it ends: with a branch or a return, or
/// where it runs into the start of a decoded block.
fn decode_block(
    image: &[u8],
    blocks: &mut Vec<DecodeBlock>,
    work: &mut Vec<CilLabel>,
    cur_label: CilLabel,
    Ghost(pos0): Ghost<usize>,
    Ghost(d): Ghost<Set<int>>,
    Ghost(steps): Ghost<nat>,
) -> (r: Result<(Ghost<Set<int>>, Ghost<nat>), DisasmError>)
    requires
        wf_state(image@, pos0 as int, old(blocks)@, old(work)@, d, cur_label.spec_index()),
        0 <= cur_label.spec_index() < old(blocks)@.len(),
        reach(image@, initial(pos0), steps) == Some(
            state_view(old(blocks)@, old(work)@, Some(cur_label.spec_index())),
        ),
    ensures
        match r {
            Ok((d2, steps2)) => wf_state(image@, pos0 as int, final(blocks)@, final(work)@, d2@, -1)
                && measure(image@.len() as int, final(work)@, d2@) <= measure(
                image@.len() as int,
                old(work)@,
                d,
            ) && reach(image@, initial(pos0), steps2@) == Some(
                state_view(final(blocks)@, final(work)@, None),
            ),
            Err(e) => exists|m: nat|
                outcome(image@, initial(pos0), m) == Some(DisasmOutcome::Failed(e)),
        },
{
    let c = cur_label.index();
    let ghost w0 = work@;
    let ghost b0len = blocks@.len() as int;
    let ghost s0 = initial(pos0);
    proof {
        lemma_d_len(image@.len() as int, d);
    }
    if blocks[c].finished {
        proof {
            let s = state_view(blocks@, work@, Some(c as int));
            assert(s.blocks[c as int] == sview(blocks@[c as int]));
            assert(step(image@, s) == DisasmStep::Next(state_view(blocks@, work@, None)));
        }
        return Ok((Ghost(d), Ghost(steps + 1)));
    }
    let ghost mut k: nat = steps;
    loop
        invariant
            wf_state(image@, pos0 as int, blocks@, work@, d, c as int),
            0 <= c < blocks@.len(),
            c == cur_label.spec_index(),
            !blocks@[c as int].finished,
            w0 == old(work)@,
            work@ == w0,
            blocks@.len() == b0len,
            s0 == initial(pos0),
            reach(image@, s0, k) == Some(state_view(blocks@, work@, Some(c as int))),
        decreases image@.len() + 1 - blocks@[c as int].end,
    {
        let pos = blocks[c].end;
        let ghost begins = begins_of(blocks@);
        let ghost old_c = blocks@[c as int];
        let ghost sv = state_view(blocks@, work@, Some(c as int));
        let ghost bv = blocks_view(blocks@);
        proof {
            assert(sv.blocks[c as int] == sview(old_c));
        }
        let probe = pos.checked_add(1);
        let found = match probe {
            Some(q) => find_block(blocks, q),
            None => None,
        };
        if let Some(label) = found {
            let li = label.index();
            if pos == blocks[li].begin && blocks[li].end > blocks[li].begin {
                let jump = CilInst::Branch(CilCond::Always, label);
                blocks[c].insts.push((pos, jump));
                blocks[c].finished = true;
                proof {
                    assert(begins_of(blocks@) =~= begins);
                    assert(old_c.insts@.len() > 0) by {
                        if old_c.insts@.len() == 0 {
                            assert(old_c.begin == pos);
                            assert(blocks@[c as int].begin <= blocks@[li as int].begin);
                            assert(li == c);
                        }
                    }
                    lemma_run_close(image@, begins, old_c.insts@, old_c.begin as int, pos, jump);
                    assert(blocks@[c as int].insts@ == old_c.insts@.push((pos, jump)));
                    assert(done_block(image@, begins, blocks@[c as int]));
                    assert(label_of(li as int) == label);
                    assert(bv[li as int] == sview(blocks@[li as int]));
                    let b1 = SBlock {
                        insts: sview(old_c).insts.push((pos, CilInst::Branch(CilCond::Always, label_of(li as int)))),
                        finished: true,
                        ..sview(old_c)
                    };
                    assert(blocks_view(blocks@) =~= bv.update(c as int, b1));
                    assert(step(image@, sv) == DisasmStep::Next(state_view(blocks@, work@, None)));
                }
                return Ok((Ghost(d), Ghost(k + 1)));
            } else {
                proof {
                    assert(bv[li as int] == sview(blocks@[li as int]));
                    assert(step(image@, sv) == DisasmStep::Done(DisasmOutcome::Failed(DisasmError::BadInstructionStream)));
                    assert(outcome(image@, s0, k) == Some(DisasmOutcome::Failed(DisasmError::BadInstructionStream)));
                }
                return Err(DisasmError::BadInstructionStream);
            }
        }
        let (inst, end) = match decode(image, pos) {
            Ok(r) => r,
            Err(e) => {
                proof {
                    assert(step(image@, sv) == DisasmStep::Done(DisasmOutcome::Failed(DisasmError::Decode(e))));
                    assert(outcome(image@, s0, k) == Some(DisasmOutcome::Failed(DisasmError::Decode(e))));
                }
                return Err(DisasmError::Decode(e));
            },
        };
        proof {
            lemma_decode_advances(image@, pos as int);
        }
        match inst {
            DecodeInst::Branch(cond, offset) => {
                let (si, tl) = match resolve_target(
                    image,
                    blocks,
                    work,
                    cur_label,
                    pos,
                    end,
                    cond,
                    offset,
                    Ghost(pos0 as int),
                    Ghost(d),
                ) {
                    Ok(x) => x,
                    Err(e) => {
                        proof {
                            assert(step(image@, sv) == DisasmStep::Done(DisasmOutcome::Failed(e)));
                            assert(outcome(image@, s0, k) == Some(DisasmOutcome::Failed(e)));
                        }
                        return Err(e);
                    },
                };
                let ghost bv1 = blocks_view(blocks@);
                let ghost wv1 = work_view(work@);
                let d2 = match record_branch(
                    image,
                    blocks,
                    work,
                    cur_label,
                    si,
                    tl,
                    pos,
                    end,
                    cond,
                    offset,
                    Ghost(pos0 as int),
                    Ghost(d),
                    Ghost(b0len),
                    Ghost(w0.len() as int),
                ) {
                    Ok(d2) => d2,
                    Err(e) => {
                        proof {
                            assert(step(image@, sv) == DisasmStep::Done(DisasmOutcome::Failed(e)));
                            assert(outcome(image@, s0, k) == Some(DisasmOutcome::Failed(e)));
                        }
                        return Err(e);
                    },
                };
                proof {
                    assert(step(image@, sv) == DisasmStep::Next(state_view(blocks@, work@, None)));
                }
                return Ok((d2, Ghost(k + 1)));
            },
            DecodeInst::Return => {
                blocks[c].insts.push((pos, CilInst::Return));
                blocks[c].end = end;
                blocks[c].finished = true;
                proof {
                    assert(begins_of(blocks@) =~= begins);
                    lemma_run_close(image@, begins, old_c.insts@, old_c.begin as int, pos, CilInst::Return);
                    assert(blocks@[c as int].insts@ == old_c.insts@.push((pos, CilInst::Return)));
                    let b1 = SBlock {
                        insts: sview(old_c).insts.push((pos, CilInst::Return)),
                        end: end,
                        finished: true,
                        ..sview(old_c)
                    };
                    assert(blocks_view(blocks@) =~= bv.update(c as int, b1));
                    assert(step(image@, sv) == DisasmStep::Next(state_view(blocks@, work@, None)));
                }
                return Ok((Ghost(d), Ghost(k + 1)));
            },
            _ => {},
        }
        let ghost dinst = inst;
        let inst = lower(inst);
        blocks[c].insts.push((pos, inst));
        blocks[c].end = end;
        proof {
            assert(begins_of(blocks@) =~= begins);
            lemma_run_extend(image@, begins, old_c.insts@, old_c.begin as int, pos, inst);
            assert(blocks@[c as int].insts@ == old_c.insts@.push((pos, inst)));
            let b1 = SBlock {
                insts: sview(old_c).insts.push((pos, lower_spec(dinst))),
                end: end,
                ..sview(old_c)
            };
            assert(blocks_view(blocks@) =~= bv.update(c as int, b1));
            assert(step(image@, sv) == DisasmStep::Next(state_view(blocks@, work@, Some(c as int))));
            k = k + 1;
        }
    }
}

/// Splits the code that `image` holds from `pos` into basic blocks: follows every branch, splits
/// a block where a branch goes into it, and labels block `i` with `i`; block 0 begins at `pos`.
/// The result is the one that the state machine of `disasm_model` reaches, and on success it is a
/// splitting into blocks as `is_disassembly` describes.
pub fn disassemble(image: &[u8], pos: usize) -> (r: Result<Vec<CilBlock>, DisasmError>)
    requires
        image@.len() <= isize::MAX,
    ensures
        disassembles_to(image@, pos, r),
        r matches Ok(blocks) ==> is_disassembly(image@, pos as int, blocks@),
        r matches Err(DisasmError::Decode(e)) ==> exists|p: int|
            spec_decode(image@, p) == Err::<(DecodeInst, int), DecodeError>(e),
{
    let mut blocks: Vec<DecodeBlock> = Vec::new();
    let mut work: Vec<CilLabel> = Vec::new();
    let init_label = CilLabel::new(blocks.len());
    blocks.push(DecodeBlock { insts: Vec::new(), begin: pos, end: pos, finished: false });
    work.push(init_label);
    let ghost mut d: Set<int> = Set::empty();
    let ghost mut steps: nat = 0;
    proof {
        assert(work@[0].spec_index() == 0);
        assert(blocks_view(blocks@) =~= initial(pos).blocks);
        assert(work_view(work@) =~= initial(pos).work);
    }
    while work.len() > 0
        invariant
            wf_state(image@, pos as int, blocks@, work@, d, -1),
            reach(image@, initial(pos), steps) == Some(state_view(blocks@, work@, None)),
        decreases measure(image@.len() as int, work@, d),
    {
        let ghost w0 = work@;
        let ghost sv = state_view(blocks@, work@, None);
        let cur_label = match work.pop() {
            Some(l) => l,
            None => vstd::pervasive::unreached(),
        };
        proof {
            let ci = cur_label.spec_index();
            assert(cur_label == w0[w0.len() - 1]);
            assert forall|i: int| #![trigger blocks@[i]] 0 <= i < blocks@.len() && i != ci && fresh_block(blocks@[i]) implies work_has(work@, i) by {
                let j = choose|j: int| 0 <= j < w0.len() && w0[j].spec_index() == i;
                assert(work@[j] == w0[j]);
            }
            assert forall|j: int| #![trigger work@[j]] 0 <= j < work@.len() implies work@[j].spec_index() != ci by {
                assert(work@[j] == w0[j]);
            }
            assert(work_view(work@) =~= work_view(w0).drop_last());
            assert(step(image@, sv) == DisasmStep::Next(state_view(blocks@, work@, Some(ci))));
        }
        let r = decode_block(image, &mut blocks, &mut work, cur_label, Ghost(pos), Ghost(d), Ghost(steps + 1));
        match r {
            Ok((g, st)) => {
                proof {
                    d = g@;
                    steps = st@;
                }
            },
            Err(e) => {
                return Err(e);
            },
        }
    }
    let mut out: Vec<CilBlock> = Vec::new();
    let n = blocks.len();
    let ghost begins = begins_of(blocks@);
    let ghost bv = blocks_view(blocks@);
    proof {
        assert(step(image@, state_view(blocks@, work@, None)) == DisasmStep::Done(DisasmOutcome::Blocks(bv)));
        assert(outcome(image@, initial(pos), steps) == Some(DisasmOutcome::Blocks(bv)));
    }
    for ix in 0..n
        invariant
            n == blocks@.len(),
            wf_state(image@, pos as int, blocks@, work@, d, -1),
            work@.len() == 0,
            begins == begins_of(blocks@),
            bv == blocks_view(blocks@),
            out@.len() == ix,
            forall|i: int| #![trigger out@[i]] 0 <= i < ix ==> out@[i].label.spec_index() == i
                && out@[i].offset == blocks@[i].begin && out@[i].insts@ == insts_of(blocks@[i].insts@)
                && out@[i].incoming@.len() == 0 && out@[i].outgoing@.len() == 0,
    {
        proof {
            lemma_d_len(image@.len() as int, d);
        }
        out.push(blocks[ix].finish(CilLabel::new(ix)));
    }
    proof {
        let ob = out@;
        assert(block_offsets(ob) =~= begins);
        assert forall|i: int| 0 <= i < ob.len() implies block_traced(image@, block_offsets(ob), (#[trigger] ob[i]).insts@, ob[i].offset as int) by {
            assert(!fresh_block(blocks@[i]) || work_has(work@, i));
            assert(done_block(image@, begins, blocks@[i]));
            let ps = positions_of(blocks@[i].insts@);
            assert(trace(image@, block_offsets(ob), ob[i].insts@, ps, ob[i].offset as int));
        }
        assert forall|i: int| 0 <= i < ob.len() implies 0 <= (#[trigger] ob[i]).offset < image@.len() by {
            assert(!fresh_block(blocks@[i]) || work_has(work@, i));
            assert(done_block(image@, begins, blocks@[i]));
            let ps = positions_of(blocks@[i].insts@);
            let ins = insts_of(blocks@[i].insts@);
            if ins.len() >= 2 {
                assert(ins[0] == ins[0]);
                assert(decoded_at(image@, begins, ps[0], ins[0]));
            } else {
                assert(decoded_at(image@, begins, ps[0], ins[0]));
            }
            lemma_decode_advances(image@, ps[0]);
        }
        assert(ob[0].offset == pos);
        assert forall|i: int| #![trigger ob[i]] 0 <= i < ob.len() implies ob[i].label == label_of(i) && ob[i].insts@ == Seq::new(bv[i].insts.len(), |k: int| bv[i].insts[k].1) by {
            assert(bv[i] == sview(blocks@[i]));
        }
        assert(lowered(bv, ob));
    }
    Ok(out)
}

} // verus!
