//! Disassembly does not depend on where the code stands: the same code, with bytes added before
//! and after it, splits into the same blocks, each moved by as many bytes.
use vstd::prelude::*;

use crate::cil::{CilBlock, CilCond, CilInst};
use crate::parsers::decode::{law_decode_local, lemma_decode_advances, shifted, spec_decode, DecodeInst};
use crate::parsers::disasm::{branch_target, is_disassembly, DisasmError};
use crate::parsers::disasm_model::{
    begins_last_before, disassembles_to, find_block_spec, find_target_spec, first_at, fresh_at,
    initial, law_outcome_unique, lowered, outcome, reach, record_spec, resolve_spec, split_spec,
    step, DisasmOutcome, DisasmState, DisasmStep, SBlock,
};

verus! {

/// Position `x` moved by `off` bytes.
pub open spec fn moved(x: usize, off: int) -> usize {
    (x + off) as usize
}

/// Instructions with their positions moved by `off` bytes.
pub open spec fn moved_insts(insts: Seq<(usize, CilInst)>, off: int) -> Seq<(usize, CilInst)> {
    Seq::new(insts.len(), |k: int| (moved(insts[k].0, off), insts[k].1))
}

/// A block under construction, moved by `off` bytes.
pub open spec fn moved_block(b: SBlock, off: int) -> SBlock {
    SBlock {
        insts: moved_insts(b.insts, off),
        begin: moved(b.begin, off),
        end: moved(b.end, off),
        finished: b.finished,
    }
}

pub open spec fn moved_blocks(bs: Seq<SBlock>, off: int) -> Seq<SBlock> {
    Seq::new(bs.len(), |i: int| moved_block(bs[i], off))
}

/// The disassembler's state with its blocks moved by `off` bytes.
pub open spec fn moved_state(s: DisasmState, off: int) -> DisasmState {
    DisasmState { blocks: moved_blocks(s.blocks, off), work: s.work, cur: s.cur }
}

/// The positions that block `b` records lie at or before `lim`.
spec fn block_within(b: SBlock, lim: int) -> bool {
    &&& b.begin <= lim
    &&& b.end <= lim
    &&& forall|k: int| 0 <= k < b.insts.len() ==> #[trigger] b.insts[k].0 <= lim
}

spec fn blocks_within(bs: Seq<SBlock>, lim: int) -> bool {
    forall|i: int| 0 <= i < bs.len() ==> block_within(#[trigger] bs[i], lim)
}

spec fn distinct_begins(bs: Seq<SBlock>) -> bool {
    forall|i: int, j: int|
        0 <= i < bs.len() && 0 <= j < bs.len() && i != j ==> bs[i].begin != bs[j].begin
}

spec fn begins_before(bs: Seq<SBlock>, lim: int) -> bool {
    forall|i: int| 0 <= i < bs.len() ==> #[trigger] bs[i].begin < lim
}

/// `bs2` keeps the blocks of `bs` where they begin, and may add more.
spec fn begins_extend(bs: Seq<SBlock>, bs2: Seq<SBlock>) -> bool {
    &&& bs.len() <= bs2.len()
    &&& forall|i: int| 0 <= i < bs.len() ==> #[trigger] bs2[i].begin == bs[i].begin
}

/// The stack and the current block name blocks of the state.
spec fn in_range(s: DisasmState) -> bool {
    &&& forall|j: int| 0 <= j < s.work.len() ==> 0 <= #[trigger] s.work[j] < s.blocks.len()
    &&& s.cur matches Some(c) ==> 0 <= c < s.blocks.len()
}

/// What the simulation keeps of a state of the disassembler on the image of `lim` bytes.
spec fn state_within(s: DisasmState, lim: int) -> bool {
    &&& blocks_within(s.blocks, lim)
    &&& in_range(s)
}

proof fn lemma_moved_find_target(bs: Seq<SBlock>, t: usize, off: int, lim: int)
    requires
        0 <= off,
        lim + off <= usize::MAX,
        blocks_within(bs, lim),
        distinct_begins(bs),
        t <= lim,
    ensures
        find_target_spec(moved_blocks(bs, off), moved(t, off)) == find_target_spec(bs, t),
{
    let mb = moved_blocks(bs, off);
    let tm = moved(t, off);
    assert forall|i: int| 0 <= i < bs.len() implies (#[trigger] mb[i].begin == tm) == (bs[i].begin == t) by {
        assert(block_within(bs[i], lim));
    }
    if exists|i: int| 0 <= i < bs.len() && bs[i].begin == t {
        let i = choose|i: int| 0 <= i < bs.len() && bs[i].begin == t;
        assert(mb[i].begin == tm);
        let j = choose|j: int| 0 <= j < mb.len() && mb[j].begin == tm;
        assert(bs[j].begin == t);
    } else {
        if exists|j: int| 0 <= j < mb.len() && mb[j].begin == tm {
            let j = choose|j: int| 0 <= j < mb.len() && mb[j].begin == tm;
            assert(bs[j].begin == t);
        }
    }
}

proof fn lemma_moved_find_block(bs: Seq<SBlock>, q: usize, off: int, lim: int)
    requires
        0 <= off,
        lim + off <= usize::MAX,
        blocks_within(bs, lim),
        distinct_begins(bs),
        q <= lim,
    ensures
        find_block_spec(moved_blocks(bs, off), moved(q, off)) == find_block_spec(bs, q),
{
    let mb = moved_blocks(bs, off);
    let qm = moved(q, off);
    assert forall|j: int| #[trigger] begins_last_before(mb, qm, j) == begins_last_before(bs, q, j) by {
        if 0 <= j < bs.len() {
            assert(block_within(bs[j], lim));
            if begins_last_before(bs, q, j) {
                assert forall|i: int| #![trigger mb[i]] 0 <= i < mb.len() && mb[i].begin < qm implies mb[i].begin <= mb[j].begin by {
                    assert(block_within(bs[i], lim));
                    assert(bs[i].begin < q);
                }
            }
            if begins_last_before(mb, qm, j) {
                assert forall|i: int| #![trigger bs[i]] 0 <= i < bs.len() && bs[i].begin < q implies bs[i].begin <= bs[j].begin by {
                    assert(block_within(bs[i], lim));
                    assert(mb[i].begin < qm);
                }
            }
        }
    }
    if exists|j: int| begins_last_before(bs, q, j) {
        let j = choose|j: int| begins_last_before(bs, q, j);
        assert(begins_last_before(mb, qm, j));
        let j2 = choose|j2: int| begins_last_before(mb, qm, j2);
        assert(begins_last_before(bs, q, j2));
        assert(bs[j2].begin <= bs[j].begin && bs[j].begin <= bs[j2].begin);
        assert(j == j2);
        assert(block_within(bs[j], lim));
    } else {
        assert(!exists|j: int| begins_last_before(mb, qm, j)) by {
            if exists|j: int| begins_last_before(mb, qm, j) {
                let j = choose|j: int| begins_last_before(mb, qm, j);
                assert(begins_last_before(bs, q, j));
            }
        }
    }
}

proof fn lemma_moved_split(b: SBlock, t: usize, n: int, off: int, lim: int)
    requires
        0 <= off,
        lim + off <= usize::MAX,
        block_within(b, lim),
        t <= lim,
    ensures
        split_spec(moved_block(b, off), moved(t, off), n) == match split_spec(b, t, n) {
            Some((f, r)) => Some((moved_block(f, off), moved_block(r, off))),
            None => None,
        },
{
    let mi = moved_insts(b.insts, off);
    let tm = moved(t, off);
    assert forall|k: int| 0 <= k < b.insts.len() implies (#[trigger] mi[k].0 == tm) == (b.insts[k].0 == t) by {
        assert(b.insts[k].0 <= lim);
    }
    assert forall|s: int| #[trigger] first_at(mi, tm, s) == first_at(b.insts, t, s) by {
        if 0 <= s < b.insts.len() {
            assert((mi[s].0 == tm) == (b.insts[s].0 == t));
            if first_at(b.insts, t, s) {
                assert forall|k: int| 0 <= k < s implies mi[k].0 != tm by {
                    assert((mi[k].0 == tm) == (b.insts[k].0 == t));
                }
            }
            if first_at(mi, tm, s) {
                assert forall|k: int| 0 <= k < s implies b.insts[k].0 != t by {
                    assert((mi[k].0 == tm) == (b.insts[k].0 == t));
                }
            }
        }
    }
    if exists|s: int| first_at(b.insts, t, s) {
        let s = choose|s: int| first_at(b.insts, t, s);
        assert(first_at(mi, tm, s));
        let s2 = choose|s2: int| first_at(mi, tm, s2);
        assert(first_at(b.insts, t, s2));
        assert(s == s2) by {
            if s < s2 {
                assert(b.insts[s].0 == t);
            } else if s2 < s {
                assert(b.insts[s2].0 == t);
            }
        }
        let (f, r) = split_spec(b, t, n)->Some_0;
        let (f2, r2) = split_spec(moved_block(b, off), tm, n)->Some_0;
        assert(f2.insts =~= moved_insts(f.insts, off));
        assert(r2.insts =~= moved_insts(r.insts, off));
    } else {
        assert(!exists|s: int| first_at(mi, tm, s)) by {
            if exists|s: int| first_at(mi, tm, s) {
                let s = choose|s: int| first_at(mi, tm, s);
                assert(first_at(b.insts, t, s));
            }
        }
    }
}

proof fn lemma_moved_fresh(t: usize, off: int)
    ensures
        moved_block(fresh_at(t), off) == fresh_at(moved(t, off)),
{
    assert(moved_insts(fresh_at(t).insts, off) =~= fresh_at(moved(t, off)).insts);
}

/// What `resolve_spec` gives on moved blocks.
spec fn moved_resolved(r: Result<(Seq<SBlock>, Seq<int>, int, int), DisasmError>, off: int) -> Result<
    (Seq<SBlock>, Seq<int>, int, int),
    DisasmError,
> {
    match r {
        Ok((b1, w1, si, tl)) => Ok((moved_blocks(b1, off), w1, si, tl)),
        Err(e) => Err(e),
    }
}

proof fn lemma_moved_resolve(s: DisasmState, c: int, t: usize, off: int, lim: int)
    requires
        0 <= off,
        lim + off <= usize::MAX,
        state_within(s, lim),
        distinct_begins(s.blocks),
        0 <= c < s.blocks.len(),
        t <= lim,
    ensures
        resolve_spec(moved_state(s, off), c, moved(t, off)) == moved_resolved(
            resolve_spec(s, c, t),
            off,
        ),
        resolve_spec(s, c, t) matches Ok((b1, w1, si, tl)) ==> begins_extend(s.blocks, b1)
            && 0 <= si < b1.len() && 0 <= tl < b1.len() && b1[tl].begin == t && blocks_within(
            b1,
            lim,
        ) && (forall|j: int| 0 <= j < w1.len() ==> 0 <= #[trigger] w1[j] < b1.len()),
{
    let bs = s.blocks;
    let mb = moved_blocks(bs, off);
    let n = bs.len();
    lemma_moved_find_target(bs, t, off, lim);
    match find_target_spec(bs, t) {
        Some(tb) => {
            let i = choose|i: int| 0 <= i < bs.len() && bs[i].begin == t;
            assert(tb == i);
        },
        None => {
            if n < u32::MAX {
                lemma_moved_find_block(bs, t, off, lim);
                match find_block_spec(bs, t) {
                    Some(tb) => {
                        let j = choose|j: int| begins_last_before(bs, t, j);
                        assert(tb == j);
                        assert(block_within(bs[tb], lim));
                        lemma_moved_split(bs[tb], t, n as int, off, lim);
                        if let Some((first, rest)) = split_spec(bs[tb], t, n as int) {
                            let sp = choose|sp: int| first_at(bs[tb].insts, t, sp);
                            let b1 = bs.update(tb, first).push(rest);
                            assert(moved_blocks(b1, off) =~= mb.update(tb, moved_block(first, off)).push(
                                moved_block(rest, off),
                            ));
                            assert forall|i: int| 0 <= i < b1.len() implies block_within(#[trigger] b1[i], lim) by {
                                if i == tb {
                                    assert forall|k: int| 0 <= k < first.insts.len() implies #[trigger] first.insts[k].0 <= lim by {
                                        if k < sp {
                                            assert(first.insts[k] == bs[tb].insts[k]);
                                        }
                                    }
                                } else if i == n {
                                    assert forall|k: int| 0 <= k < rest.insts.len() implies #[trigger] rest.insts[k].0 <= lim by {
                                        assert(rest.insts[k] == bs[tb].insts[k + sp]);
                                    }
                                } else {
                                    assert(block_within(bs[i], lim));
                                }
                            }
                        }
                    },
                    None => {
                        let b1 = bs.push(fresh_at(t));
                        lemma_moved_fresh(t, off);
                        assert(moved_blocks(b1, off) =~= mb.push(fresh_at(moved(t, off))));
                        assert forall|i: int| 0 <= i < b1.len() implies block_within(#[trigger] b1[i], lim) by {
                            if i < n {
                                assert(block_within(bs[i], lim));
                            }
                        }
                    },
                }
            }
        },
    }
}

/// What `record_spec` gives on moved blocks.
spec fn moved_recorded(r: Result<DisasmState, DisasmError>, off: int) -> Result<DisasmState, DisasmError> {
    match r {
        Ok(s2) => Ok(moved_state(s2, off)),
        Err(e) => Err(e),
    }
}

proof fn lemma_moved_record(
    blocks: Seq<SBlock>,
    work: Seq<int>,
    si: int,
    tl: int,
    pos: usize,
    end: usize,
    cond: CilCond,
    off: int,
    lim: int,
)
    requires
        0 <= off,
        lim + off <= usize::MAX,
        blocks_within(blocks, lim),
        distinct_begins(blocks),
        0 <= si < blocks.len(),
        pos <= lim,
        end <= lim,
        forall|j: int| 0 <= j < work.len() ==> 0 <= #[trigger] work[j] < blocks.len(),
    ensures
        record_spec(moved_blocks(blocks, off), work, si, tl, moved(pos, off), moved(end, off), cond)
            == moved_recorded(record_spec(blocks, work, si, tl, pos, end, cond), off),
        record_spec(blocks, work, si, tl, pos, end, cond) matches Ok(s2) ==> begins_extend(
            blocks,
            s2.blocks,
        ) && state_within(s2, lim),
{
    let mb = moved_blocks(blocks, off);
    let b = blocks[si];
    let br = CilInst::Branch(cond, crate::parsers::disasm_model::label_of(tl));
    let b1 = SBlock { insts: b.insts.push((pos, br)), end: end, finished: true, ..b };
    let blocks1 = blocks.update(si, b1);
    assert(block_within(b, lim));
    assert(moved_block(b1, off).insts =~= moved_block(b, off).insts.push((moved(pos, off), br)));
    assert(moved_blocks(blocks1, off) =~= mb.update(si, moved_block(b1, off)));
    assert forall|k: int| 0 <= k < b1.insts.len() implies #[trigger] b1.insts[k].0 <= lim by {
        if k < b.insts.len() {
            assert(b1.insts[k] == b.insts[k]);
        }
    }
    assert forall|i: int| 0 <= i < blocks1.len() implies block_within(#[trigger] blocks1[i], lim) by {
        if i != si {
            assert(block_within(blocks[i], lim));
        }
    }
    lemma_moved_find_target(blocks1, end, off, lim);
    if cond != CilCond::Always && find_target_spec(blocks1, end) is None {
        let n = blocks1.len() as int;
        if n < u32::MAX {
            let jmp = CilInst::Branch(CilCond::Always, crate::parsers::disasm_model::label_of(n));
            let b2 = SBlock { insts: b1.insts.push((end, jmp)), ..b1 };
            assert(moved_block(b2, off).insts =~= moved_block(b1, off).insts.push((moved(end, off), jmp)));
            let blocks2 = blocks1.update(si, b2).push(fresh_at(end));
            lemma_moved_fresh(end, off);
            assert(moved_blocks(blocks2, off) =~= moved_blocks(blocks1, off).update(si, moved_block(b2, off)).push(
                fresh_at(moved(end, off)),
            ));
            assert forall|k: int| 0 <= k < b2.insts.len() implies #[trigger] b2.insts[k].0 <= lim by {
                if k < b1.insts.len() {
                    assert(b2.insts[k] == b1.insts[k]);
                }
            }
            assert forall|i: int| 0 <= i < blocks2.len() implies block_within(#[trigger] blocks2[i], lim) by {
                if i != si && i < n {
                    assert(block_within(blocks1[i], lim));
                }
            }
            let w2 = work.push(n);
            assert forall|j: int| 0 <= j < w2.len() implies 0 <= #[trigger] w2[j] < blocks2.len() by {
                if j < work.len() {
                    assert(w2[j] == work[j]);
                }
            }
        }
    }
}

proof fn lemma_branch_not_wrapped(e: int, offset: i32, lim: int)
    requires
        0 <= e,
        0 <= lim <= isize::MAX,
        branch_target(e, offset) as usize <= lim,
    ensures
        e + offset >= 0,
        branch_target(e, offset) == e + offset,
{
    if e + offset < 0 {
        assert(usize::MAX == 0xffff_ffff || usize::MAX == 0xffff_ffff_ffff_ffff);
        assert(isize::MAX == 0x7fff_ffff || isize::MAX == 0x7fff_ffff_ffff_ffff);
        assert(isize::MAX == 0x7fff_ffff <==> usize::MAX == 0xffff_ffff);
    }
}

proof fn lemma_resolve_shape(s: DisasmState, c: int, t: usize)
    requires
        in_range(s),
        0 <= c < s.blocks.len(),
    ensures
        resolve_spec(s, c, t) matches Ok((b1, w1, si, tl)) ==> begins_extend(s.blocks, b1) && 0
            <= si < b1.len() && 0 <= tl < b1.len() && b1[tl].begin == t && (forall|j: int|
            0 <= j < w1.len() ==> 0 <= #[trigger] w1[j] < b1.len()),
{
    let bs = s.blocks;
    let n = bs.len();
    match find_target_spec(bs, t) {
        Some(tb) => {},
        None => {
            if n < u32::MAX {
                match find_block_spec(bs, t) {
                    Some(tb) => {
                        if let Some((first, rest)) = split_spec(bs[tb], t, n as int) {
                            let w1 = s.work.push(n as int);
                            assert forall|j: int| 0 <= j < w1.len() implies 0 <= #[trigger] w1[j] < n + 1 by {
                                if j < s.work.len() {
                                    assert(w1[j] == s.work[j]);
                                }
                            }
                        }
                    },
                    None => {
                        let w1 = s.work.push(n as int);
                        assert forall|j: int| 0 <= j < w1.len() implies 0 <= #[trigger] w1[j] < n + 1 by {
                            if j < s.work.len() {
                                assert(w1[j] == s.work[j]);
                            }
                        }
                    },
                }
            }
        },
    }
}

proof fn lemma_record_shape(
    blocks: Seq<SBlock>,
    work: Seq<int>,
    si: int,
    tl: int,
    pos: usize,
    end: usize,
    cond: CilCond,
)
    requires
        0 <= si < blocks.len(),
        forall|j: int| 0 <= j < work.len() ==> 0 <= #[trigger] work[j] < blocks.len(),
    ensures
        record_spec(blocks, work, si, tl, pos, end, cond) matches Ok(s2) ==> begins_extend(
            blocks,
            s2.blocks,
        ) && in_range(s2),
{
    let b1 = SBlock {
        insts: blocks[si].insts.push((pos, CilInst::Branch(cond, crate::parsers::disasm_model::label_of(tl)))),
        end: end,
        finished: true,
        ..blocks[si]
    };
    let blocks1 = blocks.update(si, b1);
    if cond != CilCond::Always && find_target_spec(blocks1, end) is None {
        let n = blocks1.len() as int;
        let w2 = work.push(n);
        assert forall|j: int| 0 <= j < w2.len() implies 0 <= #[trigger] w2[j] < n + 1 by {
            if j < work.len() {
                assert(w2[j] == work[j]);
            }
        }
    }
}

/// A step keeps every block where it begins and names only blocks it has.
proof fn lemma_step_shape(image: Seq<u8>, s: DisasmState, s2: DisasmState)
    requires
        in_range(s),
        step(image, s) == DisasmStep::Next(s2),
    ensures
        in_range(s2),
        begins_extend(s.blocks, s2.blocks),
{
    match s.cur {
        None => {},
        Some(c) => {
            let b = s.blocks[c];
            if !b.finished {
                let pos = b.end;
                let found = if pos < usize::MAX {
                    find_block_spec(s.blocks, (pos + 1) as usize)
                } else {
                    None
                };
                if found is None {
                    if let Ok((d, e)) = spec_decode(image, pos as int) {
                        if let DecodeInst::Branch(cond, offset) = d {
                            let target = branch_target(e, offset) as usize;
                            lemma_resolve_shape(s, c, target);
                            if let Ok((blocks1, work1, si, tl)) = resolve_spec(s, c, target) {
                                lemma_record_shape(blocks1, work1, si, tl, pos, e as usize, cond);
                            }
                        }
                    }
                }
            }
        },
    }
}

proof fn lemma_reach_in_range(image: Seq<u8>, pos: usize, k: nat)
    ensures
        reach(image, initial(pos), k) matches Some(s) ==> in_range(s),
    decreases k,
{
    if k > 0 {
        lemma_reach_in_range(image, pos, (k - 1) as nat);
        if let Some(s) = reach(image, initial(pos), (k - 1) as nat) {
            if let DisasmStep::Next(s2) = step(image, s) {
                lemma_step_shape(image, s, s2);
            }
        }
    }
}

/// Every state on the way to state `m` keeps its blocks where state `m` has them.
proof fn lemma_reach_extends(image: Seq<u8>, pos: usize, k: nat, m: nat)
    requires
        k <= m,
        reach(image, initial(pos), m) is Some,
    ensures
        reach(image, initial(pos), k) is Some,
        begins_extend(
            reach(image, initial(pos), k)->Some_0.blocks,
            reach(image, initial(pos), m)->Some_0.blocks,
        ),
    decreases m - k,
{
    if k < m {
        lemma_reach_extends(image, pos, k + 1, m);
        let s = reach(image, initial(pos), k)->Some_0;
        assert(reach(image, initial(pos), k) is Some) by {
            if reach(image, initial(pos), k) is None {
                assert(reach(image, initial(pos), k + 1) is None);
            }
        }
        let s1 = reach(image, initial(pos), k + 1)->Some_0;
        assert(step(image, s) == DisasmStep::Next(s1));
        lemma_reach_in_range(image, pos, k);
        lemma_step_shape(image, s, s1);
    } else {
        let s = reach(image, initial(pos), k)->Some_0;
        assert(begins_extend(s.blocks, s.blocks));
    }
}

/// A step of the disassembler on the image is the same step on the image with bytes added
/// around it, with every position moved, as long as the blocks it leaves begin inside the image,
/// each at its own place.
proof fn lemma_moved_step(image: Seq<u8>, pre: Seq<u8>, suf: Seq<u8>, s: DisasmState, s2: DisasmState)
    requires
        (pre + image + suf).len() <= isize::MAX,
        state_within(s, image.len() as int),
        step(image, s) == DisasmStep::Next(s2),
        distinct_begins(s2.blocks),
        begins_before(s2.blocks, image.len() as int),
    ensures
        step(pre + image + suf, moved_state(s, pre.len() as int)) == DisasmStep::Next(
            moved_state(s2, pre.len() as int),
        ),
        state_within(s2, image.len() as int),
{
    let big = pre + image + suf;
    let off = pre.len() as int;
    let lim = image.len() as int;
    let ms = moved_state(s, off);
    lemma_step_shape(image, s, s2);
    assert(distinct_begins(s.blocks)) by {
        assert forall|i: int, j: int| 0 <= i < s.blocks.len() && 0 <= j < s.blocks.len() && i != j implies s.blocks[i].begin != s.blocks[j].begin by {
            assert(s2.blocks[i].begin == s.blocks[i].begin);
            assert(s2.blocks[j].begin == s.blocks[j].begin);
        }
    }
    assert(begins_before(s.blocks, lim)) by {
        assert forall|i: int| 0 <= i < s.blocks.len() implies #[trigger] s.blocks[i].begin < lim by {
            assert(s2.blocks[i].begin == s.blocks[i].begin);
        }
    }
    match s.cur {
        None => {},
        Some(c) => {
            let b = s.blocks[c];
            assert(block_within(b, lim));
            let mb = moved_block(b, off);
            assert(ms.blocks[c] == mb);
            if !b.finished {
                let pos = b.end;
                let mpos = moved(pos, off);
                let q = (pos + 1) as usize;
                let found = find_block_spec(s.blocks, q);
                if pos == lim {
                    if let Some(li) = found {
                        let j = choose|j: int| begins_last_before(s.blocks, q, j);
                        assert(s.blocks[li].begin < lim);
                    } else {
                        lemma_decode_advances(image, pos as int);
                    }
                    assert(false);
                }
                assert(pos < lim);
                assert(moved(q, off) == (mpos + 1) as usize);
                lemma_moved_find_block(s.blocks, q, off, lim);
                match found {
                    Some(li) => {
                        let j = choose|j: int| begins_last_before(s.blocks, q, j);
                        assert(li == j);
                        assert(block_within(s.blocks[li], lim));
                        assert(ms.blocks[li] == moved_block(s.blocks[li], off));
                        if pos == s.blocks[li].begin && s.blocks[li].end > s.blocks[li].begin {
                            let jump = CilInst::Branch(CilCond::Always, crate::parsers::disasm_model::label_of(li));
                            let b1 = SBlock { insts: b.insts.push((pos, jump)), finished: true, ..b };
                            assert(moved_block(b1, off).insts =~= mb.insts.push((mpos, jump)));
                            assert(moved_blocks(s.blocks.update(c, b1), off) =~= ms.blocks.update(c, moved_block(b1, off)));
                            assert forall|k: int| 0 <= k < b1.insts.len() implies #[trigger] b1.insts[k].0 <= lim by {
                                if k < b.insts.len() {
                                    assert(b1.insts[k] == b.insts[k]);
                                }
                            }
                            assert forall|i: int| 0 <= i < s2.blocks.len() implies block_within(#[trigger] s2.blocks[i], lim) by {
                                if i != c {
                                    assert(block_within(s.blocks[i], lim));
                                }
                            }
                        }
                    },
                    None => {
                        let (d, e) = spec_decode(image, pos as int)->Ok_0;
                        law_decode_local(image, pre, suf, pos as int);
                        lemma_decode_advances(image, pos as int);
                        assert(spec_decode(big, mpos as int) == Ok::<(DecodeInst, int), crate::parsers::decode::DecodeError>((d, e + off)));
                        match d {
                            DecodeInst::Branch(cond, offset) => {
                                let target = branch_target(e, offset) as usize;
                                lemma_resolve_shape(s, c, target);
                                let (blocks1, work1, si, tl) = resolve_spec(s, c, target)->Ok_0;
                                lemma_record_shape(blocks1, work1, si, tl, pos, e as usize, cond);
                                assert(s2.blocks[tl].begin == target);
                                lemma_branch_not_wrapped(e, offset, lim);
                                assert(branch_target(e + off, offset) as usize == moved(target, off));
                                lemma_moved_resolve(s, c, target, off, lim);
                                assert(distinct_begins(blocks1)) by {
                                    assert forall|i: int, j: int| 0 <= i < blocks1.len() && 0 <= j < blocks1.len() && i != j implies blocks1[i].begin != blocks1[j].begin by {
                                        assert(s2.blocks[i].begin == blocks1[i].begin);
                                        assert(s2.blocks[j].begin == blocks1[j].begin);
                                    }
                                }
                                lemma_moved_record(blocks1, work1, si, tl, pos, e as usize, cond, off, lim);
                                assert(moved(e as usize, off) == (e + off) as usize);
                            },
                            DecodeInst::Return => {
                                let b1 = SBlock { insts: b.insts.push((pos, CilInst::Return)), end: e as usize, finished: true, ..b };
                                assert(moved_block(b1, off).insts =~= mb.insts.push((mpos, CilInst::Return)));
                                assert(moved_blocks(s.blocks.update(c, b1), off) =~= ms.blocks.update(c, moved_block(b1, off)));
                                assert forall|k: int| 0 <= k < b1.insts.len() implies #[trigger] b1.insts[k].0 <= lim by {
                                    if k < b.insts.len() {
                                        assert(b1.insts[k] == b.insts[k]);
                                    }
                                }
                                assert forall|i: int| 0 <= i < s2.blocks.len() implies block_within(#[trigger] s2.blocks[i], lim) by {
                                    if i != c {
                                        assert(block_within(s.blocks[i], lim));
                                    }
                                }
                            },
                            _ => {
                                let x = crate::parsers::disasm_model::lower_spec(d);
                                let b1 = SBlock { insts: b.insts.push((pos, x)), end: e as usize, ..b };
                                assert(moved_block(b1, off).insts =~= mb.insts.push((mpos, x)));
                                assert(moved_blocks(s.blocks.update(c, b1), off) =~= ms.blocks.update(c, moved_block(b1, off)));
                                assert forall|k: int| 0 <= k < b1.insts.len() implies #[trigger] b1.insts[k].0 <= lim by {
                                    if k < b.insts.len() {
                                        assert(b1.insts[k] == b.insts[k]);
                                    }
                                }
                                assert forall|i: int| 0 <= i < s2.blocks.len() implies block_within(#[trigger] s2.blocks[i], lim) by {
                                    if i != c {
                                        assert(block_within(s.blocks[i], lim));
                                    }
                                }
                            },
                        }
                    },
                }
            }
        },
    }
}

/// The first `k` steps of the disassembler on the image and on the image with bytes added around
/// it go through the same states but for the moved positions, when state `m` of the run on the
/// image, for some `m` no smaller than `k`, has its blocks inside the image, each at its own place.
proof fn lemma_moved_run(image: Seq<u8>, pre: Seq<u8>, suf: Seq<u8>, pos: usize, k: nat, m: nat)
    requires
        (pre + image + suf).len() <= isize::MAX,
        pos < image.len(),
        k <= m,
        reach(image, initial(pos), m) is Some,
        distinct_begins(reach(image, initial(pos), m)->Some_0.blocks),
        begins_before(reach(image, initial(pos), m)->Some_0.blocks, image.len() as int),
    ensures
        reach(image, initial(pos), k) is Some,
        state_within(reach(image, initial(pos), k)->Some_0, image.len() as int),
        reach(pre + image + suf, initial(moved(pos, pre.len() as int)), k) == Some(
            moved_state(reach(image, initial(pos), k)->Some_0, pre.len() as int),
        ),
    decreases k,
{
    let off = pre.len() as int;
    let lim = image.len() as int;
    let f = reach(image, initial(pos), m)->Some_0;
    lemma_reach_extends(image, pos, k, m);
    if k == 0 {
        let s0 = initial(pos);
        lemma_moved_fresh(pos, off);
        assert(moved_blocks(s0.blocks, off) =~= initial(moved(pos, off)).blocks);
        assert(block_within(s0.blocks[0], lim));
    } else {
        lemma_moved_run(image, pre, suf, pos, (k - 1) as nat, m);
        let s = reach(image, initial(pos), (k - 1) as nat)->Some_0;
        let s2 = reach(image, initial(pos), k)->Some_0;
        assert(step(image, s) == DisasmStep::Next(s2));
        assert(distinct_begins(s2.blocks)) by {
            assert forall|i: int, j: int| 0 <= i < s2.blocks.len() && 0 <= j < s2.blocks.len() && i != j implies s2.blocks[i].begin != s2.blocks[j].begin by {
                assert(f.blocks[i].begin == s2.blocks[i].begin);
                assert(f.blocks[j].begin == s2.blocks[j].begin);
            }
        }
        assert(begins_before(s2.blocks, lim)) by {
            assert forall|i: int| 0 <= i < s2.blocks.len() implies #[trigger] s2.blocks[i].begin < lim by {
                assert(f.blocks[i].begin == s2.blocks[i].begin);
            }
        }
        lemma_moved_step(image, pre, suf, s, s2);
    }
}

/// Disassembly depends only on the code, not on where it stands: when the disassembler splits the
/// code at `pos` into blocks, then with any bytes added before and after the image (as long as it
/// stays within what a slice can hold) it splits the code at the moved position into the same
/// blocks, with the same labels and instructions, each beginning as many bytes later.
pub proof fn law_disassembly_moves(
    image: Seq<u8>,
    pre: Seq<u8>,
    suf: Seq<u8>,
    pos: usize,
    r1: Result<Vec<CilBlock>, DisasmError>,
    r2: Result<Vec<CilBlock>, DisasmError>,
)
    requires
        (pre + image + suf).len() <= isize::MAX,
        disassembles_to(image, pos, r1),
        r1 matches Ok(out) && is_disassembly(image, pos as int, out@),
        disassembles_to(pre + image + suf, moved(pos, pre.len() as int), r2),
    ensures
        r2 matches Ok(out2) && out2@.len() == r1->Ok_0@.len() && forall|i: int|
            0 <= i < out2@.len() ==> (#[trigger] out2@[i]).label == r1->Ok_0@[i].label
                && out2@[i].insts@ == r1->Ok_0@[i].insts@ && out2@[i].offset == r1->Ok_0@[i].offset
                + pre.len(),
{
    let big = pre + image + suf;
    let off = pre.len() as int;
    let lim = image.len() as int;
    let out = r1->Ok_0@;
    let s0 = initial(pos);
    let m = choose|m: nat|
        match #[trigger] outcome(image, s0, m) {
            Some(DisasmOutcome::Blocks(bs)) => r1 matches Ok(o) && lowered(bs, o@),
            Some(DisasmOutcome::Failed(e)) => r1 matches Err(e2) && e2 == e,
            None => false,
        };
    let f = reach(image, s0, m)->Some_0;
    let bs = f.blocks;
    assert(step(image, f) == DisasmStep::Done(DisasmOutcome::Blocks(bs)));
    assert(lowered(bs, out));
    assert(distinct_begins(bs)) by {
        assert forall|i: int, j: int| 0 <= i < bs.len() && 0 <= j < bs.len() && i != j implies bs[i].begin != bs[j].begin by {
            assert(out[i].offset == bs[i].begin);
            assert(out[j].offset == bs[j].begin);
        }
    }
    assert(begins_before(bs, lim)) by {
        assert forall|i: int| 0 <= i < bs.len() implies #[trigger] bs[i].begin < lim by {
            assert(out[i].offset == bs[i].begin);
            assert(0 <= out[i].offset < lim);
        }
    }
    assert(pos < lim) by {
        assert(out[0].offset == pos);
        assert(0 <= out[0].offset < lim);
    }
    lemma_moved_run(image, pre, suf, pos, m, m);
    let s0b = initial(moved(pos, off));
    assert(step(big, moved_state(f, off)) == DisasmStep::Done(DisasmOutcome::Blocks(moved_blocks(bs, off))));
    assert(outcome(big, s0b, m) == Some(DisasmOutcome::Blocks(moved_blocks(bs, off))));
    let m2 = choose|m2: nat|
        match #[trigger] outcome(big, s0b, m2) {
            Some(DisasmOutcome::Blocks(bs2)) => r2 matches Ok(o) && lowered(bs2, o@),
            Some(DisasmOutcome::Failed(e)) => r2 matches Err(e2) && e2 == e,
            None => false,
        };
    law_outcome_unique(big, s0b, m, m2);
    let out2 = r2->Ok_0@;
    let mbs = moved_blocks(bs, off);
    assert(lowered(mbs, out2));
    assert forall|i: int| 0 <= i < out2.len() implies (#[trigger] out2[i]).label == out[i].label
        && out2[i].insts@ == out[i].insts@ && out2[i].offset == out[i].offset + off by {
        assert(out2[i].insts@ =~= out[i].insts@);
        assert(block_within(bs[i], lim)) by {
            assert(bs[i].begin < lim);
        }
    }
}

} // verus!
