//! Control-flow recovery: cutting the linear opcode stream into basic blocks
//! and wiring their predecessor and successor edges.
//!
//! Blocks live in a single arena ordered by ascending start address, and all
//! edges are indices into that arena, so the naturally cyclic graph needs no
//! shared ownership. The whole construction is mirrored by a functional
//! model ([`spec_basic_blocks`]), which the builder is proved to implement
//! exactly and over which the graph's invariants are proved.

use vstd::prelude::*;

use crate::libjit::Label;
use crate::opcode::{branch_target, is_branch, Opcode};

verus! {

broadcast use vstd::seq_lib::lemma_seq_contains_after_push;

/// A basic block: a maximal run of straight-line instructions, plus the edges
/// that control can take out of it and the blocks control can arrive from.
#[derive(Debug)]
pub struct BasicBlock {
    /// Arena indices of the blocks that control can flow to this one from.
    pub prev_blocks: Vec<usize>,
    /// The fall-through successor: the block reached when no conditional
    /// branch fires, whether by an unconditional jump or by falling through.
    pub next_block: Option<usize>,
    /// The taken successor of a conditional branch, if the block ends in one.
    pub conditional_block: Option<usize>,
    /// The straight-line instructions of the block; never a branch opcode.
    pub opcodes: Vec<Opcode>,
    /// The back-end label that marks the start of this block.
    pub label: Label,
    /// The absolute instruction index at which the block starts.
    pub start: usize,
}

/// The mathematical image of a [`BasicBlock`].
#[verifier::ext_equal]
pub struct BlockModel {
    pub prev_blocks: Seq<int>,
    pub next_block: Option<int>,
    pub conditional_block: Option<int>,
    pub opcodes: Seq<Opcode>,
    pub label: int,
    pub start: int,
}

impl View for BasicBlock {
    type V = BlockModel;

    open spec fn view(&self) -> BlockModel {
        BlockModel {
            prev_blocks: self.prev_blocks@.map_values(|p: usize| p as int),
            next_block: match self.next_block {
                Some(b) => Some(b as int),
                None => None,
            },
            conditional_block: match self.conditional_block {
                Some(b) => Some(b as int),
                None => None,
            },
            opcodes: self.opcodes@,
            label: self.label.id as int,
            start: self.start as int,
        }
    }
}

impl BasicBlock {
    /// Creates an empty basic block with no edges and an unassigned label.
    pub fn new() -> (b: BasicBlock)
        ensures
            b@.prev_blocks == Seq::<int>::empty(),
            b@.next_block is None,
            b@.conditional_block is None,
            b@.opcodes == Seq::<Opcode>::empty(),
            b@.label == u32::MAX as int,
            b@.start == 0,
    {
        BasicBlock {
            prev_blocks: Vec::new(),
            next_block: None,
            conditional_block: None,
            opcodes: Vec::new(),
            label: Label::new(),
            start: 0,
        }
    }

    /// Appends an opcode to the end of the block.
    pub fn push_opcode(&mut self, opcode: Opcode)
        ensures
            final(self)@ == (BlockModel { opcodes: old(self)@.opcodes.push(opcode), ..old(self)@ }),
    {
        self.opcodes.push(opcode);
    }
}

/// True when every branch in `ops` targets an index in `[0, N]`, where an
/// index equal to `N` is the one-past-the-end exit position.
pub open spec fn targets_in_range(ops: Seq<Opcode>) -> bool {
    forall|i: int|
        0 <= i < ops.len() && is_branch(#[trigger] ops[i]) ==> branch_target(ops[i]) <= ops.len()
}

/// True when some branch among the first `bound` instructions makes `k` a
/// leader: `k` is the branch's target, or immediately follows the branch.
pub open spec fn leader_by(ops: Seq<Opcode>, k: int, bound: int) -> bool {
    exists|i: int|
        0 <= i < bound && is_branch(#[trigger] ops[i]) && (branch_target(ops[i]) == k || i + 1
            == k)
}

/// An instruction index that begins a basic block: index 0, every branch
/// target, and every index immediately following a branch.
pub open spec fn is_leader(ops: Seq<Opcode>, k: int) -> bool {
    k == 0 || leader_by(ops, k, ops.len() as int)
}

/// The ascending sequence of leaders strictly below `n`.
pub open spec fn starts_below(ops: Seq<Opcode>, n: int) -> Seq<int>
    decreases n,
{
    if n <= 0 {
        Seq::empty()
    } else if is_leader(ops, n - 1) {
        starts_below(ops, n - 1).push(n - 1)
    } else {
        starts_below(ops, n - 1)
    }
}

/// The ascending start addresses of the basic blocks of `ops`: all leaders in
/// `[0, N]`.
pub open spec fn block_starts(ops: Seq<Opcode>) -> Seq<int> {
    starts_below(ops, ops.len() as int + 1)
}

/// The arena index of the block that starts at leader `t`: the number of
/// leaders strictly below `t`.
pub open spec fn block_index_of(ops: Seq<Opcode>, t: int) -> int {
    starts_below(ops, t).len() as int
}

/// Every entry of `starts_below` is a leader below the bound, listed in
/// strictly ascending order.
proof fn lemma_starts_below_entries(ops: Seq<Opcode>, n: int)
    ensures
        forall|j: int|
            0 <= j < starts_below(ops, n).len() ==> is_leader(ops, #[trigger] starts_below(ops, n)[j])
                && 0 <= starts_below(ops, n)[j] < n,
        forall|j1: int, j2: int|
            0 <= j1 < j2 < starts_below(ops, n).len() ==> #[trigger] starts_below(ops, n)[j1]
                < #[trigger] starts_below(ops, n)[j2],
    decreases n,
{
    if n > 0 {
        lemma_starts_below_entries(ops, n - 1);
        if is_leader(ops, n - 1) {
            assert(starts_below(ops, n) == starts_below(ops, n - 1).push(n - 1));
            assert(forall|j: int|
                0 <= j < starts_below(ops, n - 1).len() ==> #[trigger] starts_below(ops, n)[j]
                    == starts_below(ops, n - 1)[j]);
            assert(starts_below(ops, n)[starts_below(ops, n).len() - 1] == n - 1);
        } else {
            assert(starts_below(ops, n) == starts_below(ops, n - 1));
        }
    }
}

/// `starts_below` grows monotonically with its bound.
proof fn lemma_starts_below_prefix(ops: Seq<Opcode>, m: int, n: int)
    requires
        0 <= m <= n,
    ensures
        starts_below(ops, m) == starts_below(ops, n).take(starts_below(ops, m).len() as int),
        starts_below(ops, m).len() <= starts_below(ops, n).len(),
    decreases n - m,
{
    if m < n {
        lemma_starts_below_prefix(ops, m, n - 1);
        assert(starts_below(ops, n).take(starts_below(ops, m).len() as int)
            =~= starts_below(ops, n - 1).take(starts_below(ops, m).len() as int));
    } else {
        assert(starts_below(ops, m).take(starts_below(ops, m).len() as int) =~= starts_below(
            ops,
            m,
        ));
    }
}

/// The construction state of the control-flow graph: the block arena and the
/// index of the block the instruction cursor is in.
pub struct CfgState {
    pub blocks: Seq<BlockModel>,
    pub cur: int,
}

/// The block model `b` with `p` appended to its predecessors.
pub open spec fn with_prev(b: BlockModel, p: int) -> BlockModel {
    BlockModel { prev_blocks: b.prev_blocks.push(p), ..b }
}

/// The block model `b` with its fall-through successor set to `m`.
pub open spec fn with_next(b: BlockModel, m: Option<int>) -> BlockModel {
    BlockModel { next_block: m, ..b }
}

/// The block model `b` with its conditional successor set to `m`.
pub open spec fn with_cond(b: BlockModel, m: Option<int>) -> BlockModel {
    BlockModel { conditional_block: m, ..b }
}

/// The block model `b` with `op` appended to its instructions.
pub open spec fn with_opcode(b: BlockModel, op: Opcode) -> BlockModel {
    BlockModel { opcodes: b.opcodes.push(op), ..b }
}

/// Block `j` of `ops` before the edge-wiring walk: empty, unlinked, starting
/// at the `j`-th leader, labelled by its own arena index.
pub open spec fn initial_block(ops: Seq<Opcode>, j: int) -> BlockModel {
    BlockModel {
        prev_blocks: Seq::empty(),
        next_block: None,
        conditional_block: None,
        opcodes: Seq::empty(),
        label: j,
        start: block_starts(ops)[j],
    }
}

/// The arena before the walk: one initial block per leader, cursor at block 0.
pub open spec fn init_state(ops: Seq<Opcode>) -> CfgState {
    CfgState {
        blocks: Seq::new(block_starts(ops).len(), |j: int| initial_block(ops, j)),
        cur: 0,
    }
}

/// Control can reach instruction `i` by falling through from `i - 1`: the
/// previous instruction exists and is not an unconditional jump.
pub open spec fn fall_through_at(ops: Seq<Opcode>, i: int) -> bool {
    !(i > 0 && ops[i - 1] is Jmp)
}

/// One step of the edge-wiring walk, for the instruction at index `i`.
///
/// A `Jmp` links the cursor block to the target block and moves the cursor
/// there; a conditional branch links the cursor block to both the taken block
/// and the fall-through block and moves the cursor to the latter; any other
/// opcode first moves the cursor when `i` starts a new block — wiring a
/// fall-through edge if the cursor block has none and control indeed fell
/// through — then lands in the cursor block. Branch opcodes themselves are
/// never retained.
pub open spec fn cfg_step(ops: Seq<Opcode>, st: CfgState, i: int) -> CfgState {
    match ops[i] {
        Opcode::Jmp(t) => {
            let tb = block_index_of(ops, t as int);
            let blocks1 = st.blocks.update(tb, with_prev(st.blocks[tb], st.cur));
            let blocks2 = blocks1.update(st.cur, with_next(blocks1[st.cur], Some(tb)));
            CfgState { blocks: blocks2, cur: tb }
        },
        Opcode::Iftrue(t) | Opcode::Iffalse(t) => {
            let cb = block_index_of(ops, t as int);
            let nb = block_index_of(ops, i + 1);
            let blocks1 = st.blocks.update(cb, with_prev(st.blocks[cb], st.cur));
            let blocks2 = blocks1.update(st.cur, with_cond(blocks1[st.cur], Some(cb)));
            let blocks3 = blocks2.update(nb, with_prev(blocks2[nb], st.cur));
            let blocks4 = blocks3.update(st.cur, with_next(blocks3[st.cur], Some(nb)));
            CfgState { blocks: blocks4, cur: nb }
        },
        op => {
            let st1 = if is_leader(ops, i) && block_index_of(ops, i) != st.cur {
                let bi = block_index_of(ops, i);
                let wired = if st.blocks[st.cur].next_block is None && fall_through_at(ops, i) {
                    let blocks1 = st.blocks.update(
                        st.cur,
                        with_next(st.blocks[st.cur], Some(bi)),
                    );
                    blocks1.update(bi, with_prev(blocks1[bi], st.cur))
                } else {
                    st.blocks
                };
                CfgState { blocks: wired, cur: bi }
            } else {
                st
            };
            CfgState {
                blocks: st1.blocks.update(st1.cur, with_opcode(st1.blocks[st1.cur], op)),
                cur: st1.cur,
            }
        },
    }
}

/// The construction state after walking the first `i` instructions.
pub open spec fn cfg_walk(ops: Seq<Opcode>, i: int) -> CfgState
    decreases i,
{
    if i <= 0 {
        init_state(ops)
    } else {
        cfg_step(ops, cfg_walk(ops, i - 1), i - 1)
    }
}

/// The basic blocks of `ops`: the arena after walking every instruction.
pub open spec fn spec_basic_blocks(ops: Seq<Opcode>) -> Seq<BlockModel> {
    cfg_walk(ops, ops.len() as int).blocks
}

/// The invariants of a construction state: one block per leader, labelled by
/// arena index and starting at its leader; the cursor in range; block bodies
/// free of branch opcodes and drawn from `ops`; and every successor edge in
/// range and matched by a predecessor entry on the target block.
pub open spec fn cfg_wf(ops: Seq<Opcode>, st: CfgState) -> bool {
    &&& st.blocks.len() == block_starts(ops).len()
    &&& 0 <= st.cur < st.blocks.len()
    &&& forall|j: int|
        0 <= j < st.blocks.len() ==> (#[trigger] st.blocks[j]).label == j && st.blocks[j].start
            == block_starts(ops)[j]
    &&& forall|j: int, k: int|
        0 <= j < st.blocks.len() && 0 <= k < st.blocks[j].opcodes.len() ==> !is_branch(
            #[trigger] st.blocks[j].opcodes[k],
        ) && ops.contains(st.blocks[j].opcodes[k])
    &&& forall|j: int|
        0 <= j < st.blocks.len() ==> match (#[trigger] st.blocks[j]).next_block {
            Some(m) => 0 <= m < st.blocks.len() && st.blocks[m].prev_blocks.contains(j),
            None => true,
        }
    &&& forall|j: int|
        0 <= j < st.blocks.len() ==> match (#[trigger] st.blocks[j]).conditional_block {
            Some(m) => 0 <= m < st.blocks.len() && st.blocks[m].prev_blocks.contains(j),
            None => true,
        }
    &&& forall|j: int, k: int|
        0 <= j < st.blocks.len() && 0 <= k < st.blocks[j].prev_blocks.len() ==> 0 <= (
        #[trigger] st.blocks[j].prev_blocks[k]) < st.blocks.len()
}

/// A leader `t` below the bound sits in `starts_below` exactly at position
/// `block_index_of(ops, t)`.
pub proof fn lemma_block_index_of(ops: Seq<Opcode>, t: int, n: int)
    requires
        0 <= t < n,
        is_leader(ops, t),
    ensures
        block_index_of(ops, t) < starts_below(ops, n).len(),
        starts_below(ops, n)[block_index_of(ops, t)] == t,
    decreases n,
{
    if t == n - 1 {
        assert(starts_below(ops, n) == starts_below(ops, t).push(t));
    } else {
        lemma_block_index_of(ops, t, n - 1);
    }
}

/// The views of a sequence of arena blocks.
pub open spec fn views_of(blocks: Seq<BasicBlock>) -> Seq<BlockModel> {
    blocks.map_values(|b: BasicBlock| b@)
}

/// Pushing onto a predecessor vector commutes with taking its view.
proof fn lemma_prevs_push(v: Seq<usize>, p: usize)
    ensures
        v.push(p).map_values(|q: usize| q as int) == v.map_values(|q: usize| q as int).push(
            p as int,
        ),
{
    assert(v.push(p).map_values(|q: usize| q as int) =~= v.map_values(|q: usize| q as int).push(
        p as int,
    ));
}

/// Pushing a block onto the arena commutes with taking views.
proof fn lemma_views_push(s: Seq<BasicBlock>, b: BasicBlock)
    ensures
        views_of(s.push(b)) == views_of(s).push(b@),
{
    assert(views_of(s.push(b)) =~= views_of(s).push(b@));
}

/// Updating a block of the arena commutes with taking views.
proof fn lemma_views_update(s: Seq<BasicBlock>, i: int, b: BasicBlock)
    requires
        0 <= i < s.len(),
    ensures
        views_of(s.update(i, b)) == views_of(s).update(i, b@),
{
    assert(views_of(s.update(i, b)) =~= views_of(s).update(i, b@));
}

/// The bookkeeping facts shared by every wiring step: a branch target `t` of
/// the instruction at `i` is a leader, so its arena index is in range and its
/// block starts at `t`.
proof fn lemma_target_block(ops: Seq<Opcode>, i: int, t: int)
    requires
        targets_in_range(ops),
        0 <= i < ops.len(),
        is_branch(ops[i]),
        t == branch_target(ops[i]) as int || t == i + 1,
    ensures
        is_leader(ops, t),
        0 <= block_index_of(ops, t) < block_starts(ops).len(),
        block_starts(ops)[block_index_of(ops, t)] == t,
{
    assert(leader_by(ops, t, ops.len() as int));
    lemma_block_index_of(ops, t, ops.len() as int + 1);
}

/// A bound holds at most that many leaders below it.
pub proof fn lemma_starts_below_len(ops: Seq<Opcode>, n: int)
    requires
        0 <= n,
    ensures
        starts_below(ops, n).len() <= n,
    decreases n,
{
    if n > 0 {
        lemma_starts_below_len(ops, n - 1);
    }
}

/// One `Jmp` wiring step preserves the construction invariants.
proof fn lemma_wf_step_jmp(ops: Seq<Opcode>, st: CfgState, i1: int)
    requires
        targets_in_range(ops),
        cfg_wf(ops, st),
        0 <= i1 < ops.len(),
        ops[i1] is Jmp,
    ensures
        cfg_wf(ops, cfg_step(ops, st, i1)),
{
    lemma_starts_below_entries(ops, ops.len() as int + 1);
    assert(ops.contains(ops[i1]));
    match ops[i1] {
        Opcode::Jmp(t) => {
            lemma_target_block(ops, i1, t as int);
            let tb = block_index_of(ops, t as int);
            let blocks1 = st.blocks.update(tb, with_prev(st.blocks[tb], st.cur));
            let blocks2 = blocks1.update(st.cur, with_next(blocks1[st.cur], Some(tb)));
            assert(cfg_wf(ops, CfgState { blocks: blocks2, cur: tb }));
        },
        _ => {},
    }
}

/// One conditional-branch wiring step preserves the invariants.
proof fn lemma_wf_step_cond(ops: Seq<Opcode>, st: CfgState, i1: int)
    requires
        targets_in_range(ops),
        cfg_wf(ops, st),
        0 <= i1 < ops.len(),
        ops[i1] is Iftrue || ops[i1] is Iffalse,
    ensures
        cfg_wf(ops, cfg_step(ops, st, i1)),
{
    lemma_starts_below_entries(ops, ops.len() as int + 1);
    assert(ops.contains(ops[i1]));
    match ops[i1] {
        Opcode::Iftrue(t) | Opcode::Iffalse(t) => {
            lemma_target_block(ops, i1, t as int);
            lemma_target_block(ops, i1, i1 + 1);
            let cb = block_index_of(ops, t as int);
            let nb = block_index_of(ops, i1 + 1);
            let blocks1 = st.blocks.update(cb, with_prev(st.blocks[cb], st.cur));
            let blocks2 = blocks1.update(st.cur, with_cond(blocks1[st.cur], Some(cb)));
            let blocks3 = blocks2.update(nb, with_prev(blocks2[nb], st.cur));
            let blocks4 = blocks3.update(st.cur, with_next(blocks3[st.cur], Some(nb)));
            assert(cfg_wf(ops, CfgState { blocks: blocks4, cur: nb }));
        },
        _ => {},
    }
}

/// One straight-line step preserves the invariants.
proof fn lemma_wf_step_plain(ops: Seq<Opcode>, st: CfgState, i1: int)
    requires
        targets_in_range(ops),
        cfg_wf(ops, st),
        0 <= i1 < ops.len(),
        !is_branch(ops[i1]),
    ensures
        cfg_wf(ops, cfg_step(ops, st, i1)),
{
    lemma_starts_below_entries(ops, ops.len() as int + 1);
    assert(ops.contains(ops[i1]));
    if is_leader(ops, i1) && block_index_of(ops, i1) != st.cur {
        lemma_block_index_of(ops, i1, ops.len() as int + 1);
        let bi = block_index_of(ops, i1);
        if st.blocks[st.cur].next_block is None && fall_through_at(ops, i1) {
            let blocks1 = st.blocks.update(st.cur, with_next(st.blocks[st.cur], Some(bi)));
            let wired = blocks1.update(bi, with_prev(blocks1[bi], st.cur));
            assert(cfg_wf(ops, CfgState { blocks: wired, cur: bi }));
        }
    }
    assert(cfg_wf(ops, cfg_step(ops, st, i1)));
}

/// The walk preserves the construction invariants.
proof fn lemma_cfg_walk_wf(ops: Seq<Opcode>, i: int)
    requires
        targets_in_range(ops),
        0 <= i <= ops.len(),
    ensures
        cfg_wf(ops, cfg_walk(ops, i)),
    decreases i,
{
    lemma_starts_below_entries(ops, ops.len() as int + 1);
    lemma_block_index_of(ops, 0, ops.len() as int + 1);
    if i == 0 {
        assert(block_starts(ops).len() > 0);
    } else {
        lemma_cfg_walk_wf(ops, i - 1);
        let st = cfg_walk(ops, i - 1);
        let i1 = i - 1;
        assert(cfg_walk(ops, i) == cfg_step(ops, st, i1));
        match ops[i1] {
            Opcode::Jmp(_) => lemma_wf_step_jmp(ops, st, i1),
            Opcode::Iftrue(_) | Opcode::Iffalse(_) => lemma_wf_step_cond(ops, st, i1),
            _ => lemma_wf_step_plain(ops, st, i1),
        }
    }
}

/// How one more instruction extends the leaders seen so far.
proof fn lemma_leader_by_step(ops: Seq<Opcode>, k: int, i: int)
    requires
        0 <= i < ops.len(),
    ensures
        leader_by(ops, k, i + 1) == (leader_by(ops, k, i) || (is_branch(ops[i]) && (branch_target(
            ops[i],
        ) == k || i + 1 == k))),
{
    if leader_by(ops, k, i + 1) {
        let w = choose|w: int|
            0 <= w < i + 1 && is_branch(#[trigger] ops[w]) && (branch_target(ops[w]) == k || w + 1
                == k);
        if w < i {
            assert(leader_by(ops, k, i));
        }
    }
    if leader_by(ops, k, i) {
        let w = choose|w: int|
            0 <= w < i && is_branch(#[trigger] ops[w]) && (branch_target(ops[w]) == k || w + 1
                == k);
        assert(leader_by(ops, k, i + 1));
    }
}

/// Computes the basic blocks of a function: cuts the opcode stream at every
/// leader, then walks the instructions once, wiring predecessor, fall-through
/// and conditional edges as [`cfg_step`] describes. The resulting arena is
/// exactly the functional model [`spec_basic_blocks`], in ascending order of
/// start address, with block `j` labelled `j`.
pub fn get_basic_blocks(function: &Vec<Opcode>) -> (blocks: Vec<BasicBlock>)
    requires
        targets_in_range(function@),
        function@.len() < u32::MAX,
    ensures
        views_of(blocks@) == spec_basic_blocks(function@),
        blocks@.len() == block_starts(function@).len(),
        blocks@.len() > 0,
{
    let ghost ops = function@;
    let n = function.len();

    // Phase 1: mark the leaders in `[0, n]`.
    let mut leader: Vec<bool> = Vec::new();
    let mut k: usize = 0;
    while k <= n
        invariant
            k <= n + 1,
            n == ops.len(),
            n < u32::MAX,
            leader@.len() == k,
            forall|m: int| 0 <= m < k ==> leader@[m] == (m == 0),
        decreases n + 1 - k,
    {
        leader.push(k == 0);
        k += 1;
    }
    let mut i: usize = 0;
    while i < n
        invariant
            i <= n,
            n == ops.len(),
            n < u32::MAX,
            ops == function@,
            targets_in_range(ops),
            leader@.len() == n + 1,
            forall|m: int| 0 <= m <= n ==> leader@[m] == (m == 0 || leader_by(ops, m, i as int)),
        decreases n - i,
    {
        let ghost pre = leader@;
        match function[i] {
            Opcode::Jmp(t) | Opcode::Iftrue(t) | Opcode::Iffalse(t) => {
                assert(is_branch(ops[i as int]) && branch_target(ops[i as int]) == t);
                assert(t <= n);
                leader[t as usize] = true;
                leader[i + 1] = true;
            },
            _ => {},
        }
        proof {
            assert forall|m: int| 0 <= m <= n implies leader@[m] == (m == 0 || leader_by(
                ops,
                m,
                i + 1,
            )) by {
                lemma_leader_by_step(ops, m, i as int);
            }
        }
        i += 1;
    }
    assert(forall|m: int| 0 <= m <= n ==> leader@[m] == is_leader(ops, m));

    // Phase 2: one empty block per leader, plus the start-to-arena-index map.
    let mut blocks: Vec<BasicBlock> = Vec::new();
    let mut block_index: Vec<usize> = Vec::new();
    let mut k: usize = 0;
    while k <= n
        invariant
            k <= n + 1,
            n == ops.len(),
            n < u32::MAX,
            targets_in_range(ops),
            leader@.len() == n + 1,
            forall|m: int| 0 <= m <= n ==> leader@[m] == is_leader(ops, m),
            block_index@.len() == k,
            forall|m: int| 0 <= m < k ==> block_index@[m] == block_index_of(ops, m),
            blocks@.len() == starts_below(ops, k as int).len(),
            views_of(blocks@) == Seq::new(
                starts_below(ops, k as int).len(),
                |j: int| initial_block(ops, j),
            ),
        decreases n + 1 - k,
    {
        proof {
            lemma_starts_below_entries(ops, ops.len() as int + 1);
        }
        block_index.push(blocks.len());
        if leader[k] {
            proof {
                lemma_block_index_of(ops, k as int, ops.len() as int + 1);
                lemma_starts_below_prefix(ops, k as int, ops.len() as int + 1);
            }
            proof {
                lemma_starts_below_len(ops, k as int);
                assert(blocks@.len() < u32::MAX);
                assert(block_index_of(ops, k as int) == blocks@.len());
                assert(block_starts(ops)[blocks@.len() as int] == k as int);
            }
            let mut b = BasicBlock::new();
            b.start = k;
            b.label = Label { id: blocks.len() as u32 };
            proof {
                lemma_views_push(blocks@, b);
                assert(b@ =~= initial_block(ops, blocks@.len() as int));
            }
            blocks.push(b);
            proof {
                assert(starts_below(ops, k as int + 1) == starts_below(ops, k as int).push(
                    k as int,
                ));
                assert(views_of(blocks@) =~= Seq::new(
                    starts_below(ops, k as int + 1).len(),
                    |j: int| initial_block(ops, j),
                ));
            }
        } else {
            proof {
                assert(starts_below(ops, k as int + 1) == starts_below(ops, k as int));
            }
        }
        k += 1;
    }
    proof {
        assert(views_of(blocks@) == init_state(ops).blocks);
        lemma_block_index_of(ops, 0, ops.len() as int + 1);
    }

    // Phase 3: walk the instructions, wiring edges and filling block bodies.
    let mut cur: usize = 0;
    let mut i: usize = 0;
    while i < n
        invariant
            i <= n,
            n == ops.len(),
            n < u32::MAX,
            ops == function@,
            targets_in_range(ops),
            block_index@.len() == n + 1,
            forall|m: int| 0 <= m <= n ==> block_index@[m] == block_index_of(ops, m),
            leader@.len() == n + 1,
            forall|m: int| 0 <= m <= n ==> leader@[m] == is_leader(ops, m),
            blocks@.len() == block_starts(ops).len(),
            views_of(blocks@) == cfg_walk(ops, i as int).blocks,
            cur == cfg_walk(ops, i as int).cur,
            cur < blocks@.len(),
        decreases n - i,
    {
        let ghost st = cfg_walk(ops, i as int);
        proof {
            lemma_cfg_walk_wf(ops, i as int);
            assert(cfg_walk(ops, i + 1) == cfg_step(ops, st, i as int));
        }
        match function[i] {
            Opcode::Jmp(t) => {
                proof {
                    assert(is_branch(ops[i as int]));
                    lemma_target_block(ops, i as int, t as int);
                }
                let tb = block_index[t as usize];
                proof {
                    lemma_views_update(blocks@, tb as int, blocks@[tb as int]);
                }
                let ghost pre = blocks@;
                blocks[tb].prev_blocks.push(cur);
                proof {
                    lemma_prevs_push(pre[tb as int].prev_blocks@, cur);
                    lemma_views_update(pre, tb as int, blocks@[tb as int]);
                    assert(blocks@[tb as int]@ =~= with_prev(views_of(pre)[tb as int], cur as int));
                    assert(views_of(blocks@) == views_of(pre).update(
                        tb as int,
                        with_prev(views_of(pre)[tb as int], cur as int),
                    ));
                }
                let ghost mid = blocks@;
                blocks[cur].next_block = Some(tb);
                proof {
                    lemma_views_update(mid, cur as int, blocks@[cur as int]);
                    assert(blocks@[cur as int]@ =~= with_next(
                        views_of(mid)[cur as int],
                        Some(tb as int),
                    ));
                    assert(views_of(blocks@) =~= cfg_walk(ops, i + 1).blocks);
                }
                cur = tb;
            },
            Opcode::Iftrue(t) | Opcode::Iffalse(t) => {
                proof {
                    assert(is_branch(ops[i as int]));
                    lemma_target_block(ops, i as int, t as int);
                    lemma_target_block(ops, i as int, i + 1);
                }
                let cb = block_index[t as usize];
                let nb = block_index[i + 1];
                let ghost pre = blocks@;
                blocks[cb].prev_blocks.push(cur);
                proof {
                    lemma_prevs_push(pre[cb as int].prev_blocks@, cur);
                    lemma_views_update(pre, cb as int, blocks@[cb as int]);
                    assert(blocks@[cb as int]@ =~= with_prev(views_of(pre)[cb as int], cur as int));
                }
                let ghost s1 = blocks@;
                blocks[cur].conditional_block = Some(cb);
                proof {
                    lemma_views_update(s1, cur as int, blocks@[cur as int]);
                    assert(blocks@[cur as int]@ =~= with_cond(
                        views_of(s1)[cur as int],
                        Some(cb as int),
                    ));
                }
                let ghost s2 = blocks@;
                blocks[nb].prev_blocks.push(cur);
                proof {
                    lemma_prevs_push(s2[nb as int].prev_blocks@, cur);
                    lemma_views_update(s2, nb as int, blocks@[nb as int]);
                    assert(blocks@[nb as int]@ =~= with_prev(views_of(s2)[nb as int], cur as int));
                }
                let ghost s3 = blocks@;
                blocks[cur].next_block = Some(nb);
                proof {
                    lemma_views_update(s3, cur as int, blocks@[cur as int]);
                    assert(blocks@[cur as int]@ =~= with_next(
                        views_of(s3)[cur as int],
                        Some(nb as int),
                    ));
                    assert(views_of(blocks@) =~= cfg_walk(ops, i + 1).blocks);
                }
                cur = nb;
            },
            _ => {
                proof {
                    assert(!is_branch(ops[i as int]));
                }
                if leader[i] {
                    let bi = block_index[i];
                    proof {
                        lemma_block_index_of(ops, i as int, ops.len() as int + 1);
                    }
                    if bi != cur {
                        let fell_through = if i == 0 {
                            true
                        } else {
                            match function[i - 1] {
                                Opcode::Jmp(_) => false,
                                _ => true,
                            }
                        };
                        let wire = fell_through && match blocks[cur].next_block {
                            None => true,
                            Some(_) => false,
                        };
                        if wire {
                            let ghost pre = blocks@;
                            blocks[cur].next_block = Some(bi);
                            proof {
                                lemma_views_update(pre, cur as int, blocks@[cur as int]);
                                assert(blocks@[cur as int]@ =~= with_next(
                                    views_of(pre)[cur as int],
                                    Some(bi as int),
                                ));
                            }
                            let ghost mid = blocks@;
                            blocks[bi].prev_blocks.push(cur);
                            proof {
                                lemma_prevs_push(mid[bi as int].prev_blocks@, cur);
                                lemma_views_update(mid, bi as int, blocks@[bi as int]);
                                assert(blocks@[bi as int]@ =~= with_prev(
                                    views_of(mid)[bi as int],
                                    cur as int,
                                ));
                            }
                        }
                        cur = bi;
                    }
                }
                let ghost s4 = blocks@;
                blocks[cur].opcodes.push(function[i]);
                proof {
                    lemma_views_update(s4, cur as int, blocks@[cur as int]);
                    assert(blocks@[cur as int]@ =~= with_opcode(
                        views_of(s4)[cur as int],
                        ops[i as int],
                    ));
                    assert(views_of(blocks@) =~= cfg_walk(ops, i + 1).blocks);
                }
            },
        }
        i += 1;
    }
    proof {
        lemma_blocks_shape(ops);
    }
    blocks
}

/// The total number of opcodes held by blocks `j` onwards.
pub open spec fn total_opcodes(blocks: Seq<BlockModel>, j: int) -> int
    decreases blocks.len() - j,
{
    if j < 0 || j >= blocks.len() {
        0
    } else {
        blocks[j].opcodes.len() + total_opcodes(blocks, j + 1)
    }
}

/// The total opcode count is nonnegative.
pub proof fn lemma_total_opcodes_nonneg(blocks: Seq<BlockModel>, j: int)
    ensures
        total_opcodes(blocks, j) >= 0,
    decreases blocks.len() - j,
{
    if 0 <= j < blocks.len() {
        lemma_total_opcodes_nonneg(blocks, j + 1);
    }
}

/// Updating one block shifts the total by the change of that block alone.
proof fn lemma_total_opcodes_update(blocks: Seq<BlockModel>, j: int, m: int, b: BlockModel)
    requires
        0 <= m < blocks.len(),
    ensures
        total_opcodes(blocks.update(m, b), j) == if 0 <= j <= m {
            total_opcodes(blocks, j) + b.opcodes.len() - blocks[m].opcodes.len()
        } else {
            total_opcodes(blocks, j)
        },
    decreases blocks.len() - j,
{
    if 0 <= j < blocks.len() {
        lemma_total_opcodes_update(blocks, j + 1, m, b);
    }
}

/// Blocks that hold no opcodes contribute no total.
proof fn lemma_total_opcodes_empty(blocks: Seq<BlockModel>, j: int)
    requires
        forall|m: int| 0 <= m < blocks.len() ==> (#[trigger] blocks[m]).opcodes.len() == 0,
    ensures
        total_opcodes(blocks, j) == 0,
    decreases blocks.len() - j,
{
    if 0 <= j < blocks.len() {
        lemma_total_opcodes_empty(blocks, j + 1);
    }
}

/// The walk distributes at most one opcode per instruction walked.
pub proof fn lemma_cfg_walk_total(ops: Seq<Opcode>, i: int)
    requires
        targets_in_range(ops),
        0 <= i <= ops.len(),
    ensures
        total_opcodes(cfg_walk(ops, i).blocks, 0) <= i,
    decreases i,
{
    if i == 0 {
        assert forall|m: int|
            0 <= m < init_state(ops).blocks.len() implies (#[trigger] init_state(
            ops,
        ).blocks[m]).opcodes.len() == 0 by {}
        lemma_total_opcodes_empty(init_state(ops).blocks, 0);
    } else {
        lemma_cfg_walk_total(ops, i - 1);
        lemma_cfg_walk_wf(ops, i - 1);
        let st = cfg_walk(ops, i - 1);
        let i1 = i - 1;
        match ops[i1] {
            Opcode::Jmp(t) => {
                lemma_target_block(ops, i1, t as int);
                let tb = block_index_of(ops, t as int);
                let blocks1 = st.blocks.update(tb, with_prev(st.blocks[tb], st.cur));
                lemma_total_opcodes_update(st.blocks, 0, tb, with_prev(st.blocks[tb], st.cur));
                lemma_total_opcodes_update(
                    blocks1,
                    0,
                    st.cur,
                    with_next(blocks1[st.cur], Some(tb)),
                );
            },
            Opcode::Iftrue(t) | Opcode::Iffalse(t) => {
                lemma_target_block(ops, i1, t as int);
                lemma_target_block(ops, i1, i1 + 1);
                let cb = block_index_of(ops, t as int);
                let nb = block_index_of(ops, i1 + 1);
                let blocks1 = st.blocks.update(cb, with_prev(st.blocks[cb], st.cur));
                let blocks2 = blocks1.update(st.cur, with_cond(blocks1[st.cur], Some(cb)));
                let blocks3 = blocks2.update(nb, with_prev(blocks2[nb], st.cur));
                lemma_total_opcodes_update(st.blocks, 0, cb, with_prev(st.blocks[cb], st.cur));
                lemma_total_opcodes_update(blocks1, 0, st.cur, with_cond(blocks1[st.cur], Some(cb)));
                lemma_total_opcodes_update(blocks2, 0, nb, with_prev(blocks2[nb], st.cur));
                lemma_total_opcodes_update(blocks3, 0, st.cur, with_next(blocks3[st.cur], Some(nb)));
            },
            op => {
                let st1 = if is_leader(ops, i1) && block_index_of(ops, i1) != st.cur {
                    lemma_block_index_of(ops, i1, ops.len() as int + 1);
                    let bi = block_index_of(ops, i1);
                    let wired = if st.blocks[st.cur].next_block is None && fall_through_at(
                        ops,
                        i1,
                    ) {
                        let blocks1 = st.blocks.update(
                            st.cur,
                            with_next(st.blocks[st.cur], Some(bi)),
                        );
                        lemma_total_opcodes_update(
                            st.blocks,
                            0,
                            st.cur,
                            with_next(st.blocks[st.cur], Some(bi)),
                        );
                        lemma_total_opcodes_update(blocks1, 0, bi, with_prev(blocks1[bi], st.cur));
                        blocks1.update(bi, with_prev(blocks1[bi], st.cur))
                    } else {
                        st.blocks
                    };
                    CfgState { blocks: wired, cur: bi }
                } else {
                    st
                };
                lemma_total_opcodes_update(
                    st1.blocks,
                    0,
                    st1.cur,
                    with_opcode(st1.blocks[st1.cur], op),
                );
            },
        }
    }
}

/// Quantified invariant: no basic block produced from a well-targeted opcode
/// stream retains a `Jmp`, `Iftrue` or `Iffalse`; control transfer lives only
/// in the edges. The block bodies are, moreover, drawn from the stream.
pub proof fn lemma_no_branch_opcodes(ops: Seq<Opcode>)
    requires
        targets_in_range(ops),
    ensures
        forall|j: int, k: int|
            0 <= j < spec_basic_blocks(ops).len() && 0 <= k < spec_basic_blocks(
                ops,
            )[j].opcodes.len() ==> !is_branch(#[trigger] spec_basic_blocks(ops)[j].opcodes[k])
                && ops.contains(spec_basic_blocks(ops)[j].opcodes[k]),
{
    lemma_cfg_walk_wf(ops, ops.len() as int);
}

/// Quantified invariant: for all blocks `A` and `B`, if `A.next_block` or
/// `A.conditional_block` is `B`, then `A` is among `B.prev_blocks`; and every
/// edge index is inside the arena.
pub proof fn lemma_edges_have_predecessors(ops: Seq<Opcode>)
    requires
        targets_in_range(ops),
    ensures
        forall|j: int|
            0 <= j < spec_basic_blocks(ops).len() ==> match (#[trigger] spec_basic_blocks(
                ops,
            )[j]).next_block {
                Some(m) => 0 <= m < spec_basic_blocks(ops).len() && spec_basic_blocks(
                    ops,
                )[m].prev_blocks.contains(j),
                None => true,
            },
        forall|j: int|
            0 <= j < spec_basic_blocks(ops).len() ==> match (#[trigger] spec_basic_blocks(
                ops,
            )[j]).conditional_block {
                Some(m) => 0 <= m < spec_basic_blocks(ops).len() && spec_basic_blocks(
                    ops,
                )[m].prev_blocks.contains(j),
                None => true,
            },
        forall|j: int, k: int|
            0 <= j < spec_basic_blocks(ops).len() && 0 <= k < spec_basic_blocks(
                ops,
            )[j].prev_blocks.len() ==> 0 <= (#[trigger] spec_basic_blocks(ops)[j].prev_blocks[k])
                < spec_basic_blocks(ops).len(),
{
    lemma_cfg_walk_wf(ops, ops.len() as int);
}

/// Without branches there is no leader but 0.
proof fn lemma_branch_free_starts(ops: Seq<Opcode>, n: int)
    requires
        forall|i: int| 0 <= i < ops.len() ==> !is_branch(#[trigger] ops[i]),
        1 <= n,
    ensures
        starts_below(ops, n) == seq![0int],
    decreases n,
{
    assert forall|s: int| #[trigger] is_leader(ops, s) && 0 < s implies false by {
        if leader_by(ops, s, ops.len() as int) {
            let w = choose|w: int|
                0 <= w < ops.len() && is_branch(#[trigger] ops[w]) && (branch_target(ops[w]) == s
                    || w + 1 == s);
            assert(false);
        }
    }
    if n == 1 {
        assert(starts_below(ops, 1) == starts_below(ops, 0).push(0));
        assert(starts_below(ops, 1) =~= seq![0int]);
    } else {
        lemma_branch_free_starts(ops, n - 1);
        assert(!is_leader(ops, n - 1));
    }
}

/// A stream without branches recovers as a single block with no outgoing
/// edges, holding every instruction.
pub proof fn lemma_branch_free_blocks(ops: Seq<Opcode>)
    requires
        forall|i: int| 0 <= i < ops.len() ==> !is_branch(#[trigger] ops[i]),
    ensures
        block_starts(ops) == seq![0int],
        spec_basic_blocks(ops).len() == 1,
        spec_basic_blocks(ops)[0].next_block is None,
        spec_basic_blocks(ops)[0].conditional_block is None,
        spec_basic_blocks(ops)[0].start == 0,
    decreases ops.len(),
{
    lemma_branch_free_starts(ops, ops.len() as int + 1);
    assert forall|i: int|
        0 <= i <= ops.len() implies cfg_walk(ops, i).cur == 0 && cfg_walk(ops, i).blocks.len()
        == 1 && cfg_walk(ops, i).blocks[0].next_block is None && cfg_walk(
        ops,
        i,
    ).blocks[0].conditional_block is None by {
        lemma_branch_free_walk(ops, i);
    }
    assert(targets_in_range(ops));
    lemma_cfg_walk_wf(ops, ops.len() as int);
}

/// The walk over a branch-free stream never moves the cursor or wires an
/// edge.
proof fn lemma_branch_free_walk(ops: Seq<Opcode>, i: int)
    requires
        forall|m: int| 0 <= m < ops.len() ==> !is_branch(#[trigger] ops[m]),
        0 <= i <= ops.len(),
    ensures
        cfg_walk(ops, i).cur == 0,
        cfg_walk(ops, i).blocks.len() == 1,
        cfg_walk(ops, i).blocks[0].next_block is None,
        cfg_walk(ops, i).blocks[0].conditional_block is None,
    decreases i,
{
    lemma_branch_free_starts(ops, ops.len() as int + 1);
    if i == 0 {
    } else {
        lemma_branch_free_walk(ops, i - 1);
        let i1 = i - 1;
        assert(!is_branch(ops[i1]));
        if is_leader(ops, i1) {
            assert(i1 == 0) by {
                if i1 > 0 && leader_by(ops, i1, ops.len() as int) {
                    let w = choose|w: int|
                        0 <= w < ops.len() && is_branch(#[trigger] ops[w]) && (branch_target(
                            ops[w],
                        ) == i1 || w + 1 == i1);
                    assert(false);
                }
            }
            assert(block_index_of(ops, 0) == 0);
        }
    }
}

/// The end of block `j`'s instruction range: the next block's start, or the
/// instruction count for the last block.
pub open spec fn block_end(ops: Seq<Opcode>, j: int) -> int {
    if j + 1 < block_starts(ops).len() {
        block_starts(ops)[j + 1]
    } else {
        ops.len() as int
    }
}

/// Where block `j`'s straight-line body stops: before the range's trailing
/// branch, if the range ends in one.
pub open spec fn body_end(ops: Seq<Opcode>, j: int) -> int {
    let s = block_starts(ops)[j];
    let e = block_end(ops, j);
    if s < e && is_branch(ops[e - 1]) {
        e - 1
    } else {
        e
    }
}

/// The straight-line body of block `j`: its instruction range without the
/// trailing branch.
pub open spec fn block_body(ops: Seq<Opcode>, j: int) -> Seq<Opcode> {
    ops.subrange(block_starts(ops)[j], body_end(ops, j))
}

/// The arena index of the block whose range holds instruction `i`: one less
/// than the number of leaders at or below `i`.
pub open spec fn block_of(ops: Seq<Opcode>, i: int) -> int {
    starts_below(ops, i + 1).len() - 1
}

/// Block `j`'s body truncated to the first `i` instructions of the stream.
spec fn partial_body(ops: Seq<Opcode>, j: int, i: int) -> Seq<Opcode> {
    let s = block_starts(ops)[j];
    let f = body_end(ops, j);
    if i <= s {
        Seq::empty()
    } else if i >= f {
        ops.subrange(s, f)
    } else {
        ops.subrange(s, i)
    }
}

/// The containing block of `x` starts at or before `x`, the next block
/// starts after it, and a leader starts its own block.
proof fn lemma_block_of_range(ops: Seq<Opcode>, x: int)
    requires
        0 <= x <= ops.len(),
    ensures
        0 <= block_of(ops, x) < block_starts(ops).len(),
        block_starts(ops)[block_of(ops, x)] <= x,
        block_of(ops, x) + 1 < block_starts(ops).len() ==> block_starts(ops)[block_of(ops, x)
            + 1] > x,
        is_leader(ops, x) ==> block_starts(ops)[block_of(ops, x)] == x && block_of(ops, x)
            == block_index_of(ops, x),
{
    let bo = block_of(ops, x);
    lemma_starts_below_entries(ops, ops.len() as int + 1);
    lemma_starts_below_entries(ops, x + 1);
    lemma_block_index_of(ops, 0, x + 1);
    lemma_starts_below_prefix(ops, x + 1, ops.len() as int + 1);
    assert(starts_below(ops, x + 1) == block_starts(ops).take(bo + 1));
    assert(block_starts(ops)[bo] == starts_below(ops, x + 1)[bo]);
    if bo + 1 < block_starts(ops).len() {
        let v = block_starts(ops)[bo + 1];
        if v <= x {
            lemma_block_index_of(ops, v, x + 1);
            let p = block_index_of(ops, v);
            assert(starts_below(ops, x + 1)[p] == v);
            assert(block_starts(ops)[p] == v);
            assert(p < bo + 1);
            assert(false);
        }
    }
    if is_leader(ops, x) {
        assert(starts_below(ops, x + 1) == starts_below(ops, x).push(x));
        assert(bo == starts_below(ops, x).len());
        assert(starts_below(ops, x + 1)[bo] == x);
    }
}

/// A branch instruction sits exactly at the end of its block's range, so
/// its block's body stops just before it.
proof fn lemma_branch_at_body_end(ops: Seq<Opcode>, i: int)
    requires
        0 <= i < ops.len(),
        is_branch(ops[i]),
    ensures
        body_end(ops, block_of(ops, i)) == i,
        block_end(ops, block_of(ops, i)) == i + 1,
{
    let bo = block_of(ops, i);
    lemma_block_of_range(ops, i);
    assert(leader_by(ops, i + 1, ops.len() as int));
    assert(is_leader(ops, i + 1));
    lemma_block_index_of(ops, i + 1, ops.len() as int + 1);
    assert(block_index_of(ops, i + 1) == bo + 1);
    assert(block_starts(ops)[bo + 1] == i + 1);
    lemma_starts_below_entries(ops, ops.len() as int + 1);
    assert(block_end(ops, bo) == i + 1);
    assert(block_starts(ops)[bo] <= i);
}

/// A non-branch instruction lies strictly inside its block's body range.
proof fn lemma_nonbranch_in_body(ops: Seq<Opcode>, i: int)
    requires
        0 <= i < ops.len(),
        !is_branch(ops[i]),
    ensures
        block_starts(ops)[block_of(ops, i)] <= i < body_end(ops, block_of(ops, i)),
{
    let bo = block_of(ops, i);
    lemma_block_of_range(ops, i);
    let e = block_end(ops, bo);
    if bo + 1 < block_starts(ops).len() {
        lemma_starts_below_entries(ops, ops.len() as int + 1);
    }
    assert(i < e);
    if block_starts(ops)[bo] < e && is_branch(ops[e - 1]) {
        assert(i != e - 1);
    }
}

/// Every block of the walked prefix holds exactly the non-branch
/// instructions of its range seen so far, and between leaders the cursor
/// sits in the block containing the next instruction.
proof fn lemma_cfg_walk_contents(ops: Seq<Opcode>, i: int)
    requires
        targets_in_range(ops),
        0 <= i <= ops.len(),
    ensures
        i < ops.len() && !is_leader(ops, i) ==> cfg_walk(ops, i).cur == block_of(ops, i),
        forall|j: int|
            0 <= j < cfg_walk(ops, i).blocks.len() ==> (#[trigger] cfg_walk(
                ops,
                i,
            ).blocks[j]).opcodes == partial_body(ops, j, i),
    decreases i,
{
    lemma_cfg_walk_wf(ops, i);
    lemma_starts_below_entries(ops, ops.len() as int + 1);
    let nblocks = block_starts(ops).len() as int;
    if i == 0 {
        assert forall|j: int| 0 <= j < nblocks implies (#[trigger] cfg_walk(
            ops,
            0,
        ).blocks[j]).opcodes == partial_body(ops, j, 0) by {
            assert(cfg_walk(ops, 0).blocks[j].opcodes == Seq::<Opcode>::empty());
            assert(block_starts(ops)[j] >= 0);
        }
    } else {
        lemma_cfg_walk_contents(ops, i - 1);
        lemma_cfg_walk_wf(ops, i - 1);
        let i1 = i - 1;
        let st = cfg_walk(ops, i1);
        let st2 = cfg_walk(ops, i);
        lemma_block_of_range(ops, i1);
        if is_branch(ops[i1]) {
            // Only edges change; and the branch is the final, stripped
            // instruction of its block's range, so no body grows either.
            lemma_branch_at_body_end(ops, i1);
            let jc = block_of(ops, i1);
            assert(leader_by(ops, i1 + 1, ops.len() as int));
            match ops[i1] {
                Opcode::Jmp(t) => {
                    lemma_target_block(ops, i1, t as int);
                    let tb = block_index_of(ops, t as int);
                    let blocks1 = st.blocks.update(tb, with_prev(st.blocks[tb], st.cur));
                    let blocks2 = blocks1.update(st.cur, with_next(blocks1[st.cur], Some(tb)));
                    assert(st2.blocks == blocks2);
                },
                Opcode::Iftrue(t) | Opcode::Iffalse(t) => {
                    lemma_target_block(ops, i1, t as int);
                    lemma_target_block(ops, i1, i1 + 1);
                    let cb = block_index_of(ops, t as int);
                    let nb = block_index_of(ops, i1 + 1);
                    let blocks1 = st.blocks.update(cb, with_prev(st.blocks[cb], st.cur));
                    let blocks2 = blocks1.update(st.cur, with_cond(blocks1[st.cur], Some(cb)));
                    let blocks3 = blocks2.update(nb, with_prev(blocks2[nb], st.cur));
                    let blocks4 = blocks3.update(st.cur, with_next(blocks3[st.cur], Some(nb)));
                    assert(st2.blocks == blocks4);
                },
                _ => {},
            }
            assert forall|j: int| 0 <= j < nblocks implies (#[trigger] st2.blocks[j]).opcodes
                == partial_body(ops, j, i) by {
                assert(st2.blocks[j].opcodes == st.blocks[j].opcodes);
                if block_starts(ops)[j] < i {
                    if j > jc {
                        assert(block_starts(ops)[j] >= block_starts(ops)[jc + 1]);
                        assert(false);
                    }
                    if j < jc {
                        assert(body_end(ops, j) <= block_end(ops, j));
                        assert(block_end(ops, j) == block_starts(ops)[j + 1]);
                        assert(block_starts(ops)[j + 1] <= block_starts(ops)[jc]);
                        assert(partial_body(ops, j, i) == partial_body(ops, j, i1));
                    } else {
                        assert(body_end(ops, jc) == i1);
                        assert(partial_body(ops, j, i) == partial_body(ops, j, i1));
                    }
                } else {
                    assert(partial_body(ops, j, i) == partial_body(ops, j, i1));
                }
            }
        } else {
            lemma_nonbranch_in_body(ops, i1);
            let tc = block_of(ops, i1);
            let s = block_starts(ops)[tc];
            let f = body_end(ops, tc);
            if is_leader(ops, i1) {
                lemma_block_index_of(ops, i1, ops.len() as int + 1);
            }
            // The cursor lands in the containing block before the push, and
            // any fall-through wiring touches only edges.
            let st1 = if is_leader(ops, i1) && block_index_of(ops, i1) != st.cur {
                let bi = block_index_of(ops, i1);
                let wired = if st.blocks[st.cur].next_block is None && fall_through_at(ops, i1) {
                    let blocks1 = st.blocks.update(st.cur, with_next(st.blocks[st.cur], Some(bi)));
                    blocks1.update(bi, with_prev(blocks1[bi], st.cur))
                } else {
                    st.blocks
                };
                CfgState { blocks: wired, cur: bi }
            } else {
                st
            };
            assert(st1.cur == tc);
            assert(st2.blocks == st1.blocks.update(tc, with_opcode(st1.blocks[tc], ops[i1])));
            assert(forall|j: int|
                0 <= j < nblocks ==> (#[trigger] st1.blocks[j]).opcodes
                    == st.blocks[j].opcodes);
            assert(st2.blocks[tc].opcodes == st.blocks[tc].opcodes.push(ops[i1]));
            assert forall|j: int| 0 <= j < nblocks implies (#[trigger] st2.blocks[j]).opcodes
                == partial_body(ops, j, i) by {
                if j == tc {
                    assert(partial_body(ops, j, i1).push(ops[i1]) =~= partial_body(ops, j, i));
                } else {
                    assert(st2.blocks[j].opcodes == st.blocks[j].opcodes);
                    if block_starts(ops)[j] < i {
                        if j > tc {
                            assert(block_starts(ops)[j] >= block_starts(ops)[tc + 1]);
                            assert(block_starts(ops)[tc + 1] > i1);
                            assert(false);
                        }
                        assert(body_end(ops, j) <= block_end(ops, j));
                        assert(block_end(ops, j) == block_starts(ops)[j + 1]);
                        assert(block_starts(ops)[j + 1] <= block_starts(ops)[tc]);
                        assert(partial_body(ops, j, i) == partial_body(ops, j, i1));
                    } else {
                        assert(partial_body(ops, j, i) == partial_body(ops, j, i1));
                    }
                }
            }
            if i < ops.len() && !is_leader(ops, i) {
                assert(starts_below(ops, i + 1) == starts_below(ops, i));
                assert(st2.cur == tc);
            }
        }
    }
}

/// The bodies are exact: block `j` of the arena holds precisely the
/// instructions of its range `[start_j, start_{j+1})`, less the trailing
/// branch when the range ends in one.
pub proof fn lemma_block_contents(ops: Seq<Opcode>)
    requires
        targets_in_range(ops),
    ensures
        forall|j: int|
            0 <= j < spec_basic_blocks(ops).len() ==> (#[trigger] spec_basic_blocks(
                ops,
            )[j]).opcodes == block_body(ops, j),
{
    lemma_cfg_walk_contents(ops, ops.len() as int);
    lemma_cfg_walk_wf(ops, ops.len() as int);
    lemma_starts_below_entries(ops, ops.len() as int + 1);
    assert forall|j: int| 0 <= j < spec_basic_blocks(ops).len() implies (
    #[trigger] spec_basic_blocks(ops)[j]).opcodes == block_body(ops, j) by {
        assert(body_end(ops, j) <= block_end(ops, j) <= ops.len());
        assert(partial_body(ops, j, ops.len() as int) == block_body(ops, j));
    }
}

/// The arena is never empty, block `j` is labelled `j`, and the blocks are
/// listed in ascending order of their start address, each start a leader.
pub proof fn lemma_blocks_shape(ops: Seq<Opcode>)
    requires
        targets_in_range(ops),
    ensures
        spec_basic_blocks(ops).len() == block_starts(ops).len(),
        spec_basic_blocks(ops).len() > 0,
        forall|j: int|
            0 <= j < spec_basic_blocks(ops).len() ==> (#[trigger] spec_basic_blocks(ops)[j]).label
                == j && spec_basic_blocks(ops)[j].start == block_starts(ops)[j],
        forall|j: int|
            0 <= j < block_starts(ops).len() ==> is_leader(ops, #[trigger] block_starts(ops)[j])
                && 0 <= block_starts(ops)[j] <= ops.len(),
        forall|j1: int, j2: int|
            0 <= j1 < j2 < block_starts(ops).len() ==> #[trigger] block_starts(ops)[j1]
                < #[trigger] block_starts(ops)[j2],
{
    lemma_cfg_walk_wf(ops, ops.len() as int);
    lemma_starts_below_entries(ops, ops.len() as int + 1);
    lemma_block_index_of(ops, 0, ops.len() as int + 1);
}

} // verus!
