//! The assembler: partitions the sorted mnemonic vector into basic blocks,
//! builds the control-flow graph, locates the entry block, and lays the IL
//! statement stream out in depth-first post-order from the entry.

use vstd::prelude::*;

use crate::block::BasicBlock;
use crate::cfg::edge_matches;
use crate::cfg::CfgEdge;
use crate::cfg::CfgNode;
use crate::cfg::CfgNodeV;
use crate::cfg::ControlFlowGraph;
use crate::cfg::edge_upsert;
use crate::cfg::ControlFlowRef;
use crate::disasm::pair_mnes;
use crate::disasm::pairs_sorted;
use crate::disasm::Jump;
use crate::disasm::JumpV;
use crate::error::Error;
use crate::il::Statement;
use crate::il::StatementV;
use crate::index::BasicBlockIndex;
use crate::index::MnemonicIndex;
use crate::mnemonic::Mnemonic;
use crate::mnemonic::MnemonicV;
use crate::value::Guard;
use crate::value::Value;
use crate::value::ValueV;

verus! {

/// First mnemonic index of block `b`.
pub open spec fn m0(bs: Seq<BasicBlock>, b: int) -> int {
    bs[b].mnemonics.start.index as int
}

/// One-past-last mnemonic index of block `b`.
pub open spec fn m1(bs: Seq<BasicBlock>, b: int) -> int {
    bs[b].mnemonics.end.index as int
}

/// A jump out of the mnemonic at `a_start` to a constant other than
/// `b_start`: control leaves the straight line here.
pub open spec fn jump_from_to_other(j: JumpV, a_start: u64, b_start: u64) -> bool {
    j.origin == a_start && match j.target {
        ValueV::Constant(c) => c.value != b_start,
        _ => false,
    }
}

/// A jump into the mnemonic at `b_start` from somewhere other than
/// `a_start`: control enters the straight line here.
pub open spec fn jump_into_from_other(j: JumpV, a_start: u64, b_start: u64) -> bool {
    j.origin != a_start && match j.target {
        ValueV::Constant(c) => c.value == b_start,
        _ => false,
    }
}

/// The boundary oracle: a basic-block boundary falls between adjacent
/// mnemonics `a` and `b` when they are not address-contiguous, when a jump
/// leaves `a` for anywhere but `b`, when a jump enters `b` from anywhere
/// but `a`, or when `b` starts at the function entry.
pub open spec fn is_boundary(a: MnemonicV, b: MnemonicV, entry: u64, js: Seq<JumpV>) -> bool {
    ||| a.end != b.start
    ||| exists|k: int| 0 <= k < js.len() && jump_from_to_other(#[trigger] js[k], a.start, b.start)
    ||| exists|k: int|
        0 <= k < js.len() && jump_into_from_other(#[trigger] js[k], a.start, b.start)
    ||| b.start == entry
}

/// Decides [`is_boundary`] for two adjacent mnemonics.
pub fn is_basic_block_boundary(a: &Mnemonic, b: &Mnemonic, entry: u64, jumps: &Vec<Jump>) -> (r:
    bool)
    ensures
        r == is_boundary(a@, b@, entry, jumps.deep_view()),
{
    if a.area.end != b.area.start {
        return true;
    }
    if b.area.start == entry {
        return true;
    }
    let ghost js = jumps.deep_view();
    let mut k: usize = 0;
    while k < jumps.len()
        invariant
            k <= js.len(),
            forall|t: int| 0 <= t < k ==> !jump_from_to_other(#[trigger] js[t], a@.start, b@.start),
            forall|t: int|
                0 <= t < k ==> !jump_into_from_other(#[trigger] js[t], a@.start, b@.start),
        decreases js.len() - k,
    {
        let j = &jumps[k];
        match &j.target {
            Value::Constant(c) => {
                if j.origin == a.area.start && c.value != b.area.start {
                    proof {
                        assert(jump_from_to_other(js[k as int], a@.start, b@.start));
                    }
                    return true;
                }
                if c.value == b.area.start && j.origin != a.area.start {
                    proof {
                        assert(jump_into_from_other(js[k as int], a@.start, b@.start));
                    }
                    return true;
                }
            },
            _ => {},
        }
        k = k + 1;
    }
    false
}

/// `bs` partitions the mnemonic indices `[0, cut)` into non-empty
/// consecutive runs whose areas are derived from their first and last
/// mnemonic, with a boundary at every run start and none inside a run.
pub open spec fn blocks_shape(bs: Seq<BasicBlock>, n: int) -> bool {
    &&& (bs.len() == 0 <==> n == 0)
    &&& (bs.len() > 0 ==> m0(bs, 0) == 0 && m1(bs, bs.len() - 1) == n)
    &&& forall|b: int| 0 <= b < bs.len() ==> m0(bs, b) < #[trigger] m1(bs, b) <= n
    &&& forall|b: int| 0 <= b < bs.len() - 1 ==> #[trigger] m1(bs, b) == m0(bs, b + 1)
}

pub open spec fn partition_upto(
    bs: Seq<BasicBlock>,
    ms: Seq<MnemonicV>,
    entry: u64,
    js: Seq<JumpV>,
    cut: int,
) -> bool {
    &&& blocks_shape(bs, cut)
    &&& forall|b: int|
        0 <= b < bs.len() ==> (#[trigger] bs[b]).area.start == ms[m0(bs, b)].start && bs[b].area.end
            == ms[m1(bs, b) - 1].end
    &&& forall|b: int, i: int|
        #![trigger m0(bs, b), ms[i]]
        0 <= b < bs.len() && m0(bs, b) <= i < m1(bs, b) - 1 ==> !is_boundary(
            ms[i],
            ms[i + 1],
            entry,
            js,
        )
    &&& forall|b: int|
        1 <= b < bs.len() ==> is_boundary(ms[#[trigger] m0(bs, b) - 1], ms[m0(bs, b)], entry, js)
}

/// The full partition of all mnemonics.
pub open spec fn partition_ok(
    bs: Seq<BasicBlock>,
    ms: Seq<MnemonicV>,
    entry: u64,
    js: Seq<JumpV>,
) -> bool {
    partition_upto(bs, ms, entry, js, ms.len() as int)
}

/// Every mnemonic index below `cut` lies in some block at or after `b`.
proof fn lemma_block_of_from(bs: Seq<BasicBlock>, cut: int, i: int, b: int)
    requires
        bs.len() > 0,
        forall|c: int| 0 <= c < bs.len() ==> m0(bs, c) < #[trigger] m1(bs, c),
        forall|c: int| 0 <= c < bs.len() - 1 ==> #[trigger] m1(bs, c) == m0(bs, c + 1),
        m1(bs, bs.len() - 1) == cut,
        0 <= b < bs.len(),
        m0(bs, b) <= i < cut,
    ensures
        exists|c: int| b <= c < bs.len() && m0(bs, c) <= i < #[trigger] m1(bs, c),
    decreases bs.len() - b,
{
    if i < m1(bs, b) {
        assert(b <= b < bs.len() && m0(bs, b) <= i < m1(bs, b));
    } else {
        assert(b < bs.len() - 1);
        lemma_block_of_from(bs, cut, i, b + 1);
    }
}

/// Every mnemonic index lies in exactly one block.
pub proof fn lemma_block_of(bs: Seq<BasicBlock>, ms: Seq<MnemonicV>, entry: u64, js: Seq<JumpV>, i: int)
    requires
        partition_ok(bs, ms, entry, js),
        0 <= i < ms.len(),
    ensures
        exists|c: int| 0 <= c < bs.len() && m0(bs, c) <= i < #[trigger] m1(bs, c),
{
    lemma_block_of_from(bs, ms.len() as int, i, 0);
}

/// Blocks before `b2` end at or before `b2`'s first mnemonic.
pub proof fn lemma_blocks_ordered(bs: Seq<BasicBlock>, b1: int, b2: int)
    requires
        forall|c: int| 0 <= c < bs.len() ==> m0(bs, c) < #[trigger] m1(bs, c),
        forall|c: int| 0 <= c < bs.len() - 1 ==> #[trigger] m1(bs, c) == m0(bs, c + 1),
        0 <= b1 < b2 < bs.len(),
    ensures
        m1(bs, b1) <= m0(bs, b2),
    decreases b2 - b1,
{
    if b1 + 1 < b2 {
        lemma_blocks_ordered(bs, b1 + 1, b2);
    }
}

/// Partitions the sorted mnemonic vector into basic blocks by scanning
/// adjacent pairs with the boundary oracle. The returned blocks carry a
/// placeholder graph node; `build_cfg` fills it in.
pub fn partition_blocks(
    mnemonics: &Vec<(Mnemonic, Vec<Statement>)>,
    entry: u64,
    jumps: &Vec<Jump>,
) -> (bs: Vec<BasicBlock>)
    requires
        pairs_sorted(mnemonics.deep_view()),
    ensures
        partition_ok(bs@, pair_mnes(mnemonics.deep_view()), entry, jumps.deep_view()),
{
    let ghost ms = pair_mnes(mnemonics.deep_view());
    let ghost js = jumps.deep_view();
    proof {
        assert forall|x: int| 0 <= x < ms.len() implies ms[x] == mnemonics.deep_view()[x].0 by {}
    }
    let n = mnemonics.len();
    let mut bs: Vec<BasicBlock> = Vec::new();
    if n == 0 {
        return bs;
    }
    let mut block_start: usize = 0;
    let mut i: usize = 1;
    while i < n
        invariant
            1 <= i <= n,
            n == ms.len(),
            block_start < i,
            partition_upto(bs@, ms, entry, js, block_start as int),
            block_start > 0 ==> is_boundary(
                ms[block_start - 1],
                ms[block_start as int],
                entry,
                js,
            ),
            forall|t: int|
                block_start <= t < i - 1 ==> !is_boundary(#[trigger] ms[t], ms[t + 1], entry, js),
        decreases n - i,
    {
        if is_basic_block_boundary(&mnemonics[i - 1].0, &mnemonics[i].0, entry, jumps) {
            let bb = BasicBlock {
                mnemonics: MnemonicIndex::new(block_start)..MnemonicIndex::new(i),
                node: ControlFlowRef { index: 0 },
                area: mnemonics[block_start].0.area.start..mnemonics[i - 1].0.area.end,
            };
            bs.push(bb);
            block_start = i;
        }
        i = i + 1;
    }
    let bb = BasicBlock {
        mnemonics: MnemonicIndex::new(block_start)..MnemonicIndex::new(n),
        node: ControlFlowRef { index: 0 },
        area: mnemonics[block_start].0.area.start..mnemonics[n - 1].0.area.end,
    };
    bs.push(bb);
    bs
}

/// Start address of block `b`'s last mnemonic: the key into the fan-out map.
pub open spec fn block_last_start(bs: Seq<BasicBlock>, ms: Seq<MnemonicV>, b: int) -> u64 {
    ms[m1(bs, b) - 1].start
}

/// Node position `t` is the right target for jump `j`: the block starting
/// at the jump's constant target if one exists, else an unresolved-target
/// node carrying the jump's target value.
pub open spec fn jump_target_matches(
    ns: Seq<CfgNodeV>,
    bs: Seq<BasicBlock>,
    j: JumpV,
    t: int,
) -> bool {
    match j.target {
        ValueV::Constant(c) => {
            if exists|p: int| 0 <= p < bs.len() && (#[trigger] bs[p]).area.start == c.value {
                exists|p: int|
                    0 <= p < bs.len() && (#[trigger] bs[p]).area.start == c.value && t == p
            } else {
                bs.len() <= t < ns.len() && ns[t] == CfgNodeV::Value(j.target)
            }
        },
        _ => bs.len() <= t < ns.len() && ns[t] == CfgNodeV::Value(j.target),
    }
}

/// The jump does not land on a block start: its target is a constant no
/// block starts at, a variable, or undefined. Each such jump out of a
/// block's last mnemonic gets its own unresolved-target node.
pub open spec fn jump_missed(bs: Seq<BasicBlock>, j: JumpV) -> bool {
    match j.target {
        ValueV::Constant(c) => !(exists|p: int|
            0 <= p < bs.len() && (#[trigger] bs[p]).area.start == c.value),
        _ => true,
    }
}

/// An edge value, as a named constructor so quantifiers can key on it.
pub open spec fn mk_edge(src2: usize, tgt2: usize, g2: Guard) -> CfgEdge {
    CfgEdge { source: src2, target: tgt2, guard: g2 }
}

/// Jump `k` leaves block `b` for the block at position `t`: its origin is
/// `b`'s exit key and its constant target is exactly `t`'s start address.
pub open spec fn induces_block_edge(
    bs: Seq<BasicBlock>,
    ms: Seq<MnemonicV>,
    js: Seq<JumpV>,
    k: int,
    b: int,
    t: int,
) -> bool {
    &&& 0 <= k < js.len()
    &&& js[k].origin == block_last_start(bs, ms, b)
    &&& match js[k].target {
        ValueV::Constant(c) => 0 <= t < bs.len() && bs[t].area.start == c.value,
        _ => false,
    }
}

/// The guard of `edge` is that of the last jump below `upto` that induces
/// its `(source block, target block)` pair.
pub open spec fn guard_is_last(
    edge: CfgEdge,
    bs: Seq<BasicBlock>,
    ms: Seq<MnemonicV>,
    js: Seq<JumpV>,
    upto: int,
) -> bool {
    exists|k: int|
        #![trigger js[k]]
        {
            &&& 0 <= k < upto
            &&& induces_block_edge(bs, ms, js, k, edge.source as int, edge.target as int)
            &&& js[k].guard == edge.guard
            &&& forall|k2: int|
                k < k2 < upto ==> !induces_block_edge(
                    bs,
                    ms,
                    js,
                    k2,
                    edge.source as int,
                    edge.target as int,
                )
        }
}

/// Every block-to-block edge carries the guard of the last jump that
/// induces it: a repeated edge upsert ends with the latest guard.
pub open spec fn block_edge_guard_last(
    g: ControlFlowGraph,
    bs: Seq<BasicBlock>,
    ms: Seq<MnemonicV>,
    js: Seq<JumpV>,
) -> bool {
    forall|e: int|
        0 <= e < g.edges@.len() && (#[trigger] g.edges@[e]).target < bs.len()
            ==> guard_is_last(g.edges@[e], bs, ms, js, js.len() as int)
}

/// How many of the first `k` jumps leave block `b` for a missed target.
pub open spec fn block_missed_upto(
    bs: Seq<BasicBlock>,
    ms: Seq<MnemonicV>,
    js: Seq<JumpV>,
    b: int,
    k: int,
) -> int
    decreases k,
{
    if k <= 0 {
        0
    } else {
        block_missed_upto(bs, ms, js, b, k - 1) + if js[k - 1].origin == block_last_start(
            bs,
            ms,
            b,
        ) && jump_missed(bs, js[k - 1]) {
            1int
        } else {
            0int
        }
    }
}

/// How many unresolved-target nodes the first `b` blocks give rise to.
pub open spec fn missed_upto(
    bs: Seq<BasicBlock>,
    ms: Seq<MnemonicV>,
    js: Seq<JumpV>,
    b: int,
) -> int
    decreases b,
{
    if b <= 0 {
        0
    } else {
        missed_upto(bs, ms, js, b - 1) + block_missed_upto(bs, ms, js, b - 1, js.len() as int)
    }
}

/// The first `nblocks` nodes are the blocks, in order; all later nodes are
/// unresolved jump targets.
pub open spec fn cfg_nodes_ok(ns: Seq<CfgNodeV>, nblocks: int) -> bool {
    &&& ns.len() >= nblocks
    &&& forall|b: int| 0 <= b < nblocks ==> ns[b] == CfgNodeV::BasicBlock(b as usize)
    &&& forall|k: int| nblocks <= k < ns.len() ==> (#[trigger] ns[k]) is Value
}

/// Edge `e` is justified by the jump list: it leaves a block, and some
/// recorded jump out of that block's last mnemonic has exactly this target
/// node and guard.
pub open spec fn edge_sound(
    ns: Seq<CfgNodeV>,
    es: Seq<CfgEdge>,
    bs: Seq<BasicBlock>,
    ms: Seq<MnemonicV>,
    js: Seq<JumpV>,
    e: int,
) -> bool {
    &&& es[e].source < bs.len()
    &&& exists|k: int|
        0 <= k < js.len() && (#[trigger] js[k]).origin == block_last_start(
            bs,
            ms,
            es[e].source as int,
        ) && jump_target_matches(ns, bs, js[k], es[e].target as int) && js[k].guard == es[e].guard
}

/// Some edge out of block `c` realizes jump `kx`.
pub open spec fn covered(
    g: ControlFlowGraph,
    bs: Seq<BasicBlock>,
    js: Seq<JumpV>,
    c: int,
    kx: int,
) -> bool {
    exists|e: int|
        0 <= e < g.edges@.len() && (#[trigger] g.edges@[e]).source == c && jump_target_matches(
            g.nodes_v(),
            bs,
            js[kx],
            g.edges@[e].target as int,
        )
}

/// Structural graph invariant kept while edges are attached: nodes are the
/// blocks then unresolved targets; every edge leaves a block and is
/// justified by a jump; edges are unique per `(source, target)` pair; and
/// every unresolved-target node is the target of some edge.
pub open spec fn cfg_inv(
    g: ControlFlowGraph,
    bs: Seq<BasicBlock>,
    ms: Seq<MnemonicV>,
    js: Seq<JumpV>,
) -> bool {
    &&& cfg_nodes_ok(g.nodes_v(), bs.len() as int)
    &&& g.edges_closed()
    &&& forall|e: int|
        0 <= e < g.edges@.len() ==> (#[trigger] g.edges@[e]).source < bs.len()
    &&& forall|e: int|
        0 <= e < g.edges@.len() ==> edge_sound(g.nodes_v(), g.edges@, bs, ms, js, e)
    &&& forall|e1: int, e2: int|
        0 <= e1 < e2 < g.edges@.len() ==> !((#[trigger] g.edges@[e1]).source
            == (#[trigger] g.edges@[e2]).source && g.edges@[e1].target == g.edges@[e2].target)
    &&& forall|t: int|
        bs.len() <= t < g.nodes_v().len() && (#[trigger] g.nodes_v()[t]) is Value ==> exists|
            e: int,
        |
            0 <= e < g.edges@.len() && (#[trigger] g.edges@[e]).target == t
}

/// The whole control-flow graph is right for `bs` and the jump list:
/// [`cfg_inv`]; there is exactly one unresolved-target node per missed
/// jump; every block-to-block edge carries the guard of the last jump
/// inducing it; and every jump out of a block's last mnemonic has its
/// edge.
pub open spec fn cfg_ok(
    g: ControlFlowGraph,
    bs: Seq<BasicBlock>,
    ms: Seq<MnemonicV>,
    js: Seq<JumpV>,
) -> bool {
    &&& cfg_inv(g, bs, ms, js)
    &&& g.nodes_v().len() == bs.len() + missed_upto(bs, ms, js, bs.len() as int)
    &&& block_edge_guard_last(g, bs, ms, js)
    &&& forall|b: int, k: int|
        #![trigger bs[b], js[k]]
        0 <= b < bs.len() && 0 <= k < js.len() && js[k].origin == block_last_start(bs, ms, b)
            ==> covered(g, bs, js, b, k)
}

/// Fields of a block other than its graph node.
pub open spec fn block_same_except_node(a: BasicBlock, b: BasicBlock) -> bool {
    &&& a.mnemonics.start == b.mnemonics.start
    &&& a.mnemonics.end == b.mnemonics.end
    &&& a.area.start == b.area.start
    &&& a.area.end == b.area.end
}

/// The block whose area starts at `v`, if any.
pub fn find_block_by_start(blocks: &Vec<BasicBlock>, v: u64) -> (r: Option<usize>)
    ensures
        r matches Some(p) ==> p < blocks@.len() && blocks@[p as int].area.start == v,
        r is None ==> forall|b: int| 0 <= b < blocks@.len() ==> (#[trigger] blocks@[b]).area.start
            != v,
{
    let mut b: usize = 0;
    while b < blocks.len()
        invariant
            b <= blocks@.len(),
            forall|c: int| 0 <= c < b ==> (#[trigger] blocks@[c]).area.start != v,
        decreases blocks@.len() - b,
    {
        if blocks[b].area.start == v {
            return Some(b);
        }
        b = b + 1;
    }
    None
}

/// A target that matches under the old node arena still matches after
/// nodes are appended.
proof fn lemma_match_stable(
    ns1: Seq<CfgNodeV>,
    ns2: Seq<CfgNodeV>,
    bs: Seq<BasicBlock>,
    j: JumpV,
    t: int,
)
    requires
        ns2.len() >= ns1.len(),
        forall|x: int| 0 <= x < ns1.len() ==> ns2[x] == ns1[x],
        jump_target_matches(ns1, bs, j, t),
    ensures
        jump_target_matches(ns2, bs, j, t),
{
}

/// What an edge upsert leaves behind: old edges keep their endpoints, the
/// upserted edge is present, anything new is the upserted edge, and
/// endpoint uniqueness is preserved.
proof fn lemma_upsert_edges(
    old_es: Seq<CfgEdge>,
    new_es: Seq<CfgEdge>,
    s: usize,
    t: usize,
    gu: Guard,
)
    requires
        edge_upsert(old_es, new_es, s, t, gu),
    ensures
        old_es.len() <= new_es.len() <= old_es.len() + 1,
        forall|e: int|
            0 <= e < new_es.len() ==> (0 <= e < old_es.len() && #[trigger] new_es[e] == old_es[e])
                || (new_es[e] == (CfgEdge { source: s, target: t, guard: gu }) && (e
                < old_es.len() ==> edge_matches(old_es[e], s, t))),
        forall|e: int|
            0 <= e < old_es.len() ==> (#[trigger] new_es[e]).source == old_es[e].source
                && new_es[e].target == old_es[e].target,
        exists|e: int|
            0 <= e < new_es.len() && #[trigger] new_es[e] == (CfgEdge {
                source: s,
                target: t,
                guard: gu,
            }),
        (forall|e1: int, e2: int|
            0 <= e1 < e2 < old_es.len() ==> !((#[trigger] old_es[e1]).source
                == (#[trigger] old_es[e2]).source && old_es[e1].target == old_es[e2].target))
            ==> (forall|e1: int, e2: int|
            0 <= e1 < e2 < new_es.len() ==> !((#[trigger] new_es[e1]).source
                == (#[trigger] new_es[e2]).source && new_es[e1].target == new_es[e2].target)),
{
    let e = CfgEdge { source: s, target: t, guard: gu };
    if exists|j: int| 0 <= j < old_es.len() && edge_matches(#[trigger] old_es[j], s, t) {
        let j = choose|j: int|
            {
                &&& 0 <= j < old_es.len()
                &&& edge_matches(#[trigger] old_es[j], s, t)
                &&& forall|k: int| 0 <= k < j ==> !edge_matches(#[trigger] old_es[k], s, t)
                &&& new_es == old_es.update(j, e)
            };
        assert(new_es[j] == e);
    } else {
        assert(new_es[new_es.len() - 1] == e);
    }
}

/// Distinct blocks have distinct start addresses and distinct exit keys.
proof fn lemma_block_keys_distinct(
    bs: Seq<BasicBlock>,
    ms: Seq<MnemonicV>,
    b1: int,
    b2: int,
)
    requires
        blocks_shape(bs, ms.len() as int),
        forall|c: int|
            0 <= c < bs.len() ==> (#[trigger] bs[c]).area.start == ms[m0(bs, c)].start
                && bs[c].area.end == ms[m1(bs, c) - 1].end,
        forall|i: int, j: int|
            0 <= i < j < ms.len() ==> (#[trigger] ms[i]).start < (#[trigger] ms[j]).start,
        0 <= b1 < b2 < bs.len(),
    ensures
        bs[b1].area.start < bs[b2].area.start,
        block_last_start(bs, ms, b1) != block_last_start(bs, ms, b2),
{
    lemma_blocks_ordered(bs, b1, b2);
    assert(m0(bs, b1) < m0(bs, b2));
    assert(m1(bs, b1) - 1 < m1(bs, b2) - 1) by {
        assert(m1(bs, b1) <= m0(bs, b2) < m1(bs, b2));
    }
    assert(ms[m1(bs, b1) - 1].start < ms[m1(bs, b2) - 1].start);
}

/// Attaches the edge for one jump out of block `b`: to the block starting
/// at the jump's constant target if there is one, else to a fresh
/// unresolved-target node. A repeated `(source, target)` pair only gets a
/// new guard.
fn attach_jump(
    g: &mut ControlFlowGraph,
    blocks: &Vec<BasicBlock>,
    b: usize,
    jump: &Jump,
    Ghost(ms): Ghost<Seq<MnemonicV>>,
    Ghost(js): Ghost<Seq<JumpV>>,
    Ghost(kk): Ghost<int>,
)
    requires
        blocks_shape(blocks@, ms.len() as int),
        b < blocks@.len(),
        forall|c: int| 0 <= c < blocks@.len() ==> (#[trigger] blocks@[c]).node.index == c,
        cfg_inv(*old(g), blocks@, ms, js),
        0 <= kk < js.len(),
        js[kk] == jump@,
        js[kk].origin == block_last_start(blocks@, ms, b as int),
    ensures
        cfg_inv(*final(g), blocks@, ms, js),
        forall|c: int, kx: int|
            0 <= kx < js.len() && #[trigger] covered(*old(g), blocks@, js, c, kx) ==> covered(
                *final(g),
                blocks@,
                js,
                c,
                kx,
            ),
        covered(*final(g), blocks@, js, b as int, kk),
        jump_missed(blocks@, js[kk]) ==> final(g).nodes_v().len() == old(g).nodes_v().len() + 1,
        !jump_missed(blocks@, js[kk]) ==> final(g).nodes_v().len() == old(g).nodes_v().len(),
        !jump_missed(blocks@, js[kk]) ==> exists|t: usize|
            {
                &&& t < blocks@.len()
                &&& induces_block_edge(blocks@, ms, js, kk, b as int, t as int)
                &&& #[trigger] edge_upsert(old(g).edges@, final(g).edges@, b, t, js[kk].guard)
            },
        jump_missed(blocks@, js[kk]) ==> exists|tn: usize|
            {
                &&& tn as int == old(g).nodes@.len()
                &&& final(g).edges@ == old(g).edges@.push(#[trigger] mk_edge(b, tn, js[kk].guard))
            },
{
    let ghost ns0 = old(g).nodes_v();
    let ghost es0 = old(g).edges@;
    let guard = jump.guard;
    let src = blocks[b].node;
    let mut target_node: Option<ControlFlowRef> = None;
    match &jump.target {
        Value::Constant(c) => {
            match find_block_by_start(blocks, c.value) {
                Some(p) => {
                    target_node = Some(blocks[p].node);
                    proof {
                        assert(jump_target_matches(ns0, blocks@, js[kk], p as int));
                        assert(!jump_missed(blocks@, js[kk]));
                        assert(blocks@[p as int].node.index == p);
                        assert(induces_block_edge(blocks@, ms, js, kk, b as int, p as int));
                    }
                },
                None => {
                    proof {
                        assert(js[kk].target == ValueV::Constant(*c));
                        assert(jump_missed(blocks@, js[kk]));
                    }
                },
            }
        },
        _ => {
            proof {
                assert(jump_missed(blocks@, js[kk]));
            }
        },
    }
    let tgt = match target_node {
        Some(t) => t,
        None => {
            let nn = g.add_node(CfgNode::Value(jump.target.clone()));
            proof {
                assert(g.nodes_v()[nn.index as int] == CfgNodeV::Value(js[kk].target));
                assert(jump_target_matches(g.nodes_v(), blocks@, js[kk], nn.index as int));
            }
            nn
        },
    };
    proof {
        let ns = g.nodes_v();
        assert(ns.len() >= ns0.len());
        assert(forall|x: int| 0 <= x < ns0.len() ==> ns[x] == ns0[x]);
        assert(cfg_nodes_ok(ns, blocks@.len() as int));
        assert(jump_target_matches(ns, blocks@, js[kk], tgt.index as int)) by {
            if tgt.index < blocks@.len() {
                lemma_match_stable(ns0, ns, blocks@, js[kk], tgt.index as int);
            }
        }
        assert(tgt.index < ns.len());
        assert(src.index == b);
    }
    let ghost ns = g.nodes_v();
    g.update_edge(src, tgt, guard);
    proof {
        lemma_upsert_edges(es0, g.edges@, src.index, tgt.index, guard);
        let es = g.edges@;
        let newe = (CfgEdge { source: src.index, target: tgt.index, guard });
        // every edge is justified
        assert forall|e: int| 0 <= e < es.len() implies edge_sound(ns, es, blocks@, ms, js, e) by {
            if 0 <= e < es0.len() && es[e] == es0[e] {
                assert(edge_sound(ns0, es0, blocks@, ms, js, e));
                let k = choose|k: int|
                    0 <= k < js.len() && (#[trigger] js[k]).origin == block_last_start(
                        blocks@,
                        ms,
                        es0[e].source as int,
                    ) && jump_target_matches(ns0, blocks@, js[k], es0[e].target as int) && js[
                        k
                    ].guard == es0[e].guard;
                lemma_match_stable(ns0, ns, blocks@, js[k], es0[e].target as int);
                assert(edge_sound(ns, es, blocks@, ms, js, e));
            } else {
                assert(es[e] == newe);
                assert((#[trigger] js[kk]).origin == block_last_start(
                    blocks@,
                    ms,
                    es[e].source as int,
                ) && jump_target_matches(ns, blocks@, js[kk], es[e].target as int) && js[
                    kk
                ].guard == es[e].guard);
            }
        }
        // the upserted edge realizes this jump
        let we = choose|e: int| 0 <= e < es.len() && #[trigger] es[e] == newe;
        assert(es[we].source == b && jump_target_matches(ns, blocks@, js[kk], es[we].target as int));
        assert(covered(*g, blocks@, js, b as int, kk));
        // previously realized jumps stay realized
        assert forall|c: int, kx: int|
            0 <= kx < js.len() && #[trigger] covered(*old(g), blocks@, js, c, kx) implies covered(
            *g,
            blocks@,
            js,
            c,
            kx,
        ) by {
            let e = choose|e: int|
                0 <= e < es0.len() && (#[trigger] es0[e]).source == c && jump_target_matches(
                    ns0,
                    blocks@,
                    js[kx],
                    es0[e].target as int,
                );
            lemma_match_stable(ns0, ns, blocks@, js[kx], es0[e].target as int);
            assert(es[e].source == c && jump_target_matches(ns, blocks@, js[kx], es[e].target as int));
        }
        // unresolved-target nodes keep an incoming edge
        assert forall|t: int|
            blocks@.len() <= t < ns.len() && (#[trigger] ns[t]) is Value implies exists|e: int|
            0 <= e < es.len() && (#[trigger] es[e]).target == t by {
            if t < ns0.len() {
                let e = choose|e: int| 0 <= e < es0.len() && (#[trigger] es0[e]).target == t;
                assert(es[e].target == t);
            } else {
                assert(t == tgt.index);
                assert(es[we].target == t);
            }
        }
        // how the edge list changed, for the guard bookkeeping
        if !jump_missed(blocks@, js[kk]) {
            assert(tgt.index < blocks@.len());
            assert(induces_block_edge(blocks@, ms, js, kk, b as int, tgt.index as int));
            assert(edge_upsert(es0, es, b, tgt.index, js[kk].guard));
        } else {
            assert(tgt.index as int == ns0.len());
            assert forall|j2: int|
                0 <= j2 < es0.len() implies !edge_matches(#[trigger] es0[j2], b, tgt.index) by {
                assert(es0[j2].target < ns0.len());
            }
            assert(es == es0.push(mk_edge(b, tgt.index, js[kk].guard)));
        }
    }
}

proof fn lemma_guard_extend_noninducing(
    edge: CfgEdge,
    bs: Seq<BasicBlock>,
    ms: Seq<MnemonicV>,
    js: Seq<JumpV>,
    k: int,
)
    requires
        0 <= k < js.len(),
        guard_is_last(edge, bs, ms, js, k),
        !induces_block_edge(bs, ms, js, k, edge.source as int, edge.target as int),
    ensures
        guard_is_last(edge, bs, ms, js, k + 1),
{
    let kp = choose|kp: int|
        #![trigger js[kp]]
        {
            &&& 0 <= kp < k
            &&& induces_block_edge(bs, ms, js, kp, edge.source as int, edge.target as int)
            &&& js[kp].guard == edge.guard
            &&& forall|k2: int|
                kp < k2 < k ==> !induces_block_edge(
                    bs,
                    ms,
                    js,
                    k2,
                    edge.source as int,
                    edge.target as int,
                )
        };
    assert(js[kp].guard == edge.guard);
    assert forall|k2: int|
        kp < k2 < k + 1 implies !induces_block_edge(
        bs,
        ms,
        js,
        k2,
        edge.source as int,
        edge.target as int,
    ) by {}
}

/// Carries the last-writer guard bookkeeping over one attached jump.
#[verifier::spinoff_prover]
#[verifier::rlimit(100)]
proof fn lemma_guard_step_attached(
    es0: Seq<CfgEdge>,
    es1: Seq<CfgEdge>,
    bs: Seq<BasicBlock>,
    ms: Seq<MnemonicV>,
    js: Seq<JumpV>,
    bu: usize,
    k: int,
)
    requires
        bu < bs.len(),
        blocks_shape(bs, ms.len() as int),
        forall|c: int|
            0 <= c < bs.len() ==> (#[trigger] bs[c]).area.start == ms[m0(bs, c)].start
                && bs[c].area.end == ms[m1(bs, c) - 1].end,
        forall|i2: int, j2: int|
            0 <= i2 < j2 < ms.len() ==> (#[trigger] ms[i2]).start < (#[trigger] ms[j2]).start,
        0 <= k < js.len(),
        js[k].origin == block_last_start(bs, ms, bu as int),
        forall|e: int| 0 <= e < es0.len() ==> (#[trigger] es0[e]).source <= bu,
        forall|e: int|
            0 <= e < es0.len() && (#[trigger] es0[e]).source < bu && es0[e].target < bs.len()
                ==> guard_is_last(es0[e], bs, ms, js, js.len() as int),
        forall|e: int|
            0 <= e < es0.len() && (#[trigger] es0[e]).source == bu && es0[e].target < bs.len()
                ==> guard_is_last(es0[e], bs, ms, js, k),
        forall|e1: int, e2: int|
            0 <= e1 < e2 < es0.len() ==> !((#[trigger] es0[e1]).source == (#[trigger] es0[e2]).source
                && es0[e1].target == es0[e2].target),
        jump_missed(bs, js[k]) ==> exists|tn: usize|
            {
                &&& tn as int >= bs.len()
                &&& es1 == es0.push(#[trigger] mk_edge(bu, tn, js[k].guard))
            },
        !jump_missed(bs, js[k]) ==> exists|t: usize|
            {
                &&& t < bs.len()
                &&& induces_block_edge(bs, ms, js, k, bu as int, t as int)
                &&& #[trigger] edge_upsert(es0, es1, bu, t, js[k].guard)
            },
    ensures
        forall|e: int| 0 <= e < es1.len() ==> (#[trigger] es1[e]).source <= bu,
        forall|e: int|
            0 <= e < es1.len() && (#[trigger] es1[e]).source < bu && es1[e].target < bs.len()
                ==> guard_is_last(es1[e], bs, ms, js, js.len() as int),
        forall|e: int|
            0 <= e < es1.len() && (#[trigger] es1[e]).source == bu && es1[e].target < bs.len()
                ==> guard_is_last(es1[e], bs, ms, js, k + 1),
{
    if jump_missed(bs, js[k]) {
        let tn = choose|tn: usize|
            {
                &&& tn as int >= bs.len()
                &&& es1 == es0.push(#[trigger] mk_edge(bu, tn, js[k].guard))
            };
        assert forall|e: int|
            0 <= e < es1.len() && (#[trigger] es1[e]).source == bu && es1[e].target < bs.len()
            implies guard_is_last(es1[e], bs, ms, js, k + 1) by {
            assert(e < es0.len());
            assert(es1[e] == es0[e]);
            assert(!induces_block_edge(bs, ms, js, k, es1[e].source as int, es1[e].target as int));
            lemma_guard_extend_noninducing(es1[e], bs, ms, js, k);
        }
        assert forall|e: int|
            0 <= e < es1.len() && (#[trigger] es1[e]).source < bu && es1[e].target < bs.len()
            implies guard_is_last(es1[e], bs, ms, js, js.len() as int) by {
            assert(e < es0.len());
            assert(es1[e] == es0[e]);
        }
    } else {
        let t = choose|t: usize|
            {
                &&& t < bs.len()
                &&& induces_block_edge(bs, ms, js, k, bu as int, t as int)
                &&& #[trigger] edge_upsert(es0, es1, bu, t, js[k].guard)
            };
        lemma_upsert_edges(es0, es1, bu, t, js[k].guard);
        let newe = CfgEdge { source: bu, target: t, guard: js[k].guard };
        assert forall|e: int|
            0 <= e < es1.len() && (#[trigger] es1[e]).source == bu && es1[e].target < bs.len()
            implies guard_is_last(es1[e], bs, ms, js, k + 1) by {
            if es1[e] == newe {
                assert(induces_block_edge(bs, ms, js, k, es1[e].source as int, es1[e].target as int));
                assert(js[k].guard == es1[e].guard);
                assert(guard_is_last(es1[e], bs, ms, js, k + 1));
            } else {
                assert(0 <= e < es0.len() && es1[e] == es0[e]);
                assert(!(es0[e].source == bu && es0[e].target == t)) by {
                    if es0[e].source == bu && es0[e].target == t {
                        let j = choose|j: int|
                            {
                                &&& 0 <= j < es0.len()
                                &&& edge_matches(#[trigger] es0[j], bu, t)
                                &&& forall|k3: int|
                                    0 <= k3 < j ==> !edge_matches(#[trigger] es0[k3], bu, t)
                                &&& es1 == es0.update(j, newe)
                            };
                        assert(edge_matches(es0[e], bu, t));
                        assert(e == j);
                        assert(es1[e] == newe);
                    }
                }
                assert(!induces_block_edge(bs, ms, js, k, es1[e].source as int, es1[e].target as int))
                    by {
                    if induces_block_edge(bs, ms, js, k, es1[e].source as int, es1[e].target as int) {
                        let tp = es1[e].target as int;
                        if tp < t as int {
                            lemma_block_keys_distinct(bs, ms, tp, t as int);
                        } else if tp > t as int {
                            lemma_block_keys_distinct(bs, ms, t as int, tp);
                        }
                    }
                }
                lemma_guard_extend_noninducing(es1[e], bs, ms, js, k);
            }
        }
        assert forall|e: int|
            0 <= e < es1.len() && (#[trigger] es1[e]).source < bu && es1[e].target < bs.len()
            implies guard_is_last(es1[e], bs, ms, js, js.len() as int) by {
            if es1[e] == newe {
                assert(es1[e].source == bu);
            }
            assert(0 <= e < es0.len() && es1[e] == es0[e]);
        }
    }
}

/// Builds the control-flow graph: one node per block (stored back on the
/// block), then, for every jump out of a block's last mnemonic, an edge to
/// the target block — or to a fresh unresolved-target node when the target
/// is not a block start, not constant, or undefined. A repeated
/// `(source, target)` pair only updates the edge's guard.
pub fn build_cfg(
    blocks: &mut Vec<BasicBlock>,
    mnemonics: &Vec<(Mnemonic, Vec<Statement>)>,
    jumps: &Vec<Jump>,
) -> (g: ControlFlowGraph)
    requires
        blocks_shape(old(blocks)@, mnemonics.deep_view().len() as int),
        pairs_sorted(mnemonics.deep_view()),
        forall|c: int|
            0 <= c < old(blocks)@.len() ==> (#[trigger] old(blocks)@[c]).area.start == pair_mnes(
                mnemonics.deep_view(),
            )[m0(old(blocks)@, c)].start && old(blocks)@[c].area.end == pair_mnes(
                mnemonics.deep_view(),
            )[m1(old(blocks)@, c) - 1].end,
    ensures
        final(blocks)@.len() == old(blocks)@.len(),
        forall|b: int|
            0 <= b < old(blocks)@.len() ==> block_same_except_node(
                #[trigger] final(blocks)@[b],
                old(blocks)@[b],
            ) && final(blocks)@[b].node.index == b,
        cfg_ok(g, final(blocks)@, pair_mnes(mnemonics.deep_view()), jumps.deep_view()),
{
    let ghost ms = pair_mnes(mnemonics.deep_view());
    let ghost js = jumps.deep_view();
    proof {
        assert forall|x: int| 0 <= x < ms.len() implies ms[x] == mnemonics.deep_view()[x].0 by {}
    }
    let n_blocks = blocks.len();
    let mut g = ControlFlowGraph::new();
    let mut b: usize = 0;
    while b < n_blocks
        invariant
            n_blocks == blocks@.len() == old(blocks)@.len(),
            g.nodes_v().len() == b,
            b <= n_blocks,
            g.edges@.len() == 0,
            forall|c: int| 0 <= c < b ==> g.nodes_v()[c] == CfgNodeV::BasicBlock(c as usize),
            forall|c: int|
                0 <= c < b ==> block_same_except_node(#[trigger] blocks@[c], old(blocks)@[c])
                    && blocks@[c].node.index == c,
            forall|c: int| b <= c < n_blocks ==> #[trigger] blocks@[c] == old(blocks)@[c],
        decreases n_blocks - b,
    {
        let r = g.add_node(CfgNode::BasicBlock(BasicBlockIndex::new(b)));
        let bb = blocks[b].clone();
        blocks.set(b, BasicBlock { mnemonics: bb.mnemonics, node: r, area: bb.area });
        b = b + 1;
    }
    proof {
        assert forall|c: int|
            0 <= c < blocks@.len() implies m0(blocks@, c) == m0(old(blocks)@, c) && m1(blocks@, c)
            == m1(old(blocks)@, c) by {}
        assert(blocks_shape(blocks@, ms.len() as int));
        assert forall|i2: int, j2: int|
            0 <= i2 < j2 < ms.len() implies (#[trigger] ms[i2]).start < (
        #[trigger] ms[j2]).start by {
            assert(ms[i2] == mnemonics.deep_view()[i2].0);
            assert(ms[j2] == mnemonics.deep_view()[j2].0);
        }
        assert forall|c: int|
            0 <= c < blocks@.len() implies (#[trigger] blocks@[c]).area.start == ms[m0(
            blocks@,
            c,
        )].start && blocks@[c].area.end == ms[m1(blocks@, c) - 1].end by {}
    }
    let mut b: usize = 0;
    while b < n_blocks
        invariant
            n_blocks == blocks@.len() == old(blocks)@.len(),
            b <= n_blocks,
            blocks_shape(blocks@, ms.len() as int),
            forall|c: int|
                0 <= c < n_blocks ==> block_same_except_node(#[trigger] blocks@[c], old(
                    blocks,
                )@[c]) && blocks@[c].node.index == c,
            cfg_inv(g, blocks@, ms, js),
            g.nodes_v().len() == n_blocks + missed_upto(blocks@, ms, js, b as int),
            forall|i2: int, j2: int|
                0 <= i2 < j2 < ms.len() ==> (#[trigger] ms[i2]).start < (#[trigger] ms[j2]).start,
            forall|c: int|
                0 <= c < n_blocks ==> (#[trigger] blocks@[c]).area.start == ms[m0(blocks@, c)].start
                    && blocks@[c].area.end == ms[m1(blocks@, c) - 1].end,
            forall|e: int| 0 <= e < g.edges@.len() ==> (#[trigger] g.edges@[e]).source < b,
            forall|e: int|
                0 <= e < g.edges@.len() && (#[trigger] g.edges@[e]).target < n_blocks
                    ==> guard_is_last(g.edges@[e], blocks@, ms, js, js.len() as int),
            forall|c: int, kx: int|
                #![trigger blocks@[c], js[kx]]
                0 <= c < b && 0 <= kx < js.len() && js[kx].origin == block_last_start(
                    blocks@,
                    ms,
                    c,
                ) ==> covered(g, blocks@, js, c, kx),
        decreases n_blocks - b,
    {
        proof {
            assert(0 <= m0(blocks@, b as int) < m1(blocks@, b as int) <= ms.len());
        }
        let last = blocks[b].mnemonics.end.index() - 1;
        let last_start = mnemonics[last].0.area.start;
        proof {
            assert(ms[last as int] == mnemonics.deep_view()[last as int].0);
            assert(last_start == block_last_start(blocks@, ms, b as int));
        }
        let mut k: usize = 0;
        while k < jumps.len()
            invariant
                0 <= b < n_blocks,
                n_blocks == blocks@.len() == old(blocks)@.len(),
                k <= js.len(),
                last_start == block_last_start(blocks@, ms, b as int),
                blocks_shape(blocks@, ms.len() as int),
                forall|c: int|
                    0 <= c < n_blocks ==> block_same_except_node(#[trigger] blocks@[c], old(
                        blocks,
                    )@[c]) && blocks@[c].node.index == c,
                cfg_inv(g, blocks@, ms, js),
                g.nodes_v().len() == n_blocks + missed_upto(blocks@, ms, js, b as int)
                    + block_missed_upto(blocks@, ms, js, b as int, k as int),
                forall|i2: int, j2: int|
                    0 <= i2 < j2 < ms.len() ==> (#[trigger] ms[i2]).start < (
                    #[trigger] ms[j2]).start,
                forall|c: int|
                    0 <= c < n_blocks ==> (#[trigger] blocks@[c]).area.start == ms[m0(
                        blocks@,
                        c,
                    )].start && blocks@[c].area.end == ms[m1(blocks@, c) - 1].end,
                forall|e: int| 0 <= e < g.edges@.len() ==> (#[trigger] g.edges@[e]).source <= b,
                forall|e: int|
                    0 <= e < g.edges@.len() && (#[trigger] g.edges@[e]).source < b
                        && g.edges@[e].target < n_blocks ==> guard_is_last(
                        g.edges@[e],
                        blocks@,
                        ms,
                        js,
                        js.len() as int,
                    ),
                forall|e: int|
                    0 <= e < g.edges@.len() && (#[trigger] g.edges@[e]).source == b
                        && g.edges@[e].target < n_blocks ==> guard_is_last(
                        g.edges@[e],
                        blocks@,
                        ms,
                        js,
                        k as int,
                    ),
                forall|c: int, kx: int|
                    #![trigger blocks@[c], js[kx]]
                    0 <= c < b && 0 <= kx < js.len() && js[kx].origin == block_last_start(
                        blocks@,
                        ms,
                        c,
                    ) ==> covered(g, blocks@, js, c, kx),
                forall|kx: int|
                    0 <= kx < k && (#[trigger] js[kx]).origin == block_last_start(
                        blocks@,
                        ms,
                        b as int,
                    ) ==> covered(g, blocks@, js, b as int, kx),
            decreases js.len() - k,
        {
            let ghost es_before = g.edges@;
            let ghost old_nodes_len = g.nodes_v().len() as int;
            if jumps[k].origin == last_start {
                proof {
                    assert(js[k as int] == jumps@[k as int]@);
                }
                attach_jump(&mut g, blocks, b, &jumps[k], Ghost(ms), Ghost(js), Ghost(k as int));
                proof {
                    assert(block_missed_upto(blocks@, ms, js, b as int, k + 1)
                        == block_missed_upto(blocks@, ms, js, b as int, k as int) + if jump_missed(
                        blocks@,
                        js[k as int],
                    ) {
                        1int
                    } else {
                        0int
                    });
                    if jump_missed(blocks@, js[k as int]) {
                        let tn0 = choose|tn: usize|
                            {
                                &&& tn as int == old_nodes_len
                                &&& g.edges@ == es_before.push(#[trigger] mk_edge(
                                    b,
                                    tn,
                                    js[k as int].guard,
                                ))
                            };
                        assert(tn0 as int >= blocks@.len());
                    }
                    lemma_guard_step_attached(
                        es_before,
                        g.edges@,
                        blocks@,
                        ms,
                        js,
                        b,
                        k as int,
                    );
                }
            } else {
                proof {
                    assert(js[k as int] == jumps@[k as int]@);
                    assert(block_missed_upto(blocks@, ms, js, b as int, k + 1)
                        == block_missed_upto(blocks@, ms, js, b as int, k as int));
                    // no edge is touched, and this jump induces nothing here
                    assert forall|e: int|
                        0 <= e < g.edges@.len() && (#[trigger] g.edges@[e]).source == b
                            && g.edges@[e].target < n_blocks implies guard_is_last(
                        g.edges@[e],
                        blocks@,
                        ms,
                        js,
                        k + 1,
                    ) by {
                        lemma_guard_extend_noninducing(
                            g.edges@[e],
                            blocks@,
                            ms,
                            js,
                            k as int,
                        );
                    }
                }
            }
            k = k + 1;
        }
        proof {
            assert(missed_upto(blocks@, ms, js, b + 1) == missed_upto(blocks@, ms, js, b as int)
                + block_missed_upto(blocks@, ms, js, b as int, js.len() as int));
        }
        b = b + 1;
    }
    g
}

/// Block `b`'s statement ranges were laid out: each of its mnemonics'
/// ranges is in bounds and holds exactly that mnemonic's statements, and
/// consecutive mnemonics' ranges are contiguous.
pub open spec fn block_laid_out(
    ranges: Seq<(usize, usize)>,
    code: Seq<StatementV>,
    ps: Seq<(MnemonicV, Seq<StatementV>)>,
    bs: Seq<BasicBlock>,
    b: int,
) -> bool {
    &&& forall|i: int|
        m0(bs, b) <= i < m1(bs, b) ==> (#[trigger] ranges[i]).0 <= ranges[i].1 <= code.len()
            && code.subrange(ranges[i].0 as int, ranges[i].1 as int) == ps[i].1
    &&& forall|i: int|
        m0(bs, b) <= i < m1(bs, b) - 1 ==> (#[trigger] ranges[i]).1 == ranges[i + 1].0
}

/// Block `b` was not visited: all its mnemonics keep the empty range.
pub open spec fn block_not_laid_out(
    ranges: Seq<(usize, usize)>,
    bs: Seq<BasicBlock>,
    b: int,
) -> bool {
    forall|i: int| m0(bs, b) <= i < m1(bs, b) ==> (#[trigger] ranges[i]) == (0usize, 0usize)
}

/// The concatenated statement lists of the pairs `[lo, hi)`.
pub open spec fn stmts_upto(ps: Seq<(MnemonicV, Seq<StatementV>)>, lo: int, hi: int) -> Seq<
    StatementV,
>
    decreases hi - lo,
{
    if hi <= lo {
        Seq::empty()
    } else {
        stmts_upto(ps, lo, hi - 1) + ps[hi - 1].1
    }
}

/// What the walk emits into the statement stream: each order entry that
/// names a block contributes its mnemonics' statement lists in order;
/// entries naming other nodes contribute nothing.
pub open spec fn walk_stmts(
    ps: Seq<(MnemonicV, Seq<StatementV>)>,
    bs: Seq<BasicBlock>,
    order: Seq<usize>,
) -> Seq<StatementV>
    decreases order.len(),
{
    if order.len() == 0 {
        Seq::empty()
    } else {
        walk_stmts(ps, bs, order.drop_last()) + (if (order.last() as int) < bs.len() {
            stmts_upto(ps, m0(bs, order.last() as int), m1(bs, order.last() as int))
        } else {
            Seq::empty()
        })
    }
}

/// Where the walk's cursor stands after `order`: each entry naming a block
/// moves it to that block's last recorded range end.
pub open spec fn walk_end(
    rs: Seq<(usize, usize)>,
    bs: Seq<BasicBlock>,
    order: Seq<usize>,
    pos: int,
) -> int
    decreases order.len(),
{
    if order.len() == 0 {
        pos
    } else if (order.last() as int) < bs.len() {
        rs[m1(bs, order.last() as int) - 1].1 as int
    } else {
        walk_end(rs, bs, order.drop_last(), pos)
    }
}

/// The recorded ranges follow the walk: each entry naming a block has its
/// first mnemonic's range start exactly where the cursor stood after the
/// entries before it.
pub open spec fn walk_ranges_ok(
    rs: Seq<(usize, usize)>,
    bs: Seq<BasicBlock>,
    order: Seq<usize>,
    pos: int,
) -> bool
    decreases order.len(),
{
    if order.len() == 0 {
        true
    } else {
        walk_ranges_ok(rs, bs, order.drop_last(), pos) && ((order.last() as int) < bs.len()
            ==> rs[m0(bs, order.last() as int)].0 as int == walk_end(
            rs,
            bs,
            order.drop_last(),
            pos,
        ))
    }
}

/// The statement ranges of the mnemonics, in order.
pub open spec fn sranges(ms: Seq<MnemonicV>) -> Seq<(usize, usize)> {
    Seq::new(ms.len(), |i: int| (ms[i].s_start, ms[i].s_end))
}

/// The walk facts are insensitive to range entries of blocks the order
/// does not visit.
proof fn lemma_walk_stable(
    rs1: Seq<(usize, usize)>,
    rs2: Seq<(usize, usize)>,
    bs: Seq<BasicBlock>,
    order: Seq<usize>,
    pos: int,
)
    requires
        walk_ranges_ok(rs1, bs, order, pos),
        forall|p: int|
            0 <= p < order.len() && ((#[trigger] order[p]) as int) < bs.len() ==> 0 <= m0(
                bs,
                order[p] as int,
            ) < m1(bs, order[p] as int) <= rs1.len(),
        rs1.len() == rs2.len(),
        forall|p: int|
            0 <= p < order.len() && ((#[trigger] order[p]) as int) < bs.len() ==> rs2[m0(
                bs,
                order[p] as int,
            )] == rs1[m0(bs, order[p] as int)] && rs2[m1(bs, order[p] as int) - 1] == rs1[m1(
                bs,
                order[p] as int,
            ) - 1],
    ensures
        walk_ranges_ok(rs2, bs, order, pos),
        walk_end(rs2, bs, order, pos) == walk_end(rs1, bs, order, pos),
    decreases order.len(),
{
    if order.len() > 0 {
        let head = order.drop_last();
        assert forall|p: int|
            0 <= p < head.len() && ((#[trigger] head[p]) as int) < bs.len() implies 0 <= m0(
            bs,
            head[p] as int,
        ) < m1(bs, head[p] as int) <= rs1.len() && rs2[m0(bs, head[p] as int)] == rs1[m0(
            bs,
            head[p] as int,
        )] && rs2[m1(bs, head[p] as int) - 1] == rs1[m1(bs, head[p] as int) - 1] by {
            assert(head[p] == order[p]);
        }
        lemma_walk_stable(rs1, rs2, bs, head, pos);
        assert(order[order.len() - 1] == order.last());
    }
}

/// Along a correct walk the cursor never moves backwards: every visited
/// block's range lies between the starting position and the final cursor,
/// and earlier-visited blocks' ranges end before later-visited ones begin.
proof fn lemma_walk_ordered(
    rs: Seq<(usize, usize)>,
    bs: Seq<BasicBlock>,
    order: Seq<usize>,
    pos: int,
)
    requires
        walk_ranges_ok(rs, bs, order, pos),
        forall|p: int|
            0 <= p < order.len() && ((#[trigger] order[p]) as int) < bs.len() ==> 0 <= m0(
                bs,
                order[p] as int,
            ) < m1(bs, order[p] as int) <= rs.len() && rs[m0(bs, order[p] as int)].0 <= rs[m1(
                bs,
                order[p] as int,
            ) - 1].1,
    ensures
        pos <= walk_end(rs, bs, order, pos),
        forall|p: int|
            0 <= p < order.len() && ((#[trigger] order[p]) as int) < bs.len() ==> pos <= rs[m0(
                bs,
                order[p] as int,
            )].0 && rs[m1(bs, order[p] as int) - 1].1 <= walk_end(rs, bs, order, pos),
        forall|p: int, q: int|
            0 <= p < q < order.len() && ((#[trigger] order[p]) as int) < bs.len() && ((
            #[trigger] order[q]) as int) < bs.len() ==> rs[m1(bs, order[p] as int) - 1].1 <= rs[m0(
                bs,
                order[q] as int,
            )].0,
    decreases order.len(),
{
    if order.len() > 0 {
        let head = order.drop_last();
        let b = order.last();
        assert forall|p: int|
            0 <= p < head.len() && ((#[trigger] head[p]) as int) < bs.len() implies 0 <= m0(
            bs,
            head[p] as int,
        ) < m1(bs, head[p] as int) <= rs.len() && rs[m0(bs, head[p] as int)].0 <= rs[m1(
            bs,
            head[p] as int,
        ) - 1].1 by {
            assert(head[p] == order[p]);
        }
        lemma_walk_ordered(rs, bs, head, pos);
        assert(order[order.len() - 1] == b);
        assert forall|p: int|
            0 <= p < order.len() && ((#[trigger] order[p]) as int) < bs.len() implies pos <= rs[m0(
            bs,
            order[p] as int,
        )].0 && rs[m1(bs, order[p] as int) - 1].1 <= walk_end(rs, bs, order, pos) by {
            if p < order.len() - 1 {
                assert(order[p] == head[p]);
                if (b as int) < bs.len() {
                    assert(rs[m1(bs, head[p] as int) - 1].1 <= walk_end(rs, bs, head, pos));
                    assert(walk_end(rs, bs, head, pos) == rs[m0(bs, b as int)].0);
                }
            } else {
                assert(rs[m0(bs, b as int)].0 == walk_end(rs, bs, head, pos));
            }
        }
        assert forall|p: int, q: int|
            0 <= p < q < order.len() && ((#[trigger] order[p]) as int) < bs.len() && ((
        #[trigger] order[q]) as int) < bs.len() implies rs[m1(bs, order[p] as int) - 1].1 <= rs[m0(
            bs,
            order[q] as int,
        )].0 by {
            if q < order.len() - 1 {
                assert(order[p] == head[p] && order[q] == head[q]);
            } else {
                assert(order[p] == head[p]);
                assert(rs[m1(bs, head[p] as int) - 1].1 <= walk_end(rs, bs, head, pos));
                assert(walk_end(rs, bs, head, pos) == rs[m0(bs, b as int)].0);
            }
        }
    }
}

/// A laid-out block stays laid out when the code sequence is extended and
/// its ranges are untouched.
proof fn lemma_laid_out_stable(
    ranges1: Seq<(usize, usize)>,
    ranges2: Seq<(usize, usize)>,
    code1: Seq<StatementV>,
    code2: Seq<StatementV>,
    ps: Seq<(MnemonicV, Seq<StatementV>)>,
    bs: Seq<BasicBlock>,
    b: int,
)
    requires
        block_laid_out(ranges1, code1, ps, bs, b),
        code1.len() <= code2.len(),
        forall|x: int| 0 <= x < code1.len() ==> code2[x] == code1[x],
        ranges1.len() == ranges2.len(),
        forall|i: int| m0(bs, b) <= i < m1(bs, b) ==> #[trigger] ranges2[i] == ranges1[i],
    ensures
        block_laid_out(ranges2, code2, ps, bs, b),
{
    assert forall|i: int|
        m0(bs, b) <= i < m1(bs, b) implies (#[trigger] ranges2[i]).0 <= ranges2[i].1 <= code2.len()
        && code2.subrange(ranges2[i].0 as int, ranges2[i].1 as int) == ps[i].1 by {
        assert(ranges1[i].0 <= ranges1[i].1 <= code1.len());
        assert(code2.subrange(ranges2[i].0 as int, ranges2[i].1 as int) =~= code1.subrange(
            ranges1[i].0 as int,
            ranges1[i].1 as int,
        ));
    }
}

/// Position `p` of the code stream lies inside one of the recorded ranges.
pub open spec fn range_covered_pos(ranges: Seq<(usize, usize)>, p: int) -> bool {
    exists|i: int| 0 <= i < ranges.len() && (#[trigger] ranges[i]).0 <= p < ranges[i].1
}

/// Position `p` of the code stream lies inside some mnemonic's statement
/// range.
pub open spec fn covered_pos(ms: Seq<MnemonicV>, p: int) -> bool {
    exists|i: int| 0 <= i < ms.len() && (#[trigger] ms[i]).s_start <= p < ms[i].s_end
}

/// The whole code stream is covered by the mnemonics' statement ranges.
pub open spec fn code_covered(ms: Seq<MnemonicV>, code_len: int) -> bool {
    forall|p: int| 0 <= p < code_len ==> #[trigger] covered_pos(ms, p)
}

/// Lays the IL out: walks the node order, and for every visited block
/// appends its mnemonics' statements to the code stream in address order,
/// recording each mnemonic's new statement range. Mnemonics of unvisited
/// blocks keep the empty range and occupy no space.
#[verifier::rlimit(100)]
pub fn layout_statements(
    order: &Vec<usize>,
    blocks: &Vec<BasicBlock>,
    mnemonics: &Vec<(Mnemonic, Vec<Statement>)>,
) -> (r: (Vec<Statement>, Vec<(usize, usize)>))
    requires
        order@.no_duplicates(),
        blocks_shape(blocks@, mnemonics.deep_view().len() as int),
    ensures
        r.1@.len() == mnemonics@.len(),
        forall|p: int|
            0 <= p < order@.len() && (#[trigger] order@[p]) < blocks@.len() ==> block_laid_out(
                r.1@,
                r.0.deep_view(),
                mnemonics.deep_view(),
                blocks@,
                order@[p] as int,
            ),
        forall|b: int|
            #![trigger blocks@[b]]
            0 <= b < blocks@.len() && !order@.contains(b as usize) ==> block_not_laid_out(
                r.1@,
                blocks@,
                b,
            ),
        forall|p: int| 0 <= p < r.0.deep_view().len() ==> #[trigger] range_covered_pos(r.1@, p),
        r.0.deep_view() == walk_stmts(mnemonics.deep_view(), blocks@, order@),
        walk_ranges_ok(r.1@, blocks@, order@, 0),
        walk_end(r.1@, blocks@, order@, 0) == r.0@.len(),
{
    let ghost ps = mnemonics.deep_view();
    let n = mnemonics.len();
    let nblocks = blocks.len();
    let mut code: Vec<Statement> = Vec::new();
    let mut ranges: Vec<(usize, usize)> = Vec::new();
    let mut i: usize = 0;
    while i < n
        invariant
            i <= n,
            ranges@.len() == i,
            forall|x: int| 0 <= x < i ==> (#[trigger] ranges@[x]) == (0usize, 0usize),
        decreases n - i,
    {
        ranges.push((0, 0));
        i = i + 1;
    }
    proof {
        assert(order@.take(0) =~= Seq::<usize>::empty());
        assert(code.deep_view() =~= walk_stmts(ps, blocks@, order@.take(0)));
    }
    let mut p: usize = 0;
    while p < order.len()
        invariant
            p <= order@.len(),
            n == ps.len() == mnemonics@.len(),
            nblocks == blocks@.len(),
            blocks_shape(blocks@, n as int),
            ranges@.len() == n,
            forall|q: int|
                0 <= q < p && (#[trigger] order@[q]) < nblocks ==> block_laid_out(
                    ranges@,
                    code.deep_view(),
                    ps,
                    blocks@,
                    order@[q] as int,
                ),
            forall|b: int|
                #![trigger blocks@[b]]
                0 <= b < nblocks && !order@.take(p as int).contains(b as usize)
                    ==> block_not_laid_out(ranges@, blocks@, b),
            forall|q2: int|
                0 <= q2 < code.deep_view().len() ==> #[trigger] range_covered_pos(ranges@, q2),
            code.deep_view() == walk_stmts(ps, blocks@, order@.take(p as int)),
            walk_ranges_ok(ranges@, blocks@, order@.take(p as int), 0),
            walk_end(ranges@, blocks@, order@.take(p as int), 0) == code.deep_view().len(),
        decreases order@.len() - p,
    {
        let node = order[p];
        if node < nblocks {
            let b = node;
            proof {
                assert(0 <= m0(blocks@, b as int) < m1(blocks@, b as int) <= n);
            }
            let mfirst = blocks[b].mnemonics.start.index();
            let mlast = blocks[b].mnemonics.end.index();
            let ghost code0 = code.deep_view();
            let ghost ranges0 = ranges@;
            proof {
                assert(code.deep_view() =~= code0 + stmts_upto(ps, mfirst as int, mfirst as int));
            }
            let mut i = mfirst;
            while i < mlast
                invariant
                    mfirst <= i <= mlast,
                    n == ps.len() == mnemonics@.len(),
                    nblocks == blocks@.len(),
                    blocks_shape(blocks@, n as int),
                    mfirst == m0(blocks@, b as int),
                    mlast == m1(blocks@, b as int),
                    0 <= b < nblocks,
                    ranges@.len() == n,
                    code.deep_view().len() >= code0.len(),
                    forall|x: int| 0 <= x < code0.len() ==> #[trigger] code.deep_view()[x] == code0[x],
                    forall|x: int|
                        0 <= x < n && !(mfirst <= x < i) ==> #[trigger] ranges@[x] == ranges0[x],
                    forall|x: int| i <= x < mlast ==> #[trigger] ranges@[x] == (0usize, 0usize),
                    forall|q2: int|
                        0 <= q2 < code.deep_view().len() ==> #[trigger] range_covered_pos(
                            ranges@,
                            q2,
                        ),
                    forall|x: int|
                        mfirst <= x < i ==> (#[trigger] ranges@[x]).0 <= ranges@[x].1
                            <= code.deep_view().len() && code.deep_view().subrange(
                            ranges@[x].0 as int,
                            ranges@[x].1 as int,
                        ) == ps[x].1,
                    forall|x: int|
                        mfirst <= x < i - 1 ==> (#[trigger] ranges@[x]).1 == ranges@[x + 1].0,
                    i > mfirst ==> ranges@[i - 1].1 == code.deep_view().len(),
                    i > mfirst ==> ranges@[mfirst as int].0 == code0.len(),
                    code.deep_view() == code0 + stmts_upto(ps, mfirst as int, i as int),
                decreases mlast - i,
            {
                let start = code.len();
                let ghost codeb = code.deep_view();
                let stmts = &mnemonics[i].1;
                let mut q: usize = 0;
                while q < stmts.len()
                    invariant
                        q <= stmts@.len(),
                        stmts@ == mnemonics@[i as int].1@,
                        0 <= i < n,
                        n == ps.len() == mnemonics@.len(),
                        start == codeb.len(),
                        code.deep_view().len() == codeb.len() + q,
                        forall|x: int|
                            0 <= x < codeb.len() ==> #[trigger] code.deep_view()[x] == codeb[x],
                        forall|x: int|
                            0 <= x < q ==> #[trigger] code.deep_view()[codeb.len() + x] == ps[
                                i as int
                            ].1[x],
                    decreases stmts@.len() - q,
                {
                    let s = stmts[q].clone();
                    proof {
                        assert(s@ == ps[i as int].1[q as int]);
                    }
                    let ghost pre = code.deep_view();
                    code.push(s);
                    proof {
                        assert(code.deep_view().len() == pre.len() + 1);
                        assert forall|x: int| 0 <= x < pre.len() implies #[trigger] code.deep_view()[x]
                            == pre[x] by {
                            assert(code@[x] == code@.subrange(0, pre.len() as int)[x]);
                        }
                        assert(code.deep_view()[pre.len() as int] == s@);
                    }
                    q = q + 1;
                }
                proof {
                    assert(ps[i as int].1.len() == mnemonics@[i as int].1@.len());
                }
                let end = code.len();
                let ghost ranges_pre = ranges@;
                ranges.set(i, (start, end));
                proof {
                    assert forall|q2: int|
                        0 <= q2 < code.deep_view().len() implies #[trigger] range_covered_pos(
                        ranges@,
                        q2,
                    ) by {
                        if q2 >= start {
                            assert(ranges@[i as int].0 <= q2 < ranges@[i as int].1);
                        } else {
                            assert(q2 < codeb.len());
                            assert(range_covered_pos(ranges_pre, q2));
                            let w = choose|w: int|
                                0 <= w < ranges_pre.len() && (#[trigger] ranges_pre[w]).0 <= q2
                                    < ranges_pre[w].1;
                            assert(ranges_pre[i as int] == (0usize, 0usize));
                            assert(w != i as int);
                            assert(ranges@[w].0 <= q2 < ranges@[w].1);
                        }
                    }
                    assert forall|x: int|
                        0 <= x < ps[i as int].1.len() implies code.deep_view().subrange(
                        start as int,
                        end as int,
                    )[x] == ps[i as int].1[x] by {
                        assert(code.deep_view()[codeb.len() + x] == ps[i as int].1[x]);
                    }
                    assert(code.deep_view().subrange(start as int, end as int) =~= ps[i as int].1);
                    assert(code.deep_view() =~= codeb + ps[i as int].1);
                    assert(stmts_upto(ps, mfirst as int, i + 1 as int) == stmts_upto(
                        ps,
                        mfirst as int,
                        i as int,
                    ) + ps[i as int].1);
                    assert(code.deep_view() =~= code0 + stmts_upto(ps, mfirst as int, i + 1 as int));
                    if i == mfirst {
                        assert(ranges@[mfirst as int].0 == codeb.len());
                        assert(codeb.len() == code0.len()) by {
                            assert(codeb =~= code0 + stmts_upto(ps, mfirst as int, mfirst as int));
                        }
                    }
                }
                i = i + 1;
            }
            proof {
                assert(block_laid_out(ranges@, code.deep_view(), ps, blocks@, b as int));
                // earlier blocks' mnemonic indices are untouched
                assert forall|q: int|
                    0 <= q < p + 1 && (#[trigger] order@[q]) < nblocks implies block_laid_out(
                    ranges@,
                    code.deep_view(),
                    ps,
                    blocks@,
                    order@[q] as int,
                ) by {
                    if q < p {
                        let c = order@[q] as int;
                        assert(c != b as int);
                        assert forall|x: int|
                            m0(blocks@, c) <= x < m1(blocks@, c) implies #[trigger] ranges@[x]
                            == ranges0[x] by {
                            if c < b as int {
                                lemma_blocks_ordered(blocks@, c, b as int);
                            } else {
                                lemma_blocks_ordered(blocks@, b as int, c);
                            }
                        }
                        lemma_laid_out_stable(
                            ranges0,
                            ranges@,
                            code0,
                            code.deep_view(),
                            ps,
                            blocks@,
                            c,
                        );
                    } else {
                        assert(order@[q] == b);
                    }
                }
                assert forall|c: int|
                    #![trigger blocks@[c]]
                    0 <= c < nblocks && !order@.take(p + 1 as int).contains(c as usize) implies
                    block_not_laid_out(ranges@, blocks@, c) by {
                    assert(!order@.take(p as int).contains(c as usize)) by {
                        if order@.take(p as int).contains(c as usize) {
                            let q = choose|q: int|
                                0 <= q < p && order@.take(p as int)[q] == c as usize;
                            assert(order@.take(p + 1 as int)[q] == c as usize);
                        }
                    }
                    assert(c != b as int) by {
                        assert(order@.take(p + 1 as int)[p as int] == b);
                    }
                    assert forall|x: int|
                        m0(blocks@, c) <= x < m1(blocks@, c) implies #[trigger] ranges@[x]
                        == ranges0[x] by {
                        if c < b as int {
                            lemma_blocks_ordered(blocks@, c, b as int);
                        } else {
                            lemma_blocks_ordered(blocks@, b as int, c);
                        }
                    }
                }
                // the walk facts extend by this block
                let taken = order@.take(p as int);
                let taken1 = order@.take(p + 1 as int);
                assert(taken1.drop_last() =~= taken);
                assert(taken1.last() == b);
                assert forall|q: int|
                    0 <= q < taken.len() && ((#[trigger] taken[q]) as int) < blocks@.len() implies
                    0 <= m0(blocks@, taken[q] as int) < m1(blocks@, taken[q] as int)
                        <= ranges0.len() && ranges@[m0(blocks@, taken[q] as int)] == ranges0[m0(
                        blocks@,
                        taken[q] as int,
                    )] && ranges@[m1(blocks@, taken[q] as int) - 1] == ranges0[m1(
                        blocks@,
                        taken[q] as int,
                    ) - 1] by {
                    let c = taken[q] as int;
                    assert(taken[q] == order@[q]);
                    assert(order@[q] != order@[p as int]);
                    assert forall|x: int|
                        m0(blocks@, c) <= x < m1(blocks@, c) implies #[trigger] ranges@[x]
                        == ranges0[x] by {
                        if c < b as int {
                            lemma_blocks_ordered(blocks@, c, b as int);
                        } else {
                            lemma_blocks_ordered(blocks@, b as int, c);
                        }
                    }
                }
                lemma_walk_stable(ranges0, ranges@, blocks@, taken, 0);
                assert(walk_end(ranges@, blocks@, taken, 0) == code0.len());
                assert(ranges@[m0(blocks@, b as int)].0 == code0.len());
                assert(walk_ranges_ok(ranges@, blocks@, taken1, 0));
                assert(ranges@[m1(blocks@, b as int) - 1].1 == code.deep_view().len());
                assert(walk_end(ranges@, blocks@, taken1, 0) == code.deep_view().len());
                assert(code.deep_view() =~= walk_stmts(ps, blocks@, taken) + stmts_upto(
                    ps,
                    m0(blocks@, b as int),
                    m1(blocks@, b as int),
                ));
                assert(code.deep_view() == walk_stmts(ps, blocks@, taken1));
            }
        } else {
            proof {
                assert forall|c: int|
                    #![trigger blocks@[c]]
                    0 <= c < nblocks && !order@.take(p + 1 as int).contains(c as usize) implies
                    block_not_laid_out(ranges@, blocks@, c) by {
                    assert(!order@.take(p as int).contains(c as usize)) by {
                        if order@.take(p as int).contains(c as usize) {
                            let q = choose|q: int|
                                0 <= q < p && order@.take(p as int)[q] == c as usize;
                            assert(order@.take(p + 1 as int)[q] == c as usize);
                        }
                    }
                }
                // a non-block entry leaves the walk facts as they are
                let taken = order@.take(p as int);
                let taken1 = order@.take(p + 1 as int);
                assert(taken1.drop_last() =~= taken);
                assert(taken1.last() == node);
                assert(walk_ranges_ok(ranges@, blocks@, taken1, 0));
                assert(walk_end(ranges@, blocks@, taken1, 0) == code.deep_view().len());
                assert(code.deep_view() =~= walk_stmts(ps, blocks@, taken1));
            }
        }
        p = p + 1;
    }
    proof {
        assert(order@.take(order@.len() as int) =~= order@);
    }
    (code, ranges)
}

/// Mnemonic geometry: strictly increasing start addresses and positive
/// widths. Holds of every freshly assembled mnemonic vector; a rewrite
/// that inserts zero-width mnemonics can break it.
pub open spec fn ms_geometry_ok(ms: Seq<MnemonicV>) -> bool {
    &&& forall|i: int, j: int|
        0 <= i < j < ms.len() ==> (#[trigger] ms[i]).start < (#[trigger] ms[j]).start
    &&& forall|i: int| 0 <= i < ms.len() ==> (#[trigger] ms[i]).start < ms[i].end
}

/// Everything of a mnemonic except its statement range.
pub open spec fn mne_same_except_stmts(a: MnemonicV, b: MnemonicV) -> bool {
    &&& a.start == b.start
    &&& a.end == b.end
    &&& a.opcode == b.opcode
    &&& a.operands == b.operands
    &&& a.format_string == b.format_string
}

/// Well-formedness of an assembled function body: at least one block; a
/// valid entry index; blocks partition the mnemonics; block areas are
/// derived from their first and last mnemonic; inside a block mnemonics
/// are address-contiguous and their statement ranges chain; block start
/// addresses strictly increase; statement ranges lie inside the code
/// stream; and the graph's first nodes are the blocks, every edge leaving
/// a block.
pub open spec fn parts_wf(
    ms: Seq<MnemonicV>,
    bs: Seq<BasicBlock>,
    g: ControlFlowGraph,
    code_len: int,
    entry: int,
) -> bool {
    &&& bs.len() > 0
    &&& 0 <= entry < bs.len()
    &&& blocks_shape(bs, ms.len() as int)
    &&& forall|b: int|
        0 <= b < bs.len() ==> (#[trigger] bs[b]).area.start == ms[m0(bs, b)].start && bs[b].area.end
            == ms[m1(bs, b) - 1].end
    &&& forall|b: int, i: int|
        #![trigger m0(bs, b), ms[i]]
        0 <= b < bs.len() && m0(bs, b) <= i < m1(bs, b) - 1 ==> ms[i].end == ms[i + 1].start && ms[
            i
        ].s_end == ms[i + 1].s_start
    &&& forall|b1: int, b2: int|
        0 <= b1 < b2 < bs.len() ==> (#[trigger] bs[b1]).area.start < (#[trigger] bs[b2]).area.start
    &&& forall|i: int| 0 <= i < ms.len() ==> (#[trigger] ms[i]).s_start <= ms[i].s_end <= code_len
    &&& cfg_nodes_ok(g.nodes_v(), bs.len() as int)
    &&& g.edges_closed()
    &&& forall|e: int| 0 <= e < g.edges@.len() ==> (#[trigger] g.edges@[e]).source < bs.len()
    &&& forall|b: int| 0 <= b < bs.len() ==> (#[trigger] bs[b]).node.index == b
}

/// Block `b`'s mnemonics either hold exactly their source statements in
/// the code stream, or — for a block the entry cannot reach — all keep the
/// empty range.
pub open spec fn block_content_or_empty(
    fin_ms: Seq<MnemonicV>,
    code: Seq<StatementV>,
    ps: Seq<(MnemonicV, Seq<StatementV>)>,
    bs: Seq<BasicBlock>,
    b: int,
) -> bool {
    ||| block_content(fin_ms, code, ps, bs, b)
    ||| forall|i: int|
        m0(bs, b) <= i < m1(bs, b) ==> (#[trigger] fin_ms[i]).s_start == 0 && fin_ms[i].s_end == 0
}

/// All of block `b`'s mnemonics keep the empty statement range.
pub open spec fn block_empty_ranges(fin_ms: Seq<MnemonicV>, bs: Seq<BasicBlock>, b: int) -> bool {
    forall|i: int|
        m0(bs, b) <= i < m1(bs, b) ==> (#[trigger] fin_ms[i]).s_start == 0 && fin_ms[i].s_end == 0
}

/// Block `b`'s mnemonics hold exactly their source statements.
pub open spec fn block_content(
    fin_ms: Seq<MnemonicV>,
    code: Seq<StatementV>,
    ps: Seq<(MnemonicV, Seq<StatementV>)>,
    bs: Seq<BasicBlock>,
    b: int,
) -> bool {
    forall|i: int|
        m0(bs, b) <= i < m1(bs, b) ==> code.subrange(
            (#[trigger] fin_ms[i]).s_start as int,
            fin_ms[i].s_end as int,
        ) == ps[i].1
}

/// The product of assembly, swapped into the function on success.
pub struct Assembled {
    pub mnemonics: Vec<Mnemonic>,
    pub basic_blocks: Vec<BasicBlock>,
    pub cflow_graph: ControlFlowGraph,
    pub code: Vec<Statement>,
    pub entry_point: usize,
}

/// Assembles the decoded material into blocks, graph and IL stream.
///
/// Succeeds exactly when some mnemonic starts at the entry address; the
/// boundary oracle guarantees that mnemonic heads a block, which becomes
/// the entry block. On success the statement stream is rebuilt in
/// depth-first post-order from the entry block, and every mnemonic's
/// statement range is rewritten accordingly; mnemonics of unreachable
/// blocks keep an empty range.
#[verifier::spinoff_prover]
#[verifier::rlimit(100)]
pub fn assemble(entry: u64, mnemonics: Vec<(Mnemonic, Vec<Statement>)>, jumps: Vec<Jump>) -> (r:
    Result<Assembled, Error>)
    requires
        pairs_sorted(mnemonics.deep_view()),
    ensures
        (r is Ok) <==> exists|i: int|
            0 <= i < mnemonics.deep_view().len() && (#[trigger] pair_mnes(mnemonics.deep_view())[i]).start
                == entry,
        r is Err ==> r == Err::<Assembled, Error>(Error::NoEntryBlock),
        r matches Ok(a) ==> assemble_post(a, entry, mnemonics.deep_view(), jumps.deep_view()),
{
    let ghost ps = mnemonics.deep_view();
    let ghost ms = pair_mnes(ps);
    let ghost js = jumps.deep_view();
    proof {
        assert forall|x: int| 0 <= x < ms.len() implies ms[x] == mnemonics.deep_view()[x].0 by {}
    }
    let mut blocks = partition_blocks(&mnemonics, entry, &jumps);
    let ghost blocks0 = blocks@;
    let cfg = build_cfg(&mut blocks, &mnemonics, &jumps);
    proof {
        lemma_partition_transfer(blocks0, blocks@, ms, entry, js);
    }
    let entry_idx = match find_block_by_start(&blocks, entry) {
        Some(e) => e,
        None => {
            proof {
                assert forall|i: int| 0 <= i < ms.len() implies (#[trigger] ms[i]).start != entry
                    by {
                    lemma_entry_heads_block(blocks@, ms, entry, js, i);
                }
            }
            return Err(Error::NoEntryBlock);
        },
    };
    proof {
        assert(blocks@[entry_idx as int].node.index == entry_idx);
        assert(exists|i: int| 0 <= i < ms.len() && (#[trigger] ms[i]).start == entry) by {
            assert(0 <= m0(blocks@, entry_idx as int) < ms.len());
            assert(ms[m0(blocks@, entry_idx as int)].start == entry);
        }
    }
    let order = cfg.post_order(blocks[entry_idx].node);
    let (code, ranges) = layout_statements(&order, &blocks, &mnemonics);
    let n = mnemonics.len();
    let mut fin: Vec<Mnemonic> = Vec::new();
    let mut i: usize = 0;
    while i < n
        invariant
            i <= n,
            n == ps.len() == mnemonics@.len() == ms.len(),
            ranges@.len() == n,
            fin.deep_view().len() == i,
            forall|x: int|
                0 <= x < i ==> mne_same_except_stmts(#[trigger] fin.deep_view()[x], ms[x])
                    && fin.deep_view()[x].s_start == ranges@[x].0 && fin.deep_view()[x].s_end
                    == ranges@[x].1,
        decreases n - i,
    {
        let mut m = mnemonics[i].0.clone();
        m.statements = ranges[i].0..ranges[i].1;
        proof {
            assert(m@.s_start == ranges@[i as int].0 && m@.s_end == ranges@[i as int].1);
            assert(mne_same_except_stmts(m@, ms[i as int]));
        }
        let ghost pre = fin.deep_view();
        fin.push(m);
        proof {
            assert(fin.deep_view().len() == pre.len() + 1);
            assert forall|x: int| 0 <= x < pre.len() implies #[trigger] fin.deep_view()[x]
                == pre[x] by {
                assert(fin@[x] == fin@.subrange(0, pre.len() as int)[x]);
            }
            assert(fin.deep_view()[pre.len() as int] == m@);
        }
        i = i + 1;
    }
    let ghost fin_ms = fin.deep_view();
    let nb = blocks.len();
    proof {
        assert(nb == blocks@.len());
        assert(order@.contains(entry_idx)) by {
            assert(blocks@[entry_idx as int].node.index == entry_idx);
        }
        lemma_finish_assembly(
            fin_ms,
            blocks@,
            cfg,
            code.deep_view(),
            ps,
            ms,
            js,
            entry,
            entry_idx as int,
            order@,
            ranges@,
        );
    }
    let a = Assembled {
        mnemonics: fin,
        basic_blocks: blocks,
        cflow_graph: cfg,
        code,
        entry_point: entry_idx,
    };
    proof {
        assert(sranges(a.mnemonics.deep_view()) =~= ranges@) by {
            assert forall|x: int|
                0 <= x < n implies sranges(fin_ms)[x] == ranges@[x] by {
                assert(ranges@[x] == (ranges@[x].0, ranges@[x].1));
            }
        }
        assert(emission_order_ok(a, ps, order@));
    }
    Ok(a)
}

/// An emission order certifying the cross-block layout of `a`: the node
/// sequence of the depth-first walk. It lists exactly the nodes reachable
/// from the entry, without repetition, and walking it left to right each
/// visited block's statement range starts where the cursor stood — the
/// first at 0 — while the code stream is exactly what the walk emits,
/// ending at the stream's length.
pub open spec fn emission_order_ok(
    a: Assembled,
    ps: Seq<(MnemonicV, Seq<StatementV>)>,
    order: Seq<usize>,
) -> bool {
    &&& order.no_duplicates()
    &&& forall|p: int| 0 <= p < order.len() ==> (#[trigger] order[p]) < a.cflow_graph.nodes@.len()
    &&& forall|t: usize|
        t < a.cflow_graph.nodes@.len() ==> ((#[trigger] order.contains(t)) <==> crate::cfg::reachable(
            a.cflow_graph.edges@,
            a.entry_point,
            t,
        ))
    &&& walk_ranges_ok(sranges(a.mnemonics.deep_view()), a.basic_blocks@, order, 0)
    &&& walk_end(sranges(a.mnemonics.deep_view()), a.basic_blocks@, order, 0) == a.code@.len()
    &&& a.code.deep_view() == walk_stmts(ps, a.basic_blocks@, order)
}

/// What `assemble` guarantees of its product.
pub open spec fn assemble_post(
    a: Assembled,
    entry: u64,
    ps: Seq<(MnemonicV, Seq<StatementV>)>,
    js: Seq<JumpV>,
) -> bool {
    let ms = pair_mnes(ps);
    let fin_ms = a.mnemonics.deep_view();
    let bs = a.basic_blocks@;
    &&& parts_wf(fin_ms, bs, a.cflow_graph, a.code@.len() as int, a.entry_point as int)
    &&& ms_geometry_ok(fin_ms)
    &&& fin_ms.len() == ms.len()
    &&& forall|i: int| 0 <= i < ms.len() ==> mne_same_except_stmts(#[trigger] fin_ms[i], ms[i])
    &&& partition_ok(bs, ms, entry, js)
    &&& cfg_ok(a.cflow_graph, bs, ms, js)
    &&& bs[a.entry_point as int].area.start == entry
    &&& forall|b: int|
        0 <= b < bs.len() ==> block_content_or_empty(
            fin_ms,
            a.code.deep_view(),
            ps,
            bs,
            (#[trigger] bs[b]).node.index as int,
        )
    &&& forall|b: usize|
        b < bs.len() && #[trigger] crate::cfg::reachable(a.cflow_graph.edges@, a.entry_point, b)
            ==> block_content(fin_ms, a.code.deep_view(), ps, bs, b as int)
    &&& forall|b: usize|
        b < bs.len() && !(#[trigger] crate::cfg::reachable(a.cflow_graph.edges@, a.entry_point, b))
            ==> block_empty_ranges(fin_ms, bs, b as int)
    &&& code_covered(fin_ms, a.code@.len() as int)
    &&& block_content(fin_ms, a.code.deep_view(), ps, bs, a.entry_point as int)
    &&& exists|order: Seq<usize>| #[trigger] emission_order_ok(a, ps, order)
}

/// Inside one block, statement range starts never decrease: position `j`'s
/// start is at least the block head's start.
proof fn lemma_block_srange_span(ms: Seq<MnemonicV>, bs: Seq<BasicBlock>, b: int, j: int)
    requires
        forall|c: int, i: int|
            #![trigger m0(bs, c), ms[i]]
            0 <= c < bs.len() && m0(bs, c) <= i < m1(bs, c) - 1 ==> ms[i].end == ms[i + 1].start
                && ms[i].s_end == ms[i + 1].s_start,
        forall|i: int| 0 <= i < ms.len() ==> (#[trigger] ms[i]).s_start <= ms[i].s_end,
        0 <= b < bs.len(),
        0 <= m0(bs, b),
        m1(bs, b) <= ms.len(),
        m0(bs, b) <= j < m1(bs, b),
    ensures
        ms[m0(bs, b)].s_start <= ms[j].s_start,
    decreases j - m0(bs, b),
{
    if j > m0(bs, b) {
        lemma_block_srange_span(ms, bs, b, j - 1);
        assert(ms[j - 1].s_end == ms[j].s_start);
    }
}

/// Two blocks an order visits have disjoint statement ranges, given sound
/// per-block chaining and walk-shaped range starts.
#[verifier::spinoff_prover]
#[verifier::rlimit(100)]
proof fn lemma_order_disjoint_core(
    fin_ms: Seq<MnemonicV>,
    bs: Seq<BasicBlock>,
    order: Seq<usize>,
    b1: usize,
    b2: usize,
)
    requires
        blocks_shape(bs, fin_ms.len() as int),
        forall|b: int, i: int|
            #![trigger m0(bs, b), fin_ms[i]]
            0 <= b < bs.len() && m0(bs, b) <= i < m1(bs, b) - 1 ==> fin_ms[i].end == fin_ms[i
                + 1].start && fin_ms[i].s_end == fin_ms[i + 1].s_start,
        forall|i: int| 0 <= i < fin_ms.len() ==> (#[trigger] fin_ms[i]).s_start <= fin_ms[i].s_end,
        walk_ranges_ok(sranges(fin_ms), bs, order, 0),
        order.contains(b1),
        order.contains(b2),
        (b1 as int) < bs.len(),
        (b2 as int) < bs.len(),
        b1 != b2,
    ensures
        fin_ms[m1(bs, b1 as int) - 1].s_end <= fin_ms[m0(bs, b2 as int)].s_start || fin_ms[m1(
            bs,
            b2 as int,
        ) - 1].s_end <= fin_ms[m0(bs, b1 as int)].s_start,
{
    let rs = sranges(fin_ms);
    let p = choose|p: int| 0 <= p < order.len() && order[p] == b1;
    let q = choose|q: int| 0 <= q < order.len() && order[q] == b2;
    assert forall|x: int|
        0 <= x < order.len() && ((#[trigger] order[x]) as int) < bs.len() implies 0 <= m0(
        bs,
        order[x] as int,
    ) < m1(bs, order[x] as int) <= rs.len() && rs[m0(bs, order[x] as int)].0 <= rs[m1(
        bs,
        order[x] as int,
    ) - 1].1 by {
        let c = order[x] as int;
        lemma_block_srange_span(fin_ms, bs, c, m1(bs, c) - 1);
        assert(fin_ms[m1(bs, c) - 1].s_start <= fin_ms[m1(bs, c) - 1].s_end);
    }
    lemma_walk_ordered(rs, bs, order, 0);
    if p < q {
        assert(rs[m1(bs, b1 as int) - 1].1 <= rs[m0(bs, b2 as int)].0);
    } else {
        assert(rs[m1(bs, b2 as int) - 1].1 <= rs[m0(bs, b1 as int)].0);
    }
}

/// Two distinct blocks that the entry reaches occupy disjoint parts of
/// the statement stream: the emission walk lays them out one after the
/// other.
#[verifier::spinoff_prover]
#[verifier::rlimit(100)]
pub proof fn lemma_reachable_ranges_disjoint(
    a: Assembled,
    entry: u64,
    ps: Seq<(MnemonicV, Seq<StatementV>)>,
    js: Seq<JumpV>,
    b1: usize,
    b2: usize,
)
    requires
        assemble_post(a, entry, ps, js),
        b1 < a.basic_blocks@.len(),
        b2 < a.basic_blocks@.len(),
        b1 != b2,
        crate::cfg::reachable(a.cflow_graph.edges@, a.entry_point, b1),
        crate::cfg::reachable(a.cflow_graph.edges@, a.entry_point, b2),
    ensures
        a.mnemonics.deep_view()[m1(a.basic_blocks@, b1 as int) - 1].s_end
            <= a.mnemonics.deep_view()[m0(a.basic_blocks@, b2 as int)].s_start
        || a.mnemonics.deep_view()[m1(a.basic_blocks@, b2 as int) - 1].s_end
            <= a.mnemonics.deep_view()[m0(a.basic_blocks@, b1 as int)].s_start,
{
    let fin_ms = a.mnemonics.deep_view();
    let bs = a.basic_blocks@;
    let order = choose|order: Seq<usize>| #[trigger] emission_order_ok(a, ps, order);
    assert(bs.len() <= a.cflow_graph.nodes@.len());
    assert(order.contains(b1));
    assert(order.contains(b2));
    lemma_order_disjoint_core(fin_ms, bs, order, b1, b2);
}

/// The partition facts survive filling in the blocks' graph nodes.
proof fn lemma_partition_transfer(
    bs0: Seq<BasicBlock>,
    bs1: Seq<BasicBlock>,
    ms: Seq<MnemonicV>,
    entry: u64,
    js: Seq<JumpV>,
)
    requires
        partition_ok(bs0, ms, entry, js),
        bs1.len() == bs0.len(),
        forall|b: int| 0 <= b < bs0.len() ==> block_same_except_node(#[trigger] bs1[b], bs0[b]),
    ensures
        partition_ok(bs1, ms, entry, js),
{
    assert forall|b: int|
        0 <= b < bs1.len() implies m0(bs1, b) == m0(bs0, b) && #[trigger] m1(bs1, b) == m1(bs0, b)
        && bs1[b].area.start == bs0[b].area.start && bs1[b].area.end == bs0[b].area.end by {}
    assert forall|b: int, i: int|
        #![trigger m0(bs1, b), ms[i]]
        0 <= b < bs1.len() && m0(bs1, b) <= i < m1(bs1, b) - 1 implies !is_boundary(
        ms[i],
        ms[i + 1],
        entry,
        js,
    ) by {
        assert(m0(bs0, b) <= i < m1(bs0, b) - 1);
    }
}

/// If no block starts at the entry address, no mnemonic does either: the
/// boundary oracle would have cut a block there.
#[verifier::spinoff_prover]
#[verifier::rlimit(100)]
proof fn lemma_entry_heads_block(
    bs: Seq<BasicBlock>,
    ms: Seq<MnemonicV>,
    entry: u64,
    js: Seq<JumpV>,
    i: int,
)
    requires
        partition_ok(bs, ms, entry, js),
        0 <= i < ms.len(),
        forall|b: int| 0 <= b < bs.len() ==> (#[trigger] bs[b]).area.start != entry,
    ensures
        ms[i].start != entry,
{
    if ms[i].start == entry {
        lemma_block_of(bs, ms, entry, js, i);
        let c = choose|c: int| 0 <= c < bs.len() && m0(bs, c) <= i < #[trigger] m1(bs, c);
        if i == m0(bs, c) {
            assert(bs[c].area.start == ms[i].start);
        } else {
            assert(m0(bs, c) <= i - 1 < m1(bs, c) - 1);
            assert(!is_boundary(ms[i - 1], ms[i], entry, js));
            assert(is_boundary(ms[i - 1], ms[i], entry, js));
        }
    }
}

/// Each block was either laid out by the walk or left untouched.
pub proof fn lemma_block_layout_cases(
    ranges: Seq<(usize, usize)>,
    code: Seq<StatementV>,
    ps: Seq<(MnemonicV, Seq<StatementV>)>,
    bs: Seq<BasicBlock>,
    order: Seq<usize>,
    b: int,
)
    requires
        forall|p: int|
            0 <= p < order.len() && (#[trigger] order[p]) < bs.len() ==> block_laid_out(
                ranges,
                code,
                ps,
                bs,
                order[p] as int,
            ),
        forall|c: int|
            #![trigger bs[c]]
            0 <= c < bs.len() && !order.contains(c as usize) ==> block_not_laid_out(ranges, bs, c),
        0 <= b < bs.len(),
        bs.len() <= usize::MAX,
    ensures
        order.contains(b as usize) ==> block_laid_out(ranges, code, ps, bs, b),
        !order.contains(b as usize) ==> block_not_laid_out(ranges, bs, b),
{
    if order.contains(b as usize) {
        let p = choose|p: int| 0 <= p < order.len() && order[p] == b as usize;
        assert(order[p] as int == b);
        assert(order[p] < bs.len());
        assert(block_laid_out(ranges, code, ps, bs, order[p] as int));
    }
}

/// Inside one block, consecutive statement ranges chain.
proof fn lemma_block_ranges_chain(
    ranges: Seq<(usize, usize)>,
    code: Seq<StatementV>,
    ps: Seq<(MnemonicV, Seq<StatementV>)>,
    bs: Seq<BasicBlock>,
    order: Seq<usize>,
    b: int,
    i: int,
)
    requires
        forall|p: int|
            0 <= p < order.len() && (#[trigger] order[p]) < bs.len() ==> block_laid_out(
                ranges,
                code,
                ps,
                bs,
                order[p] as int,
            ),
        forall|c: int|
            #![trigger bs[c]]
            0 <= c < bs.len() && !order.contains(c as usize) ==> block_not_laid_out(ranges, bs, c),
        0 <= b < bs.len(),
        bs.len() <= usize::MAX,
        m0(bs, b) <= i < m1(bs, b) - 1,
        0 <= m0(bs, b) && m1(bs, b) <= ranges.len(),
    ensures
        ranges[i].1 == ranges[i + 1].0,
{
    lemma_block_layout_cases(ranges, code, ps, bs, order, b);
}

/// Every mnemonic's statement range lies inside the code stream.
pub proof fn lemma_block_range_bounds(
    ranges: Seq<(usize, usize)>,
    code: Seq<StatementV>,
    ps: Seq<(MnemonicV, Seq<StatementV>)>,
    bs: Seq<BasicBlock>,
    order: Seq<usize>,
    i: int,
)
    requires
        forall|p: int|
            0 <= p < order.len() && (#[trigger] order[p]) < bs.len() ==> block_laid_out(
                ranges,
                code,
                ps,
                bs,
                order[p] as int,
            ),
        forall|c: int|
            #![trigger bs[c]]
            0 <= c < bs.len() && !order.contains(c as usize) ==> block_not_laid_out(ranges, bs, c),
        bs.len() > 0,
        forall|c: int| 0 <= c < bs.len() ==> m0(bs, c) < #[trigger] m1(bs, c),
        forall|c: int| 0 <= c < bs.len() - 1 ==> #[trigger] m1(bs, c) == m0(bs, c + 1),
        m0(bs, 0) == 0,
        m1(bs, bs.len() - 1) == ranges.len(),
        bs.len() <= usize::MAX,
        0 <= i < ranges.len(),
    ensures
        ranges[i].0 <= ranges[i].1 <= code.len(),
{
    lemma_block_of_from(bs, ranges.len() as int, i, 0);
    let c = choose|c: int| 0 <= c < bs.len() && m0(bs, c) <= i < #[trigger] m1(bs, c);
    lemma_block_layout_cases(ranges, code, ps, bs, order, c);
}

/// Turns the walk's per-range facts into per-mnemonic content facts.
proof fn lemma_block_content(
    ranges: Seq<(usize, usize)>,
    fin_ms: Seq<MnemonicV>,
    code: Seq<StatementV>,
    ps: Seq<(MnemonicV, Seq<StatementV>)>,
    bs: Seq<BasicBlock>,
    order: Seq<usize>,
    b: int,
)
    requires
        forall|p: int|
            0 <= p < order.len() && (#[trigger] order[p]) < bs.len() ==> block_laid_out(
                ranges,
                code,
                ps,
                bs,
                order[p] as int,
            ),
        forall|c: int|
            #![trigger bs[c]]
            0 <= c < bs.len() && !order.contains(c as usize) ==> block_not_laid_out(ranges, bs, c),
        0 <= b < bs.len(),
        bs.len() <= usize::MAX,
        0 <= m0(bs, b) && m1(bs, b) <= ranges.len(),
        fin_ms.len() == ranges.len(),
        forall|x: int|
            0 <= x < fin_ms.len() ==> (#[trigger] fin_ms[x]).s_start == ranges[x].0 && fin_ms[x].s_end
                == ranges[x].1,
    ensures
        block_content_or_empty(fin_ms, code, ps, bs, b),
        order.contains(b as usize) ==> block_content(fin_ms, code, ps, bs, b),
{
    lemma_block_layout_cases(ranges, code, ps, bs, order, b);
    if order.contains(b as usize) {
        assert forall|i: int|
            m0(bs, b) <= i < m1(bs, b) implies code.subrange(
            (#[trigger] fin_ms[i]).s_start as int,
            fin_ms[i].s_end as int,
        ) == ps[i].1 by {
            assert(code.subrange(ranges[i].0 as int, ranges[i].1 as int) == ps[i].1);
        }
    } else {
        assert forall|i: int|
            m0(bs, b) <= i < m1(bs, b) implies (#[trigger] fin_ms[i]).s_start == 0 && fin_ms[i].s_end
            == 0 by {
            assert(ranges[i] == (0usize, 0usize));
        }
    }
}

/// Collects the assembled parts' well-formedness and content facts.
#[verifier::spinoff_prover]
#[verifier::rlimit(100)]
proof fn lemma_finish_assembly(
    fin_ms: Seq<MnemonicV>,
    bs: Seq<BasicBlock>,
    g: ControlFlowGraph,
    code_d: Seq<StatementV>,
    ps: Seq<(MnemonicV, Seq<StatementV>)>,
    ms: Seq<MnemonicV>,
    js: Seq<JumpV>,
    entry: u64,
    entry_idx: int,
    order: Seq<usize>,
    ranges: Seq<(usize, usize)>,
)
    requires
        ms == pair_mnes(ps),
        pairs_sorted(ps),
        partition_ok(bs, ms, entry, js),
        cfg_ok(g, bs, ms, js),
        forall|b: int| 0 <= b < bs.len() ==> (#[trigger] bs[b]).node.index == b,
        0 <= entry_idx < bs.len(),
        bs[entry_idx].area.start == entry,
        bs.len() <= usize::MAX,
        ranges.len() == ms.len(),
        fin_ms.len() == ms.len(),
        forall|x: int|
            0 <= x < fin_ms.len() ==> mne_same_except_stmts(#[trigger] fin_ms[x], ms[x])
                && fin_ms[x].s_start == ranges[x].0 && fin_ms[x].s_end == ranges[x].1,
        forall|p: int|
            0 <= p < order.len() && (#[trigger] order[p]) < bs.len() ==> block_laid_out(
                ranges,
                code_d,
                ps,
                bs,
                order[p] as int,
            ),
        forall|c: int|
            #![trigger bs[c]]
            0 <= c < bs.len() && !order.contains(c as usize) ==> block_not_laid_out(ranges, bs, c),
        order.contains(entry_idx as usize),
        forall|t: usize|
            t < g.nodes_v().len() ==> (#[trigger] order.contains(t) <==> crate::cfg::reachable(
                g.edges@,
                entry_idx as usize,
                t,
            )),
        forall|p: int| 0 <= p < code_d.len() ==> #[trigger] range_covered_pos(ranges, p),
    ensures
        parts_wf(fin_ms, bs, g, code_d.len() as int, entry_idx),
        ms_geometry_ok(fin_ms),
        forall|b: int|
            0 <= b < bs.len() ==> block_content_or_empty(
                fin_ms,
                code_d,
                ps,
                bs,
                (#[trigger] bs[b]).node.index as int,
            ),
        forall|b: usize|
            b < bs.len() && #[trigger] crate::cfg::reachable(g.edges@, entry_idx as usize, b)
                ==> block_content(fin_ms, code_d, ps, bs, b as int),
        forall|b: usize|
            b < bs.len() && !(#[trigger] crate::cfg::reachable(g.edges@, entry_idx as usize, b))
                ==> block_empty_ranges(fin_ms, bs, b as int),
        code_covered(fin_ms, code_d.len() as int),
        block_content(fin_ms, code_d, ps, bs, entry_idx),
{
    assert forall|x: int| 0 <= x < ms.len() implies ms[x] == ps[x].0 by {}
    assert forall|i2: int, j2: int|
        0 <= i2 < j2 < fin_ms.len() implies (#[trigger] fin_ms[i2]).start < (
    #[trigger] fin_ms[j2]).start by {
        assert(ps[i2].0.start < ps[j2].0.start);
    }
    assert forall|i2: int|
        0 <= i2 < fin_ms.len() implies (#[trigger] fin_ms[i2]).start < fin_ms[i2].end by {
        assert(ps[i2].0.start < ps[i2].0.end);
    }
    // block areas, restated over the final mnemonics
    assert forall|b: int|
        0 <= b < bs.len() implies (#[trigger] bs[b]).area.start == fin_ms[m0(bs, b)].start
        && bs[b].area.end == fin_ms[m1(bs, b) - 1].end by {
        assert(0 <= m0(bs, b) < m1(bs, b) <= ms.len());
    }
    // address and statement chains inside each block
    assert forall|b: int, i2: int|
        #![trigger m0(bs, b), fin_ms[i2]]
        0 <= b < bs.len() && m0(bs, b) <= i2 < m1(bs, b) - 1 implies fin_ms[i2].end == fin_ms[i2
        + 1].start && fin_ms[i2].s_end == fin_ms[i2 + 1].s_start by {
        assert(!is_boundary(ms[i2], ms[i2 + 1], entry, js));
        assert(ms[i2].end == ms[i2 + 1].start);
        lemma_block_ranges_chain(ranges, code_d, ps, bs, order, b, i2);
        assert(fin_ms[i2].s_end == ranges[i2].1 && fin_ms[i2 + 1].s_start == ranges[i2 + 1].0);
    }
    // block start addresses strictly increase
    assert forall|b1: int, b2: int|
        0 <= b1 < b2 < bs.len() implies (#[trigger] bs[b1]).area.start < (
    #[trigger] bs[b2]).area.start by {
        lemma_blocks_ordered(bs, b1, b2);
        assert(bs[b1].area.start == ms[m0(bs, b1)].start);
        assert(bs[b2].area.start == ms[m0(bs, b2)].start);
    }
    // statement ranges lie inside the code stream
    assert forall|i2: int|
        0 <= i2 < fin_ms.len() implies (#[trigger] fin_ms[i2]).s_start <= fin_ms[i2].s_end
        <= code_d.len() by {
        lemma_block_range_bounds(ranges, code_d, ps, bs, order, i2);
    }
    // every block holds its content or is empty; the entry block holds it
    assert forall|b: int|
        0 <= b < bs.len() implies block_content_or_empty(
        fin_ms,
        code_d,
        ps,
        bs,
        #[trigger] bs[b].node.index as int,
    ) by {
        lemma_block_content(ranges, fin_ms, code_d, ps, bs, order, b);
    }
    lemma_block_content(ranges, fin_ms, code_d, ps, bs, order, entry_idx);
    assert(block_content(fin_ms, code_d, ps, bs, entry_idx));
    // blocks reachable from the entry hold their statements; others none
    assert forall|b: usize|
        b < bs.len() && #[trigger] crate::cfg::reachable(g.edges@, entry_idx as usize, b) implies
        block_content(fin_ms, code_d, ps, bs, b as int) by {
        assert(order.contains(b));
        lemma_block_content(ranges, fin_ms, code_d, ps, bs, order, b as int);
    }
    assert forall|b: usize|
        b < bs.len() && !(#[trigger] crate::cfg::reachable(g.edges@, entry_idx as usize, b))
        implies block_empty_ranges(fin_ms, bs, b as int) by {
        assert(!order.contains(b));
        assert(block_not_laid_out(ranges, bs, b as int));
        assert forall|i: int|
            m0(bs, b as int) <= i < m1(bs, b as int) implies (#[trigger] fin_ms[i]).s_start == 0
            && fin_ms[i].s_end == 0 by {
            assert(ranges[i] == (0usize, 0usize));
        }
    }
    // the code stream is exactly covered by the statement ranges
    assert forall|p: int| 0 <= p < code_d.len() implies #[trigger] covered_pos(fin_ms, p) by {
        assert(range_covered_pos(ranges, p));
        let w = choose|w: int|
            0 <= w < ranges.len() && (#[trigger] ranges[w]).0 <= p < ranges[w].1;
        assert(fin_ms[w].s_start <= p < fin_ms[w].s_end);
    }
}

proof fn lemma_blu_same_starts(
    bs: Seq<BasicBlock>,
    ms1: Seq<MnemonicV>,
    ms2: Seq<MnemonicV>,
    js: Seq<JumpV>,
    b: int,
    k: int,
)
    requires
        ms2.len() == ms1.len(),
        forall|i: int| 0 <= i < ms1.len() ==> (#[trigger] ms2[i]).start == ms1[i].start,
        0 <= b < bs.len(),
        0 < m1(bs, b) <= ms1.len(),
        0 <= k <= js.len(),
    ensures
        block_missed_upto(bs, ms2, js, b, k) == block_missed_upto(bs, ms1, js, b, k),
    decreases k,
{
    if k > 0 {
        lemma_blu_same_starts(bs, ms1, ms2, js, b, k - 1);
        assert(block_last_start(bs, ms2, b) == block_last_start(bs, ms1, b));
    }
}

proof fn lemma_mu_same_starts(
    bs: Seq<BasicBlock>,
    ms1: Seq<MnemonicV>,
    ms2: Seq<MnemonicV>,
    js: Seq<JumpV>,
    b: int,
)
    requires
        ms2.len() == ms1.len(),
        forall|i: int| 0 <= i < ms1.len() ==> (#[trigger] ms2[i]).start == ms1[i].start,
        blocks_shape(bs, ms1.len() as int),
        0 <= b <= bs.len(),
    ensures
        missed_upto(bs, ms2, js, b) == missed_upto(bs, ms1, js, b),
    decreases b,
{
    if b > 0 {
        lemma_mu_same_starts(bs, ms1, ms2, js, b - 1);
        assert(0 < m1(bs, b - 1) <= ms1.len());
        lemma_blu_same_starts(bs, ms1, ms2, js, b - 1, js.len() as int);
    }
}

/// A correct control-flow graph stays correct when the mnemonics' start
/// addresses are unchanged — only the statement ranges differ.
#[verifier::spinoff_prover]
#[verifier::rlimit(100)]
pub proof fn lemma_cfg_ok_same_starts(
    g: ControlFlowGraph,
    bs: Seq<BasicBlock>,
    ms1: Seq<MnemonicV>,
    ms2: Seq<MnemonicV>,
    js: Seq<JumpV>,
)
    requires
        cfg_ok(g, bs, ms1, js),
        blocks_shape(bs, ms1.len() as int),
        ms2.len() == ms1.len(),
        forall|i: int| 0 <= i < ms1.len() ==> (#[trigger] ms2[i]).start == ms1[i].start,
    ensures
        cfg_ok(g, bs, ms2, js),
{
    assert forall|b: int|
        0 <= b < bs.len() implies #[trigger] block_last_start(bs, ms2, b) == block_last_start(
        bs,
        ms1,
        b,
    ) by {
        assert(0 < m1(bs, b) <= ms1.len());
    }
    assert forall|e: int|
        0 <= e < g.edges@.len() implies edge_sound(g.nodes_v(), g.edges@, bs, ms2, js, e) by {
        assert(edge_sound(g.nodes_v(), g.edges@, bs, ms1, js, e));
        let k = choose|k: int|
            0 <= k < js.len() && (#[trigger] js[k]).origin == block_last_start(
                bs,
                ms1,
                g.edges@[e].source as int,
            ) && jump_target_matches(g.nodes_v(), bs, js[k], g.edges@[e].target as int) && js[
                k
            ].guard == g.edges@[e].guard;
        assert(js[k].origin == block_last_start(bs, ms2, g.edges@[e].source as int));
    }
    assert forall|b: int, k: int|
        #![trigger bs[b], js[k]]
        0 <= b < bs.len() && 0 <= k < js.len() && js[k].origin == block_last_start(bs, ms2, b)
        implies covered(g, bs, js, b, k) by {
        assert(js[k].origin == block_last_start(bs, ms1, b));
    }
    lemma_mu_same_starts(bs, ms1, ms2, js, bs.len() as int);
    assert forall|e: int|
        0 <= e < g.edges@.len() && (#[trigger] g.edges@[e]).target < bs.len() implies
        guard_is_last(g.edges@[e], bs, ms2, js, js.len() as int) by {
        assert(guard_is_last(g.edges@[e], bs, ms1, js, js.len() as int));
        let edge = g.edges@[e];
        let kp = choose|kp: int|
            #![trigger js[kp]]
            {
                &&& 0 <= kp < js.len()
                &&& induces_block_edge(bs, ms1, js, kp, edge.source as int, edge.target as int)
                &&& js[kp].guard == edge.guard
                &&& forall|k2: int|
                    kp < k2 < js.len() ==> !induces_block_edge(
                        bs,
                        ms1,
                        js,
                        k2,
                        edge.source as int,
                        edge.target as int,
                    )
            };
        assert(0 <= edge.source < bs.len());
        assert(induces_block_edge(bs, ms2, js, kp, edge.source as int, edge.target as int));
        assert forall|k2: int|
            kp < k2 < js.len() implies !induces_block_edge(
            bs,
            ms2,
            js,
            k2,
            edge.source as int,
            edge.target as int,
        ) by {
            if induces_block_edge(bs, ms2, js, k2, edge.source as int, edge.target as int) {
                assert(induces_block_edge(bs, ms1, js, k2, edge.source as int, edge.target as int));
            }
        }
    }
}

/// In a correct control-flow graph, every unresolved variable occurs as
/// the target of some jump in its jump list: the graph invents no
/// variables of its own.
pub proof fn lemma_unresolved_vars_from_jumps(
    g: ControlFlowGraph,
    bs: Seq<BasicBlock>,
    ms: Seq<MnemonicV>,
    js: Seq<JumpV>,
    v: crate::value::VariableV,
)
    requires
        cfg_ok(g, bs, ms, js),
        crate::cfg::unresolved_vars(g.nodes_v()).contains(v),
    ensures
        exists|k: int|
            0 <= k < js.len() && (#[trigger] js[k]).target == ValueV::Variable(v),
{
    crate::cfg::lemma_unresolved_has_node(g.nodes_v(), v);
    let i = choose|i: int|
        0 <= i < g.nodes_v().len() && #[trigger] g.nodes_v()[i] == CfgNodeV::Value(
            ValueV::Variable(v),
        );
    assert(i >= bs.len()) by {
        if i < bs.len() {
            assert(g.nodes_v()[i] == CfgNodeV::BasicBlock(i as usize));
        }
    }
    assert(g.nodes_v()[i] is Value);
    let e = choose|e: int| 0 <= e < g.edges@.len() && (#[trigger] g.edges@[e]).target == i;
    assert(edge_sound(g.nodes_v(), g.edges@, bs, ms, js, e));
    let k = choose|k: int|
        0 <= k < js.len() && (#[trigger] js[k]).origin == block_last_start(
            bs,
            ms,
            g.edges@[e].source as int,
        ) && jump_target_matches(g.nodes_v(), bs, js[k], g.edges@[e].target as int) && js[k].guard
            == g.edges@[e].guard;
    match js[k].target {
        ValueV::Constant(c) => {
            if exists|p: int| 0 <= p < bs.len() && (#[trigger] bs[p]).area.start == c.value {
                assert(false);
            } else {
                assert(g.nodes_v()[i] == CfgNodeV::Value(js[k].target));
            }
        },
        _ => {
            assert(g.nodes_v()[i] == CfgNodeV::Value(js[k].target));
        },
    }
    assert(js[k].target == ValueV::Variable(v));
}

} // verus!
