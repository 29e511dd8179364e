//! The function aggregate: a named, uniquely identified body of decoded
//! machine code, its basic blocks, its control-flow graph and its IL
//! statement stream.

use vstd::prelude::*;

use vstd::string::StringExecFns;

use crate::arch::Architecture;
use crate::assembler::assemble;
use crate::assembler::block_laid_out;
use crate::assembler::blocks_shape;
use crate::assembler::cfg_nodes_ok;
use crate::assembler::layout_statements;
use crate::assembler::m0;
use crate::assembler::m1;
use crate::assembler::mne_same_except_stmts;
use crate::assembler::ms_geometry_ok;
use crate::assembler::parts_wf;
use crate::assembler::stmts_upto;
use crate::assembler::walk_stmts;
use crate::block::BasicBlock;
use crate::cfg::CfgNode;
use crate::cfg::CfgNodeV;
use crate::cfg::ControlFlowGraph;
use crate::cfg::unresolved_vars;
use crate::disasm::Jump;
use crate::disasm::JumpV;
use crate::disasm::disassemble;
use crate::disasm::pair_mnes;
use crate::disasm::pair_start_present;
use crate::disasm::pairs_sorted;
use crate::error::Error;
use crate::ids::fresh_uuid;
use crate::il::Statement;
use crate::il::Operation;
use crate::il::OperationV;
use crate::il::StatementV;
use crate::index::BasicBlockIndex;
use crate::index::MnemonicIndex;
use crate::mnemonic::Mnemonic;
use crate::mnemonic::MnemonicV;
use crate::region::Region;
use crate::value::Constant;
use crate::value::Rvalue;
use crate::value::RvalueV;
use crate::value::Value;
use crate::value::ValueV;
use crate::value::Variable;
use crate::value::VariableV;

verus! {

/// Declares std's full-range marker (`..`), which vstd leaves
/// unspecified; it carries no data and is used only to pick the
/// whole-function overloads below.
#[verifier::external_type_specification]
pub struct ExRangeFull(core::ops::RangeFull);

/// The kind of function: a regular one, or a procedure-linkage-table stub
/// with its import name and table address.
#[derive(Debug)]
pub enum FunctionKind {
    Regular,
    Stub { name: String, plt_address: u64 },
}

/// Mathematical image of a [`FunctionKind`].
pub ghost enum FunctionKindV {
    Regular,
    Stub { name: Seq<char>, plt_address: u64 },
}

impl View for FunctionKind {
    type V = FunctionKindV;

    open spec fn view(&self) -> FunctionKindV {
        match self {
            FunctionKind::Regular => FunctionKindV::Regular,
            FunctionKind::Stub { name, plt_address } => FunctionKindV::Stub {
                name: name@,
                plt_address: *plt_address,
            },
        }
    }
}

impl Clone for FunctionKind {
    fn clone(&self) -> (r: Self)
        ensures
            r@ == self@,
    {
        match self {
            FunctionKind::Regular => FunctionKind::Regular,
            FunctionKind::Stub { name, plt_address } => FunctionKind::Stub {
                name: name.clone(),
                plt_address: *plt_address,
            },
        }
    }
}

/// A function lifted from machine code.
///
/// The mnemonic vector is sorted by address; the block vector partitions
/// it; the graph's first nodes are the blocks; the IL stream holds each
/// mnemonic's statements at its recorded range. The fields are exposed for
/// reading; mutate only through the methods, which keep [`Function::wf`].
#[derive(Debug)]
pub struct Function {
    pub name: String,
    pub uuid: uuid::Uuid,
    pub code: Vec<Statement>,
    pub basic_blocks: Vec<BasicBlock>,
    pub mnemonics: Vec<Mnemonic>,
    pub cflow_graph: ControlFlowGraph,
    pub entry_point: BasicBlockIndex,
    pub kind: FunctionKind,
    pub aliases: Vec<String>,
}

impl Function {
    /// Images of the mnemonics.
    pub open spec fn ms(&self) -> Seq<MnemonicV> {
        self.mnemonics.deep_view()
    }

    /// The block vector.
    pub open spec fn bs(&self) -> Seq<BasicBlock> {
        self.basic_blocks@
    }

    /// Well-formedness: see [`parts_wf`].
    pub open spec fn wf(&self) -> bool {
        parts_wf(
            self.ms(),
            self.bs(),
            self.cflow_graph,
            self.code@.len() as int,
            self.entry_point.index as int,
        )
    }

    /// The entry address as the spec sees it.
    pub open spec fn entry_address_spec(&self) -> u64 {
        self.bs()[self.entry_point.index as int].area.start
    }

    /// Everything except the assembled body: metadata untouched by the
    /// mutators.
    pub open spec fn same_meta(&self, other: &Function) -> bool {
        &&& self.name@ == other.name@
        &&& self.uuid == other.uuid
        &&& self.kind@ == other.kind@
        &&& self.aliases.deep_view() == other.aliases.deep_view()
    }

    /// Gets the name of this function.
    pub fn name(&self) -> (r: &str)
        ensures
            r@ == self.name@,
    {
        self.name.as_str()
    }

    /// Gets the unique identifier of this function.
    pub fn uuid(&self) -> (r: &uuid::Uuid)
        ensures
            *r == self.uuid,
    {
        &self.uuid
    }

    /// Sets this function's unique identifier.
    pub fn set_uuid(&mut self, uuid: uuid::Uuid)
        ensures
            final(self).uuid == uuid,
            final(self).name@ == old(self).name@,
            final(self).code == old(self).code,
            final(self).basic_blocks == old(self).basic_blocks,
            final(self).mnemonics == old(self).mnemonics,
            final(self).cflow_graph == old(self).cflow_graph,
            final(self).entry_point == old(self).entry_point,
            final(self).kind == old(self).kind,
            final(self).aliases == old(self).aliases,
    {
        self.uuid = uuid;
    }

    /// Adds the alias `name` to this function's known aliases.
    pub fn add_alias(&mut self, name: String)
        ensures
            final(self).aliases.deep_view() == old(self).aliases.deep_view().push(name@),
            final(self).name@ == old(self).name@,
            final(self).uuid == old(self).uuid,
            final(self).code == old(self).code,
            final(self).basic_blocks == old(self).basic_blocks,
            final(self).mnemonics == old(self).mnemonics,
            final(self).cflow_graph == old(self).cflow_graph,
            final(self).entry_point == old(self).entry_point,
            final(self).kind == old(self).kind,
    {
        let ghost pre = self.aliases.deep_view();
        self.aliases.push(name);
        proof {
            assert forall|x: int| 0 <= x < pre.len() implies #[trigger] self.aliases.deep_view()[x]
                == pre[x] by {
                assert(self.aliases@[x] == self.aliases@.subrange(0, pre.len() as int)[x]);
            }
            assert(self.aliases.deep_view() =~= pre.push(self.aliases@[pre.len() as int]@));
        }
    }

    /// Returns this function's kind.
    pub fn kind(&self) -> (r: &FunctionKind)
        ensures
            r@ == self.kind@,
    {
        &self.kind
    }

    /// Returns this function's known name aliases.
    pub fn aliases(&self) -> (r: &Vec<String>)
        ensures
            r.deep_view() == self.aliases.deep_view(),
    {
        &self.aliases
    }

    /// Gets the index of this function's entry block.
    pub fn entry_point(&self) -> (r: BasicBlockIndex)
        ensures
            r == self.entry_point,
    {
        self.entry_point
    }

    /// Gets the control-flow graph.
    pub fn cfg(&self) -> (r: &ControlFlowGraph)
        ensures
            r == &self.cflow_graph,
    {
        &self.cflow_graph
    }

    /// The address of this function's entry point.
    pub fn entry_address(&self) -> (r: u64)
        requires
            self.wf(),
        ensures
            r == self.entry_address_spec(),
    {
        let e = self.entry_point.index();
        self.basic_blocks[e].area.start
    }

    /// The lowest address contained in this function.
    pub fn first_address(&self) -> (r: u64)
        requires
            self.wf(),
        ensures
            r == self.bs()[0].area.start,
            forall|b: int| 0 <= b < self.bs().len() ==> r <= (#[trigger] self.bs()[b]).area.start,
    {
        self.basic_blocks[0].area.start
    }

    /// The end address of the highest basic block in this function.
    #[verifier::rlimit(100)]
    pub fn last_address(&self) -> (r: u64)
        requires
            self.wf(),
        ensures
            exists|b: int| 0 <= b < self.bs().len() && r == (#[trigger] self.bs()[b]).area.end,
            forall|b: int| 0 <= b < self.bs().len() ==> (#[trigger] self.bs()[b]).area.end <= r,
    {
        let mut end = self.basic_blocks[0].area.end;
        let mut b: usize = 1;
        #[verifier::loop_isolation(true)]
        while b < self.basic_blocks.len()
            invariant
                1 <= b <= self.bs().len(),
                self.bs().len() > 0,
                exists|c: int| 0 <= c < b && end == (#[trigger] self.bs()[c]).area.end,
                forall|c: int| 0 <= c < b ==> (#[trigger] self.bs()[c]).area.end <= end,
            decreases self.bs().len() - b,
        {
            if self.basic_blocks[b].area.end > end {
                end = self.basic_blocks[b].area.end;
            }
            b = b + 1;
        }
        end
    }

    /// Whether `address` lies inside one of this function's blocks.
    pub fn contains(&self, address: u64) -> (r: bool)
        ensures
            r == exists|b: int|
                0 <= b < self.bs().len() && (#[trigger] self.bs()[b]).area.start <= address
                    < self.bs()[b].area.end,
    {
        let mut b: usize = 0;
        while b < self.basic_blocks.len()
            invariant
                b <= self.bs().len(),
                forall|c: int|
                    0 <= c < b ==> !((#[trigger] self.bs()[c]).area.start <= address
                        < self.bs()[c].area.end),
            decreases self.bs().len() - b,
        {
            if self.basic_blocks[b].area.start <= address && address < self.basic_blocks[b].area.end
            {
                return true;
            }
            b = b + 1;
        }
        false
    }

    /// Gets the basic block at the given index.
    pub fn basic_block(&self, idx: BasicBlockIndex) -> (r: &BasicBlock)
        requires
            idx.index < self.bs().len(),
        ensures
            *r == self.bs()[idx.index as int],
    {
        &self.basic_blocks[idx.index]
    }

    /// Gets the mnemonic at the given index.
    pub fn mnemonic(&self, idx: MnemonicIndex) -> (r: &Mnemonic)
        requires
            idx.index < self.ms().len(),
        ensures
            r@ == self.ms()[idx.index as int],
    {
        &self.mnemonics[idx.index]
    }

    /// Every basic block, paired with its index, in block order.
    pub fn basic_blocks(&self) -> (r: Vec<(BasicBlockIndex, BasicBlock)>)
        ensures
            r@.len() == self.bs().len(),
            forall|b: int|
                0 <= b < r@.len() ==> (#[trigger] r@[b]).0.index == b && r@[b].1
                    == self.bs()[b],
    {
        let mut r: Vec<(BasicBlockIndex, BasicBlock)> = Vec::new();
        let mut b: usize = 0;
        while b < self.basic_blocks.len()
            invariant
                b <= self.bs().len(),
                r@.len() == b,
                forall|c: int|
                    0 <= c < b ==> (#[trigger] r@[c]).0.index == c && r@[c].1 == self.bs()[c],
            decreases self.bs().len() - b,
        {
            let bb = self.basic_blocks[b].clone();
            proof {
                assert(bb.mnemonics.start == self.bs()[b as int].mnemonics.start);
                assert(bb == self.bs()[b as int]);
            }
            r.push((BasicBlockIndex::new(b), bb));
            b = b + 1;
        }
        r
    }

    /// The variables of all unresolved jump targets, in node order.
    ///
    /// These are exactly the variables carried by the graph's
    /// unresolved-target nodes.
    pub fn indirect_jumps(&self) -> (r: Vec<Variable>)
        ensures
            r.deep_view() == unresolved_vars(self.cflow_graph.nodes_v()),
    {
        self.cflow_graph.unresolved_variables()
    }

    /// Replaces the first unresolved jump target that carries exactly the
    /// variable `var` by the constant `val`. Returns whether one was
    /// found. A point edit: no re-disassembly, no re-partitioning.
    pub fn resolve_indirect_jump(&mut self, var: Variable, val: Constant) -> (found: bool)
        requires
            old(self).wf(),
        ensures
            final(self).wf(),
            final(self).same_meta(old(self)),
            final(self).code == old(self).code,
            final(self).basic_blocks == old(self).basic_blocks,
            final(self).mnemonics == old(self).mnemonics,
            final(self).entry_point == old(self).entry_point,
            final(self).cflow_graph.edges@ == old(self).cflow_graph.edges@,
            ({
                let nv = old(self).cflow_graph.nodes_v();
                let target = CfgNodeV::Value(ValueV::Variable(var@));
                if exists|i: int| 0 <= i < nv.len() && nv[i] == target {
                    found && exists|i: int|
                        0 <= i < nv.len() && nv[i] == target && (forall|k: int|
                            0 <= k < i ==> nv[k] != target) && final(self).cflow_graph.nodes_v()
                            == nv.update(i, CfgNodeV::Value(ValueV::Constant(val)))
                } else {
                    !found && final(self).cflow_graph.nodes == old(self).cflow_graph.nodes
                }
            }),
    {
        let found = self.cflow_graph.resolve_value(&var, val);
        proof {
            let nv = old(self).cflow_graph.nodes_v();
            let target = CfgNodeV::Value(ValueV::Variable(var@));
            let nblocks = self.bs().len() as int;
            if exists|i: int| 0 <= i < nv.len() && nv[i] == target {
                let i = choose|i: int|
                    0 <= i < nv.len() && nv[i] == target && (forall|k: int|
                        0 <= k < i ==> nv[k] != target) && self.cflow_graph.nodes_v() == nv.update(
                        i,
                        CfgNodeV::Value(ValueV::Constant(val)),
                    );
                assert(i >= nblocks) by {
                    if i < nblocks {
                        assert(nv[i] == CfgNodeV::BasicBlock(i as usize));
                    }
                }
                assert forall|b: int|
                    0 <= b < nblocks implies self.cflow_graph.nodes_v()[b]
                    == CfgNodeV::BasicBlock(b as usize) by {}
            }
        }
        found
    }

    /// The total number of statement storage units this function holds.
    pub fn bitcode_size(&self) -> (r: usize)
        ensures
            r == self.code@.len(),
    {
        self.code.len()
    }

    /// Every call target of the function, read block by block in
    /// block-vector order, inside each block mnemonic by mnemonic: the
    /// target of each call-operation statement, and each constant
    /// indirect-call target.
    #[verifier::spinoff_prover]
    #[verifier::rlimit(100)]
    pub fn collect_calls(&self) -> (r: Vec<Rvalue>)
        requires
            self.wf(),
        ensures
            r.deep_view() == calls_of(edited_stmts(editable_model(*self))),
    {
        let ghost model = editable_model(*self);
        let blocks = self.editable_blocks();
        let mut r: Vec<Rvalue> = Vec::new();
        let nblocks = blocks.len();
        let mut b: usize = 0;
        proof {
            assert(nblocks == model.len());
            assert(model.take(0) =~= Seq::<Seq<(MnemonicV, Seq<StatementV>)>>::empty());
            assert(r.deep_view() =~= calls_of(edited_stmts(model.take(0))));
        }
        while b < nblocks
            invariant
                b <= nblocks,
                nblocks == model.len(),
                blocks.deep_view() == model,
                r.deep_view() == calls_of(edited_stmts(model.take(b as int))),
            decreases nblocks - b,
        {
            let ghost done_b = edited_stmts(model.take(b as int));
            let ghost bl = block_stmt_lists(model, b as int);
            let nmnes = blocks[b].len();
            proof {
                assert(blocks@[b as int].deep_view() == model[b as int]);
                assert(nmnes == model[b as int].len());
                assert(bl.take(0) =~= Seq::<Seq<StatementV>>::empty());
                assert(done_b + stmts_concat(bl.take(0)) =~= done_b);
            }
            let mut j: usize = 0;
            while j < nmnes
                invariant
                    j <= nmnes,
                    0 <= b < nblocks,
                    nmnes == model[b as int].len(),
                    blocks.deep_view() == model,
                    r.deep_view() == calls_of(done_b + stmts_concat(bl.take(j as int))),
                decreases nmnes - j,
            {
                let stmts = &blocks[b][j].1;
                proof {
                    assert(blocks@[b as int].deep_view()[j as int] == blocks@[b as int]@[j as int].deep_view());
                    assert(stmts.deep_view() == model[b as int][j as int].1);
                }
                let ghost done_m = done_b + stmts_concat(bl.take(j as int));
                let nst = stmts.len();
                proof {
                    assert(stmts.deep_view().take(0) =~= Seq::<StatementV>::empty());
                    assert(done_m + stmts.deep_view().take(0) =~= done_m);
                }
                let mut k: usize = 0;
                while k < nst
                    invariant
                        k <= nst,
                        nst == stmts.deep_view().len(),
                        r.deep_view() == calls_of(done_m + stmts.deep_view().take(k as int)),
                    decreases nst - k,
                {
                    proof {
                        assert((done_m + stmts.deep_view().take(k + 1 as int)).drop_last()
                            =~= done_m + stmts.deep_view().take(k as int));
                        assert((done_m + stmts.deep_view().take(k + 1 as int)).last()
                            == stmts.deep_view()[k as int]);
                        assert(stmts@[k as int]@ == stmts.deep_view()[k as int]);
                    }
                    match &stmts[k] {
                        Statement::IndirectCall { target: Value::Constant(c) } => {
                            r.push(Rvalue::Constant { value: c.value, size: c.bits });
                            proof {
                                assert(r.deep_view() =~= calls_of(
                                    done_m + stmts.deep_view().take(k + 1 as int),
                                ));
                            }
                        },
                        Statement::Expression { op: Operation::Call(t), .. } => {
                            let rv = value_to_rvalue(t);
                            proof {
                                assert(rv@ == rvalue_of(
                                    stmts.deep_view()[k as int]->Expression_op->Call_0,
                                ));
                            }
                            r.push(rv);
                            proof {
                                assert(r.deep_view() =~= calls_of(
                                    done_m + stmts.deep_view().take(k + 1 as int),
                                ));
                            }
                        },
                        _ => {
                            proof {
                                assert(r.deep_view() =~= calls_of(
                                    done_m + stmts.deep_view().take(k + 1 as int),
                                ));
                            }
                        },
                    }
                    k = k + 1;
                }
                proof {
                    assert(stmts.deep_view().take(nst as int) =~= stmts.deep_view());
                    assert(bl[j as int] == model[b as int][j as int].1);
                    assert(bl.take(j + 1 as int).drop_last() =~= bl.take(j as int));
                    assert(bl.take(j + 1 as int).last() == bl[j as int]);
                    assert(stmts_concat(bl.take(j + 1 as int)) == stmts_concat(bl.take(j as int))
                        + bl[j as int]);
                    assert(done_b + stmts_concat(bl.take(j + 1 as int)) =~= done_m
                        + stmts.deep_view());
                }
                j = j + 1;
            }
            proof {
                assert(bl.take(nmnes as int) =~= bl);
                assert(model.take(b + 1 as int).drop_last() =~= model.take(b as int));
                assert(model.take(b + 1 as int).last() == model[b as int]);
                assert(block_stmt_lists(model.take(b + 1 as int), b as int) =~= bl);
                assert(edited_stmts(model.take(b + 1 as int)) == done_b + stmts_concat(bl));
            }
            b = b + 1;
        }
        proof {
            assert(model.take(nblocks as int) =~= model);
        }
        r
    }
}

/// Statement positions chain downward inside a block: the first
/// mnemonic's range starts no later than any later mnemonic's range ends.
pub proof fn lemma_block_stmt_span(ms: Seq<MnemonicV>, bs: Seq<BasicBlock>, b: int, i: int)
    requires
        forall|c: int, x: int|
            #![trigger m0(bs, c), ms[x]]
            0 <= c < bs.len() && m0(bs, c) <= x < m1(bs, c) - 1 ==> ms[x].end == ms[x + 1].start
                && ms[x].s_end == ms[x + 1].s_start,
        forall|x: int| 0 <= x < ms.len() ==> (#[trigger] ms[x]).s_start <= ms[x].s_end,
        0 <= b < bs.len(),
        0 <= m0(bs, b),
        m1(bs, b) <= ms.len(),
        m0(bs, b) <= i < m1(bs, b),
    ensures
        ms[m0(bs, b)].s_start <= ms[i].s_start,
    decreases i - m0(bs, b),
{
    if i > m0(bs, b) {
        lemma_block_stmt_span(ms, bs, b, i - 1);
        assert(ms[i - 1].s_end == ms[i].s_start);
    }
}

/// A half-open range of mnemonic positions inside a function: full range,
/// raw index range, one block's range, or one mnemonic.
pub trait IntoMnemonicRange: Sized {
    /// Whether this designator is meaningful for `f`.
    spec fn mne_range_valid(&self, f: &Function) -> bool;

    /// The designated half-open mnemonic index range.
    spec fn mne_range_spec(&self, f: &Function) -> (int, int);

    /// Resolves the designator against `f`.
    fn into_mnemonic_range(self, f: &Function) -> (r: (usize, usize))
        requires
            f.wf(),
            self.mne_range_valid(f),
        ensures
            r.0 as int == self.mne_range_spec(f).0,
            r.1 as int == self.mne_range_spec(f).1,
            r.0 <= r.1 <= f.ms().len(),
    ;
}

impl IntoMnemonicRange for core::ops::RangeFull {
    open spec fn mne_range_valid(&self, f: &Function) -> bool {
        true
    }

    open spec fn mne_range_spec(&self, f: &Function) -> (int, int) {
        (0, f.ms().len() as int)
    }

    fn into_mnemonic_range(self, f: &Function) -> (r: (usize, usize)) {
        (0, f.mnemonics.len())
    }
}

impl IntoMnemonicRange for core::ops::Range<usize> {
    open spec fn mne_range_valid(&self, f: &Function) -> bool {
        self.start <= self.end <= f.ms().len()
    }

    open spec fn mne_range_spec(&self, f: &Function) -> (int, int) {
        (self.start as int, self.end as int)
    }

    fn into_mnemonic_range(self, f: &Function) -> (r: (usize, usize)) {
        (self.start, self.end)
    }
}

impl IntoMnemonicRange for core::ops::Range<MnemonicIndex> {
    open spec fn mne_range_valid(&self, f: &Function) -> bool {
        self.start.index <= self.end.index <= f.ms().len()
    }

    open spec fn mne_range_spec(&self, f: &Function) -> (int, int) {
        (self.start.index as int, self.end.index as int)
    }

    fn into_mnemonic_range(self, f: &Function) -> (r: (usize, usize)) {
        (self.start.index(), self.end.index())
    }
}

impl IntoMnemonicRange for MnemonicIndex {
    open spec fn mne_range_valid(&self, f: &Function) -> bool {
        self.index < f.ms().len()
    }

    open spec fn mne_range_spec(&self, f: &Function) -> (int, int) {
        (self.index as int, self.index + 1)
    }

    fn into_mnemonic_range(self, f: &Function) -> (r: (usize, usize)) {
        (self.index, self.index + 1)
    }
}

impl IntoMnemonicRange for BasicBlockIndex {
    open spec fn mne_range_valid(&self, f: &Function) -> bool {
        self.index < f.bs().len()
    }

    open spec fn mne_range_spec(&self, f: &Function) -> (int, int) {
        (m0(f.bs(), self.index as int), m1(f.bs(), self.index as int))
    }

    fn into_mnemonic_range(self, f: &Function) -> (r: (usize, usize)) {
        let bb = &f.basic_blocks[self.index];
        (bb.mnemonics.start.index(), bb.mnemonics.end.index())
    }
}

impl IntoMnemonicRange for &BasicBlock {
    open spec fn mne_range_valid(&self, f: &Function) -> bool {
        self.mnemonics.start.index <= self.mnemonics.end.index <= f.ms().len()
    }

    open spec fn mne_range_spec(&self, f: &Function) -> (int, int) {
        (self.mnemonics.start.index as int, self.mnemonics.end.index as int)
    }

    fn into_mnemonic_range(self, f: &Function) -> (r: (usize, usize)) {
        (self.mnemonics.start.index(), self.mnemonics.end.index())
    }
}

/// A half-open range of statement positions inside a function's IL
/// stream: full range, raw range, one block's statements, or one
/// mnemonic's statements.
pub trait IntoStatementRange: Sized {
    /// Whether this designator is meaningful for `f`.
    spec fn stmt_range_valid(&self, f: &Function) -> bool;

    /// The designated half-open statement range.
    spec fn stmt_range_spec(&self, f: &Function) -> (int, int);

    /// Resolves the designator against `f`.
    fn into_statement_range(self, f: &Function) -> (r: (usize, usize))
        requires
            f.wf(),
            self.stmt_range_valid(f),
        ensures
            r.0 as int == self.stmt_range_spec(f).0,
            r.1 as int == self.stmt_range_spec(f).1,
            r.0 <= r.1 <= f.code@.len(),
    ;
}

impl IntoStatementRange for core::ops::RangeFull {
    open spec fn stmt_range_valid(&self, f: &Function) -> bool {
        true
    }

    open spec fn stmt_range_spec(&self, f: &Function) -> (int, int) {
        (0, f.code@.len() as int)
    }

    fn into_statement_range(self, f: &Function) -> (r: (usize, usize)) {
        (0, f.code.len())
    }
}

impl IntoStatementRange for core::ops::Range<usize> {
    open spec fn stmt_range_valid(&self, f: &Function) -> bool {
        self.start <= self.end <= f.code@.len()
    }

    open spec fn stmt_range_spec(&self, f: &Function) -> (int, int) {
        (self.start as int, self.end as int)
    }

    fn into_statement_range(self, f: &Function) -> (r: (usize, usize)) {
        (self.start, self.end)
    }
}

impl IntoStatementRange for MnemonicIndex {
    open spec fn stmt_range_valid(&self, f: &Function) -> bool {
        self.index < f.ms().len()
    }

    open spec fn stmt_range_spec(&self, f: &Function) -> (int, int) {
        (f.ms()[self.index as int].s_start as int, f.ms()[self.index as int].s_end as int)
    }

    fn into_statement_range(self, f: &Function) -> (r: (usize, usize)) {
        let m = &f.mnemonics[self.index];
        (m.statements.start, m.statements.end)
    }
}

impl IntoStatementRange for &Mnemonic {
    open spec fn stmt_range_valid(&self, f: &Function) -> bool {
        self.statements.start <= self.statements.end <= f.code@.len()
    }

    open spec fn stmt_range_spec(&self, f: &Function) -> (int, int) {
        (self.statements.start as int, self.statements.end as int)
    }

    fn into_statement_range(self, f: &Function) -> (r: (usize, usize)) {
        (self.statements.start, self.statements.end)
    }
}

impl IntoStatementRange for BasicBlockIndex {
    open spec fn stmt_range_valid(&self, f: &Function) -> bool {
        self.index < f.bs().len()
    }

    open spec fn stmt_range_spec(&self, f: &Function) -> (int, int) {
        (
            f.ms()[m0(f.bs(), self.index as int)].s_start as int,
            f.ms()[m1(f.bs(), self.index as int) - 1].s_end as int,
        )
    }

    fn into_statement_range(self, f: &Function) -> (r: (usize, usize)) {
        let bb = &f.basic_blocks[self.index];
        let first = bb.mnemonics.start.index();
        let last = bb.mnemonics.end.index() - 1;
        proof {
            lemma_block_stmt_span(f.ms(), f.bs(), self.index as int, last as int);
        }
        (f.mnemonics[first].statements.start, f.mnemonics[last].statements.end)
    }
}

impl IntoStatementRange for &BasicBlock {
    open spec fn stmt_range_valid(&self, f: &Function) -> bool {
        exists|b: int| 0 <= b < f.bs().len() && f.bs()[b] == **self
    }

    open spec fn stmt_range_spec(&self, f: &Function) -> (int, int) {
        (
            f.ms()[self.mnemonics.start.index as int].s_start as int,
            f.ms()[self.mnemonics.end.index - 1].s_end as int,
        )
    }

    fn into_statement_range(self, f: &Function) -> (r: (usize, usize)) {
        proof {
            let b = choose|b: int| 0 <= b < f.bs().len() && f.bs()[b] == *self;
            assert(m0(f.bs(), b) == self.mnemonics.start.index as int);
            lemma_block_stmt_span(f.ms(), f.bs(), b, m1(f.bs(), b) - 1);
        }
        let first = self.mnemonics.start.index();
        let last = self.mnemonics.end.index() - 1;
        (f.mnemonics[first].statements.start, f.mnemonics[last].statements.end)
    }
}

impl Function {
    /// The mnemonics designated by `idx`, each paired with its index, in
    /// address order.
    pub fn mnemonics<Idx: IntoMnemonicRange>(&self, idx: Idx) -> (r: Vec<(MnemonicIndex, Mnemonic)>)
        requires
            self.wf(),
            idx.mne_range_valid(self),
        ensures
            r@.len() == idx.mne_range_spec(self).1 - idx.mne_range_spec(self).0,
            forall|j: int|
                0 <= j < r@.len() ==> (#[trigger] r@[j]).0.index == idx.mne_range_spec(self).0 + j
                    && r@[j].1@ == self.ms()[idx.mne_range_spec(self).0 + j],
    {
        let (lo, hi) = idx.into_mnemonic_range(self);
        let mut r: Vec<(MnemonicIndex, Mnemonic)> = Vec::new();
        let mut i = lo;
        while i < hi
            invariant
                lo <= i <= hi <= self.ms().len(),
                r@.len() == i - lo,
                forall|j: int|
                    0 <= j < r@.len() ==> (#[trigger] r@[j]).0.index == lo + j && r@[j].1@
                        == self.ms()[lo + j],
            decreases hi - i,
        {
            let m = self.mnemonics[i].clone();
            r.push((MnemonicIndex::new(i), m));
            i = i + 1;
        }
        r
    }

    /// The IL statements designated by `rgn`, in storage order.
    pub fn statements<Idx: IntoStatementRange>(&self, rgn: Idx) -> (r: Vec<Statement>)
        requires
            self.wf(),
            rgn.stmt_range_valid(self),
        ensures
            r.deep_view() == self.code.deep_view().subrange(
                rgn.stmt_range_spec(self).0,
                rgn.stmt_range_spec(self).1,
            ),
    {
        let (lo, hi) = rgn.into_statement_range(self);
        let mut r: Vec<Statement> = Vec::new();
        let mut i = lo;
        while i < hi
            invariant
                lo <= i <= hi <= self.code@.len(),
                r.deep_view() == self.code.deep_view().subrange(lo as int, i as int),
            decreases hi - i,
        {
            let s = self.code[i].clone();
            let ghost pre = r.deep_view();
            r.push(s);
            proof {
                assert forall|x: int| 0 <= x < pre.len() implies #[trigger] r.deep_view()[x]
                    == pre[x] by {
                    assert(r@[x] == r@.subrange(0, pre.len() as int)[x]);
                }
                assert(r.deep_view()[pre.len() as int] == self.code.deep_view()[i as int]);
                assert(r.deep_view() =~= self.code.deep_view().subrange(lo as int, i + 1 as int));
            }
            i = i + 1;
        }
        r
    }
}

/// One hexadecimal digit.
pub open spec fn hex_digit(d: int) -> char {
    if d == 0 {
        '0'
    } else if d == 1 {
        '1'
    } else if d == 2 {
        '2'
    } else if d == 3 {
        '3'
    } else if d == 4 {
        '4'
    } else if d == 5 {
        '5'
    } else if d == 6 {
        '6'
    } else if d == 7 {
        '7'
    } else if d == 8 {
        '8'
    } else if d == 9 {
        '9'
    } else if d == 10 {
        'a'
    } else if d == 11 {
        'b'
    } else if d == 12 {
        'c'
    } else if d == 13 {
        'd'
    } else if d == 14 {
        'e'
    } else {
        'f'
    }
}

/// The hexadecimal rendering of `v`, most significant digit first, with
/// no leading zeroes (a single `0` for zero).
pub open spec fn hex_seq(v: int) -> Seq<char>
    decreases v,
{
    if v < 16 {
        seq![hex_digit(v)]
    } else {
        hex_seq(v / 16).push(hex_digit(v % 16))
    }
}

/// The default name of a function entered at `start`.
pub open spec fn default_name(start: u64) -> Seq<char> {
    "func_"@ + hex_seq(start as int)
}

fn hex_digit_str(d: u64) -> (r: &'static str)
    requires
        d < 16,
    ensures
        r@ == seq![hex_digit(d as int)],
{
    if d == 0 {
        proof {
            reveal_strlit("0");
        }
        "0"
    } else if d == 1 {
        proof {
            reveal_strlit("1");
        }
        "1"
    } else if d == 2 {
        proof {
            reveal_strlit("2");
        }
        "2"
    } else if d == 3 {
        proof {
            reveal_strlit("3");
        }
        "3"
    } else if d == 4 {
        proof {
            reveal_strlit("4");
        }
        "4"
    } else if d == 5 {
        proof {
            reveal_strlit("5");
        }
        "5"
    } else if d == 6 {
        proof {
            reveal_strlit("6");
        }
        "6"
    } else if d == 7 {
        proof {
            reveal_strlit("7");
        }
        "7"
    } else if d == 8 {
        proof {
            reveal_strlit("8");
        }
        "8"
    } else if d == 9 {
        proof {
            reveal_strlit("9");
        }
        "9"
    } else if d == 10 {
        proof {
            reveal_strlit("a");
        }
        "a"
    } else if d == 11 {
        proof {
            reveal_strlit("b");
        }
        "b"
    } else if d == 12 {
        proof {
            reveal_strlit("c");
        }
        "c"
    } else if d == 13 {
        proof {
            reveal_strlit("d");
        }
        "d"
    } else if d == 14 {
        proof {
            reveal_strlit("e");
        }
        "e"
    } else {
        proof {
            reveal_strlit("f");
        }
        "f"
    }
}

/// Renders `v` in hexadecimal.
fn u64_to_hex(v: u64) -> (r: String)
    ensures
        r@ == hex_seq(v as int),
    decreases v,
{
    if v < 16 {
        let r = hex_digit_str(v).to_owned();
        proof {
            assert(r@ =~= hex_seq(v as int));
        }
        r
    } else {
        let s = u64_to_hex(v / 16);
        let d = hex_digit_str(v % 16);
        let r = s.concat(d);
        proof {
            assert(v as int / 16 == (v / 16) as int);
            assert(v as int % 16 == (v % 16) as int);
            assert(r@ =~= hex_seq(v as int));
        }
        r
    }
}

impl Function {
    /// Creates and disassembles a new function named `name` (or
    /// `func_<hex-entry>`), inside memory `region`, starting at entry
    /// point `start`, with a fresh unique identifier.
    ///
    /// Fails with `NoEntryBlock` when no decoded mnemonic starts exactly
    /// at `start` — an empty region, a misaligned entry, or a decoder
    /// failure at the entry — and with `ValueConstructionFailure` when
    /// the decoder reports a zero-width jump value.
    pub fn new<A: Architecture>(
        init: A::Configuration,
        start: u64,
        region: &Region,
        name: Option<String>,
    ) -> (r: Result<Function, Error>)
        ensures
            r matches Ok(f) ==> {
                &&& f.wf()
                &&& ms_geometry_ok(f.ms())
                &&& f.entry_address_spec() == start
                &&& match name {
                    Some(n) => f.name@ == n@,
                    None => f.name@ == default_name(start),
                }
                &&& f.kind@ == FunctionKindV::Regular
                &&& f.aliases.deep_view().len() == 0
            },
            r matches Err(e) ==> e == Error::NoEntryBlock || e == Error::ValueConstructionFailure,
    {
        let mut pairs: Vec<(Mnemonic, Vec<Statement>)> = Vec::new();
        let mut jumps: Vec<Jump> = Vec::new();
        let mut starts: Vec<u64> = Vec::new();
        starts.push(start);
        match disassemble::<A>(&init, starts, region, &mut pairs, &mut jumps) {
            Ok(()) => {},
            Err(e) => {
                return Err(e);
            },
        }
        let fname = match name {
            Some(n) => n,
            None => {
                let hex = u64_to_hex(start);
                let base = "func_".to_owned();
                base.concat(hex.as_str())
            },
        };
        match assemble(start, pairs, jumps) {
            Err(e) => Err(e),
            Ok(a) => Ok(
                Function {
                    name: fname,
                    uuid: fresh_uuid(),
                    code: a.code,
                    basic_blocks: a.basic_blocks,
                    mnemonics: a.mnemonics,
                    cflow_graph: a.cflow_graph,
                    entry_point: BasicBlockIndex::new(a.entry_point),
                    kind: FunctionKind::Regular,
                    aliases: Vec::new(),
                },
            ),
        }
    }

    /// As [`Function::new`], but with the unique identifier `uuid`.
    pub fn with_uuid<A: Architecture>(
        start: u64,
        uuid: uuid::Uuid,
        region: &Region,
        name: Option<String>,
        init: A::Configuration,
    ) -> (r: Result<Function, Error>)
        ensures
            r matches Ok(f) ==> {
                &&& f.wf()
                &&& ms_geometry_ok(f.ms())
                &&& f.entry_address_spec() == start
                &&& f.uuid == uuid
                &&& match name {
                    Some(n) => f.name@ == n@,
                    None => f.name@ == default_name(start),
                }
                &&& f.kind@ == FunctionKindV::Regular
                &&& f.aliases.deep_view().len() == 0
            },
            r matches Err(e) ==> e == Error::NoEntryBlock || e == Error::ValueConstructionFailure,
    {
        match Function::new::<A>(init, start, region, name) {
            Ok(mut f) => {
                f.set_uuid(uuid);
                Ok(f)
            },
            Err(e) => Err(e),
        }
    }

    /// Promotes this function to a procedure-linkage-table stub named
    /// `name` at `plt_address`: the old canonical name moves into the
    /// aliases and the new name is `<name>@plt`.
    pub fn set_plt(&mut self, name: &str, plt_address: u64)
        ensures
            final(self).kind@ == (FunctionKindV::Stub { name: name@, plt_address }),
            final(self).name@ == name@ + "@plt"@,
            final(self).aliases.deep_view() == old(self).aliases.deep_view().push(
                old(self).name@,
            ),
            final(self).uuid == old(self).uuid,
            final(self).code == old(self).code,
            final(self).basic_blocks == old(self).basic_blocks,
            final(self).mnemonics == old(self).mnemonics,
            final(self).cflow_graph == old(self).cflow_graph,
            final(self).entry_point == old(self).entry_point,
    {
        let old_name = self.name.clone();
        self.add_alias(old_name);
        self.name = name.to_owned().concat("@plt");
        self.kind = FunctionKind::Stub { name: name.to_owned(), plt_address };
    }
}

proof fn lemma_adjacent_sorted(ms: Seq<MnemonicV>, i: int, j: int)
    requires
        forall|k: int| 0 <= k < ms.len() - 1 ==> (#[trigger] ms[k]).start < ms[k + 1].start,
        0 <= i < j < ms.len(),
    ensures
        ms[i].start < ms[j].start,
    decreases j - i,
{
    if i + 1 < j {
        lemma_adjacent_sorted(ms, i + 1, j);
    }
}

/// The jump that the re-disassembly rebuild derives from edge `e` of the
/// graph: keyed on the source block's last mnemonic's start; a block
/// target becomes a 64-bit constant at the target block's first
/// mnemonic's start; an unresolved target contributes its stored value.
pub open spec fn rebuilt_jump(
    g: ControlFlowGraph,
    bs: Seq<BasicBlock>,
    ms: Seq<MnemonicV>,
    e: int,
) -> JumpV {
    let edge = g.edges@[e];
    let origin = ms[m1(bs, edge.source as int) - 1].start;
    let target = if edge.target < bs.len() {
        ValueV::Constant(Constant { value: ms[m0(bs, edge.target as int)].start, bits: 64 })
    } else {
        match g.nodes_v()[edge.target as int] {
            CfgNodeV::Value(v) => v,
            _ => ValueV::Undefined,
        }
    };
    JumpV { origin, target, guard: edge.guard }
}

/// The whole rebuilt jump list, one entry per edge, in edge order.
pub open spec fn rebuilt_jumps(g: ControlFlowGraph, bs: Seq<BasicBlock>, ms: Seq<MnemonicV>) -> Seq<
    JumpV,
> {
    Seq::new(g.edges@.len(), |e: int| rebuilt_jump(g, bs, ms, e))
}

/// The constant targets among a jump list, in order: the seed set of a
/// re-disassembly.
pub open spec fn seeds_of(js: Seq<JumpV>) -> Seq<u64>
    decreases js.len(),
{
    if js.len() == 0 {
        Seq::empty()
    } else {
        let rest = seeds_of(js.drop_last());
        match js.last().target {
            ValueV::Constant(c) => rest.push(c.value),
            _ => rest,
        }
    }
}

/// Some mnemonic of `ms` starts exactly at `s`.
pub open spec fn start_decoded(ms: Seq<MnemonicV>, s: u64) -> bool {
    exists|x: int| 0 <= x < ms.len() && (#[trigger] ms[x]).start == s
}

/// Every constant target among the jumps rebuilt from the graph already
/// starts an existing mnemonic: a re-disassembly has nothing new to
/// decode, so `extend` is owed success.
pub open spec fn seeds_known(f: Function) -> bool {
    forall|i: int|
        0 <= i < seeds_of(rebuilt_jumps(f.cflow_graph, f.bs(), f.ms())).len() ==> start_decoded(
            f.ms(),
            #[trigger] seeds_of(rebuilt_jumps(f.cflow_graph, f.bs(), f.ms()))[i],
        )
}

/// What `extend` rebuilt and how it relates to the new state: some jump
/// list whose prefix is exactly the list rebuilt from the old graph — the
/// rest is whatever the decoder added — makes the new graph a correct
/// control-flow graph for the new blocks.
pub open spec fn extend_links(fold: Function, fnew: Function, js2: Seq<JumpV>) -> bool {
    &&& js2.len() >= fold.cflow_graph.edges@.len()
    &&& js2.take(fold.cflow_graph.edges@.len() as int) == rebuilt_jumps(
        fold.cflow_graph,
        fold.bs(),
        fold.ms(),
    )
    &&& crate::assembler::cfg_ok(fnew.cflow_graph, fnew.bs(), fnew.ms(), js2)
}

impl Function {
    /// Rebuilds the jump list and the re-disassembly seed set from the
    /// graph's edges: see [`rebuilt_jump`] and [`seeds_of`].
    fn rebuild_jumps(&self) -> (r: (Vec<Jump>, Vec<u64>))
        requires
            self.wf(),
        ensures
            r.0.deep_view() == rebuilt_jumps(self.cflow_graph, self.bs(), self.ms()),
            r.1@ == seeds_of(rebuilt_jumps(self.cflow_graph, self.bs(), self.ms())),
    {
        let ghost model = rebuilt_jumps(self.cflow_graph, self.bs(), self.ms());
        let edges = self.cflow_graph.edge_list();
        let mut jumps: Vec<Jump> = Vec::new();
        let mut starts: Vec<u64> = Vec::new();
        let mut e: usize = 0;
        while e < edges.len()
            invariant
                e <= edges@.len(),
                edges@ == self.cflow_graph.edges@,
                self.wf(),
                model == rebuilt_jumps(self.cflow_graph, self.bs(), self.ms()),
                model.len() == edges@.len(),
                jumps.deep_view().len() == e,
                forall|x: int| 0 <= x < e ==> #[trigger] jumps.deep_view()[x] == model[x],
                starts@ == seeds_of(model.take(e as int)),
            decreases edges@.len() - e,
        {
            let src_block = edges[e].source;
            proof {
                assert(self.cflow_graph.edges@[e as int].source < self.bs().len());
            }
            let last = self.basic_blocks[src_block].mnemonics.end.index() - 1;
            proof {
                assert(0 <= m0(self.bs(), src_block as int) < m1(self.bs(), src_block as int)
                    <= self.ms().len());
            }
            let origin = self.mnemonics[last].area.start;
            let tgt_idx = edges[e].target;
            proof {
                assert(tgt_idx < self.cflow_graph.nodes@.len());
            }
            let target_value: Value = match &self.cflow_graph.nodes[tgt_idx] {
                CfgNode::BasicBlock(bi) => {
                    proof {
                        assert(self.cflow_graph.nodes_v()[tgt_idx as int]
                            == self.cflow_graph.nodes@[tgt_idx as int]@);
                        if tgt_idx >= self.bs().len() {
                            assert(self.cflow_graph.nodes_v()[tgt_idx as int] is Value);
                        }
                        assert(self.cflow_graph.nodes_v()[tgt_idx as int]
                            == CfgNodeV::BasicBlock(tgt_idx));
                        assert(bi.index == tgt_idx);
                        assert(0 <= m0(self.bs(), bi.index as int) < self.ms().len());
                    }
                    let first = self.basic_blocks[bi.index()].mnemonics.start.index();
                    let a = self.mnemonics[first].area.start;
                    match Value::val(a, 64) {
                        Ok(v) => v,
                        Err(_) => {
                            proof {
                                assert(false);
                            }
                            Value::undef()
                        },
                    }
                },
                CfgNode::Value(v) => {
                    proof {
                        assert(self.cflow_graph.nodes_v()[tgt_idx as int]
                            == self.cflow_graph.nodes@[tgt_idx as int]@);
                        if tgt_idx < self.bs().len() {
                            assert(self.cflow_graph.nodes_v()[tgt_idx as int]
                                == CfgNodeV::BasicBlock(tgt_idx));
                        }
                    }
                    v.clone()
                },
            };
            proof {
                assert(target_value@ == rebuilt_jump(self.cflow_graph, self.bs(), self.ms(), e as int).target);
            }
            match &target_value {
                Value::Constant(c) => {
                    starts.push(c.value);
                },
                _ => {},
            }
            let ghost pre = jumps.deep_view();
            jumps.push(Jump { origin, target: target_value, guard: edges[e].guard });
            proof {
                assert forall|x: int| 0 <= x < pre.len() implies #[trigger] jumps.deep_view()[x]
                    == pre[x] by {
                    assert(jumps@[x] == jumps@.subrange(0, pre.len() as int)[x]);
                }
                assert(jumps.deep_view()[pre.len() as int] == model[e as int]);
                assert(model.take(e + 1 as int).drop_last() =~= model.take(e as int));
                assert(model.take(e + 1 as int).last() == model[e as int]);
                assert(starts@ =~= seeds_of(model.take(e + 1 as int)));
            }
            e = e + 1;
        }
        proof {
            assert(jumps.deep_view() =~= model);
            assert(model.take(model.len() as int) =~= model);
        }
        (jumps, starts)
    }

    /// Re-runs disassembly from every constant jump target currently in
    /// the graph — including targets that `resolve_indirect_jump` has just
    /// made constant — and re-assembles at the same entry address.
    ///
    /// The jump maps are rebuilt from the graph's edges: each edge is
    /// keyed on its source block's last mnemonic's start; a block target
    /// counts as a constant at the target block's first mnemonic's start,
    /// an unresolved target contributes its stored value.
    ///
    /// On any error the function is left unchanged. `NonContinuousBlock`
    /// reports mnemonic geometry no re-disassembly can extend (overlapping
    /// or zero-width mnemonics, possible only after a rewrite); its
    /// `block` field holds the offending mnemonic's position. With sound
    /// geometry the only possible failure is a zero-width jump value from
    /// the decoder: the entry mnemonic is retained, so the entry block is
    /// always found again.
    #[verifier::spinoff_prover]
    #[verifier::rlimit(100)]
    pub fn extend<A: Architecture>(&mut self, init: A::Configuration, region: &Region) -> (r:
        Result<(), Error>)
        requires
            old(self).wf(),
        ensures
            r is Ok ==> final(self).wf() && ms_geometry_ok(final(self).ms()),
            r is Ok ==> final(self).same_meta(old(self)),
            r is Ok ==> final(self).entry_address_spec() == old(self).entry_address_spec(),
            r is Err ==> *final(self) == *old(self),
            r matches Err(e) ==> (e == Error::ValueConstructionFailure
                || (e matches Error::NonContinuousBlock { .. })),
            !ms_geometry_ok(old(self).ms()) ==> (r matches Err(e)
                && (e matches Error::NonContinuousBlock { .. })),
            ms_geometry_ok(old(self).ms()) && r is Err ==> r == Err::<(), Error>(
                Error::ValueConstructionFailure,
            ),
            ms_geometry_ok(old(self).ms()) && seeds_known(*old(self)) ==> r is Ok,
            r is Ok ==> (forall|x: int|
                0 <= x < old(self).ms().len() ==> exists|y: int|
                    0 <= y < final(self).ms().len() && (#[trigger] final(self).ms()[y]).start
                        == (#[trigger] old(self).ms()[x]).start),
            r is Ok ==> exists|js2: Seq<JumpV>| #[trigger] extend_links(
                *old(self),
                *final(self),
                js2,
            ),
    {
        let ghost ms0 = self.ms();
        let n = self.mnemonics.len();
        // Reject geometry that cannot be spliced into again.
        let mut i: usize = 0;
        while i < n
            invariant
                i <= n,
                n == ms0.len(),
                *self == *old(self),
                ms0 == self.ms(),
                forall|k: int| 0 <= k < i ==> (#[trigger] ms0[k]).start < ms0[k].end,
                forall|k: int|
                    0 <= k < i && k < ms0.len() - 1 ==> (#[trigger] ms0[k]).start < ms0[k
                        + 1].start,
            decreases n - i,
        {
            let m = &self.mnemonics[i];
            proof {
                assert(ms0[i as int] == self.mnemonics@[i as int]@);
            }
            if m.area.start >= m.area.end {
                proof {
                    assert(!ms_geometry_ok(ms0));
                }
                return Err(Error::NonContinuousBlock {
                    block: i,
                    prev_end: m.area.start,
                    next_start: m.area.end,
                });
            }
            if i + 1 < n {
                proof {
                    assert(ms0[i + 1] == self.mnemonics@[i + 1]@);
                }
                if m.area.start >= self.mnemonics[i + 1].area.start {
                    proof {
                        assert(!ms_geometry_ok(ms0));
                    }
                    return Err(Error::NonContinuousBlock {
                        block: i,
                        prev_end: m.area.end,
                        next_start: self.mnemonics[i + 1].area.start,
                    });
                }
            }
            i = i + 1;
        }
        proof {
            assert forall|i2: int, j2: int|
                0 <= i2 < j2 < ms0.len() implies (#[trigger] ms0[i2]).start < (
            #[trigger] ms0[j2]).start by {
                lemma_adjacent_sorted(ms0, i2, j2);
            }
            assert(ms_geometry_ok(ms0));
        }
        // Reconstruct the (mnemonic, statements) pairs from the stream.
        let mut pairs: Vec<(Mnemonic, Vec<Statement>)> = Vec::new();
        let mut i: usize = 0;
        while i < n
            invariant
                i <= n,
                n == ms0.len(),
                *self == *old(self),
                ms0 == self.ms(),
                old(self).wf(),
                ms_geometry_ok(ms0),
                pairs.deep_view().len() == i,
                forall|x: int| 0 <= x < i ==> (#[trigger] pairs.deep_view()[x]).0 == ms0[x],
            decreases n - i,
        {
            let mne = self.mnemonics[i].clone();
            let lo = self.mnemonics[i].statements.start;
            let hi = self.mnemonics[i].statements.end;
            proof {
                assert(ms0[i as int].s_start <= ms0[i as int].s_end <= self.code@.len());
            }
            let mut stmts: Vec<Statement> = Vec::new();
            let mut j = lo;
            while j < hi
                invariant
                    lo <= j <= hi <= self.code@.len(),
                decreases hi - j,
            {
                stmts.push(self.code[j].clone());
                j = j + 1;
            }
            let ghost pre = pairs.deep_view();
            pairs.push((mne, stmts));
            proof {
                assert forall|x: int| 0 <= x < pre.len() implies #[trigger] pairs.deep_view()[x]
                    == pre[x] by {
                    assert(pairs@[x] == pairs@.subrange(0, pre.len() as int)[x]);
                }
                assert(pairs.deep_view()[pre.len() as int].0 == mne@);
            }
            i = i + 1;
        }
        proof {
            assert(pairs_sorted(pairs.deep_view()));
        }
        // Rebuild the jump list and the seed set from the graph's edges.
        let (mut jumps, starts) = self.rebuild_jumps();
        let ghost rebuilt = jumps.deep_view();
        let ghost seeds = starts@;
        let entry = self.entry_address();
        proof {
            assert(pair_start_present(pairs.deep_view(), entry)) by {
                let eb = old(self).entry_point.index as int;
                assert(0 <= m0(old(self).bs(), eb) < ms0.len());
                assert(ms0[m0(old(self).bs(), eb)].start == entry);
                assert(pairs.deep_view()[m0(old(self).bs(), eb)].0.start == entry);
            }
        }
        let ghost pairs0 = pairs.deep_view();
        let ghost jumps0 = jumps.deep_view();
        match disassemble::<A>(&init, starts, region, &mut pairs, &mut jumps) {
            Ok(()) => {},
            Err(err) => {
                proof {
                    // with every seed already decoded, the re-disassembly
                    // would have left everything alone and succeeded
                    if seeds_known(*old(self)) {
                        assert forall|i2: int|
                            0 <= i2 < seeds.len() implies pair_start_present(
                            pairs0,
                            #[trigger] seeds[i2],
                        ) by {
                            assert(start_decoded(ms0, seeds[i2]));
                            let x = choose|x: int|
                                0 <= x < ms0.len() && (#[trigger] ms0[x]).start == seeds[i2];
                            assert(pairs0[x].0.start == seeds[i2]);
                        }
                        assert(false);
                    }
                }
                return Err(err);
            },
        }
        proof {
            assert(pair_start_present(pairs.deep_view(), entry));
            let ps = pairs.deep_view();
            let y = choose|y: int| 0 <= y < ps.len() && (#[trigger] ps[y]).0.start == entry;
            assert(pair_mnes(ps)[y] == ps[y].0);
        }
        let ghost pairs_final = pairs.deep_view();
        let ghost js_final = jumps.deep_view();
        proof {
            assert forall|x: int|
                0 <= x < rebuilt.len() implies #[trigger] js_final[x] == rebuilt[x] by {
                assert(js_final[x] == jumps@[x]@);
                assert(jumps0[x] == rebuilt[x]);
            }
        }
        match assemble(entry, pairs, jumps) {
            Err(err) => {
                proof {
                    assert(false);
                }
                Err(err)
            },
            Ok(a) => {
                self.code = a.code;
                self.basic_blocks = a.basic_blocks;
                self.mnemonics = a.mnemonics;
                self.cflow_graph = a.cflow_graph;
                self.entry_point = BasicBlockIndex::new(a.entry_point);
                proof {
                    let msi = pair_mnes(pairs_final);
                    // every old mnemonic start survives
                    assert forall|x: int|
                        0 <= x < ms0.len() implies exists|y: int|
                        0 <= y < self.ms().len() && (#[trigger] self.ms()[y]).start
                            == (#[trigger] ms0[x]).start by {
                        assert(pairs0[x].0.start == ms0[x].start);
                        assert(pair_start_present(pairs0, ms0[x].start));
                        assert(pair_start_present(pairs_final, ms0[x].start));
                        let y = choose|y: int|
                            0 <= y < pairs_final.len() && (#[trigger] pairs_final[y]).0.start
                                == ms0[x].start;
                        assert(msi[y] == pairs_final[y].0);
                        assert(crate::assembler::mne_same_except_stmts(self.ms()[y], msi[y]));
                        assert(self.ms()[y].start == ms0[x].start);
                    }
                    // the new graph is correct for a jump list whose prefix
                    // is exactly the rebuilt one
                    assert forall|i2: int|
                        0 <= i2 < msi.len() implies (#[trigger] self.ms()[i2]).start
                            == msi[i2].start by {
                        assert(crate::assembler::mne_same_except_stmts(self.ms()[i2], msi[i2]));
                    }
                    crate::assembler::lemma_cfg_ok_same_starts(
                        self.cflow_graph,
                        self.bs(),
                        msi,
                        self.ms(),
                        js_final,
                    );
                    assert(js_final.take(rebuilt.len() as int) =~= rebuilt);
                    assert(rebuilt == rebuilt_jumps(old(self).cflow_graph, old(self).bs(), old(self).ms()));
                    assert(extend_links(*old(self), *self, js_final));
                }
                Ok(())
            },
        }
    }
}

/// The editable two-level view of a function: for each block, its
/// mnemonics, each paired with its statements.
pub open spec fn editable_model(f: Function) -> Seq<Seq<(MnemonicV, Seq<StatementV>)>> {
    Seq::new(
        f.bs().len(),
        |b: int|
            Seq::new(
                (m1(f.bs(), b) - m0(f.bs(), b)) as nat,
                |j: int|
                    {
                        let i = m0(f.bs(), b) + j;
                        (
                            f.ms()[i],
                            f.code.deep_view().subrange(
                                f.ms()[i].s_start as int,
                                f.ms()[i].s_end as int,
                            ),
                        )
                    },
            ),
    )
}

/// An edited view that `apply_rewrite` accepts: every block keeps at
/// least one mnemonic, mnemonics inside a block are address-contiguous
/// (a zero-width mnemonic at an existing boundary is fine), and block
/// start addresses stay strictly increasing.
pub open spec fn edited_valid(edited: Seq<Seq<(MnemonicV, Seq<StatementV>)>>) -> bool {
    &&& forall|b: int| 0 <= b < edited.len() ==> (#[trigger] edited[b]).len() > 0
    &&& forall|b: int, j: int|
        #![trigger edited[b][j]]
        0 <= b < edited.len() && 0 <= j < edited[b].len() - 1 ==> edited[b][j].0.end == edited[b][j
            + 1].0.start
    &&& forall|b: int|
        0 <= b < edited.len() - 1 ==> (#[trigger] edited[b])[0].0.start < edited[b + 1][0].0.start
}

/// The fields of a `NonContinuousBlock` error name a real fault of the
/// edited view: the named block is empty, has an internal address gap with
/// exactly these endpoints, or starts no earlier than the next block.
pub open spec fn names_violation(
    edited: Seq<Seq<(MnemonicV, Seq<StatementV>)>>,
    blk: usize,
    prev_end: u64,
    next_start: u64,
) -> bool {
    ||| (blk < edited.len() && edited[blk as int].len() == 0)
    ||| (blk < edited.len() && exists|j: int|
        0 <= j < edited[blk as int].len() - 1 && (#[trigger] edited[blk as int][j]).0.end
            == prev_end && edited[blk as int][j + 1].0.start == next_start && prev_end
            != next_start)
    ||| (blk + 1 < edited.len() && edited[blk as int].len() > 0 && edited[blk + 1].len() > 0
        && edited[blk as int][0].0.start == prev_end && edited[blk + 1][0].0.start == next_start
        && prev_end >= next_start)
}

/// How a successful `apply_rewrite` relates the new state to the edited
/// view: same block count, same graph, same entry; each block holds
/// exactly the edited mnemonics, whose recomputed statement ranges hold
/// exactly the edited statements; and the statement stream is rebuilt as
/// exactly the concatenation of the edited lists, block by block.
pub open spec fn rewrite_applied(
    fold: Function,
    fnew: Function,
    edited: Seq<Seq<(MnemonicV, Seq<StatementV>)>>,
) -> bool {
    let bs = fnew.bs();
    &&& bs.len() == fold.bs().len()
    &&& bs.len() == edited.len()
    &&& fnew.cflow_graph == fold.cflow_graph
    &&& fnew.entry_point == fold.entry_point
    &&& forall|b: int| 0 <= b < bs.len() ==> (#[trigger] bs[b]).node == fold.bs()[b].node
    &&& forall|b: int| 0 <= b < bs.len() ==> m1(bs, b) - m0(bs, b) == (#[trigger] edited[b]).len()
    &&& forall|b: int, j: int|
        #![trigger edited[b][j]]
        0 <= b < bs.len() && 0 <= j < edited[b].len() ==> mne_same_except_stmts(
            fnew.ms()[m0(bs, b) + j],
            edited[b][j].0,
        ) && fnew.code.deep_view().subrange(
            fnew.ms()[m0(bs, b) + j].s_start as int,
            fnew.ms()[m0(bs, b) + j].s_end as int,
        ) == edited[b][j].1
    &&& fnew.code.deep_view() == edited_stmts(edited)
}

/// The edited view flattened into one statement stream: the statements of
/// every block in block order, inside each block in mnemonic order.
pub open spec fn edited_stmts(edited: Seq<Seq<(MnemonicV, Seq<StatementV>)>>) -> Seq<StatementV>
    decreases edited.len(),
{
    if edited.len() == 0 {
        Seq::empty()
    } else {
        edited_stmts(edited.drop_last()) + stmts_concat(
            block_stmt_lists(edited, edited.len() - 1),
        )
    }
}

impl Function {
    /// Materializes the editable view: for each block, clones of its
    /// mnemonics, each paired with clones of its statements.
    #[verifier::spinoff_prover]
    #[verifier::rlimit(100)]
    pub fn editable_blocks(&self) -> (r: Vec<Vec<(Mnemonic, Vec<Statement>)>>)
        requires
            self.wf(),
        ensures
            r.deep_view() == editable_model(*self),
    {
        let ghost model = editable_model(*self);
        let mut r: Vec<Vec<(Mnemonic, Vec<Statement>)>> = Vec::new();
        let nblocks = self.basic_blocks.len();
        let mut b: usize = 0;
        while b < nblocks
            invariant
                b <= nblocks,
                nblocks == self.bs().len(),
                self.wf(),
                model == editable_model(*self),
                r.deep_view().len() == b,
                forall|c: int| 0 <= c < b ==> #[trigger] r.deep_view()[c] == model[c],
            decreases nblocks - b,
        {
            let mfirst = self.basic_blocks[b].mnemonics.start.index();
            let mlast = self.basic_blocks[b].mnemonics.end.index();
            proof {
                assert(0 <= m0(self.bs(), b as int) < m1(self.bs(), b as int)
                    <= self.ms().len());
            }
            let mut block: Vec<(Mnemonic, Vec<Statement>)> = Vec::new();
            let mut i = mfirst;
            while i < mlast
                invariant
                    mfirst <= i <= mlast,
                    mfirst == m0(self.bs(), b as int),
                    mlast == m1(self.bs(), b as int),
                    0 <= b < self.bs().len(),
                    mlast <= self.ms().len(),
                    self.wf(),
                    model == editable_model(*self),
                    block.deep_view().len() == i - mfirst,
                    forall|j: int|
                        0 <= j < i - mfirst ==> #[trigger] block.deep_view()[j] == model[
                            b as int
                        ][j],
                decreases mlast - i,
            {
                let mne = self.mnemonics[i].clone();
                let lo = self.mnemonics[i].statements.start;
                let hi = self.mnemonics[i].statements.end;
                proof {
                    assert(self.ms()[i as int].s_start <= self.ms()[i as int].s_end
                        <= self.code@.len());
                }
                let mut stmts: Vec<Statement> = Vec::new();
                let mut j = lo;
                while j < hi
                    invariant
                        lo <= j <= hi <= self.code@.len(),
                        stmts.deep_view() == self.code.deep_view().subrange(lo as int, j as int),
                    decreases hi - j,
                {
                    let st = self.code[j].clone();
                    let ghost pre = stmts.deep_view();
                    stmts.push(st);
                    proof {
                        assert forall|x: int| 0 <= x < pre.len() implies #[trigger] stmts.deep_view()[x]
                            == pre[x] by {
                            assert(stmts@[x] == stmts@.subrange(0, pre.len() as int)[x]);
                        }
                        assert(stmts.deep_view()[pre.len() as int]
                            == self.code.deep_view()[j as int]);
                        assert(stmts.deep_view() =~= self.code.deep_view().subrange(
                            lo as int,
                            j + 1 as int,
                        ));
                    }
                    j = j + 1;
                }
                let ghost pre = block.deep_view();
                block.push((mne, stmts));
                proof {
                    assert forall|x: int| 0 <= x < pre.len() implies #[trigger] block.deep_view()[x]
                        == pre[x] by {
                        assert(block@[x] == block@.subrange(0, pre.len() as int)[x]);
                    }
                    assert(block.deep_view()[pre.len() as int] == model[b as int][pre.len() as int]);
                }
                i = i + 1;
            }
            let ghost pre = r.deep_view();
            r.push(block);
            proof {
                assert forall|x: int| 0 <= x < pre.len() implies #[trigger] r.deep_view()[x]
                    == pre[x] by {
                    assert(r@[x] == r@.subrange(0, pre.len() as int)[x]);
                }
                assert(r.deep_view()[pre.len() as int] =~= model[b as int]);
            }
            b = b + 1;
        }
        proof {
            assert(r.deep_view() =~= model);
        }
        r
    }

    /// Replaces the per-block mnemonic and statement lists by the edited
    /// view, recomputing every statement range, block mnemonic range and
    /// block area. The caller may not change the number of blocks; the
    /// graph and the entry index stay as they are.
    ///
    /// Fails with `NonContinuousBlock` — leaving the function unchanged —
    /// exactly when the edited view breaks a block: an emptied block, an
    /// address gap between a block's mnemonics, or block start addresses
    /// out of order.
    #[verifier::rlimit(100)]
    pub fn apply_rewrite(&mut self, blocks: Vec<Vec<(Mnemonic, Vec<Statement>)>>) -> (r: Result<
        (),
        Error,
    >)
        requires
            old(self).wf(),
            blocks.deep_view().len() == old(self).bs().len(),
        ensures
            (r is Ok) <==> edited_valid(blocks.deep_view()),
            r is Err ==> *final(self) == *old(self),
            r matches Err(e) ==> (e matches Error::NonContinuousBlock { block, prev_end, next_start }
                && names_violation(blocks.deep_view(), block, prev_end, next_start)),
            r is Ok ==> final(self).wf() && final(self).same_meta(old(self)) && rewrite_applied(
                *old(self),
                *final(self),
                blocks.deep_view(),
            ),
    {
        let ghost edited = blocks.deep_view();
        let nblocks = blocks.len();
        // Validation pass: nothing is mutated before it succeeds.
        let mut b: usize = 0;
        while b < nblocks
            invariant
                b <= nblocks,
                nblocks == edited.len(),
                edited == blocks.deep_view(),
                *self == *old(self),
                forall|c: int| 0 <= c < b ==> (#[trigger] edited[c]).len() > 0,
                forall|c: int, j: int|
                    #![trigger edited[c][j]]
                    0 <= c < b && 0 <= j < edited[c].len() - 1 ==> edited[c][j].0.end == edited[c][j
                        + 1].0.start,
                forall|c: int|
                    0 <= c < b && c + 1 < nblocks ==> (#[trigger] edited[c])[0].0.start < edited[c
                        + 1][0].0.start,
            decreases nblocks - b,
        {
            if blocks[b].len() == 0 {
                proof {
                    assert(edited[b as int] == blocks@[b as int].deep_view());
                    assert(edited[b as int].len() == 0);
                    assert(!edited_valid(edited));
                    assert(names_violation(edited, b, 0, 0));
                }
                return Err(Error::NonContinuousBlock { block: b, prev_end: 0, next_start: 0 });
            }
            let mut j: usize = 0;
            while j + 1 < blocks[b].len()
                invariant
                    0 <= b < nblocks,
                    nblocks == edited.len(),
                    edited == blocks.deep_view(),
                    *self == *old(self),
                    j < edited[b as int].len(),
                    forall|x: int|
                        0 <= x < j ==> (#[trigger] edited[b as int][x]).0.end == edited[b as int][x
                            + 1].0.start,
                decreases edited[b as int].len() - j,
            {
                proof {
                    assert(edited[b as int] == blocks@[b as int].deep_view());
                    assert(edited[b as int][j as int] == blocks@[b as int]@[j as int].deep_view());
                    assert(edited[b as int][j + 1] == blocks@[b as int]@[j + 1].deep_view());
                }
                if blocks[b][j].0.area.end != blocks[b][j + 1].0.area.start {
                    proof {
                        assert(!edited_valid(edited));
                        assert(edited[b as int][j as int].0.end == blocks@[b as int]@[j as int].0@.end);
                        assert(names_violation(
                            edited,
                            b,
                            blocks@[b as int]@[j as int].0@.end,
                            blocks@[b as int]@[j + 1].0@.start,
                        ));
                    }
                    return Err(Error::NonContinuousBlock {
                        block: b,
                        prev_end: blocks[b][j].0.area.end,
                        next_start: blocks[b][j + 1].0.area.start,
                    });
                }
                j = j + 1;
            }
            if b + 1 < nblocks {
                if blocks[b + 1].len() == 0 {
                    proof {
                        assert(edited[b + 1] == blocks@[b + 1].deep_view());
                        assert(edited[b + 1].len() == 0);
                        assert(!edited_valid(edited));
                        assert(names_violation(edited, (b + 1) as usize, 0, 0));
                    }
                    return Err(Error::NonContinuousBlock { block: b + 1, prev_end: 0, next_start: 0 });
                }
                proof {
                    assert(edited[b as int] == blocks@[b as int].deep_view());
                    assert(edited[b as int][0] == blocks@[b as int]@[0].deep_view());
                    assert(edited[b + 1] == blocks@[b + 1].deep_view());
                    assert(edited[b + 1][0] == blocks@[b + 1]@[0].deep_view());
                }
                if blocks[b][0].0.area.start >= blocks[b + 1][0].0.area.start {
                    proof {
                        assert(!edited_valid(edited));
                        assert(names_violation(
                            edited,
                            b,
                            blocks@[b as int]@[0].0@.start,
                            blocks@[b + 1]@[0].0@.start,
                        ));
                    }
                    return Err(Error::NonContinuousBlock {
                        block: b,
                        prev_end: blocks[b][0].0.area.start,
                        next_start: blocks[b + 1][0].0.area.start,
                    });
                }
            }
            b = b + 1;
        }
        proof {
            assert(edited_valid(edited));
        }
        self.apply_validated(blocks);
        Ok(())
    }
}

proof fn lemma_adjacent_blocks(bs: Seq<BasicBlock>, i: int, j: int)
    requires
        forall|k: int| 0 <= k < bs.len() - 1 ==> (#[trigger] bs[k]).area.start < bs[k + 1].area.start,
        0 <= i < j < bs.len(),
    ensures
        bs[i].area.start < bs[j].area.start,
    decreases j - i,
{
    if i + 1 < j {
        lemma_adjacent_blocks(bs, i + 1, j);
    }
}

/// Collects the rebuilt parts' well-formedness and content facts after a
/// rewrite.
#[verifier::spinoff_prover]
#[verifier::rlimit(100)]
proof fn lemma_finish_rewrite(
    fin_ms: Seq<MnemonicV>,
    bs: Seq<BasicBlock>,
    g: ControlFlowGraph,
    code_d: Seq<StatementV>,
    ps: Seq<(MnemonicV, Seq<StatementV>)>,
    edited: Seq<Seq<(MnemonicV, Seq<StatementV>)>>,
    order: Seq<usize>,
    ranges: Seq<(usize, usize)>,
    entry: int,
    old_bs: Seq<BasicBlock>,
)
    requires
        edited_valid(edited),
        bs.len() == edited.len() == old_bs.len(),
        0 <= entry < bs.len(),
        bs.len() <= usize::MAX,
        blocks_shape(bs, ps.len() as int),
        forall|c: int| 0 <= c < bs.len() ==> m1(bs, c) - m0(bs, c) == (#[trigger] edited[c]).len(),
        forall|c: int, j: int|
            #![trigger edited[c][j]]
            0 <= c < bs.len() && 0 <= j < edited[c].len() ==> ps[m0(bs, c) + j] == edited[c][j],
        forall|c: int| 0 <= c < bs.len() ==> (#[trigger] bs[c]).node == old_bs[c].node,
        forall|c: int|
            0 <= c < bs.len() ==> (#[trigger] bs[c]).area.start == edited[c][0].0.start
                && bs[c].area.end == edited[c][edited[c].len() - 1].0.end,
        cfg_nodes_ok(g.nodes_v(), bs.len() as int),
        g.edges_closed(),
        forall|e: int| 0 <= e < g.edges@.len() ==> (#[trigger] g.edges@[e]).source < bs.len(),
        forall|c: int| 0 <= c < old_bs.len() ==> (#[trigger] old_bs[c]).node.index == c,
        ranges.len() == ps.len(),
        fin_ms.len() == ps.len(),
        forall|x: int|
            0 <= x < fin_ms.len() ==> mne_same_except_stmts(#[trigger] fin_ms[x], ps[x].0)
                && fin_ms[x].s_start == ranges[x].0 && fin_ms[x].s_end == ranges[x].1,
        forall|p: int|
            0 <= p < order.len() && (#[trigger] order[p]) < bs.len() ==> block_laid_out(
                ranges,
                code_d,
                ps,
                bs,
                order[p] as int,
            ),
        forall|c: int|
            #![trigger bs[c]]
            0 <= c < bs.len() && !order.contains(c as usize) ==> crate::assembler::block_not_laid_out(
                ranges,
                bs,
                c,
            ),
        forall|c: int| 0 <= c < bs.len() ==> #[trigger] order.contains(c as usize),
    ensures
        parts_wf(fin_ms, bs, g, code_d.len() as int, entry),
        forall|c: int, j: int|
            #![trigger edited[c][j]]
            0 <= c < bs.len() && 0 <= j < edited[c].len() ==> mne_same_except_stmts(
                fin_ms[m0(bs, c) + j],
                edited[c][j].0,
            ) && code_d.subrange(
                fin_ms[m0(bs, c) + j].s_start as int,
                fin_ms[m0(bs, c) + j].s_end as int,
            ) == edited[c][j].1,
{
    assert forall|c: int|
        0 <= c < bs.len() implies (#[trigger] bs[c]).area.start == fin_ms[m0(bs, c)].start
        && bs[c].area.end == fin_ms[m1(bs, c) - 1].end by {
        assert(0 <= m0(bs, c) < m1(bs, c) <= ps.len());
        assert(ps[m0(bs, c) + 0] == edited[c][0]);
        assert(ps[m0(bs, c) + (edited[c].len() - 1)] == edited[c][edited[c].len() - 1]);
    }
    assert forall|c: int, i2: int|
        #![trigger m0(bs, c), fin_ms[i2]]
        0 <= c < bs.len() && m0(bs, c) <= i2 < m1(bs, c) - 1 implies fin_ms[i2].end == fin_ms[i2
        + 1].start && fin_ms[i2].s_end == fin_ms[i2 + 1].s_start by {
        let j = i2 - m0(bs, c);
        assert(ps[m0(bs, c) + j] == edited[c][j]);
        assert(ps[m0(bs, c) + (j + 1)] == edited[c][j + 1]);
        assert(edited[c][j].0.end == edited[c][j + 1].0.start);
        crate::assembler::lemma_block_layout_cases(ranges, code_d, ps, bs, order, c);
        assert(block_laid_out(ranges, code_d, ps, bs, c));
    }
    assert forall|b1: int, b2: int|
        0 <= b1 < b2 < bs.len() implies (#[trigger] bs[b1]).area.start < (
    #[trigger] bs[b2]).area.start by {
        assert forall|k: int|
            0 <= k < bs.len() - 1 implies (#[trigger] bs[k]).area.start < bs[k + 1].area.start by {
            assert(edited[k][0].0.start < edited[k + 1][0].0.start);
        }
        lemma_adjacent_blocks(bs, b1, b2);
    }
    assert forall|i2: int|
        0 <= i2 < fin_ms.len() implies (#[trigger] fin_ms[i2]).s_start <= fin_ms[i2].s_end
        <= code_d.len() by {
        crate::assembler::lemma_block_range_bounds(ranges, code_d, ps, bs, order, i2);
    }
    assert forall|c: int, j: int|
        #![trigger edited[c][j]]
        0 <= c < bs.len() && 0 <= j < edited[c].len() implies mne_same_except_stmts(
        fin_ms[m0(bs, c) + j],
        edited[c][j].0,
    ) && code_d.subrange(
        fin_ms[m0(bs, c) + j].s_start as int,
        fin_ms[m0(bs, c) + j].s_end as int,
    ) == edited[c][j].1 by {
        lemma_rewrite_one_mnemonic(fin_ms, bs, code_d, ps, edited, order, ranges, c, j);
    }
}

/// Content of one rebuilt mnemonic.
#[verifier::spinoff_prover]
proof fn lemma_rewrite_one_mnemonic(
    fin_ms: Seq<MnemonicV>,
    bs: Seq<BasicBlock>,
    code_d: Seq<StatementV>,
    ps: Seq<(MnemonicV, Seq<StatementV>)>,
    edited: Seq<Seq<(MnemonicV, Seq<StatementV>)>>,
    order: Seq<usize>,
    ranges: Seq<(usize, usize)>,
    c: int,
    j: int,
)
    requires
        bs.len() == edited.len(),
        bs.len() <= usize::MAX,
        blocks_shape(bs, ps.len() as int),
        forall|c2: int|
            0 <= c2 < bs.len() ==> m1(bs, c2) - m0(bs, c2) == (#[trigger] edited[c2]).len(),
        forall|c2: int, j2: int|
            #![trigger edited[c2][j2]]
            0 <= c2 < bs.len() && 0 <= j2 < edited[c2].len() ==> ps[m0(bs, c2) + j2] == edited[c2][j2],
        ranges.len() == ps.len(),
        fin_ms.len() == ps.len(),
        forall|x: int|
            0 <= x < fin_ms.len() ==> mne_same_except_stmts(#[trigger] fin_ms[x], ps[x].0)
                && fin_ms[x].s_start == ranges[x].0 && fin_ms[x].s_end == ranges[x].1,
        forall|p: int|
            0 <= p < order.len() && (#[trigger] order[p]) < bs.len() ==> block_laid_out(
                ranges,
                code_d,
                ps,
                bs,
                order[p] as int,
            ),
        forall|c2: int|
            #![trigger bs[c2]]
            0 <= c2 < bs.len() && !order.contains(c2 as usize)
                ==> crate::assembler::block_not_laid_out(ranges, bs, c2),
        0 <= c < bs.len(),
        0 <= j < edited[c].len(),
        order.contains(c as usize),
    ensures
        mne_same_except_stmts(fin_ms[m0(bs, c) + j], edited[c][j].0),
        code_d.subrange(
            fin_ms[m0(bs, c) + j].s_start as int,
            fin_ms[m0(bs, c) + j].s_end as int,
        ) == edited[c][j].1,
{
    let i2 = m0(bs, c) + j;
    assert(ps[i2] == edited[c][j]);
    crate::assembler::lemma_block_layout_cases(ranges, code_d, ps, bs, order, c);
    assert(block_laid_out(ranges, code_d, ps, bs, c));
    assert(code_d.subrange(ranges[i2].0 as int, ranges[i2].1 as int) == ps[i2].1);
}

/// A run of pairs that mirrors one edited block concatenates to that
/// block's statement lists.
proof fn lemma_stmts_upto_lists(
    ps: Seq<(MnemonicV, Seq<StatementV>)>,
    lo: int,
    block: Seq<(MnemonicV, Seq<StatementV>)>,
)
    requires
        0 <= lo,
        lo + block.len() <= ps.len(),
        forall|j: int| 0 <= j < block.len() ==> ps[lo + j] == (#[trigger] block[j]),
    ensures
        stmts_upto(ps, lo, lo + block.len()) == stmts_concat(
            Seq::new(block.len(), |j: int| block[j].1),
        ),
    decreases block.len(),
{
    let lists = Seq::new(block.len(), |j: int| block[j].1);
    if block.len() > 0 {
        let head = block.drop_last();
        lemma_stmts_upto_lists(ps, lo, head);
        assert(lists.drop_last() =~= Seq::new(head.len(), |j: int| head[j].1));
        assert(lists.last() == block[block.len() - 1].1);
        assert(ps[lo + block.len() - 1] == block[block.len() - 1]);
        assert(stmts_upto(ps, lo, lo + block.len()) == stmts_upto(ps, lo, lo + block.len() - 1)
            + ps[lo + block.len() - 1].1);
    } else {
        assert(lists =~= Seq::<Seq<StatementV>>::empty());
    }
}

/// Walking the blocks in index order emits exactly the edited view's
/// flattened statement stream.
proof fn lemma_identity_walk_stmts(
    ps: Seq<(MnemonicV, Seq<StatementV>)>,
    bs: Seq<BasicBlock>,
    edited: Seq<Seq<(MnemonicV, Seq<StatementV>)>>,
    order: Seq<usize>,
    k: int,
)
    requires
        bs.len() == edited.len(),
        order.len() >= k,
        0 <= k <= bs.len(),
        forall|x: int| 0 <= x < order.len() ==> (#[trigger] order[x]) == x,
        blocks_shape(bs, ps.len() as int),
        forall|c: int| 0 <= c < bs.len() ==> m1(bs, c) - m0(bs, c) == (#[trigger] edited[c]).len(),
        forall|c: int, j: int|
            #![trigger edited[c][j]]
            0 <= c < bs.len() && 0 <= j < edited[c].len() ==> ps[m0(bs, c) + j] == edited[c][j],
    ensures
        walk_stmts(ps, bs, order.take(k)) == edited_stmts(edited.take(k)),
    decreases k,
{
    if k == 0 {
        assert(order.take(0) =~= Seq::<usize>::empty());
        assert(edited.take(0) =~= Seq::<Seq<(MnemonicV, Seq<StatementV>)>>::empty());
    } else {
        lemma_identity_walk_stmts(ps, bs, edited, order, k - 1);
        let b = k - 1;
        assert(order.take(k).drop_last() =~= order.take(k - 1));
        assert(order.take(k).last() == order[b]);
        assert(edited.take(k).drop_last() =~= edited.take(k - 1));
        assert(0 <= m0(bs, b) && m0(bs, b) + edited[b].len() == m1(bs, b) && m1(bs, b)
            <= ps.len());
        assert forall|j: int|
            0 <= j < edited[b].len() implies ps[m0(bs, b) + j] == (#[trigger] edited[b][j]) by {}
        lemma_stmts_upto_lists(ps, m0(bs, b), edited[b]);
        assert(block_stmt_lists(edited.take(k), k - 1) =~= Seq::new(
            edited[b].len(),
            |j: int| edited[b][j].1,
        ));
        assert(walk_stmts(ps, bs, order.take(k)) == walk_stmts(ps, bs, order.take(k - 1))
            + stmts_upto(ps, m0(bs, b), m1(bs, b)));
        assert(edited_stmts(edited.take(k)) == edited_stmts(edited.take(k - 1)) + stmts_concat(
            block_stmt_lists(edited.take(k), k - 1),
        ));
    }
}

impl Function {
    /// Rebuilds the body from a validated edited view.
    #[verifier::rlimit(100)]
    fn apply_validated(&mut self, blocks: Vec<Vec<(Mnemonic, Vec<Statement>)>>)
        requires
            old(self).wf(),
            blocks.deep_view().len() == old(self).bs().len(),
            edited_valid(blocks.deep_view()),
        ensures
            final(self).wf(),
            final(self).same_meta(old(self)),
            rewrite_applied(*old(self), *final(self), blocks.deep_view()),
    {
        let ghost edited = blocks.deep_view();
        let (pairs, blocks2) = flatten_edited(&blocks, &self.basic_blocks);
        let nblocks = blocks2.len();
        let mut order: Vec<usize> = Vec::new();
        let mut p: usize = 0;
        while p < nblocks
            invariant
                p <= nblocks,
                order@.len() == p,
                forall|x: int| 0 <= x < p ==> #[trigger] order@[x] == x,
            decreases nblocks - p,
        {
            order.push(p);
            p = p + 1;
        }
        proof {
            assert(order@.no_duplicates());
            assert forall|c: int| 0 <= c < blocks2@.len() implies #[trigger] order@.contains(c as usize) by {
                assert(order@[c] == c as usize);
            }
        }
        let (code2, ranges) = layout_statements(&order, &blocks2, &pairs);
        let fin = attach_ranges(&pairs, &ranges);
        let nb = blocks2.len();
        proof {
            assert(nb <= usize::MAX);
            lemma_finish_rewrite(
                fin.deep_view(),
                blocks2@,
                old(self).cflow_graph,
                code2.deep_view(),
                pairs.deep_view(),
                edited,
                order@,
                ranges@,
                old(self).entry_point.index as int,
                old(self).bs(),
            );
            lemma_identity_walk_stmts(pairs.deep_view(), blocks2@, edited, order@, nb as int);
            assert(order@.take(nb as int) =~= order@);
            assert(edited.take(nb as int) =~= edited);
            assert(code2.deep_view() == edited_stmts(edited));
        }
        self.mnemonics = fin;
        self.code = code2;
        self.basic_blocks = blocks2;
    }

    /// Hands the caller the editable two-level view, applies the caller's
    /// transformer to it, and rebuilds the body from the result; the
    /// control-flow graph and the block count are unchanged. An error from
    /// the transformer, or an edited view that breaks a block
    /// (`NonContinuousBlock`), leaves the function as it was.
    pub fn rewrite<F: FnOnce(Vec<Vec<(Mnemonic, Vec<Statement>)>>) -> Result<
        Vec<Vec<(Mnemonic, Vec<Statement>)>>,
        Error,
    >>(&mut self, f: F) -> (r: Result<(), Error>)
        requires
            old(self).wf(),
            forall|v: Vec<Vec<(Mnemonic, Vec<Statement>)>>| #[trigger] f.requires((v,)),
        ensures
            r is Err ==> *final(self) == *old(self),
            r matches Err(e) ==> ((exists|arg: Vec<Vec<(Mnemonic, Vec<Statement>)>>|
                arg.deep_view() == editable_model(*old(self)) && #[trigger] call_ensures(
                    f,
                    (arg,),
                    Err::<Vec<Vec<(Mnemonic, Vec<Statement>)>>, Error>(e),
                )) || (e matches Error::NonContinuousBlock { block, prev_end, next_start }
                && (exists|
                arg: Vec<Vec<(Mnemonic, Vec<Statement>)>>,
                edited: Vec<Vec<(Mnemonic, Vec<Statement>)>>,
            |
                {
                    &&& arg.deep_view() == editable_model(*old(self))
                    &&& #[trigger] call_ensures(
                        f,
                        (arg,),
                        Ok::<Vec<Vec<(Mnemonic, Vec<Statement>)>>, Error>(edited),
                    )
                    &&& (edited.deep_view().len() != old(self).bs().len() || names_violation(
                        edited.deep_view(),
                        block,
                        prev_end,
                        next_start,
                    ))
                }))),
            r is Ok ==> final(self).wf() && final(self).same_meta(old(self)) && (exists|
                arg: Vec<Vec<(Mnemonic, Vec<Statement>)>>,
                edited: Vec<Vec<(Mnemonic, Vec<Statement>)>>,
            |
                {
                    &&& arg.deep_view() == editable_model(*old(self))
                    &&& #[trigger] call_ensures(
                        f,
                        (arg,),
                        Ok::<Vec<Vec<(Mnemonic, Vec<Statement>)>>, Error>(edited),
                    )
                    &&& edited.deep_view().len() == old(self).bs().len()
                    &&& edited_valid(edited.deep_view())
                    &&& rewrite_applied(*old(self), *final(self), edited.deep_view())
                }),
    {
        let view = self.editable_blocks();
        let ghost argv = view;
        let edited = match f(view) {
            Ok(e) => e,
            Err(err) => {
                proof {
                    assert(argv.deep_view() == editable_model(*old(self)));
                    assert(call_ensures(
                        f,
                        (argv,),
                        Err::<Vec<Vec<(Mnemonic, Vec<Statement>)>>, Error>(err),
                    ));
                }
                return Err(err);
            },
        };
        if edited.len() != self.basic_blocks.len() {
            // The caller may not change the number of blocks.
            proof {
                assert(argv.deep_view() == editable_model(*old(self)));
                assert(call_ensures(
                    f,
                    (argv,),
                    Ok::<Vec<Vec<(Mnemonic, Vec<Statement>)>>, Error>(edited),
                ));
                assert(edited.deep_view().len() != old(self).bs().len());
            }
            return Err(Error::NonContinuousBlock { block: 0, prev_end: 0, next_start: 0 });
        }
        let ghost editedg = edited;
        match self.apply_rewrite(edited) {
            Ok(()) => {
                proof {
                    assert(argv.deep_view() == editable_model(*old(self)));
                    assert(call_ensures(
                        f,
                        (argv,),
                        Ok::<Vec<Vec<(Mnemonic, Vec<Statement>)>>, Error>(editedg),
                    ));
                }
                Ok(())
            },
            Err(err) => {
                proof {
                    assert(argv.deep_view() == editable_model(*old(self)));
                    assert(call_ensures(
                        f,
                        (argv,),
                        Ok::<Vec<Vec<(Mnemonic, Vec<Statement>)>>, Error>(editedg),
                    ));
                }
                Err(err)
            },
        }
    }
}

/// Appends clones of one block's pairs to the flat pair vector.
fn flatten_one_block(pairs: &mut Vec<(Mnemonic, Vec<Statement>)>, block: &Vec<(Mnemonic, Vec<Statement>)>)
    ensures
        final(pairs).deep_view().len() == old(pairs).deep_view().len() + block.deep_view().len(),
        forall|x: int|
            0 <= x < old(pairs).deep_view().len() ==> #[trigger] final(pairs).deep_view()[x]
                == old(pairs).deep_view()[x],
        forall|x: int|
            0 <= x < block.deep_view().len() ==> #[trigger] final(pairs).deep_view()[old(
                pairs,
            ).deep_view().len() + x] == block.deep_view()[x],
{
    let ghost pairs0 = pairs.deep_view();
    let ghost eb = block.deep_view();
    let fst = pairs.len();
    let blen = block.len();
    let mut j: usize = 0;
    while j < blen
        invariant
            j <= blen,
            blen == eb.len(),
            eb == block.deep_view(),
            fst == pairs0.len(),
            pairs0 == old(pairs).deep_view(),
            pairs.deep_view().len() == fst + j,
            forall|x: int| 0 <= x < fst ==> #[trigger] pairs.deep_view()[x] == pairs0[x],
            forall|x: int| 0 <= x < j ==> #[trigger] pairs.deep_view()[fst + x] == eb[x],
        decreases blen - j,
    {
        proof {
            assert(eb[j as int] == block@[j as int].deep_view());
        }
        let mne = block[j].0.clone();
        let stmts = block[j].1.clone();
        proof {
            assert(stmts.deep_view() =~= block@[j as int].1.deep_view());
        }
        let ghost pre = pairs.deep_view();
        pairs.push((mne, stmts));
        proof {
            assert forall|x: int| 0 <= x < pre.len() implies #[trigger] pairs.deep_view()[x]
                == pre[x] by {
                assert(pairs@[x] == pairs@.subrange(0, pre.len() as int)[x]);
            }
            assert(pairs.deep_view()[pre.len() as int] == (mne@, stmts.deep_view()));
            assert(pairs.deep_view()[fst + j] == eb[j as int]);
        }
        j = j + 1;
    }
}

/// Flattens an edited two-level view into one pair vector plus the block
/// ranges over it, copying each block's graph node from `old_blocks`.
#[verifier::spinoff_prover]
#[verifier::rlimit(100)]
fn flatten_edited(blocks: &Vec<Vec<(Mnemonic, Vec<Statement>)>>, old_blocks: &Vec<BasicBlock>) -> (r: (
    Vec<(Mnemonic, Vec<Statement>)>,
    Vec<BasicBlock>,
))
    requires
        edited_valid(blocks.deep_view()),
        blocks.deep_view().len() == old_blocks@.len(),
    ensures
        ({
            let edited = blocks.deep_view();
            let pairs = r.0.deep_view();
            let bs2 = r.1@;
            &&& bs2.len() == edited.len()
            &&& blocks_shape(bs2, pairs.len() as int)
            &&& forall|c: int|
                0 <= c < bs2.len() ==> m1(bs2, c) - m0(bs2, c) == (#[trigger] edited[c]).len()
            &&& forall|c: int, j: int|
                #![trigger edited[c][j]]
                0 <= c < bs2.len() && 0 <= j < edited[c].len() ==> pairs[m0(bs2, c) + j]
                    == edited[c][j]
            &&& forall|c: int| 0 <= c < bs2.len() ==> (#[trigger] bs2[c]).node == old_blocks@[c].node
            &&& forall|c: int|
                0 <= c < bs2.len() ==> (#[trigger] bs2[c]).area.start == edited[c][0].0.start
                    && bs2[c].area.end == edited[c][edited[c].len() - 1].0.end
        }),
{
    let ghost edited = blocks.deep_view();
    let nblocks = blocks.len();
    let mut pairs: Vec<(Mnemonic, Vec<Statement>)> = Vec::new();
    let mut blocks2: Vec<BasicBlock> = Vec::new();
    let mut b: usize = 0;
    #[verifier::loop_isolation(true)]
    while b < nblocks
        invariant
            b <= nblocks,
            nblocks == edited.len(),
            nblocks == blocks@.len(),
            edited == blocks.deep_view(),
            nblocks == old_blocks@.len(),
            edited_valid(edited),
            blocks2@.len() == b,
            b > 0 ==> m0(blocks2@, 0) == 0 && m1(blocks2@, b - 1) == pairs.deep_view().len(),
            b == 0 ==> pairs.deep_view().len() == 0,
            forall|c: int|
                0 <= c < b ==> m0(blocks2@, c) < #[trigger] m1(blocks2@, c)
                    <= pairs.deep_view().len(),
            forall|c: int| 0 <= c < b - 1 ==> #[trigger] m1(blocks2@, c) == m0(blocks2@, c + 1),
            forall|c: int|
                0 <= c < b ==> m1(blocks2@, c) - m0(blocks2@, c) == (#[trigger] edited[c]).len(),
            forall|c: int, j: int|
                #![trigger edited[c][j]]
                0 <= c < b && 0 <= j < edited[c].len() ==> pairs.deep_view()[m0(blocks2@, c) + j]
                    == edited[c][j],
            forall|c: int| 0 <= c < b ==> (#[trigger] blocks2@[c]).node == old_blocks@[c].node,
            forall|c: int|
                0 <= c < b ==> (#[trigger] blocks2@[c]).area.start == edited[c][0].0.start
                    && blocks2@[c].area.end == edited[c][edited[c].len() - 1].0.end,
        decreases nblocks - b,
    {
        let fst = pairs.len();
        let blen = blocks[b].len();
        proof {
            assert(edited[b as int] == blocks@[b as int].deep_view());
            assert(blen == edited[b as int].len());
            assert(blen > 0);
        }
        flatten_one_block(&mut pairs, &blocks[b]);
        let last = blen - 1;
        proof {
            assert(edited[b as int] == blocks@[b as int].deep_view());
            assert(edited[b as int][0] == blocks@[b as int]@[0].deep_view());
            assert(edited[b as int][last as int] == blocks@[b as int]@[last as int].deep_view());
            assert forall|x: int|
                0 <= x < edited[b as int].len() implies #[trigger] pairs.deep_view()[fst + x]
                == edited[b as int][x] by {}
        }
        let area_start = blocks[b][0].0.area.start;
        let area_end = blocks[b][last].0.area.end;
        let node = old_blocks[b].node;
        let ghost bpre = blocks2@;
        blocks2.push(
            BasicBlock {
                mnemonics: MnemonicIndex::new(fst)..MnemonicIndex::new(pairs.len()),
                node,
                area: area_start..area_end,
            },
        );
        proof {
            assert forall|c: int|
                0 <= c < bpre.len() implies m0(blocks2@, c) == m0(bpre, c) && #[trigger] m1(
                blocks2@,
                c,
            ) == m1(bpre, c) && blocks2@[c] == bpre[c] by {}
        }
        b = b + 1;
    }
    (pairs, blocks2)
}

/// Clones each pair's mnemonic with its statement range replaced by the
/// recorded one.
fn attach_ranges(pairs: &Vec<(Mnemonic, Vec<Statement>)>, ranges: &Vec<(usize, usize)>) -> (r: Vec<
    Mnemonic,
>)
    requires
        ranges@.len() == pairs.deep_view().len(),
    ensures
        r.deep_view().len() == pairs.deep_view().len(),
        forall|x: int|
            0 <= x < r.deep_view().len() ==> mne_same_except_stmts(
                #[trigger] r.deep_view()[x],
                pairs.deep_view()[x].0,
            ) && r.deep_view()[x].s_start == ranges@[x].0 && r.deep_view()[x].s_end == ranges@[x].1,
{
    let n = pairs.len();
    let mut fin: Vec<Mnemonic> = Vec::new();
    let mut i: usize = 0;
    while i < n
        invariant
            i <= n,
            n == pairs.deep_view().len(),
            ranges@.len() == n,
            fin.deep_view().len() == i,
            forall|x: int|
                0 <= x < i ==> mne_same_except_stmts(
                    #[trigger] fin.deep_view()[x],
                    pairs.deep_view()[x].0,
                ) && fin.deep_view()[x].s_start == ranges@[x].0 && fin.deep_view()[x].s_end
                    == ranges@[x].1,
        decreases n - i,
    {
        let mut m = pairs[i].0.clone();
        m.statements = ranges[i].0..ranges[i].1;
        let ghost pre = fin.deep_view();
        fin.push(m);
        proof {
            assert forall|x: int| 0 <= x < pre.len() implies #[trigger] fin.deep_view()[x]
                == pre[x] by {
                assert(fin@[x] == fin@.subrange(0, pre.len() as int)[x]);
            }
            assert(fin.deep_view()[pre.len() as int] == m@);
        }
        i = i + 1;
    }
    fin
}

/// Converts a stored value back to the r-value form callers see.
fn value_to_rvalue(v: &Value) -> (r: Rvalue)
    ensures
        r@ == rvalue_of(v@),
{
    match v {
        Value::Constant(c) => Rvalue::Constant { value: c.value, size: c.bits },
        Value::Variable(w) => Rvalue::Variable {
            name: w.name.clone(),
            size: w.bits,
            subscript: w.subscript,
            offset: 0,
        },
        Value::Undefined => Rvalue::Undefined,
    }
}

/// The r-value image of a stored value.
pub open spec fn rvalue_of(v: ValueV) -> RvalueV {
    match v {
        ValueV::Constant(c) => RvalueV::Constant { value: c.value, size: c.bits },
        ValueV::Variable(w) => RvalueV::Variable {
            name: w.name,
            size: w.bits,
            subscript: w.subscript,
            offset: 0,
        },
        ValueV::Undefined => RvalueV::Undefined,
    }
}

/// The call targets in `stmts`, in order: the target of every
/// call-operation statement, and every constant indirect-call target.
pub open spec fn calls_of(stmts: Seq<StatementV>) -> Seq<RvalueV>
    decreases stmts.len(),
{
    if stmts.len() == 0 {
        Seq::empty()
    } else {
        let rest = calls_of(stmts.drop_last());
        match stmts.last() {
            StatementV::IndirectCall { target: ValueV::Constant(c) } => rest.push(
                RvalueV::Constant { value: c.value, size: c.bits },
            ),
            StatementV::Expression { op: OperationV::Call(t), .. } => rest.push(rvalue_of(t)),
            _ => rest,
        }
    }
}

/// The decimal rendering of `v`, most significant digit first.
pub open spec fn dec_seq(v: int) -> Seq<char>
    decreases v,
{
    if v < 10 {
        seq![hex_digit(v)]
    } else {
        dec_seq(v / 10).push(hex_digit(v % 10))
    }
}

/// Renders `v` in decimal.
fn u64_to_dec(v: u64) -> (r: String)
    ensures
        r@ == dec_seq(v as int),
    decreases v,
{
    if v < 10 {
        let r = hex_digit_str(v).to_owned();
        proof {
            assert(r@ =~= dec_seq(v as int));
        }
        r
    } else {
        let s = u64_to_dec(v / 10);
        let d = hex_digit_str(v % 10);
        let r = s.concat(d);
        proof {
            assert(v as int / 10 == (v / 10) as int);
            assert(v as int % 10 == (v % 10) as int);
            assert(r@ =~= dec_seq(v as int));
        }
        r
    }
}

/// The DOT line of node `i`.
pub open spec fn dot_node_line(n: CfgNodeV, i: int) -> Seq<char> {
    "    n"@ + dec_seq(i) + match n {
        CfgNodeV::BasicBlock(b) => " [label=\"block "@ + dec_seq(b as int) + "\"]\n"@,
        CfgNodeV::Value(_) => " [label=\"unresolved target\"]\n"@,
    }
}

/// The DOT lines of the first `k` nodes.
pub open spec fn dot_nodes(ns: Seq<CfgNodeV>, k: int) -> Seq<char>
    decreases k,
{
    if k <= 0 {
        Seq::empty()
    } else {
        dot_nodes(ns, k - 1) + dot_node_line(ns[k - 1], k - 1)
    }
}

/// The DOT line of one edge.
pub open spec fn dot_edge_line(e: crate::cfg::CfgEdge) -> Seq<char> {
    "    n"@ + dec_seq(e.source as int) + " -> n"@ + dec_seq(e.target as int) + "\n"@
}

/// The DOT lines of the first `k` edges.
pub open spec fn dot_edges(es: Seq<crate::cfg::CfgEdge>, k: int) -> Seq<char>
    decreases k,
{
    if k <= 0 {
        Seq::empty()
    } else {
        dot_edges(es, k - 1) + dot_edge_line(es[k - 1])
    }
}

/// The DOT rendering of a graph: every node, then every edge.
pub open spec fn dot_of(ns: Seq<CfgNodeV>, es: Seq<crate::cfg::CfgEdge>) -> Seq<char> {
    "digraph cfg {\n"@ + dot_nodes(ns, ns.len() as int) + dot_edges(es, es.len() as int) + "}\n"@
}

impl Function {
    /// Renders the basic-block graph in graphviz's DOT format, one line
    /// per node and per edge. Useful for debugging.
    pub fn to_dot(&self) -> (r: String)
        ensures
            r@ == dot_of(self.cflow_graph.nodes_v(), self.cflow_graph.edges@),
    {
        let ghost ns = self.cflow_graph.nodes_v();
        let ghost es = self.cflow_graph.edges@;
        let mut s = "digraph cfg {\n".to_owned();
        let mut i: usize = 0;
        while i < self.cflow_graph.nodes.len()
            invariant
                i <= ns.len(),
                ns == self.cflow_graph.nodes_v(),
                es == self.cflow_graph.edges@,
                s@ == "digraph cfg {\n"@ + dot_nodes(ns, i as int),
            decreases ns.len() - i,
        {
            let s2 = s.concat("    n").concat(u64_to_dec(i as u64).as_str());
            let s3 = match &self.cflow_graph.nodes[i] {
                CfgNode::BasicBlock(b) => {
                    let t = s2.concat(" [label=\"block ").concat(
                        u64_to_dec(b.index() as u64).as_str(),
                    ).concat("\"]\n");
                    proof {
                        assert(ns[i as int] == self.cflow_graph.nodes@[i as int]@);
                        assert(t@ =~= "digraph cfg {\n"@ + dot_nodes(ns, i as int)
                            + dot_node_line(ns[i as int], i as int));
                    }
                    t
                },
                CfgNode::Value(_) => {
                    let t = s2.concat(" [label=\"unresolved target\"]\n");
                    proof {
                        assert(ns[i as int] == self.cflow_graph.nodes@[i as int]@);
                        assert(t@ =~= "digraph cfg {\n"@ + dot_nodes(ns, i as int)
                            + dot_node_line(ns[i as int], i as int));
                    }
                    t
                },
            };
            s = s3;
            i = i + 1;
        }
        let mut e: usize = 0;
        while e < self.cflow_graph.edges.len()
            invariant
                e <= es.len(),
                ns == self.cflow_graph.nodes_v(),
                es == self.cflow_graph.edges@,
                s@ == "digraph cfg {\n"@ + dot_nodes(ns, ns.len() as int) + dot_edges(
                    es,
                    e as int,
                ),
            decreases es.len() - e,
        {
            let edge = self.cflow_graph.edges[e];
            let t = s.concat("    n").concat(u64_to_dec(edge.source as u64).as_str()).concat(
                " -> n",
            ).concat(u64_to_dec(edge.target as u64).as_str()).concat("\n");
            proof {
                assert(t@ =~= "digraph cfg {\n"@ + dot_nodes(ns, ns.len() as int) + dot_edges(
                    es,
                    e + 1 as int,
                ));
            }
            s = t;
            e = e + 1;
        }
        let r = s.concat("}\n");
        proof {
            assert(r@ =~= dot_of(ns, es));
        }
        r
    }
}

/// The statements of block `b`, as the function stores them: the stream
/// from its first mnemonic's range start to its last mnemonic's range end.
pub open spec fn block_statements(f: Function, b: int) -> Seq<StatementV> {
    f.code.deep_view().subrange(
        f.ms()[m0(f.bs(), b)].s_start as int,
        f.ms()[m1(f.bs(), b) - 1].s_end as int,
    )
}

/// Concatenation of a list of statement lists, in order.
pub open spec fn stmts_concat(eb: Seq<Seq<StatementV>>) -> Seq<StatementV>
    decreases eb.len(),
{
    if eb.len() == 0 {
        Seq::empty()
    } else {
        stmts_concat(eb.drop_last()) + eb.last()
    }
}

/// The per-mnemonic statement lists of block `b` of an edited view.
pub open spec fn block_stmt_lists(
    edited: Seq<Seq<(MnemonicV, Seq<StatementV>)>>,
    b: int,
) -> Seq<Seq<StatementV>> {
    Seq::new(edited[b].len(), |j: int| edited[b][j].1)
}

proof fn lemma_concat_span(ms: Seq<MnemonicV>, lo: int, j: int, n: int)
    requires
        0 <= lo,
        lo + n <= ms.len(),
        forall|x: int| 0 <= x < n ==> (#[trigger] ms[lo + x]).s_start <= ms[lo + x].s_end,
        forall|x: int| 0 <= x < n - 1 ==> (#[trigger] ms[lo + x]).s_end == ms[lo + x + 1].s_start,
        0 <= j < n,
    ensures
        ms[lo].s_start <= ms[lo + j].s_start,
    decreases j,
{
    if j > 0 {
        lemma_concat_span(ms, lo, j - 1, n);
        assert(ms[lo + (j - 1)].s_end == ms[lo + j].s_start);
        assert(ms[lo + (j - 1)].s_start <= ms[lo + (j - 1)].s_end);
    }
}

proof fn lemma_chain_concat(
    code: Seq<StatementV>,
    ms: Seq<MnemonicV>,
    lo: int,
    k: int,
    eb: Seq<Seq<StatementV>>,
)
    requires
        0 <= lo,
        lo + eb.len() <= ms.len(),
        1 <= k <= eb.len(),
        forall|j: int|
            0 <= j < eb.len() ==> (#[trigger] ms[lo + j]).s_start <= ms[lo + j].s_end
                <= code.len() && code.subrange(
                ms[lo + j].s_start as int,
                ms[lo + j].s_end as int,
            ) == eb[j],
        forall|j: int|
            0 <= j < eb.len() - 1 ==> (#[trigger] ms[lo + j]).s_end == ms[lo + j + 1].s_start,
    ensures
        code.subrange(ms[lo].s_start as int, ms[lo + k - 1].s_end as int) == stmts_concat(
            eb.take(k),
        ),
    decreases k,
{
    assert forall|x: int|
        0 <= x < eb.len() implies (#[trigger] ms[lo + x]).s_start <= ms[lo + x].s_end by {}
    if k == 1 {
        assert(eb.take(1).drop_last() == Seq::<Seq<StatementV>>::empty()) by {
            assert(eb.take(1).drop_last() =~= Seq::<Seq<StatementV>>::empty());
        }
        assert(eb.take(1).last() == eb[0]);
        assert(stmts_concat(Seq::<Seq<StatementV>>::empty()) == Seq::<StatementV>::empty());
        assert(stmts_concat(eb.take(1)) == Seq::<StatementV>::empty() + eb[0]);
        assert(Seq::<StatementV>::empty() + eb[0] =~= eb[0]);
    } else {
        lemma_chain_concat(code, ms, lo, k - 1, eb);
        lemma_concat_span(ms, lo, k - 1, eb.len() as int);
        assert(eb.take(k).drop_last() =~= eb.take(k - 1));
        assert(eb.take(k).last() == eb[k - 1]);
        assert(ms[lo + (k - 2)].s_end == ms[lo + (k - 1)].s_start);
        assert(code.subrange(ms[lo].s_start as int, ms[lo + k - 1].s_end as int) =~= code.subrange(
            ms[lo].s_start as int,
            ms[lo + (k - 2)].s_end as int,
        ) + code.subrange(ms[lo + (k - 1)].s_start as int, ms[lo + (k - 1)].s_end as int));
    }
}

/// Every block's mnemonic range is non-empty, and its address range is
/// exactly `[first mnemonic's start, last mnemonic's end)`.
pub proof fn lemma_block_area(f: Function, b: int)
    requires
        f.wf(),
        0 <= b < f.bs().len(),
    ensures
        m0(f.bs(), b) < m1(f.bs(), b),
        f.bs()[b].area.start == f.ms()[m0(f.bs(), b)].start,
        f.bs()[b].area.end == f.ms()[m1(f.bs(), b) - 1].end,
{
}

/// Exactly one block starts at the entry address, and `entry_point` names
/// it.
pub proof fn lemma_entry_unique(f: Function)
    requires
        f.wf(),
    ensures
        f.bs()[f.entry_point.index as int].area.start == f.entry_address_spec(),
        forall|b: int|
            0 <= b < f.bs().len() && b != f.entry_point.index as int ==> (#[trigger] f.bs()[b]).area.start
                != f.entry_address_spec(),
{
    let e = f.entry_point.index as int;
    assert forall|b: int|
        0 <= b < f.bs().len() && b != e implies (#[trigger] f.bs()[b]).area.start
        != f.entry_address_spec() by {
        if b < e {
            assert(f.bs()[b].area.start < f.bs()[e].area.start);
        } else {
            assert(f.bs()[e].area.start < f.bs()[b].area.start);
        }
    }
}

/// After a rewrite with the identity transform — the edited view exactly
/// as `editable_blocks` handed it out — every block's statement stream is
/// what it was before the rewrite.
#[verifier::spinoff_prover]
#[verifier::rlimit(100)]
pub proof fn lemma_rewrite_identity(fold: Function, fnew: Function)
    requires
        fold.wf(),
        fnew.wf(),
        rewrite_applied(fold, fnew, editable_model(fold)),
    ensures
        fnew.bs().len() == fold.bs().len(),
        forall|b: int|
            0 <= b < fnew.bs().len() ==> block_statements(fnew, b) == block_statements(fold, b),
{
    let edited = editable_model(fold);
    assert forall|b: int|
        0 <= b < fnew.bs().len() implies block_statements(fnew, b) == block_statements(
        fold,
        b,
    ) by {
        let eb = block_stmt_lists(edited, b);
        let n = eb.len() as int;
        assert(0 <= m0(fold.bs(), b) < m1(fold.bs(), b) <= fold.ms().len());
        assert(n == m1(fold.bs(), b) - m0(fold.bs(), b));
        // the stored stream of the old function matches the view
        assert forall|j: int|
            0 <= j < n implies (#[trigger] fold.ms()[m0(fold.bs(), b) + j]).s_start <= fold.ms()[m0(
            fold.bs(),
            b,
        ) + j].s_end <= fold.code.deep_view().len() && fold.code.deep_view().subrange(
            fold.ms()[m0(fold.bs(), b) + j].s_start as int,
            fold.ms()[m0(fold.bs(), b) + j].s_end as int,
        ) == eb[j] by {
            assert(edited[b][j] == (
                fold.ms()[m0(fold.bs(), b) + j],
                fold.code.deep_view().subrange(
                    fold.ms()[m0(fold.bs(), b) + j].s_start as int,
                    fold.ms()[m0(fold.bs(), b) + j].s_end as int,
                ),
            ));
        }
        lemma_chain_concat(fold.code.deep_view(), fold.ms(), m0(fold.bs(), b), n, eb);
        // the rebuilt stream matches the same view
        assert(0 <= m0(fnew.bs(), b) < m1(fnew.bs(), b) <= fnew.ms().len());
        assert forall|j: int|
            0 <= j < n implies (#[trigger] fnew.ms()[m0(fnew.bs(), b) + j]).s_start <= fnew.ms()[m0(
            fnew.bs(),
            b,
        ) + j].s_end <= fnew.code.deep_view().len() && fnew.code.deep_view().subrange(
            fnew.ms()[m0(fnew.bs(), b) + j].s_start as int,
            fnew.ms()[m0(fnew.bs(), b) + j].s_end as int,
        ) == eb[j] by {
            assert(edited[b][j].1 == eb[j]);
        }
        lemma_chain_concat(fnew.code.deep_view(), fnew.ms(), m0(fnew.bs(), b), n, eb);
        assert(eb.take(n) =~= eb);
    }
}

/// When no node of the graph carries the variable `v`, the rebuilt jump
/// list never targets `v` either: block targets become constants, and
/// unresolved targets contribute node payloads. Together with
/// `lemma_resolve_removes_variable` and `lemma_unresolved_vars_from_jumps`
/// this says that after a resolve, a re-disassembly reintroduces `v` only
/// if the decoder reports it anew.
pub proof fn lemma_rebuilt_no_variable(
    g: ControlFlowGraph,
    bs: Seq<BasicBlock>,
    ms: Seq<MnemonicV>,
    v: VariableV,
)
    requires
        g.edges_closed(),
        forall|i: int|
            0 <= i < g.nodes_v().len() ==> (#[trigger] g.nodes_v()[i]) != CfgNodeV::Value(
                ValueV::Variable(v),
            ),
    ensures
        forall|e: int|
            0 <= e < g.edges@.len() ==> (#[trigger] rebuilt_jumps(g, bs, ms)[e]).target
                != ValueV::Variable(v),
{
    assert forall|e: int|
        0 <= e < g.edges@.len() implies (#[trigger] rebuilt_jumps(g, bs, ms)[e]).target
        != ValueV::Variable(v) by {
        assert(rebuilt_jumps(g, bs, ms)[e] == rebuilt_jump(g, bs, ms, e));
        let edge = g.edges@[e];
        assert(edge.target < g.nodes@.len());
        if edge.target >= bs.len() {
            assert(g.nodes_v()[edge.target as int] != CfgNodeV::Value(ValueV::Variable(v)));
        }
    }
}

} // verus!
