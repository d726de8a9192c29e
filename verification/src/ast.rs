//! The graph compiler: a compilation unit is a set of nodes, each with one
//! instruction, and the inputs, values and strings of the nodes. Every root
//! of the graph is lowered to one program by a depth-first walk that emits
//! the inputs of a node, left to right, before the node itself.
use crate::bytecode::{ByteEncodeProperties, Instruction, Value, ValueTag};
use crate::input_string::{
    encode_text, input_list_items, list_items, string_bytes, InputList, InputString,
};
use crate::node_table::{NodeId, NodeTable};
use vstd::prelude::*;

verus! {

/// A node of the graph.
#[derive(Debug, Clone, Copy, PartialEq, Eq, Structural)]
pub struct AstNode {
    pub instruction: Instruction,
}

impl AstNode {
    pub fn new(instruction: Instruction) -> (node: Self)
        ensures
            node.instruction == instruction,
    {
        Self { instruction }
    }
}

/// The number of inputs that an instruction takes; `None` where any number goes.
pub open spec fn arity(inst: Instruction) -> Option<u8> {
    match inst {
        Instruction::AddInt
        | Instruction::SubInt
        | Instruction::AddFloat
        | Instruction::SubFloat
        | Instruction::Mul
        | Instruction::MulFloat
        | Instruction::Div
        | Instruction::DivFloat => Some(2u8),
        Instruction::LiteralInt
        | Instruction::LiteralFloat
        | Instruction::LiteralPtr
        | Instruction::Pass
        | Instruction::CopyLast => Some(0u8),
        Instruction::Call | Instruction::LiteralArray => None,
    }
}

/// The accepted number of inputs of an instruction, `None` if unspecified.
pub fn input_per_instruction(inst: Instruction) -> (n: Option<u8>)
    ensures
        n == arity(inst),
{
    match inst {
        Instruction::AddInt
        | Instruction::SubInt
        | Instruction::AddFloat
        | Instruction::SubFloat
        | Instruction::Mul
        | Instruction::MulFloat
        | Instruction::Div
        | Instruction::DivFloat => Some(2),
        Instruction::LiteralInt
        | Instruction::LiteralFloat
        | Instruction::LiteralPtr
        | Instruction::Pass
        | Instruction::CopyLast => Some(0),
        Instruction::Call | Instruction::LiteralArray => None,
    }
}

/// Why a unit does not compile.
#[derive(Debug, Clone, Copy, PartialEq, Eq, Structural)]
pub enum CompileError {
    /// The unit has no node.
    EmptyUnit,
    /// The node has another number of inputs than its instruction takes.
    InvalidArity { node: NodeId, expected: u8, got: usize },
    /// A literal without a value, or a call without a name.
    MissingValue { node: NodeId },
    /// The value of a literal is of another kind than the instruction.
    ValueTagMismatch { node: NodeId, instr: Instruction, tag: ValueTag },
    /// An input of the node is no node of the unit.
    UnknownInput { node: NodeId, missing: NodeId },
    /// The node is reached again on the way down from itself, or the unit
    /// has nodes but no root.
    Cycle { node: NodeId },
}

/// Single unit of compilation.
pub struct CompilationUnit {
    pub nodes: NodeTable<AstNode>,
    pub inputs: NodeTable<InputList>,
    pub values: NodeTable<Value>,
    pub strings: NodeTable<InputString>,
}

/// A compilation unit as plain data.
pub struct UnitView {
    /// The ids of the nodes, ascending.
    pub ids: Seq<NodeId>,
    pub nodes: Map<NodeId, Instruction>,
    pub inputs: Map<NodeId, Seq<NodeId>>,
    pub values: Map<NodeId, Value>,
    pub strings: Map<NodeId, Seq<u8>>,
}

/// The program of one root.
#[derive(Debug, Clone)]
pub struct CompiledProgram {
    pub leafid: NodeId,
    pub bytecode: Vec<u8>,
}

impl CompilationUnit {
    pub open spec fn wf(&self) -> bool {
        &&& self.nodes.wf()
        &&& self.inputs.wf()
        &&& self.values.wf()
        &&& self.strings.wf()
    }

    pub open spec fn view(&self) -> UnitView {
        UnitView {
            ids: self.nodes.ids(),
            nodes: Map::new(
                |n: NodeId| self.nodes@.contains_key(n),
                |n: NodeId| self.nodes@[n].instruction,
            ),
            inputs: Map::new(
                |n: NodeId| self.inputs@.contains_key(n),
                |n: NodeId| list_items(self.inputs@[n]),
            ),
            values: self.values@,
            strings: Map::new(
                |n: NodeId| self.strings@.contains_key(n),
                |n: NodeId| string_bytes(self.strings@[n]),
            ),
        }
    }

    /// A unit without nodes, inputs, values and strings.
    pub fn new() -> (unit: Self)
        ensures
            unit.wf(),
            unit@.ids == Seq::<NodeId>::empty(),
            unit.nodes@ == Map::<NodeId, AstNode>::empty(),
            unit.inputs@ == Map::<NodeId, InputList>::empty(),
            unit.values@ == Map::<NodeId, Value>::empty(),
            unit.strings@ == Map::<NodeId, InputString>::empty(),
            unit@.nodes == Map::<NodeId, Instruction>::empty(),
            unit@.inputs == Map::<NodeId, Seq<NodeId>>::empty(),
            unit@.values == Map::<NodeId, Value>::empty(),
            unit@.strings == Map::<NodeId, Seq<u8>>::empty(),
    {
        let unit = CompilationUnit {
            nodes: NodeTable::new(),
            inputs: NodeTable::new(),
            values: NodeTable::new(),
            strings: NodeTable::new(),
        };
        proof {
            assert(unit@.nodes =~= Map::<NodeId, Instruction>::empty());
            assert(unit@.inputs =~= Map::<NodeId, Seq<NodeId>>::empty());
            assert(unit@.strings =~= Map::<NodeId, Seq<u8>>::empty());
        }
        unit
    }
}

/// The inputs of a node, in their declared order.
pub open spec fn inputs_of(u: UnitView, n: NodeId) -> Seq<NodeId> {
    if u.inputs.contains_key(n) {
        u.inputs[n]
    } else {
        Seq::empty()
    }
}

/// The arity error of a node, if it has one.
pub open spec fn arity_error(u: UnitView, n: NodeId) -> Option<CompileError> {
    match arity(u.nodes[n]) {
        Some(k) => if inputs_of(u, n).len() != k {
            Some(
                CompileError::InvalidArity {
                    node: n,
                    expected: k,
                    got: inputs_of(u, n).len() as usize,
                },
            )
        } else {
            None
        },
        None => None,
    }
}

/// The bytes that follow the instruction byte of a node: the value of a
/// literal, the name of a call, nothing for the others.
pub open spec fn operand(u: UnitView, n: NodeId) -> Result<Seq<u8>, CompileError> {
    let inst = u.nodes[n];
    match inst {
        Instruction::LiteralInt | Instruction::LiteralArray => if !u.values.contains_key(n) {
            Err(CompileError::MissingValue { node: n })
        } else {
            match u.values[n] {
                Value::IValue(v) => Ok(<i64 as ByteEncodeProperties>::encoding(v)),
                other => Err(
                    CompileError::ValueTagMismatch { node: n, instr: inst, tag: other.tag_spec() },
                ),
            }
        },
        Instruction::LiteralFloat => if !u.values.contains_key(n) {
            Err(CompileError::MissingValue { node: n })
        } else {
            match u.values[n] {
                Value::FValue(v) => Ok(<u64 as ByteEncodeProperties>::encoding(v)),
                other => Err(
                    CompileError::ValueTagMismatch { node: n, instr: inst, tag: other.tag_spec() },
                ),
            }
        },
        Instruction::LiteralPtr => if !u.values.contains_key(n) {
            Err(CompileError::MissingValue { node: n })
        } else {
            match u.values[n] {
                Value::Pointer(v) => Ok(<u32 as ByteEncodeProperties>::encoding(v)),
                other => Err(
                    CompileError::ValueTagMismatch { node: n, instr: inst, tag: other.tag_spec() },
                ),
            }
        },
        Instruction::Call => if !u.strings.contains_key(n) {
            Err(CompileError::MissingValue { node: n })
        } else {
            Ok(<InputString as ByteEncodeProperties>::encoding(u.strings[n]))
        },
        _ => Ok(Seq::empty()),
    }
}

/// The check of one node: it is a node of the unit, it has the number of
/// inputs its instruction takes, and it has the operand its instruction
/// needs. Yields the operand.
pub open spec fn checked_operand(u: UnitView, n: NodeId) -> Result<Seq<u8>, CompileError> {
    if !u.nodes.contains_key(n) {
        Err(CompileError::UnknownInput { node: n, missing: n })
    } else {
        match arity_error(u, n) {
            Some(e) => Err(e),
            None => operand(u, n),
        }
    }
}

/// The code of a node reached from `parent` along `path`: the code of its
/// inputs, then its instruction byte, then its operand. `fuel` bounds the
/// depth that is left.
pub open spec fn emit(u: UnitView, n: NodeId, parent: NodeId, path: Seq<NodeId>, fuel: nat) -> Result<
    Seq<u8>,
    CompileError,
>
    decreases fuel, 0nat,
{
    if !u.nodes.contains_key(n) {
        Err(CompileError::UnknownInput { node: parent, missing: n })
    } else if fuel == 0 || path.contains(n) {
        Err(CompileError::Cycle { node: n })
    } else {
        match checked_operand(u, n) {
            Err(e) => Err(e),
            Ok(tail) => match emit_inputs(u, n, inputs_of(u, n), path.push(n), (fuel - 1) as nat) {
                Err(e) => Err(e),
                Ok(code) => Ok(code + seq![u.nodes[n].byte()] + tail),
            },
        }
    }
}

/// The code of the inputs `ins` of node `n`, left to right; the first error ends it.
pub open spec fn emit_inputs(
    u: UnitView,
    n: NodeId,
    ins: Seq<NodeId>,
    path: Seq<NodeId>,
    fuel: nat,
) -> Result<Seq<u8>, CompileError>
    decreases fuel, 1 + ins.len(),
{
    if ins.len() == 0 {
        Ok(Seq::empty())
    } else {
        match emit_inputs(u, n, ins.drop_last(), path, fuel) {
            Err(e) => Err(e),
            Ok(code) => match emit(u, ins.last(), n, path, fuel) {
                Err(e) => Err(e),
                Ok(more) => Ok(code + more),
            },
        }
    }
}

/// A root is a node that is not an input of any other node.
pub open spec fn is_root(u: UnitView, n: NodeId) -> bool {
    forall|k: NodeId| u.nodes.contains_key(k) && k != n ==> !(#[trigger] inputs_of(u, k)).contains(n)
}

/// The roots among `ids`, in the order of `ids`.
pub open spec fn roots_of(u: UnitView, ids: Seq<NodeId>) -> Seq<NodeId>
    decreases ids.len(),
{
    if ids.len() == 0 {
        Seq::empty()
    } else if is_root(u, ids.last()) {
        roots_of(u, ids.drop_last()).push(ids.last())
    } else {
        roots_of(u, ids.drop_last())
    }
}

/// The arity error of the first node of `ids` that has one.
pub open spec fn first_arity_error(u: UnitView, ids: Seq<NodeId>) -> Option<CompileError>
    decreases ids.len(),
{
    if ids.len() == 0 {
        None
    } else {
        match first_arity_error(u, ids.drop_last()) {
            Some(e) => Some(e),
            None => arity_error(u, ids.last()),
        }
    }
}

/// The programs of `roots`, in order; the first error ends it.
pub open spec fn compile_roots(u: UnitView, roots: Seq<NodeId>) -> Result<
    Seq<(NodeId, Seq<u8>)>,
    CompileError,
>
    decreases roots.len(),
{
    if roots.len() == 0 {
        Ok(Seq::empty())
    } else {
        match compile_roots(u, roots.drop_last()) {
            Err(e) => Err(e),
            Ok(programs) => match emit(u, roots.last(), roots.last(), Seq::empty(), u.ids.len()) {
                Err(e) => Err(e),
                Ok(code) => Ok(programs.push((roots.last(), code))),
            },
        }
    }
}

/// What compiling a unit yields: one program per root, by ascending root
/// id, or the first error. An arity error of any node comes before every
/// other error but that of an empty unit.
pub open spec fn compile_spec(u: UnitView) -> Result<Seq<(NodeId, Seq<u8>)>, CompileError> {
    if u.ids.len() == 0 {
        Err(CompileError::EmptyUnit)
    } else {
        match first_arity_error(u, u.ids) {
            Some(e) => Err(e),
            None => if roots_of(u, u.ids).len() == 0 {
                Err(CompileError::Cycle { node: u.ids[0] })
            } else {
                compile_roots(u, roots_of(u, u.ids))
            },
        }
    }
}

/// The programs as plain data.
pub open spec fn programs_view(programs: Seq<CompiledProgram>) -> Seq<(NodeId, Seq<u8>)> {
    Seq::new(programs.len(), |i: int| (programs[i].leafid, programs[i].bytecode@))
}

/// An error among the first `k` inputs is the error of all the inputs.
proof fn lemma_inputs_error(
    u: UnitView,
    n: NodeId,
    ins: Seq<NodeId>,
    k: int,
    path: Seq<NodeId>,
    fuel: nat,
)
    requires
        0 <= k <= ins.len(),
        emit_inputs(u, n, ins.take(k), path, fuel) is Err,
    ensures
        emit_inputs(u, n, ins, path, fuel) == emit_inputs(u, n, ins.take(k), path, fuel),
    decreases ins.len() - k,
{
    if k < ins.len() {
        assert(ins.take(k + 1).drop_last() =~= ins.take(k));
        lemma_inputs_error(u, n, ins, k + 1, path, fuel);
    } else {
        assert(ins.take(k) =~= ins);
    }
}

/// An error among the first `k` roots is the error of all the roots.
proof fn lemma_roots_error(u: UnitView, roots: Seq<NodeId>, k: int)
    requires
        0 <= k <= roots.len(),
        compile_roots(u, roots.take(k)) is Err,
    ensures
        compile_roots(u, roots) == compile_roots(u, roots.take(k)),
    decreases roots.len() - k,
{
    if k < roots.len() {
        assert(roots.take(k + 1).drop_last() =~= roots.take(k));
        lemma_roots_error(u, roots, k + 1);
    } else {
        assert(roots.take(k) =~= roots);
    }
}

/// An arity error among the first `k` ids is the first arity error of all.
proof fn lemma_arity_error_found(u: UnitView, ids: Seq<NodeId>, k: int)
    requires
        0 <= k <= ids.len(),
        first_arity_error(u, ids.take(k)) is Some,
    ensures
        first_arity_error(u, ids) == first_arity_error(u, ids.take(k)),
    decreases ids.len() - k,
{
    if k < ids.len() {
        assert(ids.take(k + 1).drop_last() =~= ids.take(k));
        lemma_arity_error_found(u, ids, k + 1);
    } else {
        assert(ids.take(k) =~= ids);
    }
}

/// A compiled unit has one program for each of its roots, by ascending root id.
pub proof fn lemma_one_program_per_root(u: UnitView)
    requires
        compile_spec(u) is Ok,
    ensures
        compile_spec(u)->Ok_0.len() == roots_of(u, u.ids).len(),
        forall|i: int|
            0 <= i < roots_of(u, u.ids).len() ==> (#[trigger] compile_spec(u)->Ok_0[i]).0
                == roots_of(u, u.ids)[i],
{
    lemma_programs_follow_roots(u, roots_of(u, u.ids));
}

proof fn lemma_programs_follow_roots(u: UnitView, roots: Seq<NodeId>)
    requires
        compile_roots(u, roots) is Ok,
    ensures
        compile_roots(u, roots)->Ok_0.len() == roots.len(),
        forall|i: int|
            0 <= i < roots.len() ==> (#[trigger] compile_roots(u, roots)->Ok_0[i]).0 == roots[i],
    decreases roots.len(),
{
    if roots.len() > 0 {
        lemma_programs_follow_roots(u, roots.drop_last());
    }
}

/// A unit with a node whose number of inputs is not the one its instruction
/// takes does not compile: the error is an arity error, and no program is
/// returned.
pub proof fn lemma_arity_violation_rejected(u: UnitView, n: NodeId)
    requires
        u.ids.contains(n),
        arity_error(u, n) is Some,
    ensures
        compile_spec(u) is Err,
        compile_spec(u)->Err_0 is InvalidArity,
{
    let i = u.ids.index_of(n);
    lemma_arity_error_kind(u, u.ids.take(i + 1));
    assert(u.ids.take(i + 1).last() == n);
    lemma_arity_error_found(u, u.ids, i + 1);
}

proof fn lemma_arity_error_kind(u: UnitView, ids: Seq<NodeId>)
    ensures
        first_arity_error(u, ids) is Some ==> first_arity_error(u, ids)->0 is InvalidArity,
        ids.len() > 0 && arity_error(u, ids.last()) is Some ==> first_arity_error(u, ids) is Some,
    decreases ids.len(),
{
    if ids.len() > 0 {
        lemma_arity_error_kind(u, ids.drop_last());
    }
}

/// Every node of the chain but the last has the next one as an input.
pub open spec fn is_chain(u: UnitView, chain: Seq<NodeId>) -> bool {
    forall|i: int|
        0 <= i < chain.len() - 1 ==> inputs_of(u, #[trigger] chain[i]).contains(chain[i + 1])
}

/// Where the inputs of a node have code, each of them has.
proof fn lemma_inputs_ok(
    u: UnitView,
    n: NodeId,
    ins: Seq<NodeId>,
    path: Seq<NodeId>,
    fuel: nat,
    t: int,
)
    requires
        emit_inputs(u, n, ins, path, fuel) is Ok,
        0 <= t < ins.len(),
    ensures
        emit(u, ins[t], n, path, fuel) is Ok,
    decreases ins.len(),
{
    if t < ins.len() - 1 {
        lemma_inputs_ok(u, n, ins.drop_last(), path, fuel, t);
    }
}

/// Where the roots have programs, each of them has.
proof fn lemma_roots_ok(u: UnitView, roots: Seq<NodeId>, t: int)
    requires
        compile_roots(u, roots) is Ok,
        0 <= t < roots.len(),
    ensures
        emit(u, roots[t], roots[t], Seq::empty(), u.ids.len()) is Ok,
    decreases roots.len(),
{
    if t < roots.len() - 1 {
        lemma_roots_ok(u, roots.drop_last(), t);
    }
}

/// Where the first node of a chain has code, every node of the chain has
/// code on the way down the chain.
proof fn lemma_chain_ok(u: UnitView, chain: Seq<NodeId>, fuel: nat, k: int)
    requires
        chain.len() > 0,
        is_chain(u, chain),
        emit(u, chain[0], chain[0], Seq::empty(), fuel) is Ok,
        0 <= k < chain.len(),
    ensures
        k <= fuel,
        emit(
            u,
            chain[k],
            if k == 0 {
                chain[0]
            } else {
                chain[k - 1]
            },
            chain.take(k),
            (fuel - k) as nat,
        ) is Ok,
    decreases k,
{
    if k == 0 {
        assert(chain.take(0) =~= Seq::<NodeId>::empty());
    } else {
        lemma_chain_ok(u, chain, fuel, k - 1);
        let n = chain[k - 1];
        let path = chain.take(k - 1);
        let left = (fuel - (k - 1)) as nat;
        assert(path.push(n) =~= chain.take(k));
        let ins = inputs_of(u, n);
        assert(ins.contains(chain[k]));
        let t = ins.index_of(chain[k]);
        lemma_inputs_ok(u, n, ins, chain.take(k), (left - 1) as nat, t);
    }
}

/// A unit in which a chain of inputs that starts at a root comes by a node
/// twice does not compile.
pub proof fn lemma_cycle_rejected(u: UnitView, chain: Seq<NodeId>, i: int, j: int)
    requires
        chain.len() > 0,
        roots_of(u, u.ids).contains(chain[0]),
        is_chain(u, chain),
        0 <= i < j < chain.len(),
        chain[i] == chain[j],
    ensures
        compile_spec(u) is Err,
{
    if compile_spec(u) is Ok {
        let roots = roots_of(u, u.ids);
        let t = roots.index_of(chain[0]);
        lemma_roots_ok(u, roots, t);
        lemma_chain_ok(u, chain, u.ids.len(), j);
        assert(chain.take(j)[i] == chain[j]);
        assert(chain.take(j).contains(chain[j]));
    }
}

/// Every node of the chain is a node of the unit.
pub open spec fn of_nodes(u: UnitView, chain: Seq<NodeId>) -> bool {
    forall|i: int| 0 <= i < chain.len() ==> u.nodes.contains_key(#[trigger] chain[i])
}

/// The chain comes by a node at `i` and again at `j`.
pub open spec fn repeats(chain: Seq<NodeId>, i: int, j: int) -> bool {
    0 <= i < j < chain.len() && chain[i] == chain[j]
}

/// No chain of inputs among the nodes of the unit comes by a node twice.
pub open spec fn acyclic(u: UnitView) -> bool {
    forall|chain: Seq<NodeId>, i: int, j: int|
        is_chain(u, chain) && of_nodes(u, chain) ==> !#[trigger] repeats(chain, i, j)
}

/// The ids of the unit are the ids of its nodes, each once.
pub open spec fn ids_match(u: UnitView) -> bool {
    &&& u.ids.no_duplicates()
    &&& forall|n: NodeId| u.nodes.contains_key(n) <==> u.ids.contains(n)
}

/// The node passes its check and all its inputs are nodes of the unit.
pub open spec fn node_ok(u: UnitView, n: NodeId) -> bool {
    &&& checked_operand(u, n) is Ok
    &&& forall|k: int|
        0 <= k < inputs_of(u, n).len() ==> u.nodes.contains_key(#[trigger] inputs_of(u, n)[k])
}

/// The node `k` is another node that has the node `n` as an input.
pub open spec fn is_user(u: UnitView, k: NodeId, n: NodeId) -> bool {
    u.nodes.contains_key(k) && k != n && inputs_of(u, k).contains(n)
}

/// A node that has `n` as an input, where there is one.
pub open spec fn user_of(u: UnitView, n: NodeId) -> NodeId {
    choose|k: NodeId| is_user(u, k, n)
}

/// The node `n`, a user of `n`, a user of that user, and so on: `len + 1` nodes.
pub open spec fn users_up(u: UnitView, n: NodeId, len: nat) -> Seq<NodeId>
    decreases len,
{
    if len == 0 {
        seq![n]
    } else {
        users_up(u, n, (len - 1) as nat).push(user_of(u, users_up(u, n, (len - 1) as nat).last()))
    }
}

/// A chain of distinct nodes is no longer than the unit has nodes.
proof fn lemma_chain_length(u: UnitView, chain: Seq<NodeId>)
    requires
        ids_match(u),
        of_nodes(u, chain),
        chain.no_duplicates(),
    ensures
        chain.len() <= u.ids.len(),
{
    chain.unique_seq_to_set();
    u.ids.lemma_cardinality_of_set();
    vstd::seq_lib::seq_to_set_is_finite(u.ids);
    assert(chain.to_set().subset_of(u.ids.to_set())) by {
        assert forall|n: NodeId| chain.to_set().contains(n) implies u.ids.to_set().contains(n) by {
            let i = chain.index_of(n);
            assert(u.nodes.contains_key(chain[i]));
        }
    }
    vstd::set_lib::lemma_len_subset(chain.to_set(), u.ids.to_set());
}

/// In a unit without cycles a chain of nodes has distinct nodes, and so is
/// no longer than the unit has nodes.
proof fn lemma_chain_distinct(u: UnitView, chain: Seq<NodeId>)
    requires
        acyclic(u),
        ids_match(u),
        is_chain(u, chain),
        of_nodes(u, chain),
    ensures
        chain.no_duplicates(),
        chain.len() <= u.ids.len(),
{
    assert forall|i: int, j: int|
        0 <= i < chain.len() && 0 <= j < chain.len() && i != j implies chain[i] != chain[j] by {
        if i < j {
            assert(!repeats(chain, i, j));
        } else {
            assert(!repeats(chain, j, i));
        }
    }
    lemma_chain_length(u, chain);
}

/// Where no node is a root, every node has users without end.
proof fn lemma_users_up(u: UnitView, n: NodeId, len: nat)
    requires
        u.nodes.contains_key(n),
        forall|m: NodeId| #[trigger] u.nodes.contains_key(m) ==> !is_root(u, m),
    ensures
        users_up(u, n, len).len() == len + 1,
        of_nodes(u, users_up(u, n, len)),
        forall|t: int|
            0 <= t < len ==> is_user(
                u,
                #[trigger] users_up(u, n, len)[t + 1],
                users_up(u, n, len)[t],
            ),
    decreases len,
{
    if len > 0 {
        lemma_users_up(u, n, (len - 1) as nat);
        let short = users_up(u, n, (len - 1) as nat);
        let whole = users_up(u, n, len);
        let m = short.last();
        assert(u.nodes.contains_key(short[len - 1]));
        assert(!is_root(u, m));
        let w = choose|w: NodeId|
            u.nodes.contains_key(w) && w != m && (#[trigger] inputs_of(u, w)).contains(m);
        assert(is_user(u, w, m));
        assert(is_user(u, user_of(u, m), m));
        assert forall|t: int| 0 <= t < len implies is_user(
            u,
            #[trigger] whole[t + 1],
            whole[t],
        ) by {
            if t < len - 1 {
                assert(whole[t + 1] == short[t + 1]);
                assert(whole[t] == short[t]);
            }
        }
        assert forall|i: int| 0 <= i < whole.len() implies u.nodes.contains_key(
            #[trigger] whole[i],
        ) by {
            if i < len {
                assert(whole[i] == short[i]);
            }
        }
    }
}

/// Where there is no root among `ids`, none of `ids` is a root.
proof fn lemma_no_roots(u: UnitView, ids: Seq<NodeId>)
    requires
        roots_of(u, ids).len() == 0,
    ensures
        forall|t: int| 0 <= t < ids.len() ==> !is_root(u, #[trigger] ids[t]),
    decreases ids.len(),
{
    if ids.len() > 0 {
        lemma_no_roots(u, ids.drop_last());
        assert forall|t: int| 0 <= t < ids.len() implies !is_root(u, #[trigger] ids[t]) by {
            if t < ids.len() - 1 {
                assert(ids.drop_last()[t] == ids[t]);
            }
        }
    }
}

/// The roots among `ids` are among `ids`.
proof fn lemma_roots_among(u: UnitView, ids: Seq<NodeId>)
    ensures
        forall|t: int|
            0 <= t < roots_of(u, ids).len() ==> ids.contains(#[trigger] roots_of(u, ids)[t]),
    decreases ids.len(),
{
    if ids.len() > 0 {
        let front = ids.drop_last();
        lemma_roots_among(u, front);
        let rf = roots_of(u, front);
        let r = roots_of(u, ids);
        assert forall|t: int| 0 <= t < r.len() implies ids.contains(#[trigger] r[t]) by {
            if t < rf.len() {
                assert(r[t] == rf[t]);
                let i = front.index_of(rf[t]);
                assert(ids[i] == rf[t]);
            } else {
                assert(r[t] == ids[ids.len() - 1]);
            }
        }
    }
}

/// A unit with nodes and without cycles has a root.
proof fn lemma_has_root(u: UnitView)
    requires
        ids_match(u),
        u.ids.len() > 0,
        acyclic(u),
    ensures
        roots_of(u, u.ids).len() > 0,
{
    if roots_of(u, u.ids).len() == 0 {
        lemma_no_roots(u, u.ids);
        assert forall|m: NodeId| #[trigger] u.nodes.contains_key(m) implies !is_root(u, m) by {
            assert(u.ids.contains(m));
            let t = u.ids.index_of(m);
            assert(!is_root(u, u.ids[t]));
        }
        let n = u.ids[0];
        assert(u.ids.contains(n));
        let len = u.ids.len();
        lemma_users_up(u, n, len);
        let up = users_up(u, n, len);
        let down = Seq::new((len + 1) as nat, |i: int| up[len - i]);
        assert forall|i: int| 0 <= i < down.len() - 1 implies inputs_of(
            u,
            #[trigger] down[i],
        ).contains(down[i + 1]) by {
            let t = len - i - 1;
            assert(is_user(u, up[t + 1], up[t]));
        }
        assert forall|i: int| 0 <= i < down.len() implies u.nodes.contains_key(
            #[trigger] down[i],
        ) by {
            assert(u.nodes.contains_key(up[len - i]));
        }
        lemma_chain_distinct(u, down);
    }
}

/// In a unit without cycles whose nodes all pass their check, a node at
/// the end of a chain of nodes has code.
proof fn lemma_emit_ok(u: UnitView, n: NodeId, parent: NodeId, path: Seq<NodeId>, fuel: nat)
    requires
        ids_match(u),
        acyclic(u),
        forall|m: NodeId| #[trigger] u.nodes.contains_key(m) ==> node_ok(u, m),
        is_chain(u, path.push(n)),
        of_nodes(u, path.push(n)),
        path.len() + fuel == u.ids.len(),
    ensures
        emit(u, n, parent, path, fuel) is Ok,
    decreases fuel, 0nat,
{
    let chain = path.push(n);
    assert(u.nodes.contains_key(chain[path.len() as int]));
    lemma_chain_distinct(u, chain);
    if path.contains(n) {
        let i = path.index_of(n);
        assert(chain[i] == n);
        assert(repeats(chain, i, path.len() as int));
    }
    assert(node_ok(u, n));
    let ins = inputs_of(u, n);
    assert forall|k: int| 0 <= k < ins.len() implies ins.contains(#[trigger] ins[k]) by {}
    lemma_emit_inputs_ok(u, n, ins, chain, (fuel - 1) as nat);
}

/// In a unit without cycles whose nodes all pass their check, inputs of
/// the node at the end of a chain of nodes have code.
proof fn lemma_emit_inputs_ok(
    u: UnitView,
    n: NodeId,
    ins: Seq<NodeId>,
    path: Seq<NodeId>,
    fuel: nat,
)
    requires
        ids_match(u),
        acyclic(u),
        forall|m: NodeId| #[trigger] u.nodes.contains_key(m) ==> node_ok(u, m),
        is_chain(u, path),
        of_nodes(u, path),
        path.len() > 0,
        path.last() == n,
        forall|k: int|
            0 <= k < ins.len() ==> inputs_of(u, n).contains(#[trigger] ins[k])
                && u.nodes.contains_key(ins[k]),
        path.len() + fuel == u.ids.len(),
    ensures
        emit_inputs(u, n, ins, path, fuel) is Ok,
    decreases fuel, 1 + ins.len(),
{
    if ins.len() > 0 {
        let front = ins.drop_last();
        assert forall|k: int| 0 <= k < front.len() implies inputs_of(u, n).contains(
            #[trigger] front[k],
        ) && u.nodes.contains_key(front[k]) by {
            assert(front[k] == ins[k]);
        }
        lemma_emit_inputs_ok(u, n, front, path, fuel);
        let m = ins.last();
        assert(m == ins[ins.len() - 1]);
        let chain = path.push(m);
        assert forall|i: int| 0 <= i < chain.len() - 1 implies inputs_of(
            u,
            #[trigger] chain[i],
        ).contains(chain[i + 1]) by {
            if i < path.len() - 1 {
                assert(chain[i] == path[i] && chain[i + 1] == path[i + 1]);
            }
        }
        assert forall|i: int| 0 <= i < chain.len() implies u.nodes.contains_key(
            #[trigger] chain[i],
        ) by {
            if i < path.len() {
                assert(chain[i] == path[i]);
            }
        }
        lemma_emit_ok(u, m, n, path, fuel);
    }
}

/// In a unit without cycles whose nodes all pass their check, nodes have programs.
proof fn lemma_roots_compile(u: UnitView, roots: Seq<NodeId>)
    requires
        ids_match(u),
        acyclic(u),
        forall|m: NodeId| #[trigger] u.nodes.contains_key(m) ==> node_ok(u, m),
        of_nodes(u, roots),
    ensures
        compile_roots(u, roots) is Ok,
    decreases roots.len(),
{
    if roots.len() > 0 {
        let front = roots.drop_last();
        assert forall|i: int| 0 <= i < front.len() implies u.nodes.contains_key(
            #[trigger] front[i],
        ) by {
            assert(front[i] == roots[i]);
        }
        lemma_roots_compile(u, front);
        let r = roots.last();
        assert(r == roots[roots.len() - 1]);
        let chain = Seq::<NodeId>::empty().push(r);
        assert(chain[0] == r);
        lemma_emit_ok(u, r, r, Seq::empty(), u.ids.len());
    }
}

/// Nodes that pass their check have no arity error.
proof fn lemma_no_arity_error(u: UnitView, ids: Seq<NodeId>)
    requires
        forall|t: int| 0 <= t < ids.len() ==> checked_operand(u, #[trigger] ids[t]) is Ok,
    ensures
        first_arity_error(u, ids) is None,
    decreases ids.len(),
{
    if ids.len() > 0 {
        let front = ids.drop_last();
        assert forall|t: int| 0 <= t < front.len() implies checked_operand(
            u,
            #[trigger] front[t],
        ) is Ok by {
            assert(front[t] == ids[t]);
        }
        lemma_no_arity_error(u, front);
        assert(checked_operand(u, ids[ids.len() - 1]) is Ok);
    }
}

/// A unit with nodes and without cycles, in which every node passes its
/// check and has only nodes as inputs, compiles: to one program for each
/// of its roots, by ascending root id.
pub proof fn lemma_acyclic_unit_compiles(u: UnitView)
    requires
        ids_match(u),
        u.ids.len() > 0,
        acyclic(u),
        forall|m: NodeId| #[trigger] u.nodes.contains_key(m) ==> node_ok(u, m),
    ensures
        compile_spec(u) is Ok,
        compile_spec(u)->Ok_0.len() == roots_of(u, u.ids).len(),
        forall|i: int|
            0 <= i < roots_of(u, u.ids).len() ==> (#[trigger] compile_spec(u)->Ok_0[i]).0
                == roots_of(u, u.ids)[i],
{
    assert forall|t: int| 0 <= t < u.ids.len() implies checked_operand(
        u,
        #[trigger] u.ids[t],
    ) is Ok by {
        assert(u.ids.contains(u.ids[t]));
        assert(node_ok(u, u.ids[t]));
    }
    lemma_no_arity_error(u, u.ids);
    lemma_has_root(u);
    let roots = roots_of(u, u.ids);
    lemma_roots_among(u, u.ids);
    assert forall|i: int| 0 <= i < roots.len() implies u.nodes.contains_key(
        #[trigger] roots[i],
    ) by {
        assert(u.ids.contains(roots[i]));
    }
    lemma_roots_compile(u, roots);
    lemma_one_program_per_root(u);
}

/// The view of a well-formed unit lists the ids of its nodes, each once.
pub proof fn lemma_unit_ids_match(unit: &CompilationUnit)
    requires
        unit.wf(),
    ensures
        ids_match(unit@),
{
    unit.nodes.lemma_ids();
    let ids = unit@.ids;
    assert forall|i: int, j: int|
        0 <= i < ids.len() && 0 <= j < ids.len() && i != j implies ids[i] != ids[j] by {
        if i < j {
            assert(ids[i] < ids[j]);
        } else {
            assert(ids[j] < ids[i]);
        }
    }
}

pub struct Compiler {
    unit: CompilationUnit,
}

fn list_contains(items: &Vec<NodeId>, n: NodeId) -> (b: bool)
    ensures
        b == items@.contains(n),
{
    let mut i: usize = 0;
    while i < items.len()
        invariant
            i <= items@.len(),
            forall|k: int| 0 <= k < i ==> items@[k] != n,
        decreases items@.len() - i,
    {
        if items[i] == n {
            return true;
        }
        i += 1;
    }
    false
}

impl Compiler {
    /// Compile a unit to one program per root, by ascending root id.
    pub fn compile(unit: CompilationUnit) -> (r: Result<Vec<CompiledProgram>, CompileError>)
        requires
            unit.wf(),
        ensures
            match compile_spec(unit@) {
                Ok(programs) => r is Ok && programs_view(r->Ok_0@) == programs,
                Err(e) => r == Err::<Vec<CompiledProgram>, CompileError>(e),
            },
    {
        let n: usize = unit.nodes.len();
        if n == 0 {
            return Err(CompileError::EmptyUnit);
        }
        let compiler = Compiler { unit };
        let ghost u = compiler.unit@;
        let mut i: usize = 0;
        while i < n
            invariant
                compiler.unit.wf(),
                u == compiler.unit@,
                u == unit@,
                n == u.ids.len(),
                i <= n,
                first_arity_error(u, u.ids.take(i as int)) is None,
            decreases n - i,
        {
            let id: NodeId = compiler.unit.nodes.id_at(i);
            proof {
                compiler.unit.nodes.lemma_ids();
                assert(u.ids.take(i as int + 1).drop_last() =~= u.ids.take(i as int));
                assert(u.ids.take(i as int + 1).last() == id);
                assert(compiler.unit.nodes@.contains_key(id));
            }
            match compiler.arity_check(id) {
                Some(e) => {
                    proof {
                        lemma_arity_error_found(u, u.ids, i as int + 1);
                    }
                    return Err(e);
                },
                None => {},
            }
            i += 1;
        }
        proof {
            assert(u.ids.take(n as int) =~= u.ids);
        }
        let roots = compiler.roots();
        if roots.len() == 0 {
            let first: NodeId = compiler.unit.nodes.id_at(0);
            return Err(CompileError::Cycle { node: first });
        }
        let mut compiled_programs: Vec<CompiledProgram> = Vec::new();
        let mut k: usize = 0;
        proof {
            assert(roots@.take(0) =~= Seq::<NodeId>::empty());
            assert(programs_view(compiled_programs@) =~= Seq::<(NodeId, Seq<u8>)>::empty());
        }
        while k < roots.len()
            invariant
                compiler.unit.wf(),
                u == compiler.unit@,
                u == unit@,
                u.ids.len() > 0,
                first_arity_error(u, u.ids) is None,
                roots@.len() > 0,
                k <= roots@.len(),
                roots@ == roots_of(u, u.ids),
                compile_roots(u, roots@.take(k as int)) == Ok::<
                    Seq<(NodeId, Seq<u8>)>,
                    CompileError,
                >(programs_view(compiled_programs@)),
            decreases roots@.len() - k,
        {
            proof {
                assert(roots@.take(k as int + 1).drop_last() =~= roots@.take(k as int));
                assert(roots@.take(k as int + 1).last() == roots@[k as int]);
            }
            match compiler.compile_node(roots[k]) {
                Err(e) => {
                    proof {
                        lemma_roots_error(u, roots@, k as int + 1);
                    }
                    return Err(e);
                },
                Ok(program) => {
                    let ghost before = programs_view(compiled_programs@);
                    compiled_programs.push(program);
                    proof {
                        assert(programs_view(compiled_programs@) =~= before.push(
                            (program.leafid, program.bytecode@),
                        ));
                    }
                },
            }
            k += 1;
        }
        proof {
            assert(roots@.take(k as int) =~= roots@);
        }
        Ok(compiled_programs)
    }

    fn arity_check(&self, node: NodeId) -> (r: Option<CompileError>)
        requires
            self.unit.wf(),
            self.unit@.nodes.contains_key(node),
        ensures
            r == arity_error(self.unit@, node),
    {
        let inst = match self.unit.nodes.get(node) {
            Some(n) => n.instruction,
            None => { return None; },
        };
        match input_per_instruction(inst) {
            Some(expected) => {
                let got: usize = match self.unit.inputs.get(node) {
                    Some(list) => input_list_items(list).len(),
                    None => 0,
                };
                if got != expected as usize {
                    Some(CompileError::InvalidArity { node, expected, got })
                } else {
                    None
                }
            },
            None => None,
        }
    }

    fn node_is_root(&self, node: NodeId) -> (b: bool)
        requires
            self.unit.wf(),
        ensures
            b == is_root(self.unit@, node),
    {
        let ghost u = self.unit@;
        let n: usize = self.unit.nodes.len();
        let mut i: usize = 0;
        while i < n
            invariant
                self.unit.wf(),
                u == self.unit@,
                n == u.ids.len(),
                i <= n,
                forall|j: int|
                    0 <= j < i && u.ids[j] != node ==> !(#[trigger] inputs_of(u, u.ids[j])).contains(
                        node,
                    ),
            decreases n - i,
        {
            let k: NodeId = self.unit.nodes.id_at(i);
            if k != node {
                match self.unit.inputs.get(k) {
                    Some(list) => {
                        let items = input_list_items(list);
                        if list_contains(&items, node) {
                            assert(u.nodes.contains_key(k) && k != node && inputs_of(
                                u,
                                k,
                            ).contains(node));
                            return false;
                        }
                    },
                    None => {
                        assert(inputs_of(u, k) =~= Seq::<NodeId>::empty());
                    },
                }
            }
            i += 1;
        }
        proof {
            self.unit.nodes.lemma_ids();
            assert forall|k: NodeId| u.nodes.contains_key(k) && k != node implies !(
            #[trigger] inputs_of(u, k)).contains(node) by {
                assert(self.unit.nodes@.contains_key(k));
                assert(u.ids.contains(k));
                let j = u.ids.index_of(k);
                assert(u.ids[j] == k);
            }
        }
        true
    }

    fn roots(&self) -> (roots: Vec<NodeId>)
        requires
            self.unit.wf(),
        ensures
            roots@ == roots_of(self.unit@, self.unit@.ids),
    {
        let ghost u = self.unit@;
        let n: usize = self.unit.nodes.len();
        let mut roots: Vec<NodeId> = Vec::new();
        let mut i: usize = 0;
        while i < n
            invariant
                self.unit.wf(),
                u == self.unit@,
                n == u.ids.len(),
                i <= n,
                roots@ == roots_of(u, u.ids.take(i as int)),
            decreases n - i,
        {
            let k: NodeId = self.unit.nodes.id_at(i);
            proof {
                assert(u.ids.take(i as int + 1).drop_last() =~= u.ids.take(i as int));
            }
            if self.node_is_root(k) {
                roots.push(k);
            }
            i += 1;
        }
        proof {
            assert(u.ids.take(n as int) =~= u.ids);
        }
        roots
    }

    fn compile_node(&self, node: NodeId) -> (r: Result<CompiledProgram, CompileError>)
        requires
            self.unit.wf(),
        ensures
            match emit(self.unit@, node, node, Seq::empty(), self.unit@.ids.len()) {
                Ok(code) => r is Ok && r->Ok_0.leafid == node && r->Ok_0.bytecode@ == code,
                Err(e) => r == Err::<CompiledProgram, CompileError>(e),
            },
    {
        let mut compiled = CompiledProgram { bytecode: Vec::new(), leafid: node };
        let mut path: Vec<NodeId> = Vec::new();
        let fuel: usize = self.unit.nodes.len();
        match self.process_node(node, node, &mut path, fuel, &mut compiled.bytecode) {
            Err(e) => Err(e),
            Ok(()) => {
                proof {
                    let code = emit(self.unit@, node, node, Seq::empty(), fuel as nat)->Ok_0;
                    assert(Seq::<u8>::empty() + code =~= code);
                }
                Ok(compiled)
            },
        }
    }

    fn operand_of(&self, node: NodeId, inst: Instruction) -> (r: Result<Vec<u8>, CompileError>)
        requires
            self.unit.wf(),
            self.unit@.nodes.contains_key(node),
            self.unit@.nodes[node] == inst,
        ensures
            match operand(self.unit@, node) {
                Ok(tail) => r is Ok && r->Ok_0@ == tail,
                Err(e) => r == Err::<Vec<u8>, CompileError>(e),
            },
    {
        match inst {
            Instruction::LiteralInt | Instruction::LiteralArray => match self.unit.values.get(
                node,
            ) {
                None => Err(CompileError::MissingValue { node }),
                Some(value) => match value {
                    Value::IValue(v) => Ok((*v).encode()),
                    other => Err(
                        CompileError::ValueTagMismatch { node, instr: inst, tag: other.tag() },
                    ),
                },
            },
            Instruction::LiteralFloat => match self.unit.values.get(node) {
                None => Err(CompileError::MissingValue { node }),
                Some(value) => match value {
                    Value::FValue(v) => Ok((*v).encode()),
                    other => Err(
                        CompileError::ValueTagMismatch { node, instr: inst, tag: other.tag() },
                    ),
                },
            },
            Instruction::LiteralPtr => match self.unit.values.get(node) {
                None => Err(CompileError::MissingValue { node }),
                Some(value) => match value {
                    Value::Pointer(v) => Ok((*v).encode()),
                    other => Err(
                        CompileError::ValueTagMismatch { node, instr: inst, tag: other.tag() },
                    ),
                },
            },
            Instruction::Call => match self.unit.strings.get(node) {
                None => Err(CompileError::MissingValue { node }),
                Some(name) => Ok(encode_text(name)),
            },
            _ => Ok(Vec::new()),
        }
    }

    fn checked(&self, node: NodeId) -> (r: Result<Vec<u8>, CompileError>)
        requires
            self.unit.wf(),
        ensures
            match checked_operand(self.unit@, node) {
                Ok(tail) => r is Ok && r->Ok_0@ == tail,
                Err(e) => r == Err::<Vec<u8>, CompileError>(e),
            },
    {
        let inst = match self.unit.nodes.get(node) {
            Some(n) => n.instruction,
            None => { return Err(CompileError::UnknownInput { node, missing: node }); },
        };
        match self.arity_check(node) {
            Some(e) => Err(e),
            None => self.operand_of(node, inst),
        }
    }

    fn process_node(
        &self,
        node: NodeId,
        parent: NodeId,
        path: &mut Vec<NodeId>,
        fuel: usize,
        bytes: &mut Vec<u8>,
    ) -> (r: Result<(), CompileError>)
        requires
            self.unit.wf(),
        ensures
            match emit(self.unit@, node, parent, old(path)@, fuel as nat) {
                Ok(code) => r is Ok && final(bytes)@ == old(bytes)@ + code && final(path)@ == old(path)@,
                Err(e) => r == Err::<(), CompileError>(e),
            },
        decreases fuel,
    {
        let ghost u = self.unit@;
        let inst = match self.unit.nodes.get(node) {
            Some(n) => n.instruction,
            None => { return Err(CompileError::UnknownInput { node: parent, missing: node }); },
        };
        if fuel == 0 || list_contains(path, node) {
            return Err(CompileError::Cycle { node });
        }
        let mut tail = match self.checked(node) {
            Err(e) => { return Err(e); },
            Ok(tail) => tail,
        };
        let ghost ins = inputs_of(u, node);
        let ghost down = old(path)@.push(node);
        match self.unit.inputs.get(node) {
            Some(list) => {
                let items = input_list_items(list);
                path.push(node);
                let mut i: usize = 0;
                while i < items.len()
                    invariant
                        self.unit.wf(),
                        u == self.unit@,
                        fuel > 0,
                        items@ == ins,
                        ins == inputs_of(u, node),
                        down == old(path)@.push(node),
                        u.nodes.contains_key(node),
                        !old(path)@.contains(node),
                        checked_operand(u, node) is Ok,
                        i <= items@.len(),
                        path@ == down,
                        emit_inputs(u, node, ins.take(i as int), down, (fuel - 1) as nat) is Ok,
                        bytes@ == old(bytes)@ + emit_inputs(
                            u,
                            node,
                            ins.take(i as int),
                            down,
                            (fuel - 1) as nat,
                        )->Ok_0,
                    decreases items@.len() - i,
                {
                    proof {
                        assert(ins.take(i as int + 1).drop_last() =~= ins.take(i as int));
                        assert(ins.take(i as int + 1).last() == items@[i as int]);
                    }
                    match self.process_node(items[i], node, path, fuel - 1, bytes) {
                        Err(e) => {
                            proof {
                                lemma_inputs_error(
                                    u,
                                    node,
                                    ins,
                                    i as int + 1,
                                    down,
                                    (fuel - 1) as nat,
                                );
                            }
                            return Err(e);
                        },
                        Ok(()) => {},
                    }
                    i += 1;
                }
                proof {
                    assert(ins.take(i as int) =~= ins);
                }
                path.pop();
                assert(path@ =~= old(path)@);
            },
            None => {
                assert(bytes@ + Seq::<u8>::empty() =~= bytes@);
            },
        }
        bytes.push(inst.opcode());
        bytes.append(&mut tail);
        proof {
            let code = emit_inputs(u, node, ins, down, (fuel - 1) as nat)->Ok_0;
            let t = checked_operand(u, node)->Ok_0;
            assert(bytes@ =~= old(bytes)@ + (code + seq![u.nodes[node].byte()] + t));
        }
        Ok(())
    }

    /// Check one node: its number of inputs and its operand.
    pub fn validate_node(node: NodeId, cu: &CompilationUnit) -> (r: Result<(), CompileError>)
        requires
            cu.wf(),
        ensures
            match checked_operand(cu@, node) {
                Ok(_) => r is Ok,
                Err(e) => r == Err::<(), CompileError>(e),
            },
    {
        let inst = match cu.nodes.get(node) {
            Some(n) => n.instruction,
            None => { return Err(CompileError::UnknownInput { node, missing: node }); },
        };
        match input_per_instruction(inst) {
            Some(expected) => {
                let got: usize = match cu.inputs.get(node) {
                    Some(list) => input_list_items(list).len(),
                    None => 0,
                };
                if got != expected as usize {
                    return Err(CompileError::InvalidArity { node, expected, got });
                }
            },
            None => {},
        }
        match inst {
            Instruction::LiteralInt | Instruction::LiteralArray => match cu.values.get(node) {
                None => Err(CompileError::MissingValue { node }),
                Some(value) => match value {
                    Value::IValue(_) => Ok(()),
                    other => Err(
                        CompileError::ValueTagMismatch { node, instr: inst, tag: other.tag() },
                    ),
                },
            },
            Instruction::LiteralFloat => match cu.values.get(node) {
                None => Err(CompileError::MissingValue { node }),
                Some(value) => match value {
                    Value::FValue(_) => Ok(()),
                    other => Err(
                        CompileError::ValueTagMismatch { node, instr: inst, tag: other.tag() },
                    ),
                },
            },
            Instruction::LiteralPtr => match cu.values.get(node) {
                None => Err(CompileError::MissingValue { node }),
                Some(value) => match value {
                    Value::Pointer(_) => Ok(()),
                    other => Err(
                        CompileError::ValueTagMismatch { node, instr: inst, tag: other.tag() },
                    ),
                },
            },
            Instruction::Call => {
                if cu.strings.contains_key(node) {
                    Ok(())
                } else {
                    Err(CompileError::MissingValue { node })
                }
            },
            _ => Ok(()),
        }
    }
}

} // verus!
