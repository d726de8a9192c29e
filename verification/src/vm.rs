//! The stack machine.
//!
//! A program is a byte string of instructions, each followed by its operand.
//! The machine has an operand stack of bounded depth, a working memory of
//! bounded size addressed by byte offsets, and a registry of host functions
//! that programs call by name. Float arithmetic is done by a float unit that
//! the caller hands in; floats are held by their bits.
//!
//! A call moves the inputs of the function, as many values as the function
//! takes, from the top of the stack to the end of the used memory, each as a
//! tag byte and eight bytes, the one pushed first in front. The function gets
//! the place of its inputs and the end of the used memory as the place of its
//! output. It answers with the number of bytes of output; the used memory
//! then reaches at least to the end of the output, and, where the output is
//! not empty, a pointer to it is pushed.
use crate::bytecode::{ByteEncodeProperties, Instruction, TPointer, Value};
use crate::input_string::{input_string_bytes, InputString};
use vstd::prelude::*;
use vstd::slice::slice_subrange;
use vstd::string::StringSliceAdditionalSpecFns;

verus! {

/// Why a program stopped.
#[derive(Debug, Clone, Copy, PartialEq, Eq, Structural)]
pub enum ExecutionError {
    StackUnderflow,
    StackOverflow,
    MemoryOverflow,
    UnknownOpcode,
    UnknownFunction,
    InvalidArgument,
    TypeMismatch,
    DivideByZero,
    Aborted,
}

/// The depth of the stack of a new machine.
pub const DEFAULT_STACK_LIMIT: usize = 256;

/// The size of the memory of a new machine, in bytes.
pub const DEFAULT_MEMORY_LIMIT: usize = 2048;

/// The number of instructions that a new machine runs of one program.
pub const DEFAULT_INSTRUCTION_BUDGET: u64 = 65536;

/// Does the float arithmetic of the machine, on the bits of the operands.
/// `op` is one of the four float instructions.
pub trait FloatUnit {
    fn binary(&self, op: Instruction, lhs: u64, rhs: u64) -> (bits: u64);
}

/// A function of the host that programs call by name. It reads its inputs
/// from the memory at `in_ptr`, may write its output at `out_ptr`, and
/// answers with the number of bytes of output. It leaves the machine well
/// formed.
///
/// `inv` is what the functions need of the context of the machine and keep;
/// `follows` is what a call may do to the context. `follows` holds between
/// a context and itself, and along a chain of calls.
pub trait HostFunction<Aux>: Sized + Copy {
    spec fn inv(aux: Aux) -> bool;

    spec fn follows(before: Aux, after: Aux) -> bool;

    proof fn lemma_follows(a: Aux, b: Aux, c: Aux)
        ensures
            Self::follows(a, a),
            Self::follows(a, b) && Self::follows(b, c) ==> Self::follows(a, c),
    ;

    /// The number of values that the function takes from the stack.
    spec fn arity(self) -> nat;

    /// What a call of the function may do: it finds the machine as `before`
    /// and leaves it as `after` with the answer `r`.
    spec fn outcome(
        self,
        before: VM<Aux, Self>,
        in_ptr: TPointer,
        out_ptr: TPointer,
        after: VM<Aux, Self>,
        r: Result<u32, ExecutionError>,
    ) -> bool;

    fn num_params(self) -> (n: u8)
        ensures
            n == self.arity(),
    ;

    fn call(self, vm: &mut VM<Aux, Self>, in_ptr: TPointer, out_ptr: TPointer) -> (r: Result<
        u32,
        ExecutionError,
    >)
        requires
            old(vm).wf(),
            Self::inv(old(vm).aux),
        ensures
            final(vm).wf(),
            Self::inv(final(vm).aux),
            Self::follows(old(vm).aux, final(vm).aux),
            self.outcome(*old(vm), in_ptr, out_ptr, *final(vm), r),
    ;
}

/// The function type of a machine without host functions.
#[derive(Debug, Clone, Copy)]
pub struct NoFunction {}

impl<Aux> HostFunction<Aux> for NoFunction {
    open spec fn inv(aux: Aux) -> bool {
        true
    }

    open spec fn follows(before: Aux, after: Aux) -> bool {
        true
    }

    proof fn lemma_follows(a: Aux, b: Aux, c: Aux) {
    }

    open spec fn arity(self) -> nat {
        0
    }

    open spec fn outcome(
        self,
        before: VM<Aux, Self>,
        in_ptr: TPointer,
        out_ptr: TPointer,
        after: VM<Aux, Self>,
        r: Result<u32, ExecutionError>,
    ) -> bool {
        r == Err::<u32, ExecutionError>(ExecutionError::UnknownFunction) && after == before
    }

    fn num_params(self) -> (n: u8) {
        0
    }

    fn call(self, vm: &mut VM<Aux, Self>, in_ptr: TPointer, out_ptr: TPointer) -> (r: Result<
        u32,
        ExecutionError,
    >) {
        Err(ExecutionError::UnknownFunction)
    }
}

pub struct VM<Aux, F> {
    pub stack: Vec<Value>,
    pub memory: Vec<u8>,
    pub names: Vec<Vec<u8>>,
    pub functions: Vec<F>,
    pub aux: Aux,
    pub stack_limit: usize,
    pub memory_limit: usize,
    pub max_instructions: u64,
}

/// The instruction is done by the machine alone: it is neither a call nor
/// float arithmetic.
pub open spec fn is_pure(inst: Instruction) -> bool {
    match inst {
        Instruction::AddFloat
        | Instruction::SubFloat
        | Instruction::MulFloat
        | Instruction::DivFloat
        | Instruction::Call => false,
        _ => true,
    }
}

/// The result of integer arithmetic; sums, differences and products wrap.
pub open spec fn int_result(inst: Instruction, a: i64, b: i64) -> Result<i64, ExecutionError> {
    match inst {
        Instruction::AddInt => Ok(a.wrapping_add(b)),
        Instruction::SubInt => Ok(a.wrapping_sub(b)),
        Instruction::Mul => Ok(a.wrapping_mul(b)),
        _ => if b == 0 {
            Err(ExecutionError::DivideByZero)
        } else {
            match a.checked_div(b) {
                Some(q) => Ok(q),
                None => Ok(i64::MIN),
            }
        },
    }
}

/// What one instruction does to the stack and where the next one stands.
pub enum Step {
    Next { stack: Seq<Value>, pc: int },
    Fault { error: ExecutionError },
    Outside,
}

/// The literal that `inst` pushes, read at the start of `rest`, and its length.
pub open spec fn literal(inst: Instruction, rest: Seq<u8>) -> Option<(Value, int)> {
    match inst {
        Instruction::LiteralInt | Instruction::LiteralArray => match <i64 as ByteEncodeProperties>::decoding(
            rest,
        ) {
            Some(v) => Some((Value::IValue(v), 8int)),
            None => None,
        },
        Instruction::LiteralFloat => match <u64 as ByteEncodeProperties>::decoding(rest) {
            Some(v) => Some((Value::FValue(v), 8int)),
            None => None,
        },
        _ => match <u32 as ByteEncodeProperties>::decoding(rest) {
            Some(v) => Some((Value::Pointer(v), 4int)),
            None => None,
        },
    }
}

/// The instruction at `pc`, on the given stack of at most `limit` values.
/// A fault leaves the stack as it was.
pub open spec fn step(code: Seq<u8>, pc: int, stack: Seq<Value>, limit: nat) -> Step {
    match Instruction::of_byte(code[pc]) {
        None => Step::Fault { error: ExecutionError::UnknownOpcode },
        Some(inst) => match inst {
            Instruction::Pass => Step::Next { stack, pc: pc + 1 },
            Instruction::LiteralInt
            | Instruction::LiteralFloat
            | Instruction::LiteralPtr
            | Instruction::LiteralArray => match literal(inst, code.subrange(pc + 1, code.len() as int)) {
                None => Step::Fault { error: ExecutionError::InvalidArgument },
                Some((value, len)) => if stack.len() >= limit {
                    Step::Fault { error: ExecutionError::StackOverflow }
                } else {
                    Step::Next { stack: stack.push(value), pc: pc + 1 + len }
                },
            },
            Instruction::AddInt | Instruction::SubInt | Instruction::Mul | Instruction::Div => if stack.len()
                < 2 {
                Step::Fault { error: ExecutionError::StackUnderflow }
            } else {
                match (stack[stack.len() - 2], stack[stack.len() - 1]) {
                    (Value::IValue(a), Value::IValue(b)) => match int_result(inst, a, b) {
                        Ok(v) => Step::Next {
                            stack: stack.drop_last().drop_last().push(Value::IValue(v)),
                            pc: pc + 1,
                        },
                        Err(error) => Step::Fault { error },
                    },
                    _ => Step::Fault { error: ExecutionError::TypeMismatch },
                }
            },
            Instruction::CopyLast => if stack.len() == 0 {
                Step::Fault { error: ExecutionError::StackUnderflow }
            } else if stack.len() >= limit {
                Step::Fault { error: ExecutionError::StackOverflow }
            } else {
                Step::Next { stack: stack.push(stack.last()), pc: pc + 1 }
            },
            _ => Step::Outside,
        },
    }
}

/// How a run ends, as far as the machine alone decides it.
pub enum RunEnd {
    /// The end of the program was reached.
    Done { stack: Seq<Value> },
    /// An instruction failed, or the budget ran out.
    Fault { error: ExecutionError, stack: Seq<Value> },
    /// A call or float arithmetic stands at `pc`.
    Outside { pc: int, stack: Seq<Value> },
}

/// The run from `pc` on, with `budget` instructions left, up to the first
/// call or float instruction.
pub open spec fn run_pure(code: Seq<u8>, pc: int, stack: Seq<Value>, limit: nat, budget: nat) -> RunEnd
    decreases code.len() - pc,
{
    if pc >= code.len() || pc < 0 {
        RunEnd::Done { stack }
    } else if budget == 0 {
        RunEnd::Fault { error: ExecutionError::Aborted, stack }
    } else {
        match step(code, pc, stack, limit) {
            Step::Next { stack: next, pc: at } => if at > pc {
                run_pure(code, at, next, limit, (budget - 1) as nat)
            } else {
                RunEnd::Done { stack }
            },
            Step::Fault { error } => RunEnd::Fault { error, stack },
            Step::Outside => RunEnd::Outside { pc, stack },
        }
    }
}

/// The memory after `bytes` were written at `ptr`: the memory grows to hold
/// them, and what lies between the old end and `ptr` is zero.
pub open spec fn write_at(memory: Seq<u8>, ptr: int, bytes: Seq<u8>) -> Seq<u8> {
    let end = if memory.len() > ptr + bytes.len() {
        memory.len() as int
    } else {
        ptr + bytes.len()
    };
    Seq::new(
        end as nat,
        |i: int|
            if ptr <= i < ptr + bytes.len() {
                bytes[i - ptr]
            } else if i < memory.len() {
                memory[i]
            } else {
                0u8
            },
    )
}

/// The memory grown with zeros to at least `len` bytes.
pub open spec fn grown(memory: Seq<u8>, len: int) -> Seq<u8> {
    write_at(memory, len, Seq::empty())
}

/// The values as they stand in the memory, one after the other.
pub open spec fn encode_all(values: Seq<Value>) -> Seq<u8>
    decreases values.len(),
{
    if values.len() == 0 {
        Seq::empty()
    } else {
        encode_all(values.drop_last()) + <Value as ByteEncodeProperties>::encoding(values.last())
    }
}

/// The index of `name` among `names`, or `-1`.
pub open spec fn name_index(names: Seq<Vec<u8>>, name: Seq<u8>) -> int {
    if exists|i: int| 0 <= i < names.len() && (#[trigger] names[i])@ == name {
        choose|i: int| 0 <= i < names.len() && (#[trigger] names[i])@ == name
    } else {
        -1
    }
}

/// No name stands twice.
pub open spec fn distinct_names(names: Seq<Vec<u8>>) -> bool {
    forall|i: int, j: int|
        0 <= i < j < names.len() ==> (#[trigger] names[i])@ != (#[trigger] names[j])@
}

fn bytes_eq(a: &Vec<u8>, b: &Vec<u8>) -> (r: bool)
    ensures
        r == (a@ == b@),
{
    if a.len() != b.len() {
        return false;
    }
    let mut i: usize = 0;
    while i < a.len()
        invariant
            a@.len() == b@.len(),
            i <= a@.len(),
            forall|k: int| 0 <= k < i ==> a@[k] == b@[k],
        decreases a@.len() - i,
    {
        if a[i] != b[i] {
            return false;
        }
        i += 1;
    }
    assert(a@ =~= b@);
    true
}

impl<Aux, F> VM<Aux, F> {
    /// The stack and the memory are within their limits, memory offsets fit
    /// in a pointer, and every registered name has one function.
    pub open spec fn wf(&self) -> bool {
        &&& self.stack@.len() <= self.stack_limit
        &&& self.memory@.len() <= self.memory_limit
        &&& self.memory_limit <= u32::MAX
        &&& self.names@.len() == self.functions@.len()
        &&& distinct_names(self.names@)
    }

    /// The function registered under `name`, if any.
    pub open spec fn function_of(&self, name: Seq<u8>) -> Option<F> {
        if name_index(self.names@, name) >= 0 {
            Some(self.functions@[name_index(self.names@, name)])
        } else {
            None
        }
    }

    /// The machine `after` is this machine with the given stack.
    pub open spec fn stack_replaced(self, stack: Seq<Value>, after: Self) -> bool {
        after.stack@ == stack && after == (VM { stack: after.stack, ..self })
    }

    /// What moving `count` inputs from the stack to the memory does: it
    /// fails, the machine unchanged, when fewer values are on the stack or
    /// the memory has no room for them; else the values leave the stack
    /// and stand at the end of the memory, and the answer is their place.
    pub open spec fn inputs_passed(
        self,
        count: nat,
        after: Self,
        r: Result<TPointer, ExecutionError>,
    ) -> bool {
        if count > self.stack@.len() {
            r == Err::<TPointer, ExecutionError>(ExecutionError::StackUnderflow) && after == self
        } else if self.memory@.len() + 9 * count > self.memory_limit {
            r == Err::<TPointer, ExecutionError>(ExecutionError::MemoryOverflow) && after == self
        } else {
            let kept = self.stack@.len() - count;
            &&& r == Ok::<TPointer, ExecutionError>(self.memory@.len() as u32)
            &&& after.stack@ == self.stack@.take(kept)
            &&& after.memory@ == self.memory@ + encode_all(
                self.stack@.subrange(kept, self.stack@.len() as int),
            )
            &&& after == (VM { memory: after.memory, stack: after.stack, ..self })
        }
    }

    /// What taking in the answer of a host function does: it fails, the
    /// machine unchanged, when the output ends beyond the memory or a
    /// pointer to it finds the stack full; else the used memory reaches at
    /// least to the end of the output, and a pointer to an output that is
    /// not empty is pushed.
    pub open spec fn call_finished(
        self,
        out_ptr: TPointer,
        written: u32,
        after: Self,
        r: Result<(), ExecutionError>,
    ) -> bool {
        if out_ptr + written > self.memory_limit {
            r == Err::<(), ExecutionError>(ExecutionError::MemoryOverflow) && after == self
        } else if written > 0 && self.stack@.len() >= self.stack_limit {
            r == Err::<(), ExecutionError>(ExecutionError::StackOverflow) && after == self
        } else {
            &&& r is Ok
            &&& after.memory@ == grown(self.memory@, out_ptr + written)
            &&& after.stack@ == (if written > 0 {
                self.stack@.push(Value::Pointer(out_ptr))
            } else {
                self.stack@
            })
            &&& after == (VM { memory: after.memory, stack: after.stack, ..self })
        }
    }

    /// A machine with an empty stack, empty memory and no functions.
    pub fn new(aux: Aux) -> (vm: Self)
        ensures
            vm.wf(),
            vm.stack@ == Seq::<Value>::empty(),
            vm.memory@ == Seq::<u8>::empty(),
            vm.names@ == Seq::<Vec<u8>>::empty(),
            vm.aux == aux,
            vm.stack_limit == DEFAULT_STACK_LIMIT,
            vm.memory_limit == DEFAULT_MEMORY_LIMIT,
            vm.max_instructions == DEFAULT_INSTRUCTION_BUDGET,
    {
        VM {
            stack: Vec::new(),
            memory: Vec::new(),
            names: Vec::new(),
            functions: Vec::new(),
            aux,
            stack_limit: DEFAULT_STACK_LIMIT,
            memory_limit: DEFAULT_MEMORY_LIMIT,
            max_instructions: DEFAULT_INSTRUCTION_BUDGET,
        }
    }

    pub fn get_aux(&self) -> (aux: &Aux)
        ensures
            *aux == self.aux,
    {
        &self.aux
    }

    fn find_name(&self, name: &Vec<u8>) -> (r: Option<usize>)
        requires
            self.wf(),
        ensures
            r is Some <==> name_index(self.names@, name@) >= 0,
            r is Some ==> r->0 == name_index(self.names@, name@) && r->0 < self.names@.len(),
    {
        let mut i: usize = 0;
        while i < self.names.len()
            invariant
                self.wf(),
                i <= self.names@.len(),
                forall|k: int| 0 <= k < i ==> (#[trigger] self.names@[k])@ != name@,
            decreases self.names@.len() - i,
        {
            if bytes_eq(&self.names[i], name) {
                proof {
                    let j = name_index(self.names@, name@);
                    assert(0 <= j < self.names@.len() && self.names@[j]@ == name@);
                    if j < i {
                        assert(self.names@[j]@ != name@);
                    }
                    if i < j {
                        assert(self.names@[i as int]@ != self.names@[j]@);
                    }
                }
                return Some(i);
            }
            i += 1;
        }
        None
    }

    /// Register `fo` under `name`. A function registered under the name
    /// before is replaced.
    pub fn register_function_obj(&mut self, name: &str, fo: F)
        requires
            old(self).wf(),
        ensures
            final(self).wf(),
            final(self).function_of(name.spec_bytes()) == Some(fo),
            forall|other: Seq<u8>|
                other != name.spec_bytes() ==> final(self).function_of(other) == old(self).function_of(other),
            final(self).stack == old(self).stack,
            final(self).memory == old(self).memory,
            final(self).aux == old(self).aux,
            final(self).stack_limit == old(self).stack_limit,
            final(self).memory_limit == old(self).memory_limit,
            final(self).max_instructions == old(self).max_instructions,
    {
        let key: Vec<u8> = vstd::slice::slice_to_vec(name.as_bytes());
        let ghost before = *self;
        match self.find_name(&key) {
            Some(i) => {
                self.functions.set(i, fo);
                proof {
                    assert forall|other: Seq<u8>| other != key@ implies self.function_of(other)
                        == before.function_of(other) by {
                        let j = name_index(self.names@, other);
                        if j >= 0 {
                            assert(self.names@[j]@ == other);
                            assert(j != i);
                        }
                    }
                }
            },
            None => {
                self.names.push(key);
                self.functions.push(fo);
                proof {
                    let n = before.names@.len() as int;
                    assert(self.names@[n]@ == key@);
                    assert forall|a: int, b: int| 0 <= a < b < self.names@.len() implies (
                    #[trigger] self.names@[a])@ != (#[trigger] self.names@[b])@ by {
                        if b == n {
                            assert(before.names@[a]@ != key@);
                        } else {
                            assert(before.names@[a]@ != before.names@[b]@);
                        }
                    }
                    let k = name_index(self.names@, key@);
                    assert(0 <= k <= n && self.names@[k]@ == key@);
                    if k < n {
                        assert(before.names@[k]@ == key@);
                    }
                    assert forall|other: Seq<u8>| other != key@ implies self.function_of(other)
                        == before.function_of(other) by {
                        let j = name_index(self.names@, other);
                        let oj = name_index(before.names@, other);
                        if j >= 0 {
                            assert(self.names@[j]@ == other);
                            assert(j < n);
                            assert(before.names@[j]@ == other);
                            assert(before.names@[oj]@ == other);
                            if j < oj {
                                assert(before.names@[j]@ != before.names@[oj]@);
                            }
                            if oj < j {
                                assert(before.names@[oj]@ != before.names@[j]@);
                            }
                        } else if oj >= 0 {
                            assert(before.names@[oj]@ == other);
                            assert(self.names@[oj]@ == other);
                        }
                    }
                }
            },
        }
    }

    /// Grow the used memory with zeros to at least `len` bytes.
    fn grow(&mut self, len: usize)
        requires
            old(self).wf(),
            len <= old(self).memory_limit,
        ensures
            final(self).wf(),
            final(self).memory@ == grown(old(self).memory@, len as int),
            *final(self) == (VM { memory: final(self).memory, ..*old(self) }),
    {
        let ghost before = self.memory@;
        while self.memory.len() < len
            invariant
                self.wf(),
                len <= self.memory_limit,
                before.len() <= self.memory@.len(),
                self.memory@.len() <= len || self.memory@.len() == before.len(),
                forall|i: int| 0 <= i < before.len() ==> self.memory@[i] == before[i],
                forall|i: int| before.len() <= i < self.memory@.len() ==> self.memory@[i] == 0,
                *self == (VM { memory: self.memory, ..*old(self) }),
            decreases len - self.memory@.len(),
        {
            self.memory.push(0);
        }
        assert(self.memory@ =~= grown(before, len as int));
    }

    /// Write the encoding of `val` at `ptr`; the used memory grows to hold
    /// it. Answers with the number of bytes written, or with
    /// `MemoryOverflow`, the machine unchanged, when they do not fit.
    pub fn set_value_at<T: ByteEncodeProperties>(&mut self, ptr: TPointer, val: T) -> (r: Result<
        usize,
        ExecutionError,
    >)
        requires
            old(self).wf(),
        ensures
            final(self).wf(),
            r is Ok <==> ptr + T::encoding(val.model()).len() <= old(self).memory_limit,
            r is Ok ==> r->Ok_0 == T::encoding(val.model()).len() && final(self).memory@
                == write_at(old(self).memory@, ptr as int, T::encoding(val.model())),
            r is Err ==> r->Err_0 == ExecutionError::MemoryOverflow && final(self).memory == old(self).memory,
            *final(self) == (VM { memory: final(self).memory, ..*old(self) }),
    {
        let bytes: Vec<u8> = val.encode();
        let n: usize = bytes.len();
        let start: usize = ptr as usize;
        if n > self.memory_limit || start > self.memory_limit - n {
            return Err(ExecutionError::MemoryOverflow);
        }
        let ghost before = self.memory@;
        self.grow(start + n);
        let ghost mid = self.memory@;
        let mut i: usize = 0;
        while i < n
            invariant
                self.wf(),
                i <= n,
                n == bytes@.len(),
                start + n <= self.memory_limit,
                self.memory@.len() == mid.len(),
                start == ptr,
                mid == grown(before, start + n),
                mid.len() >= start + n,
                forall|j: int| 0 <= j < mid.len() && !(start <= j < start + i) ==> self.memory@[j] == mid[j],
                forall|j: int| start <= j < start + i ==> self.memory@[j] == bytes@[j - start],
                *self == (VM { memory: self.memory, ..*old(self) }),
            decreases n - i,
        {
            self.memory.set(start + i, bytes[i]);
            i += 1;
        }
        proof {
            let target = write_at(before, ptr as int, bytes@);
            assert(mid.len() == target.len());
            assert forall|j: int| 0 <= j < target.len() implies self.memory@[j] == target[j] by {
                if !(start <= j < start + n) {
                    assert(self.memory@[j] == mid[j]);
                }
            }
            assert(self.memory@ =~= target);
        }
        Ok(n)
    }

    /// Read a value at `ptr`: what the bytes from `ptr` to the end of the
    /// used memory decode to.
    pub fn get_value<T: ByteEncodeProperties>(&self, ptr: TPointer) -> (r: Option<T>)
        requires
            self.wf(),
        ensures
            ptr > self.memory@.len() ==> r is None,
            ptr <= self.memory@.len() ==> (r is Some <==> T::decoding(
                self.memory@.subrange(ptr as int, self.memory@.len() as int),
            ) is Some),
            r is Some ==> T::decoding(self.memory@.subrange(ptr as int, self.memory@.len() as int))
                == Some(r->0.model()) && T::encodable(r->0.model()),
    {
        let start: usize = ptr as usize;
        if start > self.memory.len() {
            return None;
        }
        T::decode(slice_subrange(self.memory.as_slice(), start, self.memory.len()))
    }

    /// Push a value, unless the stack is full.
    pub fn push(&mut self, value: Value) -> (r: Result<(), ExecutionError>)
        requires
            old(self).wf(),
        ensures
            final(self).wf(),
            r is Ok <==> old(self).stack@.len() < old(self).stack_limit,
            r is Ok ==> final(self).stack@ == old(self).stack@.push(value),
            r is Err ==> r->Err_0 == ExecutionError::StackOverflow && final(self).stack == old(self).stack,
            *final(self) == (VM { stack: final(self).stack, ..*old(self) }),
    {
        if self.stack.len() >= self.stack_limit {
            return Err(ExecutionError::StackOverflow);
        }
        self.stack.push(value);
        Ok(())
    }

    /// Pop the top of the stack, unless the stack is empty.
    pub fn pop(&mut self) -> (r: Result<Value, ExecutionError>)
        requires
            old(self).wf(),
        ensures
            final(self).wf(),
            r is Ok <==> old(self).stack@.len() > 0,
            r is Ok ==> r->Ok_0 == old(self).stack@.last() && final(self).stack@ == old(self).stack@.drop_last(),
            r is Err ==> r->Err_0 == ExecutionError::StackUnderflow && final(self).stack == old(self).stack,
            *final(self) == (VM { stack: final(self).stack, ..*old(self) }),
    {
        if self.stack.len() == 0 {
            return Err(ExecutionError::StackUnderflow);
        }
        match self.stack.pop() {
            Some(value) => Ok(value),
            None => Err(ExecutionError::StackUnderflow),
        }
    }

    /// Move the `count` values on top of the stack to the end of the used
    /// memory, the one pushed first in front, and answer with the place of
    /// the first. On an error the machine is left as it was.
    pub fn pass_inputs(&mut self, count: usize) -> (r: Result<TPointer, ExecutionError>)
        requires
            old(self).wf(),
        ensures
            final(self).wf(),
            old(self).inputs_passed(count as nat, *final(self), r),
    {
        let len: usize = self.stack.len();
        if count > len {
            return Err(ExecutionError::StackUnderflow);
        }
        let used: usize = self.memory.len();
        if count > (self.memory_limit - used) / 9 {
            return Err(ExecutionError::MemoryOverflow);
        }
        let kept: usize = len - count;
        let ghost inputs = self.stack@.subrange(kept as int, len as int);
        let mut i: usize = 0;
        proof {
            assert(inputs.take(0) =~= Seq::<Value>::empty());
            assert(self.memory@ + Seq::<u8>::empty() =~= self.memory@);
        }
        while i < count
            invariant
                i <= count,
                kept + count == len,
                len == self.stack@.len(),
                used == old(self).memory@.len(),
                used + 9 * count <= self.memory_limit,
                self.memory_limit <= u32::MAX,
                inputs == old(self).stack@.subrange(kept as int, len as int),
                self.memory@ == old(self).memory@ + encode_all(inputs.take(i as int)),
                self.memory@.len() == used + 9 * i,
                *self == (VM { memory: self.memory, ..*old(self) }),
            decreases count - i,
        {
            let value: Value = self.stack[kept + i];
            let mut bytes: Vec<u8> = value.encode();
            proof {
                vstd::bytes::lemma_auto_spec_u64_to_from_le_bytes();
                assert(inputs.take(i as int + 1).drop_last() =~= inputs.take(i as int));
                assert(inputs.take(i as int + 1).last() == value);
                assert(bytes@.len() == 9);
            }
            let ghost before = self.memory@;
            self.memory.append(&mut bytes);
            proof {
                let sofar = encode_all(inputs.take(i as int));
                let enc = <Value as ByteEncodeProperties>::encoding(value);
                assert(old(self).memory@ + sofar + enc =~= old(self).memory@ + (sofar + enc));
            }
            i += 1;
        }
        proof {
            assert(inputs.take(count as int) =~= inputs);
        }
        self.stack.truncate(kept);
        assert(self.stack@ =~= old(self).stack@.take(kept as int));
        Ok(used as u32)
    }

    /// Take in the answer of a host function that wrote `written` bytes of
    /// output at `out_ptr`: the used memory reaches at least to the end of
    /// the output, and a pointer to an output that is not empty is pushed.
    /// On an error the machine is left as it was.
    pub fn finish_call(&mut self, out_ptr: TPointer, written: u32) -> (r: Result<
        (),
        ExecutionError,
    >)
        requires
            old(self).wf(),
        ensures
            final(self).wf(),
            old(self).call_finished(out_ptr, written, *final(self), r),
    {
        let end: u64 = out_ptr as u64 + written as u64;
        if end > self.memory_limit as u64 {
            return Err(ExecutionError::MemoryOverflow);
        }
        if written > 0 && self.stack.len() >= self.stack_limit {
            return Err(ExecutionError::StackOverflow);
        }
        self.grow(end as usize);
        if written > 0 {
            self.stack.push(Value::Pointer(out_ptr));
        }
        Ok(())
    }

    fn int_op(inst: Instruction, a: i64, b: i64) -> (r: Result<i64, ExecutionError>)
        ensures
            r == int_result(inst, a, b),
    {
        match inst {
            Instruction::AddInt => Ok(a.wrapping_add(b)),
            Instruction::SubInt => Ok(a.wrapping_sub(b)),
            Instruction::Mul => Ok(a.wrapping_mul(b)),
            _ => {
                if b == 0 {
                    Err(ExecutionError::DivideByZero)
                } else {
                    match a.checked_div(b) {
                        Some(q) => Ok(q),
                        None => Ok(i64::MIN),
                    }
                }
            },
        }
    }

    fn read_literal(inst: Instruction, rest: &[u8]) -> (r: Option<(Value, usize)>)
        ensures
            match literal(inst, rest@) {
                Some((value, len)) => r == Some((value, len as usize)) && len <= rest@.len() && len <= 8,
                None => r is None,
            },
    {
        match inst {
            Instruction::LiteralInt | Instruction::LiteralArray => match i64::decode(rest) {
                Some(v) => Some((Value::IValue(v), 8)),
                None => None,
            },
            Instruction::LiteralFloat => match u64::decode(rest) {
                Some(v) => Some((Value::FValue(v), 8)),
                None => None,
            },
            _ => match u32::decode(rest) {
                Some(v) => Some((Value::Pointer(v), 4)),
                None => None,
            },
        }
    }

    /// Do the instruction at `pc`, which is neither a call nor float
    /// arithmetic, and answer with the place of the next one.
    fn step_pure(&mut self, inst: Instruction, code: &[u8], pc: usize) -> (r: Result<
        usize,
        ExecutionError,
    >)
        requires
            old(self).wf(),
            pc < code@.len(),
            Instruction::of_byte(code@[pc as int]) == Some(inst),
            is_pure(inst),
        ensures
            final(self).wf(),
            *final(self) == (VM { stack: final(self).stack, ..*old(self) }),
            match step(code@, pc as int, old(self).stack@, old(self).stack_limit as nat) {
                Step::Next { stack, pc: at } => r == Ok::<usize, ExecutionError>(at as usize)
                    && final(self).stack@ == stack && pc < at <= code@.len(),
                Step::Fault { error } => r == Err::<usize, ExecutionError>(error) && final(self).stack == old(self).stack,
                Step::Outside => false,
            },
            pure_done(code@, pc as int, *old(self), *final(self), as_next(r)),
    {
        let end: usize = code.len();
        match inst {
            Instruction::Pass => Ok(pc + 1),
            Instruction::LiteralInt
            | Instruction::LiteralFloat
            | Instruction::LiteralPtr
            | Instruction::LiteralArray => {
                match Self::read_literal(inst, slice_subrange(code, pc + 1, code.len())) {
                    None => Err(ExecutionError::InvalidArgument),
                    Some((value, len)) => {
                        if self.stack.len() >= self.stack_limit {
                            Err(ExecutionError::StackOverflow)
                        } else {
                            self.stack.push(value);
                            Ok(pc + 1 + len)
                        }
                    },
                }
            },
            Instruction::AddInt | Instruction::SubInt | Instruction::Mul | Instruction::Div => {
                let n: usize = self.stack.len();
                if n < 2 {
                    return Err(ExecutionError::StackUnderflow);
                }
                match (self.stack[n - 2], self.stack[n - 1]) {
                    (Value::IValue(a), Value::IValue(b)) => match Self::int_op(inst, a, b) {
                        Ok(v) => {
                            self.stack.pop();
                            self.stack.pop();
                            self.stack.push(Value::IValue(v));
                            Ok(pc + 1)
                        },
                        Err(e) => Err(e),
                    },
                    _ => Err(ExecutionError::TypeMismatch),
                }
            },
            _ => {
                let n: usize = self.stack.len();
                if n == 0 {
                    Err(ExecutionError::StackUnderflow)
                } else if n >= self.stack_limit {
                    Err(ExecutionError::StackOverflow)
                } else {
                    let top: Value = self.stack[n - 1];
                    self.stack.push(top);
                    Ok(pc + 1)
                }
            },
        }
    }
}

/// The place of the next instruction as a number, or the error.
pub open spec fn as_next(r: Result<usize, ExecutionError>) -> Result<int, ExecutionError> {
    match r {
        Ok(at) => Ok(at as int),
        Err(e) => Err(e),
    }
}

/// What an instruction that the machine does alone does: the machine
/// `before` becomes the machine `after`, and `next` is the place of the next
/// instruction, or the error. An error leaves the machine as it was.
pub open spec fn pure_done<Aux, F>(
    code: Seq<u8>,
    pc: int,
    before: VM<Aux, F>,
    after: VM<Aux, F>,
    next: Result<int, ExecutionError>,
) -> bool {
    match step(code, pc, before.stack@, before.stack_limit as nat) {
        Step::Next { stack, pc: at } => next == Ok::<int, ExecutionError>(at)
            && before.stack_replaced(stack, after),
        Step::Fault { error } => next == Err::<int, ExecutionError>(error) && after == before,
        Step::Outside => false,
    }
}

/// What a float instruction does: without two floats on top of the stack
/// it fails, the machine unchanged; else the two floats are replaced by a
/// float, which the float unit chooses.
pub open spec fn float_step<Aux, F>(
    pc: int,
    before: VM<Aux, F>,
    after: VM<Aux, F>,
    next: Result<int, ExecutionError>,
) -> bool {
    match float_operands(before.stack@) {
        Err(e) => next == Err::<int, ExecutionError>(e) && after == before,
        Ok(_) => next == Ok::<int, ExecutionError>(pc + 1) && exists|bits: u64|
            #[trigger] before.stack_replaced(
                before.stack@.drop_last().drop_last().push(Value::FValue(bits)),
                after,
            ),
    }
}

/// A call of the function `f`, the next instruction at `at`: the inputs are
/// moved to the memory, which leaves the machine as `moved`; the function
/// is called, which leaves it as `called`; its answer is taken in, which
/// leaves it as `after`. The first step that fails ends the call.
pub open spec fn call_chain<Aux, F: HostFunction<Aux>>(
    f: F,
    at: int,
    before: VM<Aux, F>,
    moved: VM<Aux, F>,
    called: VM<Aux, F>,
    after: VM<Aux, F>,
    passed: Result<TPointer, ExecutionError>,
    answer: Result<u32, ExecutionError>,
    next: Result<int, ExecutionError>,
) -> bool {
    &&& before.inputs_passed(f.arity(), moved, passed)
    &&& match passed {
        Err(e) => next == Err::<int, ExecutionError>(e) && after == moved,
        Ok(in_ptr) => {
            let out_ptr = moved.memory@.len() as u32;
            &&& f.outcome(moved, in_ptr, out_ptr, called, answer)
            &&& match answer {
                Err(e) => next == Err::<int, ExecutionError>(e) && after == called,
                Ok(written) => exists|finished: Result<(), ExecutionError>| #[trigger]
                    called.call_finished(out_ptr, written, after, finished) && next == (
                    match finished {
                        Ok(_) => Ok::<int, ExecutionError>(at),
                        Err(e) => Err::<int, ExecutionError>(e),
                    }),
            }
        },
    }
}

/// What a call instruction does: the name that follows the instruction is
/// read and looked up, and the function registered under it is called.
pub open spec fn call_done<Aux, F: HostFunction<Aux>>(
    code: Seq<u8>,
    pc: int,
    before: VM<Aux, F>,
    after: VM<Aux, F>,
    next: Result<int, ExecutionError>,
) -> bool {
    match <InputString as ByteEncodeProperties>::decoding(code.subrange(pc + 1, code.len() as int)) {
        None => next == Err::<int, ExecutionError>(ExecutionError::InvalidArgument) && after
            == before,
        Some(name) => match before.function_of(name) {
            None => next == Err::<int, ExecutionError>(ExecutionError::UnknownFunction) && after
                == before,
            Some(f) => {
                let at = pc + 5 + name.len();
                exists|
                    moved: VM<Aux, F>,
                    called: VM<Aux, F>,
                    passed: Result<TPointer, ExecutionError>,
                    answer: Result<u32, ExecutionError>,
                | #[trigger]
                    call_chain(f, at, before, moved, called, after, passed, answer, next)
            },
        },
    }
}

/// What the instruction at `pc` does.
pub open spec fn instruction_done<Aux, F: HostFunction<Aux>>(
    code: Seq<u8>,
    pc: int,
    before: VM<Aux, F>,
    after: VM<Aux, F>,
    next: Result<int, ExecutionError>,
) -> bool {
    match Instruction::of_byte(code[pc]) {
        None => next == Err::<int, ExecutionError>(ExecutionError::UnknownOpcode) && after
            == before,
        Some(inst) => if is_pure(inst) {
            pure_done(code, pc, before, after, next)
        } else if inst == Instruction::Call {
            call_done(code, pc, before, after, next)
        } else {
            float_step(pc, before, after, next)
        },
    }
}

/// A run from `pc` on with `budget` instructions left takes the machine
/// `before` to the machine `after` and ends with `r`: at the end of the
/// program, at the first instruction that fails, or, with `Aborted`, where
/// the budget is used up.
pub open spec fn runs<Aux, F: HostFunction<Aux>>(
    code: Seq<u8>,
    pc: int,
    budget: nat,
    before: VM<Aux, F>,
    after: VM<Aux, F>,
    r: Result<(), ExecutionError>,
) -> bool
    decreases code.len() - pc,
{
    if pc >= code.len() || pc < 0 {
        r is Ok && after == before
    } else if budget == 0 {
        r == Err::<(), ExecutionError>(ExecutionError::Aborted) && after == before
    } else {
        exists|mid: VM<Aux, F>, next: Result<int, ExecutionError>| #[trigger]
            instruction_done(code, pc, before, mid, next) && (match next {
                Err(e) => r == Err::<(), ExecutionError>(e) && after == mid,
                Ok(at) => at > pc && runs(code, at, (budget - 1) as nat, mid, after, r),
            })
    }
}

/// What a float instruction does once the float unit has answered with
/// `bits`: the two operands leave the stack and the answer is pushed.
pub open spec fn float_operands(stack: Seq<Value>) -> Result<(u64, u64), ExecutionError> {
    if stack.len() < 2 {
        Err(ExecutionError::StackUnderflow)
    } else {
        match (stack[stack.len() - 2], stack[stack.len() - 1]) {
            (Value::FValue(a), Value::FValue(b)) => Ok((a, b)),
            _ => Err(ExecutionError::TypeMismatch),
        }
    }
}

impl<Aux, F: HostFunction<Aux>> VM<Aux, F> {
    /// The operands of a float instruction: the two floats on top of the stack.
    pub fn float_inputs(&self) -> (r: Result<(u64, u64), ExecutionError>)
        requires
            self.wf(),
        ensures
            r == float_operands(self.stack@),
    {
        let n: usize = self.stack.len();
        if n < 2 {
            return Err(ExecutionError::StackUnderflow);
        }
        match (self.stack[n - 2], self.stack[n - 1]) {
            (Value::FValue(a), Value::FValue(b)) => Ok((a, b)),
            _ => Err(ExecutionError::TypeMismatch),
        }
    }

    /// Replace the two operands of a float instruction by its result.
    pub fn float_done(&mut self, bits: u64)
        requires
            old(self).wf(),
            old(self).stack@.len() >= 2,
        ensures
            final(self).wf(),
            final(self).stack@ == old(self).stack@.drop_last().drop_last().push(
                Value::FValue(bits),
            ),
            *final(self) == (VM { stack: final(self).stack, ..*old(self) }),
    {
        self.stack.pop();
        self.stack.pop();
        self.stack.push(Value::FValue(bits));
    }

    /// Do the call at `pc` and answer with the place of the next instruction.
    fn call_at(&mut self, code: &[u8], pc: usize) -> (r: Result<usize, ExecutionError>)
        requires
            old(self).wf(),
            F::inv(old(self).aux),
            pc < code@.len(),
        ensures
            final(self).wf(),
            F::inv(final(self).aux),
            F::follows(old(self).aux, final(self).aux),
            r is Ok ==> pc < r->Ok_0 <= code@.len(),
            call_done(code@, pc as int, *old(self), *final(self), as_next(r)),
    {
        proof {
            F::lemma_follows(self.aux, self.aux, self.aux);
        }
        let ghost before = *self;
        let end: usize = code.len();
        let name: InputString = match InputString::decode(
            slice_subrange(code, pc + 1, code.len()),
        ) {
            Some(name) => name,
            None => { return Err(ExecutionError::InvalidArgument); },
        };
        let key: Vec<u8> = input_string_bytes(&name);
        let at: usize = pc + 1 + 4 + key.len();
        let function: F = match self.find_name(&key) {
            Some(i) => self.functions[i],
            None => { return Err(ExecutionError::UnknownFunction); },
        };
        proof {
            assert(<InputString as ByteEncodeProperties>::decoding(
                code@.subrange(pc as int + 1, code@.len() as int),
            ) == Some(key@));
            assert(before.function_of(key@) == Some(function));
            assert(at as int == pc + 5 + key@.len());
        }
        let ghost text = <InputString as ByteEncodeProperties>::decoding(
            code@.subrange(pc as int + 1, code@.len() as int),
        )->0;
        let ghost f = before.function_of(text)->0;
        let ghost then = pc as int + 5 + text.len();
        let passed = self.pass_inputs(function.num_params() as usize);
        let ghost moved = *self;
        let in_ptr: TPointer = match passed {
            Ok(p) => p,
            Err(e) => {
                proof {
                    assert(call_chain(
                        f,
                        then,
                        before,
                        moved,
                        moved,
                        moved,
                        passed,
                        Err::<u32, ExecutionError>(e),
                        Err::<int, ExecutionError>(e),
                    ));
                    assert(call_done(
                        code@,
                        pc as int,
                        before,
                        moved,
                        Err::<int, ExecutionError>(e),
                    ));
                }
                return Err(e);
            },
        };
        let out_ptr: TPointer = self.memory.len() as u32;
        let answer = function.call(self, in_ptr, out_ptr);
        let ghost called = *self;
        match answer {
            Err(e) => {
                proof {
                    F::lemma_follows(before.aux, moved.aux, called.aux);
                    assert(call_chain(
                        f,
                        then,
                        before,
                        moved,
                        called,
                        called,
                        passed,
                        answer,
                        Err::<int, ExecutionError>(e),
                    ));
                }
                Err(e)
            },
            Ok(written) => {
                let finished = self.finish_call(out_ptr, written);
                proof {
                    F::lemma_follows(before.aux, moved.aux, called.aux);
                    let next = match finished {
                        Ok(_) => Ok::<int, ExecutionError>(at as int),
                        Err(e) => Err::<int, ExecutionError>(e),
                    };
                    assert(called.call_finished(out_ptr, written, *self, finished));
                    assert(call_chain(
                        f,
                        then,
                        before,
                        moved,
                        called,
                        *self,
                        passed,
                        answer,
                        next,
                    ));
                }
                match finished {
                    Err(e) => Err(e),
                    Ok(()) => Ok(at),
                }
            },
        }
    }

    /// Run a program from its first byte to its end, or to the first error.
    ///
    /// The run is a chain of instructions, each done as `instruction_done`
    /// says; what a call does is what the function called says of itself,
    /// and the result of float arithmetic is what the float unit answers.
    /// As long as the program meets no call and no float arithmetic, the
    /// machine alone decides the outcome: the stack at the end, or the error
    /// and the stack at the failing instruction, with the memory, the
    /// context and the registry untouched.
    pub fn run<U: FloatUnit>(&mut self, bytecode: &[u8], fpu: &U) -> (r: Result<
        (),
        ExecutionError,
    >)
        requires
            old(self).wf(),
            F::inv(old(self).aux),
        ensures
            final(self).wf(),
            F::inv(final(self).aux),
            F::follows(old(self).aux, final(self).aux),
            match run_pure(
                bytecode@,
                0,
                old(self).stack@,
                old(self).stack_limit as nat,
                old(self).max_instructions as nat,
            ) {
                RunEnd::Done { stack } => r is Ok && final(self).stack@ == stack && *final(self) == (
                VM { stack: final(self).stack, ..*old(self) }),
                RunEnd::Fault { error, stack } => r == Err::<(), ExecutionError>(error) && final(self).stack@ == stack && *final(self) == (VM {
                    stack: final(self).stack,
                    ..*old(self)
                }),
                RunEnd::Outside { pc, stack } => true,
            },
            runs(
                bytecode@,
                0,
                old(self).max_instructions as nat,
                *old(self),
                *final(self),
                r,
            ),
    {
        let mut pc: usize = 0;
        let mut left: u64 = self.max_instructions;
        let ghost mut alone: bool = true;
        let ghost whole = run_pure(
            bytecode@,
            0,
            old(self).stack@,
            old(self).stack_limit as nat,
            old(self).max_instructions as nat,
        );
        proof {
            F::lemma_follows(self.aux, self.aux, self.aux);
        }
        while pc < bytecode.len()
            invariant
                self.wf(),
                F::inv(self.aux),
                F::follows(old(self).aux, self.aux),
                pc <= bytecode@.len(),
                whole == run_pure(
                    bytecode@,
                    0,
                    old(self).stack@,
                    old(self).stack_limit as nat,
                    old(self).max_instructions as nat,
                ),
                forall|end: VM<Aux, F>, r: Result<(), ExecutionError>| #[trigger]
                    runs(bytecode@, pc as int, left as nat, *self, end, r) ==> runs(
                        bytecode@,
                        0,
                        old(self).max_instructions as nat,
                        *old(self),
                        end,
                        r,
                    ),
                !alone ==> whole is Outside,
                alone ==> *self == (VM { stack: self.stack, ..*old(self) }) && whole == run_pure(
                    bytecode@,
                    pc as int,
                    self.stack@,
                    self.stack_limit as nat,
                    left as nat,
                ),
            decreases bytecode@.len() - pc,
        {
            let ghost here = *self;
            let ghost code = bytecode@;
            let ghost start_pc = pc as int;
            if left == 0 {
                proof {
                    assert(runs(
                        code,
                        pc as int,
                        left as nat,
                        here,
                        here,
                        Err::<(), ExecutionError>(ExecutionError::Aborted),
                    ));
                }
                return Err(ExecutionError::Aborted);
            }
            let inst: Instruction = match Instruction::from_byte(bytecode[pc]) {
                Some(inst) => inst,
                None => {
                    proof {
                        let e = ExecutionError::UnknownOpcode;
                        assert(instruction_done(code, start_pc, here, here, Err::<int, ExecutionError>(e)));
                        assert(runs(code, start_pc, left as nat, here, here, Err::<(), ExecutionError>(e)));
                    }
                    return Err(ExecutionError::UnknownOpcode);
                },
            };
            let ghost mut next: Result<int, ExecutionError> = Ok(0);
            match inst {
                Instruction::AddFloat
                | Instruction::SubFloat
                | Instruction::MulFloat
                | Instruction::DivFloat => {
                    proof {
                        alone = false;
                    }
                    match self.float_inputs() {
                        Err(e) => {
                            proof {
                                assert(instruction_done(code, start_pc, here, here, Err::<int, ExecutionError>(e)));
                                assert(runs(code, start_pc, left as nat, here, here, Err::<(), ExecutionError>(e)));
                            }
                            return Err(e);
                        },
                        Ok((a, b)) => {
                            let bits: u64 = fpu.binary(inst, a, b);
                            self.float_done(bits);
                            proof {
                                next = Ok(pc as int + 1);
                                assert(here.stack_replaced(
                                    here.stack@.drop_last().drop_last().push(Value::FValue(bits)),
                                    *self,
                                ));
                                assert(instruction_done(code, start_pc, here, *self, next));
                            }
                            pc = pc + 1;
                        },
                    }
                },
                Instruction::Call => {
                    proof {
                        alone = false;
                    }
                    let ghost before = self.aux;
                    proof {
                        F::lemma_follows(old(self).aux, before, before);
                    }
                    match self.call_at(bytecode, pc) {
                        Err(e) => {
                            proof {
                                F::lemma_follows(old(self).aux, before, self.aux);
                                assert(instruction_done(code, start_pc, here, *self, Err::<int, ExecutionError>(e)));
                                assert(runs(code, start_pc, left as nat, here, *self, Err::<(), ExecutionError>(e)));
                            }
                            return Err(e);
                        },
                        Ok(at) => {
                            proof {
                                F::lemma_follows(old(self).aux, before, self.aux);
                                next = Ok(at as int);
                                assert(instruction_done(code, start_pc, here, *self, next));
                            }
                            pc = at;
                        },
                    }
                },
                _ => {
                    match self.step_pure(inst, bytecode, pc) {
                        Err(e) => {
                            proof {
                                assert(instruction_done(code, start_pc, here, *self, Err::<int, ExecutionError>(e)));
                                assert(runs(code, start_pc, left as nat, here, *self, Err::<(), ExecutionError>(e)));
                            }
                            return Err(e);
                        },
                        Ok(at) => {
                            proof {
                                next = Ok(at as int);
                                assert(instruction_done(code, start_pc, here, *self, next));
                            }
                            pc = at;
                        },
                    }
                },
            }
            proof {
                let now = *self;
                assert forall|end: VM<Aux, F>, r: Result<(), ExecutionError>| #[trigger]
                    runs(code, pc as int, (left - 1) as nat, now, end, r) implies runs(
                    code,
                    0,
                    old(self).max_instructions as nat,
                    *old(self),
                    end,
                    r,
                ) by {
                    assert(instruction_done(code, start_pc, here, now, next));
                    assert(runs(code, start_pc, left as nat, here, end, r));
                }
            }
            left = left - 1;
        }
        proof {
            assert(runs(bytecode@, pc as int, left as nat, *self, *self, Ok::<(), ExecutionError>(())));
        }
        Ok(())
    }
}

} // verus!
