//! The functions of the game that scripts call, and the schema that lists them.
//!
//! Every function reads its inputs from the memory of the machine at the
//! input pointer and writes its output, if any, at the output pointer. What
//! a script proposes is put as an intent into the context of the machine,
//! which names the entity and the owner of the entity that runs the script.
use crate::bytecode::{
    i32_bits, i32_from_bits, i32_of_bits, i32_to_bits, ByteEncodeProperties, TPointer, Value,
};
use crate::geometry::Point;
use crate::input_string::{all_ascii, string_bytes, InputString};
use crate::intents::{check_move, check_move_intent, Intent, IntentView, MoveIntent};
use crate::model::{EntityId, OperationResult, UserId};
use crate::storage::Storage;
use crate::text::{
    ascii_text, decimal, i64_to_string, input_string_text, signed_decimal, u64_to_string,
};
use crate::vm::{write_at, ExecutionError, HostFunction, VM};
use vstd::bytes::{
    lemma_auto_spec_u32_to_from_le_bytes, spec_u32_from_le_bytes, spec_u32_to_le_bytes,
    u32_from_le_bytes, u32_to_le_bytes,
};
use vstd::prelude::*;
use vstd::slice::slice_subrange;
use vstd::string::StringExecFns;

verus! {

/// The context of a machine that runs the script of an entity.
pub struct ScriptExecutionData<'a> {
    /// The entity whose script runs.
    pub entity_id: EntityId,
    /// The owner of the entity, if it has one.
    pub user_id: Option<UserId>,
    /// The world, to read.
    pub storage: &'a Storage,
    /// What the script has proposed so far.
    pub intents: Vec<Intent>,
}

/// The machine that runs the scripts of the game.
pub type ScriptMachine<'a> = VM<ScriptExecutionData<'a>, ApiFunction>;

/// The intent was proposed by the entity, for its owner, in the tick.
pub open spec fn about(intent: IntentView, entity: EntityId, user: Option<UserId>, time: u64) -> bool {
    match intent {
        IntentView::Move(m) => m.bot == entity && m.user == user,
        IntentView::Log { entity: e, payload: _, time: t } => e == entity && t == time,
    }
}

impl<'a> ScriptExecutionData<'a> {
    /// The intents proposed so far, as plain data.
    pub open spec fn proposed(&self) -> Seq<IntentView> {
        crate::intents::intent_views(self.intents@)
    }

    /// The world is well formed, and every intent was proposed by the
    /// entity, for its owner, in the current tick.
    pub open spec fn wf(&self) -> bool {
        &&& self.storage.wf()
        &&& forall|i: int|
            0 <= i < self.proposed().len() ==> about(
                #[trigger] self.proposed()[i],
                self.entity_id,
                self.user_id,
                self.storage.time,
            )
    }

    /// The context is that of `before` with `more` intents after those of `before`.
    pub open spec fn extends(&self, before: &Self, more: Seq<IntentView>) -> bool {
        &&& self.entity_id == before.entity_id
        &&& self.user_id == before.user_id
        &&& self.storage == before.storage
        &&& self.proposed() == before.proposed() + more
    }

    pub fn new(storage: &'a Storage, entity_id: EntityId, user_id: Option<UserId>) -> (data: Self)
        requires
            storage.wf(),
        ensures
            data.wf(),
            data.entity_id == entity_id,
            data.user_id == user_id,
            data.storage == storage,
            data.proposed() == Seq::<IntentView>::empty(),
    {
        let data = ScriptExecutionData { entity_id, user_id, storage, intents: Vec::new() };
        assert(data.proposed() =~= Seq::<IntentView>::empty());
        data
    }

    pub fn entityid(&self) -> (id: EntityId)
        ensures
            id == self.entity_id,
    {
        self.entity_id
    }

    pub fn storage(&self) -> (storage: &'a Storage)
        ensures
            storage == self.storage,
    {
        self.storage
    }

    /// Put an intent after those proposed so far.
    pub fn propose(&mut self, intent: Intent)
        requires
            old(self).wf(),
            about(intent@, old(self).entity_id, old(self).user_id, old(self).storage.time),
        ensures
            final(self).wf(),
            final(self).extends(old(self), seq![intent@]),
    {
        self.intents.push(intent);
        assert(self.proposed() =~= old(self).proposed() + seq![intent@]);
    }
}

/// A function of the game.
#[derive(Debug, Clone, Copy, PartialEq, Eq, Structural)]
pub enum ApiFunction {
    ConsoleLog,
    LogScalar,
    MoveBot,
    MakePoint,
}

/// A point is its two coordinates, four bytes each.
impl ByteEncodeProperties for Point {
    type Model = Point;

    open spec fn model(&self) -> Point {
        *self
    }

    open spec fn encodable(m: Point) -> bool {
        true
    }

    open spec fn encoding(m: Point) -> Seq<u8> {
        spec_u32_to_le_bytes(i32_bits(m.x)) + spec_u32_to_le_bytes(i32_bits(m.y))
    }

    open spec fn decoding(bytes: Seq<u8>) -> Option<Point> {
        if bytes.len() < 8 {
            None
        } else {
            Some(
                Point {
                    x: i32_of_bits(spec_u32_from_le_bytes(bytes.subrange(0, 4))),
                    y: i32_of_bits(spec_u32_from_le_bytes(bytes.subrange(4, 8))),
                },
            )
        }
    }

    open spec fn max_len() -> nat {
        8
    }

    fn bytelen() -> (n: usize) {
        8
    }

    fn encode(self) -> (bytes: Vec<u8>) {
        let mut bytes = u32_to_le_bytes(i32_to_bits(self.x));
        let mut more = u32_to_le_bytes(i32_to_bits(self.y));
        proof {
            lemma_auto_spec_u32_to_from_le_bytes();
        }
        bytes.append(&mut more);
        bytes
    }

    fn decode(bytes: &[u8]) -> (r: Option<Self>) {
        if bytes.len() < 8 {
            None
        } else {
            let x: i32 = i32_from_bits(u32_from_le_bytes(slice_subrange(bytes, 0, 4)));
            let y: i32 = i32_from_bits(u32_from_le_bytes(slice_subrange(bytes, 4, 8)));
            Some(Point { x, y })
        }
    }

    proof fn lemma_round_trip(m: Point, rest: Seq<u8>) {
        lemma_auto_spec_u32_to_from_le_bytes();
        let bytes = Self::encoding(m) + rest;
        assert(bytes.subrange(0, 4) =~= spec_u32_to_le_bytes(i32_bits(m.x)));
        assert(bytes.subrange(4, 8) =~= spec_u32_to_le_bytes(i32_bits(m.y)));
    }
}

/// The answer with the given number, if there is one.
pub open spec fn result_of_code(c: i32) -> Option<OperationResult> {
    if c == 0 {
        Some(OperationResult::Success)
    } else if c == 1 {
        Some(OperationResult::NotOwner)
    } else if c == 2 {
        Some(OperationResult::InvalidInput)
    } else if c == 3 {
        Some(OperationResult::OperationFailed)
    } else if c == 4 {
        Some(OperationResult::NotInRange)
    } else if c == 5 {
        Some(OperationResult::InvalidTarget)
    } else if c == 6 {
        Some(OperationResult::Empty)
    } else if c == 7 {
        Some(OperationResult::Full)
    } else {
        None
    }
}

/// An answer is its number, four bytes.
impl ByteEncodeProperties for OperationResult {
    type Model = OperationResult;

    open spec fn model(&self) -> OperationResult {
        *self
    }

    open spec fn encodable(m: OperationResult) -> bool {
        true
    }

    open spec fn encoding(m: OperationResult) -> Seq<u8> {
        spec_u32_to_le_bytes(i32_bits(m.code()))
    }

    open spec fn decoding(bytes: Seq<u8>) -> Option<OperationResult> {
        if bytes.len() < 4 {
            None
        } else {
            result_of_code(i32_of_bits(spec_u32_from_le_bytes(bytes.subrange(0, 4))))
        }
    }

    open spec fn max_len() -> nat {
        4
    }

    fn bytelen() -> (n: usize) {
        4
    }

    fn encode(self) -> (bytes: Vec<u8>) {
        proof {
            lemma_auto_spec_u32_to_from_le_bytes();
        }
        u32_to_le_bytes(i32_to_bits(self.to_code()))
    }

    fn decode(bytes: &[u8]) -> (r: Option<Self>) {
        if bytes.len() < 4 {
            return None;
        }
        let c: i32 = i32_from_bits(u32_from_le_bytes(slice_subrange(bytes, 0, 4)));
        match c {
            0 => Some(OperationResult::Success),
            1 => Some(OperationResult::NotOwner),
            2 => Some(OperationResult::InvalidInput),
            3 => Some(OperationResult::OperationFailed),
            4 => Some(OperationResult::NotInRange),
            5 => Some(OperationResult::InvalidTarget),
            6 => Some(OperationResult::Empty),
            7 => Some(OperationResult::Full),
            _ => None,
        }
    }

    proof fn lemma_round_trip(m: OperationResult, rest: Seq<u8>) {
        lemma_auto_spec_u32_to_from_le_bytes();
        let bytes = Self::encoding(m) + rest;
        assert(bytes.subrange(0, 4) =~= spec_u32_to_le_bytes(i32_bits(m.code())));
    }
}

/// The bytes of the memory from `ptr` on; none where `ptr` lies beyond the end.
pub open spec fn memory_at(memory: Seq<u8>, ptr: TPointer) -> Option<Seq<u8>> {
    if ptr > memory.len() {
        None
    } else {
        Some(memory.subrange(ptr as int, memory.len() as int))
    }
}

/// The line that an entity logs with a message.
pub open spec fn console_text(entity: u64, message: Seq<u8>) -> Seq<char> {
    "Console log EntityId[EntityId("@ + decimal(entity as nat) + ")] : "@ + ascii_text(message)
}

/// A scalar value as text. A float is shown by its bits.
pub open spec fn value_text(value: Value) -> Seq<char> {
    match value {
        Value::IValue(v) => "IValue("@ + signed_decimal(v as int) + ")"@,
        Value::FValue(b) => "FValue("@ + decimal(b as nat) + ")"@,
        Value::Pointer(p) => "Pointer("@ + decimal(p as nat) + ")"@,
    }
}

/// The line that an entity logs with a scalar value.
pub open spec fn scalar_text(entity: u64, value: Value) -> Seq<char> {
    "Entity [EntityId("@ + decimal(entity as nat) + ")] says "@ + value_text(value)
}

fn console_line(entity: EntityId, message: &InputString) -> (line: String)
    requires
        all_ascii(string_bytes(*message)),
    ensures
        line@ == console_text(entity.0, string_bytes(*message)),
{
    let mut line = String::from_str("Console log EntityId[EntityId(");
    line.append(u64_to_string(entity.0).as_str());
    line.append(")] : ");
    line.append(input_string_text(message).as_str());
    line
}

fn value_line(value: Value) -> (line: String)
    ensures
        line@ == value_text(value),
{
    match value {
        Value::IValue(v) => {
            let mut line = String::from_str("IValue(");
            line.append(i64_to_string(v).as_str());
            line.append(")");
            line
        },
        Value::FValue(b) => {
            let mut line = String::from_str("FValue(");
            line.append(u64_to_string(b).as_str());
            line.append(")");
            line
        },
        Value::Pointer(p) => {
            let mut line = String::from_str("Pointer(");
            line.append(u64_to_string(p as u64).as_str());
            line.append(")");
            line
        },
    }
}

fn scalar_line(entity: EntityId, value: Value) -> (line: String)
    ensures
        line@ == scalar_text(entity.0, value),
{
    let mut line = String::from_str("Entity [EntityId(");
    line.append(u64_to_string(entity.0).as_str());
    line.append(")] says ");
    line.append(value_line(value).as_str());
    line
}

/// What `console_log` does to the machine.
pub open spec fn console_logged<'a>(
    before: ScriptMachine<'a>,
    message: TPointer,
    after: ScriptMachine<'a>,
    r: Result<usize, ExecutionError>,
) -> bool {
    &&& match memory_at(before.memory@, message) {
            Some(bytes) => match <InputString as ByteEncodeProperties>::decoding(bytes) {
                Some(text) => r == Ok::<usize, ExecutionError>(0) && after.aux.extends(
                    &before.aux,
                    seq![
                        IntentView::Log {
                            entity: before.aux.entity_id,
                            payload: console_text(before.aux.entity_id.0, text),
                            time: before.aux.storage.time,
                        },
                    ],
                ),
                None => r == Err::<usize, ExecutionError>(ExecutionError::InvalidArgument)
                    && after == before,
            },
            None => r == Err::<usize, ExecutionError>(ExecutionError::InvalidArgument) && after
                == before,
        }
    &&& after == (VM { aux: after.aux, ..before })
}

/// Log the string at `message`. Proposes a log intent with the line
/// "Console log EntityId[EntityId(id)] : message" and answers with 0, the
/// number of bytes of output. Where no string stands at `message` the
/// answer is `InvalidArgument` and the machine is left as it was.
pub fn console_log<'a>(vm: &mut ScriptMachine<'a>, message: TPointer, _output: TPointer) -> (r:
    Result<usize, ExecutionError>)
    requires
        old(vm).wf(),
        old(vm).aux.wf(),
    ensures
        final(vm).wf(),
        final(vm).aux.wf(),
        console_logged(*old(vm), message, *final(vm), r),
{
    let text: InputString = match vm.get_value::<InputString>(message) {
        Some(text) => text,
        None => { return Err(ExecutionError::InvalidArgument); },
    };
    let entity: EntityId = vm.aux.entity_id;
    let time: u64 = vm.aux.storage.time();
    let payload = console_line(entity, &text);
    vm.aux.propose(Intent::new_log(entity, payload, time));
    Ok(0)
}

/// What `log_scalar` does to the machine.
pub open spec fn scalar_logged<'a>(
    before: ScriptMachine<'a>,
    value: Value,
    after: ScriptMachine<'a>,
    r: Result<usize, ExecutionError>,
) -> bool {
    &&& r == Ok::<usize, ExecutionError>(0)
    &&& after.aux.extends(
            &before.aux,
            seq![
                IntentView::Log {
                    entity: before.aux.entity_id,
                    payload: scalar_text(before.aux.entity_id.0, value),
                    time: before.aux.storage.time,
                },
            ],
        )
    &&& after == (VM { aux: after.aux, ..before })
}

/// Log a scalar value. Proposes a log intent with the line
/// "Entity [EntityId(id)] says value" and answers with 0, the number of
/// bytes of output.
pub fn log_scalar<'a>(vm: &mut ScriptMachine<'a>, value: Value, _output: TPointer) -> (r: Result<
    usize,
    ExecutionError,
>)
    requires
        old(vm).wf(),
        old(vm).aux.wf(),
    ensures
        final(vm).wf(),
        final(vm).aux.wf(),
        scalar_logged(*old(vm), value, *final(vm), r),
{
    let entity: EntityId = vm.aux.entity_id;
    let time: u64 = vm.aux.storage.time();
    let payload = scalar_line(entity, value);
    vm.aux.propose(Intent::new_log(entity, payload, time));
    Ok(0)
}

/// The point with the given coordinates, which must be integers of 32 bits.
pub open spec fn point_of(x: Value, y: Value) -> Option<Point> {
    match (x, y) {
        (Value::IValue(x), Value::IValue(y)) => if i32::MIN <= x <= i32::MAX && i32::MIN <= y
            <= i32::MAX {
            Some(Point { x: x as i32, y: y as i32 })
        } else {
            None
        },
        _ => None,
    }
}

/// What `make_point` does to the machine.
pub open spec fn point_made<'a>(
    before: ScriptMachine<'a>,
    coordinates: (Value, Value),
    output: TPointer,
    after: ScriptMachine<'a>,
    r: Result<usize, ExecutionError>,
) -> bool {
    &&& match point_of(coordinates.0, coordinates.1) {
            None => r == Err::<usize, ExecutionError>(ExecutionError::InvalidArgument) && after
                == before,
            Some(p) => if output + 8 <= before.memory_limit {
                r == Ok::<usize, ExecutionError>(8) && after.memory@ == write_at(
                    before.memory@,
                    output as int,
                    <Point as ByteEncodeProperties>::encoding(p),
                )
            } else {
                &&& r == Err::<usize, ExecutionError>(ExecutionError::MemoryOverflow)
                &&& after.memory == before.memory
            },
        }
    &&& after == (VM { memory: after.memory, ..before })
}

/// Make a point of two coordinates and write it at `output`. Answers with
/// the 8 bytes written. Where the coordinates are not two integers of 32
/// bits the answer is `InvalidArgument`, where the point does not fit in
/// the memory it is `MemoryOverflow`; the machine is then left as it was.
pub fn make_point<'a>(vm: &mut ScriptMachine<'a>, coordinates: (Value, Value), output: TPointer) -> (r:
    Result<usize, ExecutionError>)
    requires
        old(vm).wf(),
        old(vm).aux.wf(),
    ensures
        final(vm).wf(),
        final(vm).aux.wf(),
        point_made(*old(vm), coordinates, output, *final(vm), r),
{
    let p: Point = match coordinates {
        (Value::IValue(x), Value::IValue(y)) => {
            if x < i32::MIN as i64 || x > i32::MAX as i64 || y < i32::MIN as i64 || y
                > i32::MAX as i64 {
                return Err(ExecutionError::InvalidArgument);
            }
            Point { x: x as i32, y: y as i32 }
        },
        _ => { return Err(ExecutionError::InvalidArgument); },
    };
    proof {
        lemma_auto_spec_u32_to_from_le_bytes();
    }
    vm.set_value_at(output, p)
}

/// What `move_bot` writes at the output pointer: nothing where the move is
/// in order, else the answer to it.
pub open spec fn move_report(result: OperationResult) -> Seq<u8> {
    if result == OperationResult::Success {
        Seq::empty()
    } else {
        <OperationResult as ByteEncodeProperties>::encoding(result)
    }
}

/// What `move_bot` does to the machine.
pub open spec fn bot_moved<'a>(
    before: ScriptMachine<'a>,
    point: TPointer,
    output: TPointer,
    after: ScriptMachine<'a>,
    r: Result<usize, ExecutionError>,
) -> bool {
    &&& match memory_at(before.memory@, point) {
            Some(bytes) => match <Point as ByteEncodeProperties>::decoding(bytes) {
                Some(p) => {
                    let intent = MoveIntent {
                        bot: before.aux.entity_id,
                        position: p,
                        user: before.aux.user_id,
                    };
                    let report = move_report(check_move(before.aux.storage@, intent));
                    if report.len() > 0 && output + report.len() > before.memory_limit {
                        r == Err::<usize, ExecutionError>(ExecutionError::MemoryOverflow)
                            && after == before
                    } else {
                        &&& r == Ok::<usize, ExecutionError>(report.len() as usize)
                        &&& after.aux.extends(&before.aux, seq![IntentView::Move(intent)])
                        &&& after.memory@ == (if report.len() > 0 {
                            write_at(before.memory@, output as int, report)
                        } else {
                            before.memory@
                        })
                    }
                },
                None => r == Err::<usize, ExecutionError>(ExecutionError::InvalidArgument)
                    && after == before,
            },
            None => r == Err::<usize, ExecutionError>(ExecutionError::InvalidArgument) && after
                == before,
        }
    &&& after == (VM { aux: after.aux, memory: after.memory, ..before })
}

/// Move the bot that runs the script to the point at `point`. The move is
/// checked against the world; an answer other than success is written at
/// `output`. The move is proposed whatever the answer, and the number of
/// bytes written is returned. Where no point stands at `point` the answer
/// is `InvalidArgument`, where the report does not fit in the memory it is
/// `MemoryOverflow`; the machine is then left as it was.
pub fn move_bot<'a>(vm: &mut ScriptMachine<'a>, point: TPointer, output: TPointer) -> (r: Result<
    usize,
    ExecutionError,
>)
    requires
        old(vm).wf(),
        old(vm).aux.wf(),
    ensures
        final(vm).wf(),
        final(vm).aux.wf(),
        bot_moved(*old(vm), point, output, *final(vm), r),
{
    let position: Point = match vm.get_value::<Point>(point) {
        Some(p) => p,
        None => { return Err(ExecutionError::InvalidArgument); },
    };
    let intent = MoveIntent { bot: vm.aux.entity_id, position, user: vm.aux.user_id };
    let checkresult: OperationResult = check_move_intent(&intent, vm.aux.storage);
    proof {
        lemma_auto_spec_u32_to_from_le_bytes();
    }
    let result: usize = match checkresult {
        OperationResult::Success => 0,
        _ => match vm.set_value_at(output, checkresult) {
            Ok(n) => n,
            Err(e) => { return Err(e); },
        },
    };
    vm.aux.propose(Intent::Move(intent));
    Ok(result)
}

/// A bot as the clients of the game see it.
#[derive(Debug, Clone, Copy, PartialEq, Eq, Structural)]
pub struct BotInfo {
    pub id: u64,
    pub owner_id: Option<u64>,
    pub position: Point,
    pub carry: u16,
    pub carry_max: u16,
}

/// What `build_bot` yields in a given world: nothing for an entity that is
/// no bot or has no position; a bot that carries nothing where the carry
/// component is missing; no owner where the entity has none.
pub open spec fn bot_info(w: crate::storage::WorldView, id: u64) -> Option<BotInfo> {
    if !w.bots.contains_key(id) || !w.positions.contains_key(id) {
        None
    } else {
        Some(
            BotInfo {
                id,
                owner_id: if w.owners.contains_key(id) {
                    Some(w.owners[id].owner_id.0)
                } else {
                    None
                },
                position: w.positions[id].0,
                carry: if w.carries.contains_key(id) {
                    w.carries[id].carry
                } else {
                    0
                },
                carry_max: if w.carries.contains_key(id) {
                    w.carries[id].carry_max
                } else {
                    0
                },
            },
        )
    }
}

/// Describe the bot `id` for the clients of the game.
pub fn build_bot(id: EntityId, storage: &Storage) -> (r: Option<BotInfo>)
    requires
        storage.wf(),
    ensures
        r == bot_info(storage@, id.0),
{
    if !storage.bots.contains_key(id.0) {
        return None;
    }
    let position: Point = match storage.positions.get_by_id(id.0) {
        Some(pos) => pos.0,
        None => { return None; },
    };
    let (carry, carry_max): (u16, u16) = match storage.carries.get_by_id(id.0) {
        Some(c) => (c.carry, c.carry_max),
        None => (0, 0),
    };
    let owner_id: Option<u64> = match storage.owners.get_by_id(id.0) {
        Some(o) => Some(o.owner_id.0),
        None => None,
    };
    Some(BotInfo { id: id.0, owner_id, position, carry, carry_max })
}

/// The scalar value that stands in the memory at `ptr`, if one does.
pub open spec fn input_at(memory: Seq<u8>, ptr: TPointer) -> Option<Value> {
    match memory_at(memory, ptr) {
        None => None,
        Some(bytes) => <Value as ByteEncodeProperties>::decoding(bytes),
    }
}

/// The answer of a function as the machine takes it: a number of bytes
/// that does not fit in a pointer is a memory overflow.
pub open spec fn narrowed(r: Result<usize, ExecutionError>) -> Result<u32, ExecutionError> {
    match r {
        Ok(n) => if n > u32::MAX {
            Err(ExecutionError::MemoryOverflow)
        } else {
            Ok(n as u32)
        },
        Err(e) => Err(e),
    }
}

impl<'a> HostFunction<ScriptExecutionData<'a>> for ApiFunction {
    open spec fn inv(aux: ScriptExecutionData<'a>) -> bool {
        aux.wf()
    }

    open spec fn follows(before: ScriptExecutionData<'a>, after: ScriptExecutionData<'a>) -> bool {
        exists|more: Seq<IntentView>| after.extends(&before, more)
    }

    proof fn lemma_follows(
        a: ScriptExecutionData<'a>,
        b: ScriptExecutionData<'a>,
        c: ScriptExecutionData<'a>,
    ) {
        assert(a.proposed() + Seq::<IntentView>::empty() =~= a.proposed());
        assert(a.extends(&a, Seq::<IntentView>::empty()));
        if Self::follows(a, b) && Self::follows(b, c) {
            let m1 = choose|more: Seq<IntentView>| b.extends(&a, more);
            let m2 = choose|more: Seq<IntentView>| c.extends(&b, more);
            assert(a.proposed() + (m1 + m2) =~= a.proposed() + m1 + m2);
            assert(c.extends(&a, m1 + m2));
        }
    }

    open spec fn arity(self) -> nat {
        match self {
            ApiFunction::ConsoleLog => 1,
            ApiFunction::LogScalar => 1,
            ApiFunction::MoveBot => 1,
            ApiFunction::MakePoint => 2,
        }
    }

    /// The inputs of the function are read at `in_ptr`, one scalar value
    /// after the other, and the function is called with them. Inputs that
    /// are missing give `InvalidArgument`, an input of the wrong kind
    /// `TypeMismatch`; the machine is then left as it was.
    open spec fn outcome(
        self,
        before: VM<ScriptExecutionData<'a>, Self>,
        in_ptr: TPointer,
        out_ptr: TPointer,
        after: VM<ScriptExecutionData<'a>, Self>,
        r: Result<u32, ExecutionError>,
    ) -> bool {
        match input_at(before.memory@, in_ptr) {
            None => r == Err::<u32, ExecutionError>(ExecutionError::InvalidArgument) && after
                == before,
            Some(first) => match self {
                ApiFunction::ConsoleLog => match first {
                    Value::Pointer(p) => exists|inner: Result<usize, ExecutionError>| #[trigger]
                        console_logged(before, p, after, inner) && r == narrowed(inner),
                    _ => r == Err::<u32, ExecutionError>(ExecutionError::TypeMismatch) && after
                        == before,
                },
                ApiFunction::LogScalar => exists|inner: Result<usize, ExecutionError>| #[trigger]
                    scalar_logged(before, first, after, inner) && r == narrowed(inner),
                ApiFunction::MoveBot => match first {
                    Value::Pointer(p) => exists|inner: Result<usize, ExecutionError>| #[trigger]
                        bot_moved(before, p, out_ptr, after, inner) && r == narrowed(inner),
                    _ => r == Err::<u32, ExecutionError>(ExecutionError::TypeMismatch) && after
                        == before,
                },
                ApiFunction::MakePoint => if in_ptr > u32::MAX - 9 {
                    r == Err::<u32, ExecutionError>(ExecutionError::InvalidArgument) && after
                        == before
                } else {
                    match input_at(before.memory@, (in_ptr + 9) as u32) {
                        None => r == Err::<u32, ExecutionError>(ExecutionError::InvalidArgument)
                            && after == before,
                        Some(second) => exists|inner: Result<usize, ExecutionError>| #[trigger]
                            point_made(before, (first, second), out_ptr, after, inner) && r
                                == narrowed(inner),
                    }
                },
            },
        }
    }

    fn num_params(self) -> (n: u8) {
        match self {
            ApiFunction::ConsoleLog => 1,
            ApiFunction::LogScalar => 1,
            ApiFunction::MoveBot => 1,
            ApiFunction::MakePoint => 2,
        }
    }

    fn call(
        self,
        vm: &mut VM<ScriptExecutionData<'a>, Self>,
        in_ptr: TPointer,
        out_ptr: TPointer,
    ) -> (r: Result<u32, ExecutionError>) {
        proof {
            Self::lemma_follows(vm.aux, vm.aux, vm.aux);
        }
        let first: Value = match vm.get_value::<Value>(in_ptr) {
            Some(v) => v,
            None => { return Err(ExecutionError::InvalidArgument); },
        };
        let written = match self {
            ApiFunction::ConsoleLog => match first {
                Value::Pointer(p) => console_log(vm, p, out_ptr),
                _ => { return Err(ExecutionError::TypeMismatch); },
            },
            ApiFunction::LogScalar => log_scalar(vm, first, out_ptr),
            ApiFunction::MoveBot => match first {
                Value::Pointer(p) => move_bot(vm, p, out_ptr),
                _ => { return Err(ExecutionError::TypeMismatch); },
            },
            ApiFunction::MakePoint => {
                if in_ptr > 0xffff_ffff - 9 {
                    return Err(ExecutionError::InvalidArgument);
                }
                let second: Value = match vm.get_value::<Value>(in_ptr + 9) {
                    Some(v) => v,
                    None => { return Err(ExecutionError::InvalidArgument); },
                };
                make_point(vm, (first, second), out_ptr)
            },
        };
        proof {
            if self == ApiFunction::ConsoleLog {
                assert(console_logged(*old(vm), first->Pointer_0, *vm, written));
            } else if self == ApiFunction::LogScalar {
                assert(scalar_logged(*old(vm), first, *vm, written));
            } else if self == ApiFunction::MoveBot {
                assert(bot_moved(*old(vm), first->Pointer_0, out_ptr, *vm, written));
            } else {
                let second = input_at(old(vm).memory@, (in_ptr + 9) as u32)->0;
                assert(point_made(*old(vm), (first, second), out_ptr, *vm, written));
            }
        }
        match written {
            Ok(n) => {
                if n > 0xffff_ffff {
                    Err(ExecutionError::MemoryOverflow)
                } else {
                    Ok(n as u32)
                }
            },
            Err(e) => Err(e),
        }
    }
}

} // verus!
