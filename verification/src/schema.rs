//! The schema of the game: the functions that scripts can call, each with
//! its name, what it does, and the names of the types it takes and gives.
use crate::api::{ApiFunction, ScriptMachine};
use arrayvec::ArrayVec;
use vstd::prelude::*;
use vstd::string::StringSliceAdditionalSpecFns;

verus! {

/// Names of the types of the inputs of a function, at most 16.
pub type InputNames = ArrayVec<&'static str, 16>;

/// The names that an `ArrayVec` of names holds, first to last.
pub uninterp spec fn type_names(v: ArrayVec<&'static str, 16>) -> Seq<Seq<char>>;

/// `ArrayVec::new`: a vector without items.
#[verifier::external_body]
fn input_names_new() -> (v: InputNames)
    ensures
        type_names(v) == Seq::<Seq<char>>::empty(),
{
    ArrayVec::new()
}

/// `ArrayVec::try_push`: the item is put at the end when fewer than 16
/// items are held, and else the vector stays as it is.
#[verifier::external_body]
fn input_names_push(v: &mut InputNames, name: &'static str) -> (ok: bool)
    ensures
        ok == (type_names(*old(v)).len() < 16),
        ok ==> type_names(*final(v)) == type_names(*old(v)).push(name@),
        !ok ==> type_names(*final(v)) == type_names(*old(v)),
{
    v.try_push(name).is_ok()
}

/// Holds data about a function.
pub struct FunctionRow {
    pub name: &'static str,
    pub description: &'static str,
    /// Human readable names of the types of the inputs.
    pub input_names: InputNames,
    /// Human readable name of the type of the output.
    pub output: &'static str,
    pub fo: ApiFunction,
}

impl FunctionRow {
    /// Human readable names of the types of the inputs.
    pub fn inputs(&self) -> (names: &InputNames)
        ensures
            *names == self.input_names,
    {
        &self.input_names
    }
}

/// The functions of the game.
pub struct Schema {
    pub imports: Vec<FunctionRow>,
}

/// The function that the first `n` rows register under `name`: that of the
/// last of them with the name.
pub open spec fn imported(rows: Seq<FunctionRow>, n: int, name: Seq<u8>) -> Option<ApiFunction>
    decreases n,
{
    if n <= 0 {
        None
    } else if rows[n - 1].name.spec_bytes() == name {
        Some(rows[n - 1].fo)
    } else {
        imported(rows, n - 1, name)
    }
}

impl Schema {
    pub fn imports(&self) -> (rows: &Vec<FunctionRow>)
        ensures
            *rows == self.imports,
    {
        &self.imports
    }

    /// The names of the functions, in the order of the rows.
    pub fn keys(&self) -> (names: Vec<&'static str>)
        ensures
            names@.len() == self.imports@.len(),
            forall|i: int| 0 <= i < names@.len() ==> names@[i] == self.imports@[i].name,
    {
        let mut names: Vec<&'static str> = Vec::new();
        let mut i: usize = 0;
        while i < self.imports.len()
            invariant
                i <= self.imports@.len(),
                names@.len() == i,
                forall|k: int| 0 <= k < i ==> names@[k] == self.imports@[k].name,
            decreases self.imports@.len() - i,
        {
            names.push(self.imports[i].name);
            i += 1;
        }
        names
    }

    /// Register every function of the schema with the machine, under its name.
    pub fn execute_imports<'a>(self, vm: &mut ScriptMachine<'a>)
        requires
            old(vm).wf(),
        ensures
            final(vm).wf(),
            forall|name: Seq<u8>|
                final(vm).function_of(name) == (match imported(
                    self.imports@,
                    self.imports@.len() as int,
                    name,
                ) {
                    Some(f) => Some(f),
                    None => old(vm).function_of(name),
                }),
            final(vm).stack == old(vm).stack,
            final(vm).memory == old(vm).memory,
            final(vm).aux == old(vm).aux,
            final(vm).stack_limit == old(vm).stack_limit,
            final(vm).memory_limit == old(vm).memory_limit,
            final(vm).max_instructions == old(vm).max_instructions,
    {
        let n: usize = self.imports.len();
        let mut i: usize = 0;
        while i < n
            invariant
                vm.wf(),
                n == self.imports@.len(),
                i <= n,
                forall|name: Seq<u8>|
                    vm.function_of(name) == (match imported(self.imports@, i as int, name) {
                        Some(f) => Some(f),
                        None => old(vm).function_of(name),
                    }),
                vm.stack == old(vm).stack,
                vm.memory == old(vm).memory,
                vm.aux == old(vm).aux,
                vm.stack_limit == old(vm).stack_limit,
                vm.memory_limit == old(vm).memory_limit,
                vm.max_instructions == old(vm).max_instructions,
            decreases n - i,
        {
            let ghost before = *vm;
            vm.register_function_obj(self.imports[i].name, self.imports[i].fo);
            proof {
                assert forall|name: Seq<u8>|
                    vm.function_of(name) == (match imported(self.imports@, i as int + 1, name) {
                        Some(f) => Some(f),
                        None => old(vm).function_of(name),
                    }) by {
                    if name != self.imports@[i as int].name.spec_bytes() {
                        assert(vm.function_of(name) == before.function_of(name));
                    }
                }
            }
            i += 1;
        }
    }
}

fn names_of_one(a: &'static str) -> (v: InputNames)
    ensures
        type_names(v) == seq![a@],
{
    let mut v = input_names_new();
    let _ = input_names_push(&mut v, a);
    assert(type_names(v) =~= seq![a@]);
    v
}

fn names_of_two(a: &'static str, b: &'static str) -> (v: InputNames)
    ensures
        type_names(v) == seq![a@, b@],
{
    let mut v = input_names_new();
    let _ = input_names_push(&mut v, a);
    let _ = input_names_push(&mut v, b);
    assert(type_names(v) =~= seq![a@, b@]);
    v
}

/// The rows of the schema of the game as plain data: name, description,
/// input type names, output type name, function.
pub open spec fn game_rows() -> Seq<(Seq<char>, Seq<char>, Seq<Seq<char>>, Seq<char>, ApiFunction)> {
    seq![
        ("console_log"@, "Log a string"@, seq!["String"@], "Void"@, ApiFunction::ConsoleLog),
        ("log_scalar"@, "Log a scalar value"@, seq!["Scalar"@], "Void"@, ApiFunction::LogScalar),
        (
            "bots::move_bot"@,
            "Move the bot to the given Point"@,
            seq!["Point"@],
            "OperationResult"@,
            ApiFunction::MoveBot,
        ),
        (
            "make_point"@,
            "Create a point from x and y coordinates"@,
            seq!["Scalar"@, "Scalar"@],
            "Point"@,
            ApiFunction::MakePoint,
        ),
    ]
}

/// A row as plain data.
pub open spec fn row_view(row: FunctionRow) -> (
    Seq<char>,
    Seq<char>,
    Seq<Seq<char>>,
    Seq<char>,
    ApiFunction,
) {
    (row.name@, row.description@, type_names(row.input_names), row.output@, row.fo)
}

/// The schema of the game.
pub fn make_import() -> (schema: Schema)
    ensures
        schema.imports@.len() == 4,
        forall|i: int| 0 <= i < 4 ==> row_view(#[trigger] schema.imports@[i]) == game_rows()[i],
{
    let mut imports: Vec<FunctionRow> = Vec::new();
    imports.push(
        FunctionRow {
            name: "console_log",
            description: "Log a string",
            input_names: names_of_one("String"),
            output: "Void",
            fo: ApiFunction::ConsoleLog,
        },
    );
    imports.push(
        FunctionRow {
            name: "log_scalar",
            description: "Log a scalar value",
            input_names: names_of_one("Scalar"),
            output: "Void",
            fo: ApiFunction::LogScalar,
        },
    );
    imports.push(
        FunctionRow {
            name: "bots::move_bot",
            description: "Move the bot to the given Point",
            input_names: names_of_one("Point"),
            output: "OperationResult",
            fo: ApiFunction::MoveBot,
        },
    );
    imports.push(
        FunctionRow {
            name: "make_point",
            description: "Create a point from x and y coordinates",
            input_names: names_of_two("Scalar", "Scalar"),
            output: "Point",
            fo: ApiFunction::MakePoint,
        },
    );
    Schema { imports }
}

} // verus!
