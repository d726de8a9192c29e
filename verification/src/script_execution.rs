//! The first stage of a tick: the script of every entity runs against the
//! world as it is, and what the scripts propose is collected.
use crate::api::{about, ApiFunction, ScriptExecutionData, ScriptMachine};
use crate::intents::{intent_views, Intent, IntentView};
use crate::model::{EntityId, UserId};
use crate::schema::{game_rows, imported, make_import, row_view, FunctionRow};
use crate::storage::{Storage, WorldView};
use crate::vm::{
    runs, ExecutionError, FloatUnit, DEFAULT_INSTRUCTION_BUDGET, DEFAULT_MEMORY_LIMIT,
    DEFAULT_STACK_LIMIT, VM,
};
use vstd::prelude::*;
use vstd::string::StringSliceAdditionalSpecFns;

verus! {

/// The entity that proposed the intent.
pub open spec fn proposer(intent: IntentView) -> u64 {
    match intent {
        IntentView::Move(m) => m.bot.0,
        IntentView::Log { entity, payload: _, time: _ } => entity.0,
    }
}

/// The owner of an entity, if it has one.
pub open spec fn owner_of(w: WorldView, id: u64) -> Option<UserId> {
    if w.owners.contains_key(id) {
        Some(w.owners[id].owner_id)
    } else {
        None
    }
}

/// The intent was proposed in the world `w` by the script of an entity
/// that has a script and a program, for the owner of the entity, in the
/// current tick.
pub open spec fn proposed_in(w: WorldView, intent: IntentView) -> bool {
    &&& w.scripts.contains_key(proposer(intent))
    &&& w.script_programs.contains_key(w.scripts[proposer(intent)].script_id.0)
    &&& about(intent, EntityId(proposer(intent)), owner_of(w, proposer(intent)), w.time)
}

/// The function of the game that is registered under a name.
pub open spec fn game_function(name: Seq<u8>) -> Option<ApiFunction> {
    if name == "make_point".spec_bytes() {
        Some(ApiFunction::MakePoint)
    } else if name == "bots::move_bot".spec_bytes() {
        Some(ApiFunction::MoveBot)
    } else if name == "log_scalar".spec_bytes() {
        Some(ApiFunction::LogScalar)
    } else if name == "console_log".spec_bytes() {
        Some(ApiFunction::ConsoleLog)
    } else {
        None
    }
}

/// The machine that the script of the entity `id` starts on: empty, with
/// the limits of a new machine, the functions of the game, and a context
/// that names the entity, its owner and the world.
pub open spec fn starts_on<'a>(vm: ScriptMachine<'a>, storage: &'a Storage, id: u64) -> bool {
    &&& vm.wf()
    &&& vm.aux.wf()
    &&& vm.stack@ == Seq::<crate::bytecode::Value>::empty()
    &&& vm.memory@ == Seq::<u8>::empty()
    &&& vm.stack_limit == DEFAULT_STACK_LIMIT
    &&& vm.memory_limit == DEFAULT_MEMORY_LIMIT
    &&& vm.max_instructions == DEFAULT_INSTRUCTION_BUDGET
    &&& vm.aux.entity_id == EntityId(id)
    &&& vm.aux.user_id == owner_of(storage@, id)
    &&& vm.aux.storage == storage
    &&& vm.aux.proposed() == Seq::<IntentView>::empty()
    &&& forall|name: Seq<u8>| #[trigger] vm.function_of(name) == game_function(name)
}

/// The program of the entity `id` in the world, if the entity has one.
pub open spec fn program_of(w: WorldView, id: u64) -> Option<Seq<u8>> {
    if w.scripts.contains_key(id) && w.script_programs.contains_key(w.scripts[id].script_id.0) {
        Some(w.script_programs[w.scripts[id].script_id.0].0.bytecode@)
    } else {
        None
    }
}

/// A run of the program `code` of the entity `id` takes the machine
/// `start`, on which scripts start, to the machine `end`.
pub open spec fn script_runs<'a>(
    storage: &'a Storage,
    id: u64,
    code: Seq<u8>,
    start: ScriptMachine<'a>,
    end: ScriptMachine<'a>,
    r: Result<(), ExecutionError>,
) -> bool {
    starts_on(start, storage, id) && runs(
        code,
        0,
        DEFAULT_INSTRUCTION_BUDGET as nat,
        start,
        end,
        r,
    )
}

/// A run of the program of the entity `id` from the machine `start` ends
/// on the machine `end`, in whose context `more` stands.
pub open spec fn script_ends<'a>(
    storage: &'a Storage,
    id: u64,
    start: ScriptMachine<'a>,
    end: ScriptMachine<'a>,
    r: Result<(), ExecutionError>,
    more: Seq<IntentView>,
) -> bool {
    script_runs(storage, id, program_of(storage@, id)->0, start, end, r) && more
        == end.aux.proposed()
}

/// The script of the entity `id` proposes `more`: the intents that stand
/// in the context of a machine after a run of the program of the entity,
/// however the run ends. An entity without a program proposes nothing.
pub open spec fn script_yields<'a>(storage: &'a Storage, id: u64, more: Seq<IntentView>) -> bool {
    if program_of(storage@, id) is None {
        more == Seq::<IntentView>::empty()
    } else {
        exists|start: ScriptMachine<'a>, end: ScriptMachine<'a>, r: Result<(), ExecutionError>|
            script_ends(storage, id, start, end, r, more)
    }
}

/// The intents of all the parts, one part after the other.
pub open spec fn concat_all(parts: Seq<Seq<IntentView>>) -> Seq<IntentView>
    decreases parts.len(),
{
    if parts.len() == 0 {
        Seq::empty()
    } else {
        concat_all(parts.drop_last()) + parts.last()
    }
}

/// The script of each entity of `ids` proposes its part.
pub open spec fn each_yields(storage: &Storage, ids: Seq<u64>, parts: Seq<Seq<IntentView>>) -> bool {
    &&& parts.len() == ids.len()
    &&& forall|k: int| 0 <= k < ids.len() ==> script_yields(storage, ids[k], #[trigger] parts[k])
}

/// The scripts of the entities `ids` propose `out`, one entity after the other.
pub open spec fn collected(storage: &Storage, ids: Seq<u64>, out: Seq<IntentView>) -> bool {
    exists|parts: Seq<Seq<IntentView>>| #[trigger]
        each_yields(storage, ids, parts) && out == concat_all(parts)
}

/// A run of the program of an entity yields what stands in the context at its end.
proof fn lemma_script_yields<'a>(
    storage: &'a Storage,
    id: u64,
    code: Seq<u8>,
    start: ScriptMachine<'a>,
    end: ScriptMachine<'a>,
    r: Result<(), ExecutionError>,
)
    requires
        program_of(storage@, id) == Some(code),
        script_runs(storage, id, code, start, end, r),
    ensures
        script_yields(storage, id, end.aux.proposed()),
{
    assert(script_ends(storage, id, start, end, r, end.aux.proposed()));
}

/// The rows of the schema of the game register the functions of the game.
proof fn lemma_game_functions(rows: Seq<FunctionRow>, name: Seq<u8>)
    requires
        rows.len() == 4,
        forall|i: int| 0 <= i < 4 ==> row_view(#[trigger] rows[i]) == game_rows()[i],
    ensures
        imported(rows, 4, name) == game_function(name),
{
    assert(row_view(rows[0]) == game_rows()[0]);
    assert(row_view(rows[1]) == game_rows()[1]);
    assert(row_view(rows[2]) == game_rows()[2]);
    assert(row_view(rows[3]) == game_rows()[3]);
    assert(rows[3].name@ == "make_point"@);
    assert(rows[2].name@ == "bots::move_bot"@);
    assert(rows[1].name@ == "log_scalar"@);
    assert(rows[0].name@ == "console_log"@);
    reveal_with_fuel(imported, 5);
}

/// Run the script of every entity that has one, by ascending entity id,
/// and collect what the scripts propose. A script that fails keeps what it
/// proposed before it failed.
pub fn execute_scripts<U: FloatUnit>(storage: &Storage, fpu: &U) -> (intents: Vec<Intent>)
    requires
        storage.wf(),
    ensures
        collected(storage, storage.scripts.ids(), intent_views(intents@)),
        forall|i: int|
            0 <= i < intents@.len() ==> proposed_in(storage@, #[trigger] intent_views(intents@)[i]),
        forall|i: int, j: int|
            0 <= i < j < intents@.len() ==> proposer(#[trigger] intent_views(intents@)[i])
                <= proposer(#[trigger] intent_views(intents@)[j]),
{
    let mut intents: Vec<Intent> = Vec::new();
    let n: usize = storage.scripts.len();
    let mut i: usize = 0;
    let ghost ids = storage.scripts.ids();
    let ghost mut parts: Seq<Seq<IntentView>> = Seq::empty();
    proof {
        assert(intent_views(intents@) =~= Seq::<IntentView>::empty());
    }
    while i < n
        invariant
            storage.wf(),
            ids == storage.scripts.ids(),
            n == ids.len(),
            i <= n,
            parts.len() == i,
            forall|k: int| 0 <= k < i ==> script_yields(storage, ids[k], #[trigger] parts[k]),
            intent_views(intents@) == concat_all(parts),
            forall|k: int|
                0 <= k < intents@.len() ==> proposed_in(
                    storage@,
                    #[trigger] intent_views(intents@)[k],
                ),
            forall|k: int|
                0 <= k < intents@.len() && i < n ==> proposer(#[trigger] intent_views(intents@)[k])
                    < storage.scripts.ids()[i as int],
            forall|a: int, b: int|
                0 <= a < b < intents@.len() ==> proposer(#[trigger] intent_views(intents@)[a])
                    <= proposer(#[trigger] intent_views(intents@)[b]),
        decreases n - i,
    {
        let id: u64 = storage.scripts.key_at(i);
        let script = storage.scripts.value_at(i);
        let ghost old_views = intent_views(intents@);
        proof {
            storage.scripts.lemma_row_at(i as int);
        }
        match storage.script_programs.get_by_id(script.script_id.0) {
            None => {
                proof {
                    let none = Seq::<IntentView>::empty();
                    assert(program_of(storage@, id) is None);
                    assert(script_yields(storage, ids[i as int], none));
                    assert(old_views + none =~= old_views);
                    let grown = parts.push(none);
                    assert(grown.drop_last() =~= parts);
                    assert(grown.last() == none);
                    assert forall|k: int| 0 <= k < i + 1 implies script_yields(
                        storage,
                        ids[k],
                        #[trigger] grown[k],
                    ) by {
                        if k < i {
                            assert(grown[k] == parts[k]);
                        }
                    }
                    parts = grown;
                }
            },
            Some(program) => {
                let user: Option<UserId> = match storage.owners.get_by_id(id) {
                    Some(o) => Some(o.owner_id),
                    None => None,
                };
                let data = ScriptExecutionData::new(storage, EntityId(id), user);
                let mut vm: ScriptMachine = VM::new(data);
                let schema = make_import();
                let ghost rows = schema.imports@;
                schema.execute_imports(&mut vm);
                let ghost start = vm;
                proof {
                    assert forall|name: Seq<u8>| #[trigger]
                        vm.function_of(name) == game_function(name) by {
                        lemma_game_functions(rows, name);
                    }
                    assert(starts_on(start, storage, id));
                }
                let r = vm.run(program.0.bytecode.as_slice(), fpu);
                let ghost end = vm;
                let mut produced: Vec<Intent> = vm.aux.intents;
                let ghost new_views = intent_views(produced@);
                proof {
                    let more = choose|more: Seq<IntentView>| end.aux.extends(&start.aux, more);
                    assert(end.aux.extends(&start.aux, more));
                    assert forall|k: int| 0 <= k < new_views.len() implies proposed_in(
                        storage@,
                        #[trigger] new_views[k],
                    ) && proposer(new_views[k]) == id by {
                        assert(about(end.aux.proposed()[k], EntityId(id), user, storage.time));
                    }
                    assert(new_views == end.aux.proposed());
                    assert(program_of(storage@, id) == Some(program.0.bytecode@));
                    assert(runs(
                        program.0.bytecode@,
                        0,
                        DEFAULT_INSTRUCTION_BUDGET as nat,
                        start,
                        end,
                        r,
                    ));
                    assert(script_runs(storage, id, program.0.bytecode@, start, end, r));
                    assert(ids[i as int] == id);
                    assert(program_of(storage@, ids[i as int]) == Some(program.0.bytecode@));
                    lemma_script_yields(storage, id, program.0.bytecode@, start, end, r);
                    assert(script_yields(storage, ids[i as int], new_views));
                    let grown = parts.push(new_views);
                    assert(grown.drop_last() =~= parts);
                    assert(grown.last() == new_views);
                    assert forall|k: int| 0 <= k < i + 1 implies script_yields(
                        storage,
                        ids[k],
                        #[trigger] grown[k],
                    ) by {
                        if k < i {
                            assert(grown[k] == parts[k]);
                        }
                    }
                    parts = grown;
                }
                intents.append(&mut produced);
                proof {
                    assert(intent_views(intents@) =~= old_views + new_views);
                }
            },
        }
        proof {
            if i + 1 < n {
                assert(storage.scripts.ids()[i as int] < storage.scripts.ids()[i as int + 1]);
            }
        }
        i += 1;
    }
    proof {
        assert(each_yields(storage, ids, parts));
    }
    intents
}

} // verus!
