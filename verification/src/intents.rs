//! Intents: what the scripts of a tick propose, and how it is applied.
//!
//! A move carries the owner of the entity whose script proposed it. It is
//! checked once against the world as it was before anything was applied,
//! and of several moves of one bot only the last counts. When it is
//! applied, a move whose target has been taken meanwhile is dropped, so
//! that no two entities come to stand on one cell.
use crate::geometry::Point;
use crate::model::{
    EntityId, OperationResult, PositionComponent,
    TileTerrainType, UserId,
};
use crate::morton_table::in_bounds;
use crate::storage::{Storage, WorldView};
use crate::tables::BTreeTable;
use vstd::prelude::*;

verus! {

/// A bot is to step onto a neighbouring cell.
#[derive(Debug, Clone, Copy, PartialEq, Eq, Structural)]
pub struct MoveIntent {
    pub bot: EntityId,
    pub position: Point,
    /// The owner of the entity whose script proposed the move.
    pub user: Option<UserId>,
}

/// An entity logs a line.
#[derive(Debug, Clone)]
pub struct LogIntent {
    pub entity: EntityId,
    pub payload: String,
    pub time: u64,
}

/// What a script proposes.
#[derive(Debug, Clone)]
pub enum Intent {
    Move(MoveIntent),
    Log(LogIntent),
}

/// An intent as plain data.
pub enum IntentView {
    Move(MoveIntent),
    Log { entity: EntityId, payload: Seq<char>, time: u64 },
}

/// Whether an intent was applied.
pub type IntentResult = Result<(), OperationResult>;

impl Intent {
    pub open spec fn view(&self) -> IntentView {
        match self {
            Intent::Move(m) => IntentView::Move(*m),
            Intent::Log(l) => IntentView::Log {
                entity: l.entity,
                payload: l.payload@,
                time: l.time,
            },
        }
    }

    pub fn new_log(entity: EntityId, payload: String, time: u64) -> (intent: Intent)
        ensures
            intent@ == (IntentView::Log { entity, payload: payload@, time }),
    {
        Intent::Log(LogIntent { entity, payload, time })
    }

    pub fn new_move(bot: EntityId, position: Point, user: Option<UserId>) -> (intent: Intent)
        ensures
            intent@ == IntentView::Move(MoveIntent { bot, position, user }),
    {
        Intent::Move(MoveIntent { bot, position, user })
    }
}

/// The intents as plain data.
pub open spec fn intent_views(intents: Seq<Intent>) -> Seq<IntentView> {
    Seq::new(intents.len(), |i: int| intents[i]@)
}

/// The answer to a move in a given world: the bot must be a bot, owned by
/// the user, and stand one step from the target, which must lie in the
/// range of the tables and be neither a wall nor held by an entity.
pub open spec fn check_move(w: WorldView, intent: MoveIntent) -> OperationResult {
    let bot = intent.bot.0;
    if !w.bots.contains_key(bot) {
        OperationResult::InvalidInput
    } else if intent.user is None || !w.owners.contains_key(bot) || w.owners[bot].owner_id
        != intent.user->0 {
        OperationResult::NotOwner
    } else if !w.positions.contains_key(bot) {
        OperationResult::InvalidInput
    } else if w.positions[bot].0.distance(intent.position) > 1 || !in_bounds(intent.position) {
        OperationResult::InvalidInput
    } else if w.terrain.contains_key(intent.position) && w.terrain[intent.position].0
        == TileTerrainType::Wall {
        OperationResult::InvalidInput
    } else if w.entity_at.contains_key(intent.position) {
        OperationResult::InvalidInput
    } else {
        OperationResult::Success
    }
}

/// Check a move against the world.
pub fn check_move_intent(intent: &MoveIntent, storage: &Storage) -> (r: OperationResult)
    requires
        storage.wf(),
    ensures
        r == check_move(storage@, *intent),
{
    let bot: u64 = intent.bot.0;
    if !storage.bots.contains_key(bot) {
        return OperationResult::InvalidInput;
    }
    let user: UserId = match intent.user {
        Some(user) => user,
        None => { return OperationResult::NotOwner; },
    };
    match storage.owners.get_by_id(bot) {
        Some(owner) => {
            if owner.owner_id != user {
                return OperationResult::NotOwner;
            }
        },
        None => { return OperationResult::NotOwner; },
    }
    let pos: Point = match storage.positions.get_by_id(bot) {
        Some(pos) => pos.0,
        None => { return OperationResult::InvalidInput; },
    };
    if pos.hex_distance(intent.position) > 1 {
        return OperationResult::InvalidInput;
    }
    let target: Point = intent.position;
    if target.x < 0 || target.x > 0xffff || target.y < 0 || target.y > 0xffff {
        return OperationResult::InvalidInput;
    }
    match storage.terrain.get_by_id(&intent.position) {
        Some(tile) => match tile.0 {
            TileTerrainType::Wall => { return OperationResult::InvalidInput; },
            TileTerrainType::Empty => {},
        },
        None => {},
    }
    if storage.entity_at.contains_key(&intent.position) {
        return OperationResult::InvalidInput;
    }
    OperationResult::Success
}

/// Some entity stands at `p`.
pub open spec fn taken(positions: Map<u64, PositionComponent>, p: Point) -> bool {
    exists|id: u64| #[trigger] positions.contains_key(id) && positions[id].0 == p
}

/// No two entities stand on one cell.
pub open spec fn apart(positions: Map<u64, PositionComponent>) -> bool {
    forall|a: u64, b: u64|
        #[trigger] positions.contains_key(a) && #[trigger] positions.contains_key(b) && a != b
            ==> positions[a].0 != positions[b].0
}

/// The positions after a move is applied: the bot stands at the target,
/// unless it has no position or the target is taken.
pub open spec fn apply_move(
    positions: Map<u64, PositionComponent>,
    intent: MoveIntent,
) -> Map<u64, PositionComponent> {
    if positions.contains_key(intent.bot.0) && !taken(positions, intent.position) {
        positions.insert(intent.bot.0, PositionComponent(intent.position))
    } else {
        positions
    }
}

/// A later intent moves the same bot.
pub open spec fn moved_later(intents: Seq<IntentView>, i: int) -> bool {
    exists|j: int|
        i < j < intents.len() && (#[trigger] intents[j]) is Move && intents[j]->Move_0.bot
            == intents[i]->Move_0.bot
}

/// The `i`-th intent is a move that counts: no later intent moves the same
/// bot, and the move is in order in the world `w`.
pub open spec fn move_counts(w: WorldView, intents: Seq<IntentView>, i: int) -> bool {
    &&& intents[i] is Move
    &&& !moved_later(intents, i)
    &&& check_move(w, intents[i]->Move_0) == OperationResult::Success
}

/// The positions after the moves among the first `n` intents that count
/// in the world `w` were applied in order.
pub open spec fn apply_moves(
    w: WorldView,
    intents: Seq<IntentView>,
    n: int,
) -> Map<u64, PositionComponent>
    decreases n,
{
    if n <= 0 {
        w.positions
    } else if move_counts(w, intents, n - 1) {
        apply_move(apply_moves(w, intents, n - 1), intents[n - 1]->Move_0)
    } else {
        apply_moves(w, intents, n - 1)
    }
}

/// The log after the log intents among the first `n` intents were applied in order.
pub open spec fn apply_logs(
    logs: Map<(u64, u64), Seq<Seq<char>>>,
    intents: Seq<IntentView>,
    n: int,
) -> Map<(u64, u64), Seq<Seq<char>>>
    decreases n,
{
    if n <= 0 {
        logs
    } else {
        let before = apply_logs(logs, intents, n - 1);
        match intents[n - 1] {
            IntentView::Log { entity, payload, time } => {
                let key = (entity.0, time);
                let lines = if before.contains_key(key) {
                    before[key]
                } else {
                    Seq::empty()
                };
                before.insert(key, lines.push(payload))
            },
            _ => before,
        }
    }
}

/// The world after the intents of a tick: first the logs, then the moves.
pub open spec fn intents_spec(w: WorldView, intents: Seq<IntentView>) -> WorldView {
    WorldView {
        logs: apply_logs(w.logs, intents, intents.len() as int),
        positions: apply_moves(w, intents, intents.len() as int),
        ..w
    }
}

/// Applying a move keeps entities apart.
pub proof fn lemma_apply_move_apart(positions: Map<u64, PositionComponent>, intent: MoveIntent)
    requires
        apart(positions),
    ensures
        apart(apply_move(positions, intent)),
        apply_move(positions, intent).dom() == positions.dom(),
{
    let next = apply_move(positions, intent);
    if positions.contains_key(intent.bot.0) && !taken(positions, intent.position) {
        assert(next.dom() =~= positions.dom());
        assert forall|a: u64, b: u64| #[trigger]
            next.contains_key(a) && #[trigger] next.contains_key(b) && a != b implies next[a].0
            != next[b].0 by {
            assert(positions.contains_key(a) && positions.contains_key(b));
        }
    }
}

/// Every entity stands in the range of the tables.
pub open spec fn all_in_bounds(positions: Map<u64, PositionComponent>) -> bool {
    forall|id: u64| #[trigger] positions.contains_key(id) ==> in_bounds(positions[id].0)
}

/// Applying the moves of a tick keeps entities apart and in the range of
/// the tables, and moves no entity that had no position.
pub proof fn lemma_apply_moves_apart(w: WorldView, intents: Seq<IntentView>, n: int)
    requires
        apart(w.positions),
    ensures
        apart(apply_moves(w, intents, n)),
        apply_moves(w, intents, n).dom() == w.positions.dom(),
        all_in_bounds(w.positions) ==> all_in_bounds(apply_moves(w, intents, n)),
    decreases n,
{
    if n > 0 {
        lemma_apply_moves_apart(w, intents, n - 1);
        if move_counts(w, intents, n - 1) {
            lemma_apply_move_apart(apply_moves(w, intents, n - 1), intents[n - 1]->Move_0);
        }
    }
}

fn position_taken(positions: &BTreeTable<PositionComponent>, p: Point) -> (b: bool)
    requires
        positions.wf(),
    ensures
        b == taken(positions@, p),
{
    let n: usize = positions.len();
    let mut i: usize = 0;
    while i < n
        invariant
            positions.wf(),
            n == positions.ids().len(),
            i <= n,
            forall|k: int| 0 <= k < i ==> (#[trigger] positions.rows()[k]).0 != p,
        decreases n - i,
    {
        if positions.value_at(i).0 == p {
            proof {
                positions.lemma_row_at(i as int);
            }
            return true;
        }
        i += 1;
    }
    proof {
        if taken(positions@, p) {
            let id = choose|id: u64| #[trigger]
                positions@.contains_key(id) && positions@[id].0 == p;
            let k = positions.ids().index_of(id);
            positions.lemma_row_at(k);
            assert(positions.rows()[k].0 != p);
        }
    }
    false
}

impl LogIntent {
    /// Append the line to what the entity logged in the tick.
    pub fn execute(&self, storage: &mut Storage) -> (r: IntentResult)
        requires
            old(storage).wf(),
        ensures
            final(storage).wf(),
            r is Ok,
            final(storage).logs.lines(self.entity, self.time) == old(storage).logs.lines(
                self.entity,
                self.time,
            ).push(self.payload@),
            final(storage)@ == (WorldView {
                logs: old(storage)@.logs.insert(
                    (self.entity.0, self.time),
                    old(storage).logs.lines(self.entity, self.time).push(self.payload@),
                ),
                ..old(storage)@
            }),
    {
        storage.logs.push_line(self.entity, self.time, self.payload.clone());
        Ok(())
    }
}

impl MoveIntent {
    /// Put the bot on the target, unless the bot has no position or the
    /// target is taken; then the world stays as it is.
    pub fn execute(&self, storage: &mut Storage) -> (r: IntentResult)
        requires
            old(storage).wf(),
        ensures
            final(storage).wf(),
            r is Ok <==> old(storage)@.positions.contains_key(self.bot.0) && !taken(
                old(storage)@.positions,
                self.position,
            ),
            r is Err ==> r->Err_0 == OperationResult::InvalidInput,
            final(storage)@ == (WorldView {
                positions: apply_move(old(storage)@.positions, *self),
                ..old(storage)@
            }),
    {
        if !storage.positions.contains_key(self.bot.0) || position_taken(
            &storage.positions,
            self.position,
        ) {
            return Err(OperationResult::InvalidInput);
        }
        storage.positions.insert(self.bot.0, PositionComponent(self.position));
        Ok(())
    }
}

/// Whether a later intent moves the bot of the `i`-th.
fn is_moved_later(intents: &Vec<Intent>, i: usize, bot: EntityId) -> (b: bool)
    requires
        i < intents@.len(),
        intents@[i as int]@ is Move,
        intents@[i as int]@->Move_0.bot == bot,
    ensures
        b == moved_later(intent_views(intents@), i as int),
{
    let ghost views = intent_views(intents@);
    let n: usize = intents.len();
    let mut j: usize = i + 1;
    while j < intents.len()
        invariant
            i < j <= intents@.len(),
            views == intent_views(intents@),
            views[i as int] is Move,
            views[i as int]->Move_0.bot == bot,
            forall|k: int|
                i < k < j ==> !((#[trigger] views[k]) is Move && views[k]->Move_0.bot == bot),
        decreases intents@.len() - j,
    {
        match &intents[j] {
            Intent::Move(m) => {
                if m.bot == bot {
                    assert(views[j as int] is Move && views[j as int]->Move_0.bot == bot);
                    return true;
                }
            },
            Intent::Log(_) => {},
        }
        j += 1;
    }
    false
}

/// Apply the intents of a tick: the logs first, in order, then the moves
/// that count, in order.
pub fn execute_intents(intents: Vec<Intent>, storage: &mut Storage)
    requires
        old(storage).wf(),
    ensures
        final(storage).wf(),
        final(storage)@ == intents_spec(old(storage)@, intent_views(intents@)),
{
    let ghost w = storage@;
    let ghost views = intent_views(intents@);
    let n: usize = intents.len();
    // The moves are checked against the world as it is before anything is applied.
    let mut counts: Vec<bool> = Vec::new();
    let mut i: usize = 0;
    while i < n
        invariant
            storage.wf(),
            *storage == *old(storage),
            w == storage@,
            views == intent_views(intents@),
            n == intents@.len(),
            i <= n,
            counts@.len() == i,
            forall|k: int| 0 <= k < i ==> #[trigger] counts@[k] == move_counts(w, views, k),
        decreases n - i,
    {
        let c: bool = match &intents[i] {
            Intent::Move(m) => {
                !is_moved_later(&intents, i, m.bot) && check_move_intent(m, storage)
                    == OperationResult::Success
            },
            Intent::Log(_) => false,
        };
        counts.push(c);
        i += 1;
    }
    let mut i: usize = 0;
    while i < n
        invariant
            storage.wf(),
            views == intent_views(intents@),
            n == intents@.len(),
            i <= n,
            storage@ == (WorldView { logs: apply_logs(w.logs, views, i as int), ..w }),
        decreases n - i,
    {
        match &intents[i] {
            Intent::Log(l) => {
                let _ = l.execute(storage);
                proof {
                    let before = apply_logs(w.logs, views, i as int);
                    let key = (l.entity.0, l.time);
                    assert(views[i as int] == (IntentView::Log {
                        entity: l.entity,
                        payload: l.payload@,
                        time: l.time,
                    }));
                }
            },
            Intent::Move(_) => {},
        }
        i += 1;
    }
    let ghost logged = storage@;
    let mut i: usize = 0;
    while i < n
        invariant
            storage.wf(),
            views == intent_views(intents@),
            n == intents@.len(),
            i <= n,
            counts@.len() == n,
            forall|k: int| 0 <= k < n ==> #[trigger] counts@[k] == move_counts(w, views, k),
            logged == (WorldView { logs: apply_logs(w.logs, views, n as int), ..w }),
            storage@ == (WorldView { positions: apply_moves(w, views, i as int), ..logged }),
        decreases n - i,
    {
        if counts[i] {
            match &intents[i] {
                Intent::Move(m) => {
                    let _ = m.execute(storage);
                },
                Intent::Log(_) => {},
            }
        }
        i += 1;
    }
}

} // verus!
