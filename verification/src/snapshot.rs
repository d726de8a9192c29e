//! What a client gets to see of the world after a tick: the bots, the
//! terrain that is not empty, and what was logged in the tick.
use crate::api::{bot_info, build_bot, BotInfo};
use crate::geometry::Point;
use crate::model::{EntityId, LogEntry, TerrainComponent, TileTerrainType};
use crate::storage::{Storage, WorldView};
use vstd::prelude::*;
use vstd::string::StringExecFns;

verus! {

/// The bots among the entities `ids`, in order.
pub open spec fn bots_among(w: WorldView, ids: Seq<u64>) -> Seq<BotInfo>
    decreases ids.len(),
{
    if ids.len() == 0 {
        Seq::empty()
    } else {
        match bot_info(w, ids.last()) {
            Some(bot) => bots_among(w, ids.drop_last()).push(bot),
            None => bots_among(w, ids.drop_last()),
        }
    }
}

/// Every bot that has a position, by ascending id.
pub fn collect_bots(storage: &Storage) -> (bots: Vec<BotInfo>)
    requires
        storage.wf(),
    ensures
        bots@ == bots_among(storage@, storage.positions.ids()),
{
    let mut bots: Vec<BotInfo> = Vec::new();
    let n: usize = storage.positions.len();
    let mut i: usize = 0;
    while i < n
        invariant
            storage.wf(),
            n == storage.positions.ids().len(),
            i <= n,
            bots@ == bots_among(storage@, storage.positions.ids().take(i as int)),
        decreases n - i,
    {
        let id: u64 = storage.positions.key_at(i);
        proof {
            let ids = storage.positions.ids();
            assert(ids.take(i as int + 1).drop_last() =~= ids.take(i as int));
            assert(ids.take(i as int + 1).last() == id);
        }
        match build_bot(EntityId(id), storage) {
            Some(bot) => {
                bots.push(bot);
            },
            None => {},
        }
        i += 1;
    }
    proof {
        assert(storage.positions.ids().take(n as int) =~= storage.positions.ids());
    }
    bots
}

/// The tiles among `entries` that are not empty, in order.
pub open spec fn tiles_among(entries: Seq<(Point, TerrainComponent)>) -> Seq<
    (Point, TileTerrainType),
>
    decreases entries.len(),
{
    if entries.len() == 0 {
        Seq::empty()
    } else if entries.last().1.0 == TileTerrainType::Empty {
        tiles_among(entries.drop_last())
    } else {
        tiles_among(entries.drop_last()).push((entries.last().0, entries.last().1.0))
    }
}

/// The terrain that is not empty, in Morton order.
pub fn collect_terrain(storage: &Storage) -> (tiles: Vec<(Point, TileTerrainType)>)
    requires
        storage.wf(),
    ensures
        tiles@ == tiles_among(storage.terrain.entries()),
{
    let mut tiles: Vec<(Point, TileTerrainType)> = Vec::new();
    let n: usize = storage.terrain.len();
    let mut i: usize = 0;
    while i < n
        invariant
            storage.wf(),
            n == storage.terrain.entries().len(),
            i <= n,
            tiles@ == tiles_among(storage.terrain.entries().take(i as int)),
        decreases n - i,
    {
        let p: Point = storage.terrain.point_at(i);
        let tile: TileTerrainType = storage.terrain.value_at(i).0;
        proof {
            let entries = storage.terrain.entries();
            assert(entries.take(i as int + 1).drop_last() =~= entries.take(i as int));
            assert(entries.take(i as int + 1).last() == entries[i as int]);
        }
        match tile {
            TileTerrainType::Empty => {},
            TileTerrainType::Wall => {
                tiles.push((p, tile));
            },
        }
        i += 1;
    }
    proof {
        assert(storage.terrain.entries().take(n as int) =~= storage.terrain.entries());
    }
    tiles
}

/// The lines one after the other, each but the first after a line feed.
pub open spec fn joined(lines: Seq<Seq<char>>) -> Seq<char>
    decreases lines.len(),
{
    if lines.len() == 0 {
        Seq::empty()
    } else if lines.len() == 1 {
        lines[0]
    } else {
        joined(lines.drop_last()) + seq!['\n'] + lines.last()
    }
}

/// The lines of a log entry as one text, a line feed between two lines.
pub fn join_lines(entry: &LogEntry) -> (text: String)
    ensures
        text@ == joined(entry.lines()),
{
    let mut text = String::from_str("");
    let n: usize = entry.payload.len();
    let mut i: usize = 0;
    proof {
        reveal_strlit("");
        assert(entry.lines().take(0) =~= Seq::<Seq<char>>::empty());
    }
    while i < n
        invariant
            n == entry.payload@.len(),
            i <= n,
            text@ == joined(entry.lines().take(i as int)),
        decreases n - i,
    {
        proof {
            let lines = entry.lines();
            assert(lines.take(i as int + 1).drop_last() =~= lines.take(i as int));
            assert(lines.take(i as int + 1).last() == entry.payload@[i as int]@);
            reveal_strlit("\n");
            assert("\n"@ =~= seq!['\n']);
            if i == 0 {
                assert(lines.take(1)[0] == entry.payload@[0]@);
                assert(Seq::<char>::empty() + entry.payload@[0]@ =~= entry.payload@[0]@);
            }
        }
        if i > 0 {
            text.append("\n");
        }
        text.append(entry.payload[i].as_str());
        i += 1;
    }
    proof {
        assert(entry.lines().take(n as int) =~= entry.lines());
    }
    text
}

/// What the entities logged in the tick `time`: by ascending entity, the
/// lines of each as one text.
pub fn collect_log(storage: &Storage, time: u64) -> (log: Vec<(EntityId, String)>)
    requires
        storage.wf(),
    ensures
        !storage.logs.by_time@.contains_key(time) ==> log@.len() == 0,
        storage.logs.by_time@.contains_key(time) ==> {
            let entries = storage.logs.by_time@[time];
            &&& log@.len() == entries.ids().len()
            &&& forall|i: int|
                0 <= i < log@.len() ==> (#[trigger] log@[i]).0 == EntityId(entries.ids()[i])
                    && log@[i].1@ == joined(storage.logs.lines(log@[i].0, time))
        },
{
    let mut log: Vec<(EntityId, String)> = Vec::new();
    match storage.logs.get_logs_by_time(time) {
        None => {},
        Some(entries) => {
            let n: usize = entries.len();
            let mut i: usize = 0;
            while i < n
                invariant
                    entries.wf(),
                    storage.logs.by_time@.contains_key(time),
                    *entries == storage.logs.by_time@[time],
                    n == entries.ids().len(),
                    i <= n,
                    log@.len() == i,
                    forall|k: int|
                        0 <= k < i ==> (#[trigger] log@[k]).0 == EntityId(entries.ids()[k])
                            && log@[k].1@ == joined(storage.logs.lines(log@[k].0, time)),
                decreases n - i,
            {
                let id: u64 = entries.key_at(i);
                let entry = entries.value_at(i);
                proof {
                    entries.lemma_row_at(i as int);
                }
                log.push((EntityId(id), join_lines(entry)));
                i += 1;
            }
        },
    }
    log
}

} // verus!
