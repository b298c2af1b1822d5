//! The persistence scheduler and the command it emits. The scheduler is a
//! two-state machine — disabled, or running — that on every tick of its
//! configured interval emits one flush command carrying the configured
//! durability flag, and holds no other state; a companion executor applies
//! such a command against the system registry, running it to completion.
//! The timer itself and the channel plumbing live with the caller; the
//! decisions — whether a tick emits, and what executing a command does —
//! live here.

use vstd::prelude::*;
use crate::system::{System, buffered_in_streams, sat64, drained};

verus! {

/// What the configuration collaborator supplies for the scheduler.
#[derive(Debug, Clone, Copy, PartialEq, Eq, Structural)]
pub struct MessageSaverConfig {
    /// Whether the scheduler runs at all.
    pub enabled: bool,
    /// Whether each emitted flush demands a durability barrier.
    pub enforce_fsync: bool,
    /// Tick interval, in milliseconds.
    pub interval_ms: u64,
}

/// The command a tick emits: flush buffered messages now, with or without a
/// synchronous durability barrier.
#[derive(Debug, Clone, Copy, PartialEq, Eq, Structural)]
pub struct SaveMessagesCommand {
    pub enforce_fsync: bool,
}

impl Default for SaveMessagesCommand {
    /// By default no durability barrier is demanded.
    fn default() -> (c: SaveMessagesCommand)
        ensures
            c == (SaveMessagesCommand { enforce_fsync: false }),
    {
        SaveMessagesCommand { enforce_fsync: false }
    }
}

/// The persistence scheduler. Constructed disabled or running, it never
/// changes state afterwards; while running, each tick emits exactly one
/// flush command, and a disabled scheduler never emits anything.
#[derive(Debug, Clone, Copy, PartialEq, Eq, Structural)]
pub struct MessagesSaver {
    pub enabled: bool,
    pub enforce_fsync: bool,
    pub interval_ms: u64,
}

impl MessagesSaver {
    pub fn new(config: &MessageSaverConfig) -> (s: MessagesSaver)
        ensures
            s.enabled == config.enabled,
            s.enforce_fsync == config.enforce_fsync,
            s.interval_ms == config.interval_ms,
    {
        MessagesSaver {
            enabled: config.enabled,
            enforce_fsync: config.enforce_fsync,
            interval_ms: config.interval_ms,
        }
    }

    /// What one tick emits: the configured flush command while running,
    /// nothing while disabled.
    pub open spec fn spec_on_tick(self) -> Option<SaveMessagesCommand> {
        if self.enabled {
            Some(SaveMessagesCommand { enforce_fsync: self.enforce_fsync })
        } else {
            None
        }
    }

    /// One tick of the interval. The timer that produces the ticks belongs
    /// to the caller; this holds the whole decision.
    pub fn on_tick(&self) -> (r: Option<SaveMessagesCommand>)
        ensures
            r == self.spec_on_tick(),
            self.enabled ==> r == Some(SaveMessagesCommand {
                enforce_fsync: self.enforce_fsync,
            }),
            !self.enabled ==> r is None,
    {
        if self.enabled {
            Some(SaveMessagesCommand { enforce_fsync: self.enforce_fsync })
        } else {
            None
        }
    }

    /// Everything emitted over an elapsed run of ticks, in order.
    pub open spec fn emitted(self, ticks: nat) -> Seq<SaveMessagesCommand>
        decreases ticks,
    {
        if ticks == 0 {
            Seq::empty()
        } else {
            self.emitted((ticks - 1) as nat) + (match self.spec_on_tick() {
                Some(c) => seq![c],
                None => Seq::empty(),
            })
        }
    }

    /// A scheduler constructed disabled emits zero flush commands over any
    /// elapsed run of ticks: it never becomes running.
    pub proof fn lemma_disabled_emits_nothing(self, ticks: nat)
        requires
            !self.enabled,
        ensures
            self.emitted(ticks).len() == 0,
        decreases ticks,
    {
        if ticks > 0 {
            self.lemma_disabled_emits_nothing((ticks - 1) as nat);
        }
    }

    /// A running scheduler emits exactly one flush command per tick, each
    /// carrying the configured durability flag.
    pub proof fn lemma_running_emits_each_tick(self, ticks: nat)
        requires
            self.enabled,
        ensures
            self.emitted(ticks).len() == ticks,
            forall|i: int| 0 <= i < ticks ==> self.emitted(ticks)[i]
                == (SaveMessagesCommand { enforce_fsync: self.enforce_fsync }),
        decreases ticks,
    {
        if ticks > 0 {
            self.lemma_running_emits_each_tick((ticks - 1) as nat);
        }
    }
}

/// Applies flush commands against the system registry.
#[derive(Debug, Clone, Copy, PartialEq, Eq, Structural)]
pub struct SaveMessagesExecutor;

impl Default for SaveMessagesExecutor {
    fn default() -> (e: SaveMessagesExecutor)
        ensures
            e == SaveMessagesExecutor,
    {
        SaveMessagesExecutor
    }
}

impl SaveMessagesExecutor {
    /// Run one flush command to completion: drain every partition's write
    /// buffer in the registry and report how many messages were persisted.
    /// The registry's shape — its streams, their topics, each topic's
    /// partition count — is untouched. With nothing newly appended since the
    /// last flush nothing is buffered, so this persists and reports zero
    /// messages and leaves every partition, segments and index included,
    /// exactly as it was: flushing is idempotent.
    pub fn execute(&mut self, system: &mut System, command: SaveMessagesCommand)
        -> (saved: u64)
        requires
            old(system).inv(),
        ensures
            final(system).inv(),
            saved == sat64(buffered_in_streams(old(system).streams@)),
            final(system).segment_capacity == old(system).segment_capacity,
            final(system).streams@.len() == old(system).streams@.len(),
            forall|s: int| 0 <= s < old(system).streams@.len()
                ==> (#[trigger] final(system).streams@[s]).stream_id
                        == old(system).streams@[s].stream_id
                    && final(system).streams@[s].name == old(system).streams@[s].name
                    && final(system).streams@[s].topics@.len()
                        == old(system).streams@[s].topics@.len(),
            forall|s: int, t: int| 0 <= s < old(system).streams@.len()
                && 0 <= t < old(system).streams@[s].topics@.len()
                ==> (#[trigger] final(system).streams@[s].topics@[t]).topic_id
                        == old(system).streams@[s].topics@[t].topic_id
                    && final(system).streams@[s].topics@[t].name
                        == old(system).streams@[s].topics@[t].name
                    && final(system).streams@[s].topics@[t].partitions@.len()
                        == old(system).streams@[s].topics@[t].partitions@.len(),
            forall|s: int, t: int, p: int| 0 <= s < old(system).streams@.len()
                && 0 <= t < old(system).streams@[s].topics@.len()
                && 0 <= p < old(system).streams@[s].topics@[t].partitions@.len()
                ==> drained(
                    #[trigger] final(system).streams@[s].topics@[t].partitions@[p],
                    old(system).streams@[s].topics@[t].partitions@[p]),
            (forall|s: int, t: int, p: int| 0 <= s < old(system).streams@.len()
                && 0 <= t < old(system).streams@[s].topics@.len()
                && 0 <= p < old(system).streams@[s].topics@[t].partitions@.len()
                ==> (#[trigger] old(system).streams@[s].topics@[t].partitions@[p])
                    .buffer@.len() == 0) ==> saved == 0,
    {
        system.persist_messages(command.enforce_fsync)
    }
}

} // verus!
