//! The command dispatch pipeline: producers — request handlers, the
//! scheduler's timer — enqueue typed commands, and a single consumer takes
//! them strictly in arrival order and runs each to completion. The pipeline
//! reaches its terminal state only when every producer handle has been
//! dropped and the queue has drained; the blocking and the tasks around it
//! belong to the caller, the order and the terminal condition are decided
//! here.

use vstd::prelude::*;
use crate::create_partitions::CreatePartitions;
use crate::save_messages::SaveMessagesCommand;

verus! {

/// A typed command awaiting its single execution.
#[derive(Debug)]
pub enum ServerCommand {
    /// Flush buffered messages, with or without a durability barrier.
    SaveMessages(SaveMessagesCommand),
    /// Create partitions under a topic.
    CreatePartitions(CreatePartitions),
}

/// The pipeline's state: the commands in arrival order, and how many
/// producer handles are still alive.
#[derive(Debug)]
pub struct CommandPipeline {
    /// Enqueued commands; the front is the next to be consumed.
    pub queue: Vec<ServerCommand>,
    /// Producer handles not yet dropped.
    pub producers: usize,
}

impl CommandPipeline {
    /// Closed: no producer can enqueue any more.
    pub open spec fn is_closed(self) -> bool {
        self.producers == 0
    }

    /// Terminal: closed and drained. Only here does the consumer stop.
    pub open spec fn is_terminated(self) -> bool {
        self.is_closed() && self.queue@.len() == 0
    }

    /// A fresh pipeline with the given number of producer handles.
    pub fn new(producers: usize) -> (p: CommandPipeline)
        ensures
            p.queue@ =~= Seq::<ServerCommand>::empty(),
            p.producers == producers,
    {
        CommandPipeline { queue: Vec::new(), producers }
    }

    /// A live producer enqueues one command at the back: application order
    /// equals arrival order on this pipeline.
    pub fn send(&mut self, command: ServerCommand)
        requires
            old(self).producers > 0,
        ensures
            final(self).queue@ == old(self).queue@.push(command),
            final(self).producers == old(self).producers,
    {
        self.queue.push(command);
    }

    /// A producer hands its handle back; when the last one is gone the
    /// pipeline is closed.
    pub fn drop_producer(&mut self)
        requires
            old(self).producers > 0,
        ensures
            final(self).queue@ == old(self).queue@,
            final(self).producers == old(self).producers - 1,
    {
        self.producers = self.producers - 1;
    }

    /// The consumer takes the next command, strictly in arrival order.
    /// `None` comes only in the terminal state; a consumer that would
    /// otherwise block waits with the caller until a command or closure
    /// arrives, so it never observes an open, empty pipeline here.
    pub fn recv(&mut self) -> (r: Option<ServerCommand>)
        requires
            old(self).queue@.len() > 0 || old(self).is_closed(),
        ensures
            final(self).producers == old(self).producers,
            old(self).queue@.len() > 0 ==> (r matches Some(c)
                && c == old(self).queue@[0]
                && final(self).queue@ == old(self).queue@.drop_first()),
            old(self).queue@.len() == 0 ==> r is None
                && old(self).is_terminated()
                && *final(self) == *old(self),
    {
        if self.queue.len() == 0 {
            None
        } else {
            let c = self.queue.remove(0);
            proof {
                assert(self.queue@ =~= old(self).queue@.drop_first());
            }
            Some(c)
        }
    }
}

} // verus!
