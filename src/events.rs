use vstd::prelude::*;
use crate::ids::DataId;
use crate::ledger::handles;
use crate::messages::{InputData, NodeEvent};
use dora_message::Metadata;

verus! {

/// In `s`, no `Input` for an id comes after an `InputClosed` for that id.
pub open spec fn closed_last(s: Seq<NodeEvent>) -> bool {
    forall|i: int, j: int| 0 <= i < j < s.len() && (#[trigger] s[i]) is InputClosed && (#[trigger] s[j]) is Input
        ==> s[i]->InputClosed_id@ != s[j]->Input_id@
}

/// Why an event was refused.
#[derive(Debug, Clone, Copy, PartialEq, Eq, Structural)]
pub enum QueueError {
    /// The input was closed before; no further data may follow.
    InputClosed,
}

/// The events waiting for one node, in the order in which the daemon
/// queued them, and the inputs of that node that are closed.
pub struct EventQueue {
    pending: Vec<NodeEvent>,
    closed: Vec<DataId>,
}

impl EventQueue {
    /// The events not yet handed to the node, oldest first.
    pub closed spec fn events(&self) -> Seq<NodeEvent> {
        self.pending@
    }

    /// The inputs that are closed.
    pub closed spec fn closed_inputs(&self) -> Seq<Seq<char>> {
        handles(self.closed@)
    }

    /// The invariant: every close that is queued is recorded, and no data
    /// follows a close of the same input.
    pub closed spec fn wf(&self) -> bool {
        &&& closed_last(self.pending@)
        &&& forall|i: int| 0 <= i < self.pending@.len() && (#[trigger] self.pending@[i]) is InputClosed
            ==> handles(self.closed@).contains(self.pending@[i]->InputClosed_id@)
    }

    /// A queue with no event and no closed input.
    pub fn new() -> (r: EventQueue)
        ensures
            r.wf(),
            r.events() == Seq::<NodeEvent>::empty(),
            r.closed_inputs() == Seq::<Seq<char>>::empty(),
    {
        let r = EventQueue { pending: Vec::new(), closed: Vec::new() };
        assert(r.closed_inputs() =~= Seq::<Seq<char>>::empty());
        r
    }

    /// The number of events waiting.
    pub fn len(&self) -> (n: usize)
        ensures
            n == self.events().len(),
    {
        self.pending.len()
    }

    fn is_closed(&self, id: &DataId) -> (r: bool)
        ensures
            r == self.closed_inputs().contains(id@),
    {
        let mut i: usize = 0;
        while i < self.closed.len()
            invariant
                i <= self.closed@.len(),
                forall|k: int| 0 <= k < i ==> self.closed@[k]@ != id@,
            decreases self.closed.len() - i,
        {
            if self.closed[i] == *id {
                assert(self.closed_inputs()[i as int] == id@);
                return true;
            }
            i += 1;
        }
        assert forall|k: int| 0 <= k < self.closed_inputs().len() implies self.closed_inputs()[k] != id@ by {
            assert(self.closed_inputs()[k] == self.closed@[k]@);
        }
        false
    }

    /// Queues a data item for input `id`, after every event queued before.
    /// Refused, with nothing changed, once the input is closed.
    pub fn push_input(&mut self, id: DataId, metadata: Metadata, data: Option<InputData>) -> (r: Result<(), QueueError>)
        requires
            old(self).wf(),
        ensures
            final(self).wf(),
            final(self).closed_inputs() == old(self).closed_inputs(),
            r is Err <==> old(self).closed_inputs().contains(id@),
            r is Err ==> r == Err::<(), QueueError>(QueueError::InputClosed) && final(self).events() == old(self).events(),
            r is Ok ==> final(self).events() == old(self).events().push(NodeEvent::Input { id, metadata, data }),
    {
        if self.is_closed(&id) {
            return Err(QueueError::InputClosed);
        }
        let ghost ev = NodeEvent::Input { id, metadata, data };
        let ghost before = self.pending@;
        self.pending.push(NodeEvent::Input { id, metadata, data });
        assert(self.pending@ == before.push(ev));
        assert forall|i: int, j: int| 0 <= i < j < self.pending@.len() && (#[trigger] self.pending@[i]) is InputClosed
            && (#[trigger] self.pending@[j]) is Input implies self.pending@[i]->InputClosed_id@ != self.pending@[j]->Input_id@ by {
            if j == before.len() {
                assert(self.pending@[i] == before[i]);
                assert(handles(self.closed@).contains(before[i]->InputClosed_id@));
            } else {
                assert(self.pending@[i] == before[i] && self.pending@[j] == before[j]);
            }
        }
        assert forall|i: int| 0 <= i < self.pending@.len() && (#[trigger] self.pending@[i]) is InputClosed
            implies handles(self.closed@).contains(self.pending@[i]->InputClosed_id@) by {
            assert(i < before.len());
            assert(self.pending@[i] == before[i]);
        }
        Ok(())
    }

    /// Closes input `id`: queues `InputClosed` after every event queued
    /// before. Returns false, with nothing changed, when it was closed already.
    pub fn close_input(&mut self, id: DataId) -> (r: bool)
        requires
            old(self).wf(),
        ensures
            final(self).wf(),
            r == !old(self).closed_inputs().contains(id@),
            r ==> final(self).events() == old(self).events().push(NodeEvent::InputClosed { id })
                && final(self).closed_inputs() == old(self).closed_inputs().push(id@),
            !r ==> final(self).events() == old(self).events() && final(self).closed_inputs() == old(self).closed_inputs(),
    {
        if self.is_closed(&id) {
            return false;
        }
        let ghost ev = NodeEvent::InputClosed { id };
        let ghost before = self.pending@;
        let ghost closed_before = handles(self.closed@);
        self.closed.push(id.clone());
        assert(handles(self.closed@) =~= closed_before.push(id@));
        self.pending.push(NodeEvent::InputClosed { id });
        assert(self.pending@ == before.push(ev));
        assert forall|i: int, j: int| 0 <= i < j < self.pending@.len() && (#[trigger] self.pending@[i]) is InputClosed
            && (#[trigger] self.pending@[j]) is Input implies self.pending@[i]->InputClosed_id@ != self.pending@[j]->Input_id@ by {
            assert(j < before.len());
            assert(self.pending@[i] == before[i] && self.pending@[j] == before[j]);
        }
        assert forall|i: int| 0 <= i < self.pending@.len() && (#[trigger] self.pending@[i]) is InputClosed
            implies handles(self.closed@).contains(self.pending@[i]->InputClosed_id@) by {
            if i < before.len() {
                assert(self.pending@[i] == before[i]);
                let m = choose|m: int| 0 <= m < closed_before.len() && closed_before[m] == before[i]->InputClosed_id@;
                assert(handles(self.closed@)[m] == closed_before[m]);
            } else {
                assert(handles(self.closed@)[closed_before.len() as int] == id@);
            }
        }
        true
    }

    /// Queues a stop event after every event queued before.
    pub fn push_stop(&mut self)
        requires
            old(self).wf(),
        ensures
            final(self).wf(),
            final(self).events() == old(self).events().push(NodeEvent::Stop),
            final(self).closed_inputs() == old(self).closed_inputs(),
    {
        let ghost before = self.pending@;
        self.pending.push(NodeEvent::Stop);
        assert forall|i: int, j: int| 0 <= i < j < self.pending@.len() && (#[trigger] self.pending@[i]) is InputClosed
            && (#[trigger] self.pending@[j]) is Input implies self.pending@[i]->InputClosed_id@ != self.pending@[j]->Input_id@ by {
            assert(j < before.len());
            assert(self.pending@[i] == before[i] && self.pending@[j] == before[j]);
        }
        assert forall|i: int| 0 <= i < self.pending@.len() && (#[trigger] self.pending@[i]) is InputClosed
            implies handles(self.closed@).contains(self.pending@[i]->InputClosed_id@) by {
            assert(i < before.len());
            assert(self.pending@[i] == before[i]);
        }
    }

    /// Hands over every waiting event, oldest first, and empties the queue.
    pub fn take_events(&mut self) -> (r: Vec<NodeEvent>)
        requires
            old(self).wf(),
        ensures
            final(self).wf(),
            r@ == old(self).events(),
            closed_last(r@),
            final(self).events() == Seq::<NodeEvent>::empty(),
            final(self).closed_inputs() == old(self).closed_inputs(),
    {
        let mut out: Vec<NodeEvent> = Vec::new();
        std::mem::swap(&mut out, &mut self.pending);
        assert(self.pending@ =~= Seq::<NodeEvent>::empty());
        out
    }
}

} // verus!
