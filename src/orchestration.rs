use vstd::prelude::*;
use crate::ids::{DataflowId, NodeId};
use crate::ledger::handles;
use crate::messages::{DaemonCoordinatorEvent, DaemonCoordinatorReply, SpawnDataflowNodes};

verus! {

/// Where a dataflow stands at a daemon. A dataflow that the daemon does not
/// know is unspawned.
#[derive(Debug, Clone, Copy, PartialEq, Eq, Structural)]
pub enum DataflowPhase {
    Spawning,
    Running,
    Stopping,
    Stopped,
}

/// A dataflow as the contracts see it: its phase and its live nodes.
pub type DataflowView = (DataflowPhase, Seq<Seq<char>>);

/// One dataflow known to the daemon.
pub struct DataflowRecord {
    pub id: DataflowId,
    pub phase: DataflowPhase,
    pub live: Vec<NodeId>,
}

impl View for DataflowRecord {
    type V = (u128, DataflowPhase, Seq<Seq<char>>);

    open spec fn view(&self) -> (u128, DataflowPhase, Seq<Seq<char>>) {
        (self.id, self.phase, handles(self.live@))
    }
}

/// The dataflows of a list of records, keyed by id.
pub open spec fn as_map(s: Seq<(u128, DataflowPhase, Seq<Seq<char>>)>) -> Map<u128, DataflowView>
    decreases s.len(),
{
    if s.len() == 0 {
        Map::empty()
    } else {
        as_map(s.drop_last()).insert(s.last().0, (s.last().1, s.last().2))
    }
}

pub open spec fn unique_ids(s: Seq<(u128, DataflowPhase, Seq<Seq<char>>)>) -> bool {
    forall|i: int, j: int| 0 <= i < j < s.len() ==> s[i].0 != s[j].0
}

proof fn lemma_as_map_index(s: Seq<(u128, DataflowPhase, Seq<Seq<char>>)>)
    requires
        unique_ids(s),
    ensures
        forall|i: int| 0 <= i < s.len() ==> as_map(s).contains_key(#[trigger] s[i].0)
            && as_map(s)[s[i].0] == (s[i].1, s[i].2),
        forall|id: u128| as_map(s).contains_key(id) ==> exists|i: int| 0 <= i < s.len() && s[i].0 == id,
    decreases s.len(),
{
    if s.len() > 0 {
        let p = s.drop_last();
        lemma_as_map_index(p);
        assert forall|i: int| 0 <= i < s.len() implies as_map(s).contains_key(#[trigger] s[i].0)
            && as_map(s)[s[i].0] == (s[i].1, s[i].2) by {
            if i < p.len() {
                assert(p[i] == s[i]);
                assert(p[i].0 != s.last().0);
            }
        }
        assert forall|id: u128| as_map(s).contains_key(id) implies exists|i: int| 0 <= i < s.len() && s[i].0 == id by {
            if id != s.last().0 {
                assert(as_map(p).contains_key(id));
                let i = choose|i: int| 0 <= i < p.len() && p[i].0 == id;
                assert(s[i] == p[i]);
            } else {
                assert(s[s.len() - 1].0 == id);
            }
        }
    }
}

proof fn lemma_as_map_update(s: Seq<(u128, DataflowPhase, Seq<Seq<char>>)>, i: int, v: DataflowView)
    requires
        unique_ids(s),
        0 <= i < s.len(),
    ensures
        unique_ids(s.update(i, (s[i].0, v.0, v.1))),
        as_map(s.update(i, (s[i].0, v.0, v.1))) == as_map(s).insert(s[i].0, v),
    decreases s.len(),
{
    let t = s.update(i, (s[i].0, v.0, v.1));
    assert forall|a: int, b: int| 0 <= a < b < t.len() implies t[a].0 != t[b].0 by {
        assert(t[a].0 == s[a].0 && t[b].0 == s[b].0);
    }
    if i == s.len() - 1 {
        assert(t.drop_last() =~= s.drop_last());
        assert(as_map(t) =~= as_map(s).insert(s[i].0, v));
    } else {
        lemma_as_map_update(s.drop_last(), i, v);
        assert(t.drop_last() =~= s.drop_last().update(i, (s[i].0, v.0, v.1)));
        assert(s.drop_last()[i].0 != s.last().0);
        assert(as_map(t) =~= as_map(s).insert(s[i].0, v));
    }
}

proof fn lemma_as_map_remove(s: Seq<(u128, DataflowPhase, Seq<Seq<char>>)>, i: int)
    requires
        unique_ids(s),
        0 <= i < s.len(),
    ensures
        unique_ids(s.remove(i)),
        as_map(s.remove(i)) == as_map(s).remove(s[i].0),
    decreases s.len(),
{
    let t = s.remove(i);
    assert forall|a: int, b: int| 0 <= a < b < t.len() implies t[a].0 != t[b].0 by {
        let x = if a < i { a } else { a + 1 };
        let y = if b < i { b } else { b + 1 };
        assert(t[a] == s[x] && t[b] == s[y]);
    }
    lemma_as_map_index(s.drop_last());
    if i == s.len() - 1 {
        assert(t =~= s.drop_last());
        assert(!as_map(s.drop_last()).contains_key(s[i].0)) by {
            if as_map(s.drop_last()).contains_key(s[i].0) {
                let k = choose|k: int| 0 <= k < s.drop_last().len() && s.drop_last()[k].0 == s[i].0;
                assert(s[k].0 == s[i].0);
            }
        }
        assert(as_map(t) =~= as_map(s).remove(s[i].0));
    } else {
        lemma_as_map_remove(s.drop_last(), i);
        assert(t.drop_last() =~= s.drop_last().remove(i));
        assert(t.last() == s.last());
        assert(s.drop_last()[i].0 != s.last().0);
        assert(as_map(t) =~= as_map(s).remove(s[i].0));
    }
}

/// Whether a dataflow in `phase` still has nodes to be told to stop.
pub open spec fn is_active(phase: DataflowPhase) -> bool {
    phase is Spawning || phase is Running
}

/// The dataflows after a stop command for `id`: an active dataflow moves to
/// stopping, or straight to stopped when no node of it is live; any other
/// dataflow is left as it is.
pub open spec fn after_stop(m: Map<u128, DataflowView>, id: u128) -> Map<u128, DataflowView> {
    if m.contains_key(id) && is_active(m[id].0) {
        let next = if m[id].1.len() == 0 { DataflowPhase::Stopped } else { DataflowPhase::Stopping };
        m.insert(id, (next, m[id].1))
    } else {
        m
    }
}

/// A second stop command for a dataflow changes nothing, and both are
/// answered with success exactly when the dataflow is known.
pub proof fn lemma_stop_idempotent(m: Map<u128, DataflowView>, id: u128)
    ensures
        after_stop(after_stop(m, id), id) == after_stop(m, id),
        after_stop(m, id).contains_key(id) == m.contains_key(id),
        after_stop(m, id).contains_key(id) ==> !is_active(after_stop(m, id)[id].0),
{
}

/// What the daemon does next about a coordinator command.
#[derive(Debug)]
pub enum CommandOutcome {
    /// Send the reply to the coordinator, and stop (or kill) these nodes.
    Reply(DaemonCoordinatorReply, Vec<NodeId>),
    /// The spawn was accepted: launch its nodes, then finish the spawn,
    /// which gives the reply.
    Launch,
}

/// The daemon's record of the dataflows that it runs, and the rules by which
/// coordinator commands and node exits move them from phase to phase.
pub struct Orchestrator {
    dataflows: Vec<DataflowRecord>,
}

impl View for Orchestrator {
    type V = Map<u128, DataflowView>;

    closed spec fn view(&self) -> Map<u128, DataflowView> {
        as_map(self.records())
    }
}

impl Orchestrator {
    closed spec fn records(&self) -> Seq<(u128, DataflowPhase, Seq<Seq<char>>)> {
        self.dataflows@.map_values(|r: DataflowRecord| r@)
    }

    /// The invariant: each dataflow id is recorded once.
    pub closed spec fn wf(&self) -> bool {
        unique_ids(self.records())
    }

    /// A daemon that runs nothing.
    pub fn new() -> (r: Orchestrator)
        ensures
            r.wf(),
            r@ == Map::<u128, DataflowView>::empty(),
    {
        let r = Orchestrator { dataflows: Vec::new() };
        assert(r.records() =~= Seq::empty());
        r
    }

    fn position(&self, id: DataflowId) -> (r: Option<usize>)
        requires
            self.wf(),
        ensures
            match r {
                Some(i) => i < self.dataflows@.len() && self.records()[i as int].0 == id
                    && self@.contains_key(id) && self@[id] == (self.records()[i as int].1, self.records()[i as int].2),
                None => !self@.contains_key(id),
            },
    {
        let mut i: usize = 0;
        while i < self.dataflows.len()
            invariant
                i <= self.dataflows@.len(),
                self.wf(),
                self.records().len() == self.dataflows@.len(),
                forall|k: int| 0 <= k < i ==> self.records()[k].0 != id,
            decreases self.dataflows.len() - i,
        {
            assert(self.records()[i as int] == self.dataflows@[i as int]@);
            if self.dataflows[i].id == id {
                proof {
                    lemma_as_map_index(self.records());
                }
                assert(self.records()[i as int].0 == id);
                return Some(i);
            }
            i += 1;
        }
        proof {
            lemma_as_map_index(self.records());
        }
        None
    }

    /// The phase of dataflow `id`, or `None` when it is unspawned.
    pub fn phase_of(&self, id: DataflowId) -> (r: Option<DataflowPhase>)
        requires
            self.wf(),
        ensures
            r == (if self@.contains_key(id) { Some(self@[id].0) } else { None::<DataflowPhase> }),
    {
        match self.position(id) {
            Some(i) => {
                assert(self.records()[i as int] == self.dataflows@[i as int]@);
                Some(self.dataflows[i].phase)
            },
            None => None,
        }
    }

    fn replace_record(&mut self, i: usize, phase: DataflowPhase, live: Vec<NodeId>) -> (prev: Vec<NodeId>)
        requires
            old(self).wf(),
            i < old(self).dataflows@.len(),
        ensures
            final(self).wf(),
            final(self)@ == old(self)@.insert(old(self).records()[i as int].0, (phase, handles(live@))),
            handles(prev@) == old(self).records()[i as int].2,
            final(self).dataflows@.len() == old(self).dataflows@.len(),
            final(self).records()[i as int].0 == old(self).records()[i as int].0,
            final(self).records() == old(self).records().update(i as int, (old(self).records()[i as int].0, phase, handles(live@))),
    {
        proof {
            lemma_as_map_update(self.records(), i as int, (phase, handles(live@)));
        }
        let old_rec = self.dataflows.remove(i);
        let id = old_rec.id;
        self.dataflows.insert(i, DataflowRecord { id, phase, live });
        assert(self.records() =~= old(self).records().update(i as int, (id, phase, handles(live@))));
        old_rec.live
    }

    /// Starts a spawn: accepted when the working directory exists, the node
    /// list is not empty and the dataflow is unspawned; the dataflow is then
    /// spawning with no live node. A refused spawn changes nothing.
    pub fn begin_spawn(&mut self, spawn: &SpawnDataflowNodes, working_dir_exists: bool) -> (r: Result<(), String>)
        requires
            old(self).wf(),
        ensures
            final(self).wf(),
            r is Ok <==> (working_dir_exists && spawn.nodes@.len() > 0 && !old(self)@.contains_key(spawn.dataflow_id)),
            r is Ok ==> final(self)@ == old(self)@.insert(spawn.dataflow_id, (DataflowPhase::Spawning, Seq::empty())),
            r is Err ==> final(self)@ == old(self)@,
    {
        if !working_dir_exists {
            return Err("working directory does not exist".to_owned());
        }
        if spawn.nodes.len() == 0 {
            return Err("dataflow has no nodes".to_owned());
        }
        let id = spawn.dataflow_id;
        if self.position(id).is_some() {
            return Err("dataflow is already known".to_owned());
        }
        proof {
            lemma_as_map_index(self.records());
        }
        let rec = DataflowRecord { id, phase: DataflowPhase::Spawning, live: Vec::new() };
        self.dataflows.push(rec);
        assert(self.records() =~= old(self).records().push((id, DataflowPhase::Spawning, handles(Seq::<String>::empty()))));
        assert(handles(Seq::<String>::empty()) =~= Seq::empty());
        assert(self.records().drop_last() =~= old(self).records());
        assert forall|a: int, b: int| 0 <= a < b < self.records().len() implies self.records()[a].0 != self.records()[b].0 by {
            if b == self.records().len() - 1 {
                assert(old(self).records()[a].0 == self.records()[a].0);
            } else {
                assert(old(self).records()[a] == self.records()[a] && old(self).records()[b] == self.records()[b]);
            }
        }
        Ok(())
    }

    /// Records that `node` of a spawning dataflow was launched. Returns false,
    /// and changes nothing, when the dataflow is not spawning.
    pub fn node_launched(&mut self, id: DataflowId, node: NodeId) -> (r: bool)
        requires
            old(self).wf(),
        ensures
            final(self).wf(),
            r <==> (old(self)@.contains_key(id) && old(self)@[id].0 is Spawning),
            r ==> final(self)@ == old(self)@.insert(id, (DataflowPhase::Spawning, old(self)@[id].1.push(node@))),
            !r ==> final(self)@ == old(self)@,
    {
        match self.position(id) {
            None => false,
            Some(i) => {
                assert(self.records()[i as int] == self.dataflows@[i as int]@);
                if self.dataflows[i].phase != DataflowPhase::Spawning {
                    return false;
                }
                let mut live = self.replace_record(i, DataflowPhase::Spawning, Vec::new());
                let ghost before = handles(live@);
                live.push(node);
                assert(handles(live@) =~= before.push(node@));
                self.replace_record(i, DataflowPhase::Spawning, live);
                assert(self@ =~= old(self)@.insert(id, (DataflowPhase::Spawning, old(self)@[id].1.push(node@))));
                true
            },
        }
    }

    /// Ends a spawn with the launcher's outcome. On success the dataflow
    /// runs; on failure it becomes unspawned again and its launched nodes are
    /// returned, to be torn down. Refused, with nothing changed, when the
    /// dataflow is not spawning.
    pub fn finish_spawn(&mut self, id: DataflowId, outcome: Result<(), String>) -> (r: (DaemonCoordinatorReply, Vec<NodeId>))
        requires
            old(self).wf(),
        ensures
            final(self).wf(),
            r.0 is SpawnResult,
            (r.0 == DaemonCoordinatorReply::SpawnResult(Ok(()))) <==>
                (old(self)@.contains_key(id) && old(self)@[id].0 is Spawning && outcome is Ok),
            !(old(self)@.contains_key(id) && old(self)@[id].0 is Spawning) ==> final(self)@ == old(self)@ && r.1@.len() == 0,
            old(self)@.contains_key(id) && old(self)@[id].0 is Spawning && outcome is Ok ==>
                final(self)@ == old(self)@.insert(id, (DataflowPhase::Running, old(self)@[id].1)) && r.1@.len() == 0,
            old(self)@.contains_key(id) && old(self)@[id].0 is Spawning && outcome is Err ==>
                final(self)@ == old(self)@.remove(id) && handles(r.1@) == old(self)@[id].1
                && r.0 == DaemonCoordinatorReply::SpawnResult(outcome),
    {
        match self.position(id) {
            None => (DaemonCoordinatorReply::SpawnResult(Err("dataflow is not spawning".to_owned())), Vec::new()),
            Some(i) => {
                assert(self.records()[i as int] == self.dataflows@[i as int]@);
                if self.dataflows[i].phase != DataflowPhase::Spawning {
                    return (DaemonCoordinatorReply::SpawnResult(Err("dataflow is not spawning".to_owned())), Vec::new());
                }
                match outcome {
                    Ok(()) => {
                        let live = self.replace_record(i, DataflowPhase::Running, Vec::new());
                        self.replace_record(i, DataflowPhase::Running, live);
                        assert(self@ =~= old(self)@.insert(id, (DataflowPhase::Running, old(self)@[id].1)));
                        (DaemonCoordinatorReply::SpawnResult(Ok(())), Vec::new())
                    },
                    Err(e) => {
                        proof {
                            lemma_as_map_remove(self.records(), i as int);
                        }
                        let rec = self.dataflows.remove(i);
                        assert(self.records() =~= old(self).records().remove(i as int));
                        (DaemonCoordinatorReply::SpawnResult(Err(e)), rec.live)
                    },
                }
            },
        }
    }

    /// Handles a stop command: an active dataflow moves to stopping (to
    /// stopped when none of its nodes is live) and its live nodes are
    /// returned, to be sent a stop event. A dataflow that is stopping or
    /// stopped is left as it is and the command succeeds again; an unknown
    /// dataflow is an error.
    pub fn stop_dataflow(&mut self, id: DataflowId) -> (r: (DaemonCoordinatorReply, Vec<NodeId>))
        requires
            old(self).wf(),
        ensures
            final(self).wf(),
            final(self)@ == after_stop(old(self)@, id),
            r.0 is StopResult,
            (r.0 == DaemonCoordinatorReply::StopResult(Ok(()))) <==> old(self)@.contains_key(id),
            handles(r.1@) == if old(self)@.contains_key(id) && is_active(old(self)@[id].0) {
                old(self)@[id].1
            } else {
                Seq::empty()
            },
    {
        match self.position(id) {
            None => (DaemonCoordinatorReply::StopResult(Err("no such dataflow".to_owned())), Vec::new()),
            Some(i) => {
                assert(self.records()[i as int] == self.dataflows@[i as int]@);
                let phase = self.dataflows[i].phase;
                if phase == DataflowPhase::Stopping || phase == DataflowPhase::Stopped {
                    assert(handles(Seq::<String>::empty()) =~= Seq::empty());
                    return (DaemonCoordinatorReply::StopResult(Ok(())), Vec::new());
                }
                let live = self.replace_record(i, DataflowPhase::Stopping, Vec::new());
                let next = if live.len() == 0 { DataflowPhase::Stopped } else { DataflowPhase::Stopping };
                let mut to_stop: Vec<NodeId> = Vec::new();
                let mut k: usize = 0;
                while k < live.len()
                    invariant
                        k <= live@.len(),
                        handles(to_stop@) == handles(live@).take(k as int),
                    decreases live.len() - k,
                {
                    let ghost before = handles(to_stop@);
                    to_stop.push(live[k].clone());
                    assert(handles(to_stop@) =~= before.push(live@[k as int]@));
                    assert(handles(live@).take(k + 1) =~= handles(live@).take(k as int).push(live@[k as int]@));
                    k += 1;
                }
                assert(handles(live@).take(k as int) =~= handles(live@));
                self.replace_record(i, next, live);
                assert(self@ =~= after_stop(old(self)@, id));
                (DaemonCoordinatorReply::StopResult(Ok(())), to_stop)
            },
        }
    }

    /// Records that `node` of dataflow `id` exited. A stopping dataflow
    /// whose last live node exits is stopped. Returns false, and changes
    /// nothing, when the node is not live in that dataflow.
    pub fn node_exited(&mut self, id: DataflowId, node: &NodeId) -> (r: bool)
        requires
            old(self).wf(),
        ensures
            final(self).wf(),
            r <==> (old(self)@.contains_key(id) && old(self)@[id].1.contains(node@)),
            !r ==> final(self)@ == old(self)@,
            r ==> exists|k: int| {
                &&& 0 <= k < old(self)@[id].1.len()
                &&& old(self)@[id].1[k] == node@
                &&& final(self)@ == old(self)@.insert(id, (
                    if old(self)@[id].0 is Stopping && old(self)@[id].1.len() == 1 {
                        DataflowPhase::Stopped
                    } else {
                        old(self)@[id].0
                    },
                    old(self)@[id].1.remove(k),
                ))
            },
    {
        match self.position(id) {
            None => false,
            Some(i) => {
                assert(self.records()[i as int] == self.dataflows@[i as int]@);
                let phase = self.dataflows[i].phase;
                let mut live = self.replace_record(i, phase, Vec::new());
                let ghost seen = handles(live@);
                let mut pos: Option<usize> = None;
                let mut k: usize = 0;
                while k < live.len()
                    invariant
                        k <= live@.len(),
                        seen == handles(live@),
                        pos is None ==> forall|j: int| 0 <= j < k ==> seen[j] != node@,
                        pos is Some ==> pos->Some_0 < live@.len() && seen[pos->Some_0 as int] == node@,
                    decreases live.len() - k,
                {
                    assert(seen[k as int] == live@[k as int]@);
                    if pos.is_none() && live[k] == *node {
                        pos = Some(k);
                    }
                    k += 1;
                }
                let k = match pos {
                    None => {
                        self.replace_record(i, phase, live);
                        assert(self@ =~= old(self)@);
                        return false;
                    },
                    Some(k) => k,
                };
                assert(seen[k as int] == node@);
                let next = if phase == DataflowPhase::Stopping && live.len() == 1 {
                    DataflowPhase::Stopped
                } else {
                    phase
                };
                live.remove(k);
                assert(handles(live@) =~= seen.remove(k as int));
                self.replace_record(i, next, live);
                assert(self@ =~= old(self)@.insert(id, (next, seen.remove(k as int))));
                true
            },
        }
    }

    /// Ends the grace period of a stopping dataflow: it is stopped, and its
    /// nodes that are still live are returned, to be killed. Any other
    /// dataflow is left as it is and nothing is returned.
    pub fn grace_elapsed(&mut self, id: DataflowId) -> (r: Vec<NodeId>)
        requires
            old(self).wf(),
        ensures
            final(self).wf(),
            old(self)@.contains_key(id) && old(self)@[id].0 is Stopping ==>
                final(self)@ == old(self)@.insert(id, (DataflowPhase::Stopped, Seq::empty()))
                && handles(r@) == old(self)@[id].1,
            !(old(self)@.contains_key(id) && old(self)@[id].0 is Stopping) ==>
                final(self)@ == old(self)@ && r@.len() == 0,
    {
        match self.position(id) {
            None => Vec::new(),
            Some(i) => {
                assert(self.records()[i as int] == self.dataflows@[i as int]@);
                if self.dataflows[i].phase != DataflowPhase::Stopping {
                    return Vec::new();
                }
                let live = self.replace_record(i, DataflowPhase::Stopped, Vec::new());
                assert(handles(Seq::<String>::empty()) =~= Seq::empty());
                live
            },
        }
    }

    /// Handles a destroy command: every dataflow is stopped with no live
    /// node, and every node that was live is returned, to be killed.
    pub fn destroy(&mut self) -> (r: (DaemonCoordinatorReply, Vec<NodeId>))
        requires
            old(self).wf(),
        ensures
            final(self).wf(),
            r.0 == DaemonCoordinatorReply::DestroyResult(Ok(())),
            final(self)@.dom() == old(self)@.dom(),
            forall|id: u128| #[trigger] final(self)@.contains_key(id) ==>
                final(self)@[id] == (DataflowPhase::Stopped, Seq::<Seq<char>>::empty()),
            forall|id: u128, k: int| old(self)@.contains_key(id) && 0 <= k < old(self)@[id].1.len() ==>
                handles(r.1@).contains(#[trigger] old(self)@[id].1[k]),
    {
        let ghost start = self.records();
        let mut killed: Vec<NodeId> = Vec::new();
        let mut i: usize = 0;
        while i < self.dataflows.len()
            invariant
                self.wf(),
                i <= self.dataflows@.len(),
                self.dataflows@.len() == start.len(),
                forall|j: int| 0 <= j < i ==> #[trigger] self.records()[j] == (start[j].0, DataflowPhase::Stopped, Seq::<Seq<char>>::empty()),
                forall|j: int| i <= j < start.len() ==> #[trigger] self.records()[j] == start[j],
                forall|j: int, k: int| 0 <= j < i && 0 <= k < start[j].2.len() ==> handles(killed@).contains(#[trigger] start[j].2[k]),
            decreases start.len() - i,
        {
            let ghost before = self.records();
            let ghost old_killed = handles(killed@);
            assert(before[i as int] == start[i as int]);
            let mut live = self.replace_record(i, DataflowPhase::Stopped, Vec::new());
            proof {
                lemma_as_map_update(before, i as int, (DataflowPhase::Stopped, handles(Seq::<String>::empty())));
                assert(handles(Seq::<String>::empty()) =~= Seq::empty());
            }
            assert(self.records() =~= before.update(i as int, (start[i as int].0, DataflowPhase::Stopped, Seq::<Seq<char>>::empty())));
            let ghost added = handles(live@);
            killed.append(&mut live);
            assert(handles(killed@) =~= old_killed + added);
            assert forall|j: int, k: int| 0 <= j < i + 1 && 0 <= k < start[j].2.len() implies handles(killed@).contains(#[trigger] start[j].2[k]) by {
                if j < i {
                    let m = choose|m: int| 0 <= m < old_killed.len() && old_killed[m] == start[j].2[k];
                    assert(handles(killed@)[m] == start[j].2[k]);
                } else {
                    assert(handles(killed@)[old_killed.len() + k] == start[j].2[k]);
                }
            }
            i += 1;
        }
        proof {
            lemma_as_map_index(start);
            lemma_as_map_index(self.records());
            assert forall|id: u128| #[trigger] self@.contains_key(id) implies old(self)@.contains_key(id) by {
                let j = choose|j: int| 0 <= j < self.records().len() && self.records()[j].0 == id;
                assert(self.records()[j] == (start[j].0, DataflowPhase::Stopped, Seq::<Seq<char>>::empty()));
            }
            assert forall|id: u128| #[trigger] old(self)@.contains_key(id) implies self@.contains_key(id) by {
                let j = choose|j: int| 0 <= j < start.len() && start[j].0 == id;
                assert(self.records()[j] == (start[j].0, DataflowPhase::Stopped, Seq::<Seq<char>>::empty()));
            }
            assert(self@.dom() =~= old(self)@.dom());
            assert forall|id: u128, k: int| old(self)@.contains_key(id) && 0 <= k < old(self)@[id].1.len() implies
                handles(killed@).contains(#[trigger] old(self)@[id].1[k]) by {
                let j = choose|j: int| 0 <= j < start.len() && start[j].0 == id;
                assert(start[j].2[k] == old(self)@[id].1[k]);
            }
        }
        (DaemonCoordinatorReply::DestroyResult(Ok(())), killed)
    }

    /// Interprets one coordinator command. `working_dir_exists` says whether
    /// the working directory of a spawn command exists; other commands ignore
    /// it. A watchdog probe is acknowledged at once and changes nothing,
    /// whatever the dataflows are doing.
    pub fn handle_command(&mut self, cmd: &DaemonCoordinatorEvent, working_dir_exists: bool) -> (r: CommandOutcome)
        requires
            old(self).wf(),
        ensures
            final(self).wf(),
            cmd is Watchdog ==> final(self)@ == old(self)@ && r is Reply
                && r->Reply_0 is WatchdogAck && r->Reply_1@.len() == 0,
            cmd is StopDataflow ==> final(self)@ == after_stop(old(self)@, cmd->dataflow_id) && r is Reply && ({
                let id = cmd->dataflow_id;
                &&& (r->Reply_0 == DaemonCoordinatorReply::StopResult(Ok(()))) <==> old(self)@.contains_key(id)
                &&& r->Reply_0 is StopResult
                &&& handles(r->Reply_1@) == if old(self)@.contains_key(id) && is_active(old(self)@[id].0) {
                        old(self)@[id].1
                    } else {
                        Seq::empty()
                    }
            }),
            cmd is Spawn ==> ({
                let sp = cmd->Spawn_0;
                let ok = working_dir_exists && sp.nodes@.len() > 0 && !old(self)@.contains_key(sp.dataflow_id);
                &&& (r is Launch <==> ok)
                &&& ok ==> final(self)@ == old(self)@.insert(sp.dataflow_id, (DataflowPhase::Spawning, Seq::empty()))
                &&& !ok ==> final(self)@ == old(self)@ && r is Reply && r->Reply_0 is SpawnResult
                    && r->Reply_0 != DaemonCoordinatorReply::SpawnResult(Ok(())) && r->Reply_1@.len() == 0
            }),
            cmd is Destroy ==> r is Reply && r->Reply_0 == DaemonCoordinatorReply::DestroyResult(Ok(()))
                && final(self)@.dom() == old(self)@.dom()
                && forall|id: u128| #[trigger] final(self)@.contains_key(id) ==>
                    final(self)@[id] == (DataflowPhase::Stopped, Seq::<Seq<char>>::empty()),
    {
        match cmd {
            DaemonCoordinatorEvent::Spawn(sp) => match self.begin_spawn(sp, working_dir_exists) {
                Ok(()) => CommandOutcome::Launch,
                Err(e) => CommandOutcome::Reply(DaemonCoordinatorReply::SpawnResult(Err(e)), Vec::new()),
            },
            DaemonCoordinatorEvent::StopDataflow { dataflow_id } => {
                let (reply, nodes) = self.stop_dataflow(*dataflow_id);
                CommandOutcome::Reply(reply, nodes)
            },
            DaemonCoordinatorEvent::Destroy => {
                let (reply, nodes) = self.destroy();
                CommandOutcome::Reply(reply, nodes)
            },
            DaemonCoordinatorEvent::Watchdog => CommandOutcome::Reply(self.watchdog(), Vec::new()),
        }
    }

    /// The answer to a liveness probe, whatever the dataflows are doing.
    pub fn watchdog(&self) -> (r: DaemonCoordinatorReply)
        ensures
            r is WatchdogAck,
    {
        DaemonCoordinatorReply::WatchdogAck
    }
}

} // verus!
