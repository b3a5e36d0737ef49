use crate::envelope::Message;
use crate::envelope::is_reply_to;
use crate::error::NodeError;
use crate::payload::Payload;
use crate::payload::TopologyEntry;
use vstd::prelude::*;

verus! {

/// The first entry of a topology assignment that belongs to the node `id`,
/// if any: the entry whose neighbour list the node adopts.
pub open spec fn entry_for(topology: Seq<TopologyEntry>, id: Seq<char>) -> Option<TopologyEntry>
    decreases topology.len(),
{
    if topology.len() == 0 {
        None
    } else if topology[0].node@ == id {
        Some(topology[0])
    } else {
        entry_for(topology.drop_first(), id)
    }
}

proof fn lemma_entry_for_found(topology: Seq<TopologyEntry>, id: Seq<char>, k: int)
    requires
        0 <= k < topology.len(),
        topology[k].node@ == id,
        forall|j: int| 0 <= j < k ==> (#[trigger] topology[j]).node@ != id,
    ensures
        entry_for(topology, id) == Some(topology[k]),
    decreases k,
{
    if k > 0 {
        let rest = topology.drop_first();
        assert(forall|j: int| 0 <= j < k - 1 ==> (#[trigger] rest[j]).node@ != id);
        lemma_entry_for_found(rest, id, k - 1);
    }
}

proof fn lemma_entry_for_none(topology: Seq<TopologyEntry>, id: Seq<char>)
    requires
        forall|j: int| 0 <= j < topology.len() ==> (#[trigger] topology[j]).node@ != id,
    ensures
        entry_for(topology, id) is None,
    decreases topology.len(),
{
    if topology.len() > 0 {
        let rest = topology.drop_first();
        assert(forall|j: int| 0 <= j < rest.len() ==> (#[trigger] rest[j]).node@ != id);
        lemma_entry_for_none(rest, id);
    }
}

/// The set of broadcast values a node knows. It grows only by union:
/// insertion is idempotent and no value is ever removed.
///
/// Modelled as a mathematical `Set<i32>`; the representation keeps the
/// values in a duplicate-free vector.
#[derive(Clone, Debug, PartialEq, Eq)]
pub struct BroadcastSet {
    values: Vec<i32>,
}

impl View for BroadcastSet {
    type V = Set<i32>;

    closed spec fn view(&self) -> Set<i32> {
        self.values@.to_set()
    }
}

impl BroadcastSet {
    /// The representation holds each value at most once.
    pub closed spec fn wf(&self) -> bool {
        self.values@.no_duplicates()
    }

    /// The empty set.
    pub fn new() -> (r: BroadcastSet)
        ensures
            r@ == Set::<i32>::empty(),
            r.wf(),
    {
        let r = BroadcastSet { values: Vec::new() };
        proof {
            assert(r@ =~= Set::<i32>::empty());
        }
        r
    }

    /// How many distinct values the set holds.
    pub fn len(&self) -> (n: usize)
        requires
            self.wf(),
        ensures
            n == self@.len(),
    {
        proof {
            self.values@.unique_seq_to_set();
        }
        self.values.len()
    }

    /// Membership test.
    pub fn contains(&self, v: i32) -> (r: bool)
        ensures
            r == self@.contains(v),
    {
        let n = self.values.len();
        let mut i: usize = 0;
        while i < n
            invariant
                n == self.values.len(),
                0 <= i <= n,
                forall|j: int| 0 <= j < i ==> self.values@[j] != v,
            decreases n - i,
        {
            if self.values[i] == v {
                return true;
            }
            i += 1;
        }
        proof {
            assert(!self.values@.contains(v));
        }
        false
    }

    /// Insert one value. Idempotent: inserting a value the set already
    /// holds leaves it unchanged.
    pub fn insert(&mut self, v: i32)
        requires
            old(self).wf(),
        ensures
            final(self).wf(),
            final(self)@ == old(self)@.insert(v),
    {
        if !self.contains(v) {
            let ghost pre = self.values@;
            self.values.push(v);
            proof {
                broadcast use vstd::seq_lib::group_seq_properties;

                assert(!pre.contains(v));
                assert(self.values@ == pre.push(v));
                assert forall|j: int, k: int|
                    0 <= j < k < self.values@.len() implies self.values@[j] != self.values@[k] by {
                    if k < pre.len() {
                    } else {
                        assert(self.values@[k] == v);
                        assert(pre.contains(pre[j]));
                    }
                }
                assert(self.values@.to_set() =~= pre.to_set().insert(v));
            }
        } else {
            proof {
                assert(self@ =~= old(self)@.insert(v));
            }
        }
    }

    /// Union a delta of values into the set.
    pub fn union_with(&mut self, delta: &Vec<i32>)
        requires
            old(self).wf(),
        ensures
            final(self).wf(),
            final(self)@ == old(self)@.union(delta@.to_set()),
    {
        let n = delta.len();
        let mut i: usize = 0;
        while i < n
            invariant
                n == delta.len(),
                0 <= i <= n,
                self.wf(),
                self@ == old(self)@.union(delta@.take(i as int).to_set()),
            decreases n - i,
        {
            let ghost pre = self@;
            self.insert(delta[i]);
            proof {
                broadcast use vstd::seq_lib::group_seq_properties;

                assert(delta@.take(i + 1) =~= delta@.take(i as int).push(delta@[i as int]));
                assert(delta@.take(i + 1).to_set() =~= delta@.take(i as int).to_set().insert(
                    delta@[i as int],
                ));
                assert(self@ =~= old(self)@.union(delta@.take(i + 1).to_set()));
            }
            i += 1;
        }
        proof {
            assert(delta@.take(n as int) =~= delta@);
        }
    }

    /// The values of this set that `other` does not hold, as a
    /// duplicate-free vector: the delta a sync exchange carries.
    pub fn difference(&self, other: &BroadcastSet) -> (r: Vec<i32>)
        requires
            self.wf(),
        ensures
            r@.no_duplicates(),
            r@.to_set() == self@.difference(other@),
    {
        let n = self.values.len();
        let mut r: Vec<i32> = Vec::new();
        let mut i: usize = 0;
        while i < n
            invariant
                n == self.values.len(),
                0 <= i <= n,
                self.wf(),
                r@.no_duplicates(),
                r@.to_set() == self.values@.take(i as int).to_set().difference(other@),
            decreases n - i,
        {
            let v = self.values[i];
            if !other.contains(v) {
                proof {
                    broadcast use vstd::seq_lib::group_seq_properties;

                    assert(!self.values@.take(i as int).contains(v));
                    assert(!self.values@.take(i as int).to_set().contains(v));
                    assert(!r@.to_set().contains(v));
                    assert(!r@.contains(v));
                }
                let ghost pre = r@;
                r.push(v);
                proof {
                    broadcast use vstd::seq_lib::group_seq_properties;

                    assert(r@ == pre.push(v));
                    assert forall|j: int, k: int| 0 <= j < k < r@.len() implies r@[j] != r@[k] by {
                        if k < pre.len() {
                        } else {
                            assert(r@[k] == v);
                            assert(pre.contains(pre[j]));
                        }
                    }
                    assert(r@.to_set() =~= pre.to_set().insert(v));
                }
            }
            proof {
                broadcast use vstd::seq_lib::group_seq_properties;

                assert(self.values@.take(i + 1).drop_last() =~= self.values@.take(i as int));
                assert(self.values@.take(i + 1) =~= self.values@.take(i as int).push(
                    self.values@[i as int],
                ));
                assert(self.values@.take(i + 1).to_set() =~= self.values@.take(
                    i as int,
                ).to_set().insert(self.values@[i as int]));
                assert(r@.to_set() =~= self.values@.take(i + 1).to_set().difference(other@));
            }
            i += 1;
        }
        proof {
            assert(self.values@.take(n as int) =~= self.values@);
        }
        r
    }

    /// A snapshot of the set as a duplicate-free vector, for read replies.
    pub fn to_vec(&self) -> (r: Vec<i32>)
        requires
            self.wf(),
        ensures
            r@.no_duplicates(),
            r@.to_set() == self@,
    {
        let n = self.values.len();
        let mut r: Vec<i32> = Vec::new();
        let mut i: usize = 0;
        while i < n
            invariant
                n == self.values.len(),
                0 <= i <= n,
                r@ == self.values@.take(i as int),
            decreases n - i,
        {
            r.push(self.values[i]);
            proof {
                assert(r@ =~= self.values@.take(i + 1));
            }
            i += 1;
        }
        proof {
            assert(self.values@.take(n as int) =~= self.values@);
        }
        r
    }
}

/// One configured neighbour: its id and the set of values known to have
/// reached it (sent to it or acknowledged by it).
#[derive(Clone, Debug, PartialEq, Eq)]
pub struct NeighborRecord {
    pub id: String,
    pub known: BroadcastSet,
}

/// A node's whole gossip state: its own broadcast set and one record per
/// configured neighbour.
#[derive(Clone, Debug, PartialEq, Eq)]
pub struct BroadcastState {
    pub messages: BroadcastSet,
    pub neighbours: Vec<NeighborRecord>,
}

impl BroadcastState {
    /// Well-formed: every set representation is duplicate-free and no two
    /// neighbour records share an id.
    pub open spec fn wf(&self) -> bool {
        &&& self.messages.wf()
        &&& forall|i: int|
            0 <= i < self.neighbours@.len() ==> (#[trigger] self.neighbours@[i]).known.wf()
        &&& forall|i: int, j: int|
            0 <= i < j < self.neighbours@.len() ==> self.neighbours@[i].id@
                != self.neighbours@[j].id@
    }

    /// The ids of the configured neighbours.
    pub open spec fn neighbour_ids(&self) -> Seq<Seq<char>> {
        self.neighbours@.map_values(|r: NeighborRecord| r.id@)
    }

    /// Whether a node of this id is a configured neighbour.
    pub open spec fn has_neighbour(&self, id: Seq<char>) -> bool {
        exists|i: int|
            0 <= i < self.neighbours@.len() && (#[trigger] self.neighbours@[i]).id@ == id
    }

    /// The known-set recorded for the neighbour of this id.
    pub open spec fn known_of(&self, id: Seq<char>) -> Set<i32>
        recommends
            self.has_neighbour(id),
    {
        let i = choose|i: int|
            0 <= i < self.neighbours@.len() && (#[trigger] self.neighbours@[i]).id@ == id;
        self.neighbours@[i].known@
    }

    /// A fresh node: no values, no neighbours.
    pub fn new() -> (r: BroadcastState)
        ensures
            r.wf(),
            r.messages@ == Set::<i32>::empty(),
            r.neighbours@.len() == 0,
    {
        BroadcastState { messages: BroadcastSet::new(), neighbours: Vec::new() }
    }

    /// The index of the neighbour record for `id`, if one exists.
    fn find_neighbour(&self, id: &String) -> (r: Option<usize>)
        ensures
            match r {
                Some(i) => i < self.neighbours@.len() && self.neighbours@[i as int].id@ == id@,
                None => !self.has_neighbour(id@),
            },
    {
        let n = self.neighbours.len();
        let mut i: usize = 0;
        while i < n
            invariant
                n == self.neighbours@.len(),
                0 <= i <= n,
                forall|j: int| 0 <= j < i ==> (#[trigger] self.neighbours@[j]).id@ != id@,
            decreases n - i,
        {
            if self.neighbours[i].id == *id {
                return Some(i);
            }
            i += 1;
        }
        None
    }

    /// Replace the neighbour table with the given ids (duplicates collapse
    /// to one record), each starting with an empty known-set. The node's own
    /// broadcast set is untouched.
    fn set_neighbours(&mut self, ids: &Vec<String>)
        requires
            old(self).wf(),
        ensures
            final(self).wf(),
            final(self).messages == old(self).messages,
            final(self).neighbour_ids().to_set() == ids@.map_values(|s: String| s@).to_set(),
            forall|i: int|
                0 <= i < final(self).neighbours@.len()
                    ==> (#[trigger] final(self).neighbours@[i]).known@ == Set::<i32>::empty(),
    {
        let ghost id_views = ids@.map_values(|s: String| s@);
        self.neighbours = Vec::new();
        let n = ids.len();
        let mut i: usize = 0;
        proof {
            assert(self.neighbour_ids() =~= Seq::<Seq<char>>::empty());
            assert(self.neighbour_ids().to_set() =~= id_views.take(0).to_set());
        }
        while i < n
            invariant
                n == ids@.len(),
                0 <= i <= n,
                id_views == ids@.map_values(|s: String| s@),
                self.wf(),
                self.messages == old(self).messages,
                self.neighbour_ids().to_set() == id_views.take(i as int).to_set(),
                forall|k: int|
                    0 <= k < self.neighbours@.len() ==> (#[trigger] self.neighbours@[k]).known@
                        == Set::<i32>::empty(),
            decreases n - i,
        {
            let ghost pre = self.neighbours@;
            match self.find_neighbour(&ids[i]) {
                Some(_) => {
                    proof {
                        broadcast use vstd::seq_lib::group_seq_properties;

                        let w = choose|w: int|
                            0 <= w < pre.len() && (#[trigger] pre[w]).id@ == ids@[i as int]@;
                        assert(self.neighbour_ids()[w] == ids@[i as int]@);
                        assert(self.neighbour_ids().to_set().contains(ids@[i as int]@));
                        assert(id_views.take(i + 1) =~= id_views.take(i as int).push(
                            id_views[i as int],
                        ));
                        assert(self.neighbour_ids().to_set() =~= id_views.take(i + 1).to_set());
                    }
                },
                None => {
                    let rec = NeighborRecord { id: ids[i].clone(), known: BroadcastSet::new() };
                    self.neighbours.push(rec);
                    proof {
                        broadcast use vstd::seq_lib::group_seq_properties;

                        assert(self.neighbours@ == pre.push(rec));
                        assert forall|j: int, k: int|
                            0 <= j < k < self.neighbours@.len() implies self.neighbours@[j].id@
                            != self.neighbours@[k].id@ by {
                            if k < pre.len() {
                            } else {
                                assert(self.neighbours@[k].id@ == ids@[i as int]@);
                                assert(0 <= j < pre.len() && (pre[j]).id@ == pre[j].id@);
                            }
                        }
                        let ghost e = ids@[i as int]@;
                        let ghost pre_ids = pre.map_values(|r: NeighborRecord| r.id@);
                        assert(id_views[i as int] == e);
                        assert(self.neighbour_ids() =~= pre_ids.push(e));
                        assert(id_views.take(i + 1) =~= id_views.take(i as int).push(e));
                        assert forall|x: Seq<char>|
                            self.neighbour_ids().to_set().contains(x) <==> id_views.take(
                                i + 1,
                            ).to_set().contains(x) by {
                            assert(pre_ids.to_set().contains(x) == id_views.take(
                                i as int,
                            ).to_set().contains(x));
                            assert(pre_ids.push(e).contains(x) <==> pre_ids.contains(x) || x == e);
                            assert(id_views.take(i as int).push(e).contains(x) <==> id_views.take(
                                i as int,
                            ).contains(x) || x == e);
                        }
                        assert(self.neighbour_ids().to_set() =~= id_views.take(i + 1).to_set());
                    }
                },
            }
            i += 1;
        }
        proof {
            assert(id_views.take(n as int) =~= id_views);
        }
    }

    /// The full-mesh neighbour policy: every other node of the cluster
    /// becomes a neighbour, with an empty known-set. Trades message fan-out
    /// for minimal hop latency.
    pub fn set_full_mesh(&mut self, node_id: &String, node_ids: &Vec<String>)
        requires
            old(self).wf(),
        ensures
            final(self).wf(),
            final(self).messages == old(self).messages,
            final(self).neighbour_ids().to_set() == node_ids@.map_values(
                |s: String| s@,
            ).to_set().remove(node_id@),
            forall|i: int|
                0 <= i < final(self).neighbours@.len()
                    ==> (#[trigger] final(self).neighbours@[i]).known@ == Set::<i32>::empty(),
    {
        let ghost id_views = node_ids@.map_values(|s: String| s@);
        let mut others: Vec<String> = Vec::new();
        let n = node_ids.len();
        let mut i: usize = 0;
        proof {
            assert(others@.map_values(|s: String| s@) =~= Seq::<Seq<char>>::empty());
            assert(others@.map_values(|s: String| s@).to_set() =~= id_views.take(
                0,
            ).to_set().remove(node_id@));
        }
        while i < n
            invariant
                n == node_ids@.len(),
                0 <= i <= n,
                id_views == node_ids@.map_values(|s: String| s@),
                others@.map_values(|s: String| s@).to_set() == id_views.take(
                    i as int,
                ).to_set().remove(node_id@),
            decreases n - i,
        {
            let ghost pre = others@;
            if !(node_ids[i] == *node_id) {
                others.push(node_ids[i].clone());
            }
            proof {
                broadcast use vstd::seq_lib::group_seq_properties;

                let ghost e = node_ids@[i as int]@;
                assert(id_views[i as int] == e);
                assert(id_views.take(i + 1) =~= id_views.take(i as int).push(e));
                if e != node_id@ {
                    assert(others@ =~= pre.push(node_ids@[i as int]));
                    assert(others@.map_values(|s: String| s@) =~= pre.map_values(
                        |s: String| s@,
                    ).push(e));
                }
                assert forall|x: Seq<char>|
                    #![trigger id_views.take(i + 1).to_set().remove(node_id@).contains(x)]
                    others@.map_values(|s: String| s@).to_set().contains(x) <==> id_views.take(
                        i + 1,
                    ).to_set().remove(node_id@).contains(x) by {
                    assert(pre.map_values(|s: String| s@).to_set().contains(x) == id_views.take(
                        i as int,
                    ).to_set().remove(node_id@).contains(x));
                    assert(id_views.take(i as int).push(e).contains(x) <==> id_views.take(
                        i as int,
                    ).contains(x) || x == e);
                    if e != node_id@ {
                        assert(pre.map_values(|s: String| s@).push(e).contains(x)
                            <==> pre.map_values(|s: String| s@).contains(x) || x == e);
                    }
                }
                assert(others@.map_values(|s: String| s@).to_set() =~= id_views.take(
                    i + 1,
                ).to_set().remove(node_id@));
            }
            i += 1;
        }
        proof {
            assert(id_views.take(n as int) =~= id_views);
        }
        self.set_neighbours(&others);
    }

    /// One periodic anti-entropy round: for each neighbour this node
    /// initiates toward (under `policy`) whose recorded known-set misses
    /// some of this node's values, produce a sync message carrying exactly
    /// the missing values, and speculatively mark the neighbour's known-set
    /// as covering them — optimistic bookkeeping that avoids resending;
    /// correctness never depends on it, only efficiency.
    ///
    /// The node's own value set is untouched. When every neighbour's
    /// known-set already covers the value set, the round is quiescent: no
    /// message is produced (see `lemma_sync_quiescence`).
    #[verifier::loop_isolation(false)]
    pub fn sync_with_neighbours(&mut self, node_id: &String, policy: SyncPolicy) -> (msgs: Vec<
        Message<Payload>,
    >)
        requires
            old(self).wf(),
        ensures
            final(self).wf(),
            final(self).messages == old(self).messages,
            final(self).neighbours@.len() == old(self).neighbours@.len(),
            forall|i: int|
                0 <= i < old(self).neighbours@.len() ==> (#[trigger] final(self).neighbours@[i]).id
                    == old(self).neighbours@[i].id,
            forall|i: int|
                0 <= i < old(self).neighbours@.len()
                    ==> (#[trigger] final(self).neighbours@[i]).known@ == (if initiates(
                    policy,
                    node_id@,
                    old(self).neighbours@[i].id@,
                ) && old(self).messages@.difference(old(self).neighbours@[i].known@)
                    != Set::<i32>::empty() {
                    old(self).neighbours@[i].known@.union(old(self).messages@)
                } else {
                    old(self).neighbours@[i].known@
                }),
            msgs@.len() == sync_plan(
                old(self).neighbours@,
                old(self).messages@,
                node_id@,
                policy,
            ).len(),
            forall|k: int|
                0 <= k < msgs@.len() ==> {
                    let plan = sync_plan(
                        old(self).neighbours@,
                        old(self).messages@,
                        node_id@,
                        policy,
                    );
                    &&& (#[trigger] msgs@[k]).src@ == node_id@
                    &&& msgs@[k].dest@ == plan[k].dest
                    &&& msgs@[k].body.message_id is None
                    &&& msgs@[k].body.in_reply_to is None
                    &&& msgs@[k].body.payload matches Payload::Sync { new_messages }
                        && new_messages@.no_duplicates() && new_messages@.to_set() == plan[k].delta
                },
    {
        let ghost me = node_id@;
        let ghost m0 = old(self).messages@;
        let mut msgs: Vec<Message<Payload>> = Vec::new();
        let n = self.neighbours.len();
        let mut i: usize = 0;
        while i < n
            invariant
                n == self.neighbours@.len(),
                n == old(self).neighbours@.len(),
                0 <= i <= n,
                self.wf(),
                self.messages == old(self).messages,
                forall|j: int|
                    i <= j < n ==> (#[trigger] self.neighbours@[j]) == old(self).neighbours@[j],
                forall|j: int|
                    0 <= j < i ==> (#[trigger] self.neighbours@[j]).id == old(
                        self,
                    ).neighbours@[j].id,
                forall|j: int|
                    0 <= j < i ==> (#[trigger] self.neighbours@[j]).known@ == (if initiates(
                        policy,
                        me,
                        old(self).neighbours@[j].id@,
                    ) && m0.difference(old(self).neighbours@[j].known@) != Set::<i32>::empty() {
                        old(self).neighbours@[j].known@.union(m0)
                    } else {
                        old(self).neighbours@[j].known@
                    }),
                msgs@.len() == sync_plan(
                    old(self).neighbours@.take(i as int),
                    m0,
                    me,
                    policy,
                ).len(),
                forall|k: int|
                    0 <= k < msgs@.len() ==> {
                        let plan = sync_plan(old(self).neighbours@.take(i as int), m0, me, policy);
                        &&& (#[trigger] msgs@[k]).src@ == me
                        &&& msgs@[k].dest@ == plan[k].dest
                        &&& msgs@[k].body.message_id is None
                        &&& msgs@[k].body.in_reply_to is None
                        &&& msgs@[k].body.payload matches Payload::Sync { new_messages }
                            && new_messages@.no_duplicates() && new_messages@.to_set()
                            == plan[k].delta
                    },
            decreases n - i,
        {
            let ghost pre = *self;
            let ghost plan_i = sync_plan(old(self).neighbours@.take(i as int), m0, me, policy);
            let mut rec = self.neighbours.remove(i);
            let ghost rec0 = rec;
            let ghost d = m0.difference(rec0.known@);
            let initiate = should_initiate(policy, node_id, &rec.id);
            if initiate {
                let delta = self.messages.difference(&rec.known);
                if delta.len() > 0 {
                    proof {
                        assert(delta@.contains(delta@[0]));
                        assert(d.contains(delta@[0]));
                        assert(d != Set::<i32>::empty());
                    }
                    rec.known.union_with(&delta);
                    proof {
                        assert(rec.known@ =~= rec0.known@.union(m0));
                    }
                    let m = Message::new(
                        node_id.clone(),
                        rec.id.clone(),
                        Payload::Sync { new_messages: delta },
                    );
                    msgs.push(m);
                } else {
                    proof {
                        assert(delta@.to_set() =~= Set::<i32>::empty());
                        assert(d == Set::<i32>::empty());
                    }
                }
            }
            let ghost rec_final = rec;
            self.neighbours.insert(i, rec);
            proof {
                assert(self.neighbours@ =~= pre.neighbours@.update(i as int, rec_final));
                let ghost t1 = old(self).neighbours@.take(i + 1);
                assert(t1.drop_last() =~= old(self).neighbours@.take(i as int));
                assert(t1.last() == old(self).neighbours@[i as int]);
                let ghost plan_i1 = sync_plan(t1, m0, me, policy);
                if initiates(policy, me, rec0.id@) && d != Set::<i32>::empty() {
                    assert(plan_i1 == plan_i.push(SyncPlanEntry { dest: rec0.id@, delta: d }));
                } else {
                    assert(plan_i1 == plan_i);
                }
            }
            i += 1;
        }
        proof {
            assert(old(self).neighbours@.take(n as int) =~= old(self).neighbours@);
        }
        msgs
    }

    /// Handle one inbound message of the broadcast protocol and return the
    /// reply to send, if the variant calls for one.
    ///
    /// The node's value set never shrinks, whatever arrives: a later read
    /// reply always reports a superset of an earlier one.
    #[verifier::loop_isolation(false)]
    pub fn handle_message(&mut self, node_id: &String, message: Message<Payload>) -> (r: Result<
        Option<Message<Payload>>,
        NodeError,
    >)
        requires
            old(self).wf(),
            message.body.in_reply_to matches Some(id) ==> id < i32::MAX,
        ensures
            final(self).wf(),
            old(self).messages@.subset_of(final(self).messages@),
            match message.body.payload {
                Payload::Broadcast { broadcast_message } => {
                    &&& final(self).messages@ == old(self).messages@.insert(broadcast_message)
                    &&& final(self).neighbours == old(self).neighbours
                    &&& r matches Ok(Some(reply)) && is_reply_to(reply, message)
                        && reply.body.payload == Payload::BroadcastOk
                },
                Payload::Read => {
                    &&& *final(self) == *old(self)
                    &&& r matches Ok(Some(reply)) && is_reply_to(reply, message)
                        && (reply.body.payload matches Payload::ReadOk { broadcast_messages }
                        && broadcast_messages@.no_duplicates() && broadcast_messages@.to_set()
                        == old(self).messages@)
                },
                Payload::Topology { topology } => match entry_for(topology@, node_id@) {
                    Some(entry) => {
                        &&& final(self).messages == old(self).messages
                        &&& final(self).neighbour_ids().to_set() == entry.neighbours@.map_values(
                            |s: String| s@,
                        ).to_set()
                        &&& forall|i: int|
                            0 <= i < final(self).neighbours@.len()
                                ==> (#[trigger] final(self).neighbours@[i]).known@
                                == Set::<i32>::empty()
                        &&& r matches Ok(Some(reply)) && is_reply_to(reply, message)
                            && reply.body.payload == Payload::TopologyOk
                    },
                    None => {
                        &&& *final(self) == *old(self)
                        &&& r == Err::<Option<Message<Payload>>, NodeError>(
                            NodeError::MissingSelfInTopology,
                        )
                    },
                },
                Payload::Sync { new_messages } => {
                    if old(self).has_neighbour(message.src@) {
                        &&& sync_step(*old(self), *final(self), message.src@, new_messages@.to_set())
                        &&& r matches Ok(Some(reply)) && is_reply_to(reply, message)
                            && (reply.body.payload matches Payload::SyncOk {
                            acknowledge_new_messages,
                        } && acknowledge_new_messages@.no_duplicates()
                            && acknowledge_new_messages@.to_set()
                            == final(self).messages@.difference(
                            final(self).known_of(message.src@),
                        ))
                    } else {
                        &&& *final(self) == *old(self)
                        &&& r == Err::<Option<Message<Payload>>, NodeError>(
                            NodeError::UnknownNeighbour,
                        )
                    }
                },
                Payload::SyncOk { acknowledge_new_messages } => {
                    if old(self).has_neighbour(message.src@) {
                        &&& sync_step(
                            *old(self),
                            *final(self),
                            message.src@,
                            acknowledge_new_messages@.to_set(),
                        )
                        &&& r == Ok::<Option<Message<Payload>>, NodeError>(None)
                    } else {
                        &&& *final(self) == *old(self)
                        &&& r == Err::<Option<Message<Payload>>, NodeError>(
                            NodeError::UnknownNeighbour,
                        )
                    }
                },
                _ => {
                    &&& *final(self) == *old(self)
                    &&& r == Ok::<Option<Message<Payload>>, NodeError>(None)
                },
            },
    {
        let (envelope, payload) = message.take_payload();
        match payload {
            Payload::Broadcast { broadcast_message } => {
                self.messages.insert(broadcast_message);
                Ok(Some(envelope.into_reply(Payload::BroadcastOk)))
            },
            Payload::Read => {
                let snapshot = self.messages.to_vec();
                Ok(Some(envelope.into_reply(Payload::ReadOk { broadcast_messages: snapshot })))
            },
            Payload::Topology { topology } => {
                let n = topology.len();
                let mut i: usize = 0;
                while i < n
                    invariant
                        n == topology@.len(),
                        0 <= i <= n,
                        *self == *old(self),
                        forall|j: int| 0 <= j < i ==> (#[trigger] topology@[j]).node@ != node_id@,
                    decreases n - i,
                {
                    if topology[i].node == *node_id {
                        proof {
                            lemma_entry_for_found(topology@, node_id@, i as int);
                        }
                        self.set_neighbours(&topology[i].neighbours);
                        return Ok(Some(envelope.into_reply(Payload::TopologyOk)));
                    }
                    i += 1;
                }
                proof {
                    lemma_entry_for_none(topology@, node_id@);
                }
                Err(NodeError::MissingSelfInTopology)
            },
            Payload::Sync { new_messages } => {
                match self.find_neighbour(&envelope.src) {
                    None => Err(NodeError::UnknownNeighbour),
                    Some(i) => {
                        let ghost pre = *self;
                        let mut rec = self.neighbours.remove(i);
                        rec.known.union_with(&new_messages);
                        self.messages.union_with(&new_messages);
                        let reverse = self.messages.difference(&rec.known);
                        let ghost rec_final = rec;
                        self.neighbours.insert(i, rec);
                        proof {
                            assert(self.neighbours@ =~= pre.neighbours@.update(
                                i as int,
                                rec_final,
                            ));
                            lemma_known_of_update(pre, *self, i as int, envelope.src@);
                        }
                        Ok(Some(envelope.into_reply(Payload::SyncOk {
                            acknowledge_new_messages: reverse,
                        })))
                    },
                }
            },
            Payload::SyncOk { acknowledge_new_messages } => {
                match self.find_neighbour(&envelope.src) {
                    None => Err(NodeError::UnknownNeighbour),
                    Some(i) => {
                        let ghost pre = *self;
                        let mut rec = self.neighbours.remove(i);
                        rec.known.union_with(&acknowledge_new_messages);
                        self.messages.union_with(&acknowledge_new_messages);
                        let ghost rec_final = rec;
                        self.neighbours.insert(i, rec);
                        proof {
                            assert(self.neighbours@ =~= pre.neighbours@.update(
                                i as int,
                                rec_final,
                            ));
                            lemma_known_of_update(pre, *self, i as int, envelope.src@);
                        }
                        Ok(None)
                    },
                }
            },
            Payload::BroadcastOk | Payload::ReadOk { .. } | Payload::TopologyOk => Ok(None),
        }
    }
}

/// Lexicographic order on byte strings: which of two node ids is the
/// smaller, for the sync tie-break.
pub open spec fn lex_lt(a: Seq<u8>, b: Seq<u8>) -> bool
    decreases a.len(),
{
    if b.len() == 0 {
        false
    } else if a.len() == 0 {
        true
    } else if a[0] < b[0] {
        true
    } else if a[0] > b[0] {
        false
    } else {
        lex_lt(a.drop_first(), b.drop_first())
    }
}

/// Lexicographic order on node ids, by their encoded bytes.
pub open spec fn id_lt(a: Seq<char>, b: Seq<char>) -> bool {
    lex_lt(vstd::utf8::encode_utf8(a), vstd::utf8::encode_utf8(b))
}

/// When two byte strings agree on their first `i` bytes, their order is
/// decided by the remainders.
proof fn lemma_lex_lt_skip(a: Seq<u8>, b: Seq<u8>, i: int)
    requires
        0 <= i <= a.len(),
        i <= b.len(),
        a.take(i) == b.take(i),
    ensures
        lex_lt(a, b) == lex_lt(a.skip(i), b.skip(i)),
    decreases i,
{
    broadcast use vstd::seq_lib::group_seq_properties;

    if i > 0 {
        assert(a.take(i)[0] == a[0]);
        assert(b.take(i)[0] == b[0]);
        let a1 = a.drop_first();
        let b1 = b.drop_first();
        assert(a1.take(i - 1) =~= b1.take(i - 1)) by {
            assert forall|j: int| 0 <= j < i - 1 implies #[trigger] a1.take(i - 1)[j] == b1.take(
                i - 1,
            )[j] by {
                assert(a.take(i)[j + 1] == b.take(i)[j + 1]);
                assert(a1.take(i - 1)[j] == a1[j] && a1[j] == a[j + 1]);
                assert(b1.take(i - 1)[j] == b1[j] && b1[j] == b[j + 1]);
                assert(a.take(i)[j + 1] == a[j + 1] && b.take(i)[j + 1] == b[j + 1]);
            }
        }
        lemma_lex_lt_skip(a1, b1, i - 1);
        assert(a1.skip(i - 1) =~= a.skip(i));
        assert(b1.skip(i - 1) =~= b.skip(i));
    }
}

/// Decide the lexicographic order of two node ids by their bytes.
#[verifier::loop_isolation(false)]
pub fn node_id_lt(a: &String, b: &String) -> (r: bool)
    ensures
        r == id_lt(a@, b@),
{
    let ab = a.as_str().as_bytes();
    let bb = b.as_str().as_bytes();
    let an = ab.len();
    let bn = bb.len();
    let mut i: usize = 0;
    while i < an && i < bn
        invariant
            0 <= i <= an,
            i <= bn,
            ab@.take(i as int) == bb@.take(i as int),
        decreases an - i,
    {
        proof {
            broadcast use vstd::seq_lib::group_seq_properties;

            lemma_lex_lt_skip(ab@, bb@, i as int);
        }
        if ab[i] < bb[i] {
            return true;
        }
        if ab[i] > bb[i] {
            return false;
        }
        proof {
            assert(ab@.take(i + 1) =~= bb@.take(i + 1));
        }
        i += 1;
    }
    proof {
        lemma_lex_lt_skip(ab@, bb@, i as int);
    }
    an < bn
}

/// Which endpoint of an edge starts a sync exchange.
#[derive(Clone, Copy, Debug, PartialEq, Eq, Structural)]
pub enum SyncPolicy {
    /// Sync toward every neighbour with outstanding values.
    EveryNeighbour,
    /// Only the endpoint with the lexicographically smaller id initiates,
    /// halving cross-traffic when both endpoints run the periodic task.
    SmallerIdInitiates,
}

/// Whether a node initiates sync toward a given neighbour under a policy.
pub open spec fn initiates(policy: SyncPolicy, me: Seq<char>, other: Seq<char>) -> bool {
    match policy {
        SyncPolicy::EveryNeighbour => true,
        SyncPolicy::SmallerIdInitiates => id_lt(me, other),
    }
}

fn should_initiate(policy: SyncPolicy, me: &String, other: &String) -> (r: bool)
    ensures
        r == initiates(policy, me@, other@),
{
    match policy {
        SyncPolicy::EveryNeighbour => true,
        SyncPolicy::SmallerIdInitiates => node_id_lt(me, other),
    }
}

/// One planned sync message: the neighbour it goes to and the delta it
/// carries.
pub ghost struct SyncPlanEntry {
    pub dest: Seq<char>,
    pub delta: Set<i32>,
}

/// The sync messages a periodic round produces, in neighbour-table order:
/// one per initiated neighbour whose known-set misses some of the node's
/// values, carrying exactly the missing values.
pub open spec fn sync_plan(
    nbrs: Seq<NeighborRecord>,
    messages: Set<i32>,
    me: Seq<char>,
    policy: SyncPolicy,
) -> Seq<SyncPlanEntry>
    decreases nbrs.len(),
{
    if nbrs.len() == 0 {
        Seq::empty()
    } else {
        let rest = sync_plan(nbrs.drop_last(), messages, me, policy);
        let d = messages.difference(nbrs.last().known@);
        if initiates(policy, me, nbrs.last().id@) && d != Set::<i32>::empty() {
            rest.push(SyncPlanEntry { dest: nbrs.last().id@, delta: d })
        } else {
            rest
        }
    }
}

/// How one sync or sync-ok delivery from neighbour `src` carrying `delta`
/// changes a node's state: the delta is unioned into the node's own value
/// set and into `src`'s known-set, and nothing else moves.
pub open spec fn sync_step(
    pre: BroadcastState,
    post: BroadcastState,
    src: Seq<char>,
    delta: Set<i32>,
) -> bool {
    &&& post.messages@ == pre.messages@.union(delta)
    &&& post.neighbours@.len() == pre.neighbours@.len()
    &&& forall|i: int|
        0 <= i < pre.neighbours@.len() ==> (#[trigger] post.neighbours@[i]).id
            == pre.neighbours@[i].id
    &&& forall|i: int|
        0 <= i < pre.neighbours@.len() && pre.neighbours@[i].id@ == src
            ==> (#[trigger] post.neighbours@[i]).known@ == pre.neighbours@[i].known@.union(delta)
    &&& forall|i: int|
        0 <= i < pre.neighbours@.len() && pre.neighbours@[i].id@ != src
            ==> (#[trigger] post.neighbours@[i]) == pre.neighbours@[i]
}

/// Idempotence: inserting the same value into a broadcast set twice — a
/// duplicate delivery or a duplicate sync — yields the same set as
/// inserting it once. `BroadcastSet::insert` ensures the view becomes
/// `view.insert(v)`, so the second delivery changes nothing.
pub proof fn lemma_insert_idempotent(s: Set<i32>, v: i32)
    ensures
        s.insert(v).insert(v) == s.insert(v),
{
    assert(s.insert(v).insert(v) =~= s.insert(v));
}

/// Monotonic local reads: `handle_message` ensures the handling node's
/// value set only ever grows (`old ⊆ final`), and a read reply reports
/// exactly the current value set. Growth composes across any two steps, so
/// a later read reply never reports a proper subset of an earlier one.
pub proof fn lemma_monotonic_local_reads(earlier: Set<i32>, between: Set<i32>, later: Set<i32>)
    requires
        earlier.subset_of(between),
        between.subset_of(later),
    ensures
        earlier.subset_of(later),
        later.subset_of(earlier) ==> later == earlier,
{
    assert(later.subset_of(earlier) ==> later =~= earlier);
}

/// Quiescence: once no neighbour has unacknowledged values — every
/// recorded known-set covers the node's whole value set — a periodic sync
/// round plans no message at all.
pub proof fn lemma_sync_quiescence(
    nbrs: Seq<NeighborRecord>,
    messages: Set<i32>,
    me: Seq<char>,
    policy: SyncPolicy,
)
    requires
        forall|i: int|
            0 <= i < nbrs.len() ==> messages.subset_of((#[trigger] nbrs[i]).known@),
    ensures
        sync_plan(nbrs, messages, me, policy).len() == 0,
    decreases nbrs.len(),
{
    if nbrs.len() > 0 {
        let rest = nbrs.drop_last();
        assert(forall|i: int|
            0 <= i < rest.len() ==> messages.subset_of((#[trigger] rest[i]).known@));
        lemma_sync_quiescence(rest, messages, me, policy);
        assert(messages.difference(nbrs.last().known@) =~= Set::<i32>::empty());
    }
}

/// Convergence over one edge: one complete sync exchange brings both
/// endpoints to the union of their value sets.
///
/// The initiator holds values `a` and records `k_ab` as known to the
/// responder; the responder holds `b` and records `k_ba` as known to the
/// initiator. Provided neither record over-claims (`k_ab ⊆ b`, `k_ba ⊆ a`),
/// then after the initiator sends the delta `a \ k_ab`
/// (`sync_with_neighbours`), the responder unions it in and answers with
/// the reverse delta (`handle_message` on sync), and the initiator unions
/// that in (`handle_message` on sync-ok), both value sets equal `a ∪ b` —
/// whatever either set held and in whatever order values arrived. Repeated
/// along the edges of any connected topology, every exchange only adds
/// values, so all nodes converge to the union of all accepted values.
pub proof fn lemma_sync_exchange_converges(a: Set<i32>, k_ab: Set<i32>, b: Set<i32>, k_ba: Set<i32>)
    requires
        k_ab.subset_of(b),
        k_ba.subset_of(a),
    ensures
        ({
            let delta = a.difference(k_ab);
            let b_after = b.union(delta);
            let ack = b_after.difference(k_ba.union(delta));
            let a_after = a.union(ack);
            b_after == a.union(b) && a_after == a.union(b)
        }),
{
    let delta = a.difference(k_ab);
    let b_after = b.union(delta);
    let ack = b_after.difference(k_ba.union(delta));
    let a_after = a.union(ack);
    assert(b_after =~= a.union(b));
    assert(a_after =~= a.union(b));
}

/// The union of a whole collection of value sets: what every node should
/// eventually hold.
pub open spec fn union_of(sets: Seq<Set<i32>>) -> Set<i32>
    decreases sets.len(),
{
    if sets.len() == 0 {
        Set::empty()
    } else {
        union_of(sets.drop_last()).union(sets.last())
    }
}

/// One complete sync exchange over the edge between path positions `i` and
/// `i + 1`: both endpoint sets become their union, which is exactly what
/// `lemma_sync_exchange_converges` shows of one sync round trip.
pub open spec fn merge_at(sets: Seq<Set<i32>>, i: int) -> Seq<Set<i32>>
    recommends
        0 <= i,
        i + 1 < sets.len(),
{
    let u = sets[i].union(sets[i + 1]);
    sets.update(i, u).update(i + 1, u)
}

/// Exchanges along the path from position 0 up to position `k`: the merges
/// at edges 0, 1, …, `k - 1`, in that order.
pub open spec fn sweep_forward(sets: Seq<Set<i32>>, k: int) -> Seq<Set<i32>>
    decreases k,
{
    if k <= 0 {
        sets
    } else {
        merge_at(sweep_forward(sets, k - 1), k - 1)
    }
}

/// Exchanges back down the path: the merges at edges `k`, `k - 1`, …, 0,
/// in that order.
pub open spec fn sweep_back(sets: Seq<Set<i32>>, k: int) -> Seq<Set<i32>>
    decreases k + 1,
{
    if k < 0 {
        sets
    } else {
        sweep_back(merge_at(sets, k), k - 1)
    }
}

proof fn lemma_union_of_contains(sets: Seq<Set<i32>>, j: int)
    requires
        0 <= j < sets.len(),
    ensures
        sets[j].subset_of(union_of(sets)),
    decreases sets.len(),
{
    if j < sets.len() - 1 {
        lemma_union_of_contains(sets.drop_last(), j);
        assert(sets.drop_last()[j] == sets[j]);
    }
}

proof fn lemma_sweep_forward(sets: Seq<Set<i32>>, k: int)
    requires
        0 <= k < sets.len(),
    ensures
        ({
            let r = sweep_forward(sets, k);
            &&& r.len() == sets.len()
            &&& r[k] == union_of(sets.take(k + 1))
            &&& forall|j: int| k < j < sets.len() ==> r[j] == sets[j]
            &&& forall|j: int|
                0 <= j <= k ==> (#[trigger] r[j]).subset_of(union_of(sets.take(k + 1)))
        }),
    decreases k,
{
    let r = sweep_forward(sets, k);
    let u = union_of(sets.take(k + 1));
    if k == 0 {
        assert(sets.take(1).drop_last() =~= Seq::<Set<i32>>::empty());
        assert(sets.take(1).last() == sets[0]);
        assert(union_of(Seq::<Set<i32>>::empty()) =~= Set::<i32>::empty());
        assert(u =~= sets[0]);
    } else {
        lemma_sweep_forward(sets, k - 1);
        let p = sweep_forward(sets, k - 1);
        let up = union_of(sets.take(k));
        assert(sets.take(k + 1).drop_last() =~= sets.take(k));
        assert(sets.take(k + 1).last() == sets[k]);
        assert(u == up.union(sets[k]));
        assert(p[k] == sets[k]);
        assert(p[k - 1].union(p[k]) == up.union(sets[k]));
        assert(r == merge_at(p, k - 1));
        assert(r[k] == u && r[k - 1] == u);
        assert forall|j: int| 0 <= j <= k implies (#[trigger] r[j]).subset_of(u) by {
            if j < k - 1 {
                assert(r[j] == p[j]);
                assert(p[j].subset_of(up));
            }
        }
    }
}

proof fn lemma_sweep_back(sets: Seq<Set<i32>>, k: int, u: Set<i32>)
    requires
        -1 <= k,
        k + 1 < sets.len(),
        sets[k + 1] == u,
        forall|j: int| 0 <= j < sets.len() ==> (#[trigger] sets[j]).subset_of(u),
    ensures
        ({
            let r = sweep_back(sets, k);
            &&& r.len() == sets.len()
            &&& forall|j: int| 0 <= j <= k + 1 ==> (#[trigger] r[j]) == u
            &&& forall|j: int| k + 1 < j < sets.len() ==> (#[trigger] r[j]) == sets[j]
        }),
    decreases k + 1,
{
    if k >= 0 {
        let m = merge_at(sets, k);
        assert(sets[k].union(u) =~= u);
        assert(m[k] == u && m[k + 1] == u);
        assert(forall|j: int| 0 <= j < m.len() ==> (#[trigger] m[j]).subset_of(u));
        lemma_sweep_back(m, k - 1, u);
    }
}

/// Convergence along a path: number the nodes of any connected topology
/// along a path that visits them all, and let the value sets delivered
/// anywhere be `sets`. One complete sync exchange per edge, first up the
/// path and then back down — each exchange merges its two endpoints, as
/// `lemma_sync_exchange_converges` shows of a sync round trip — leaves
/// every node holding exactly the union of all delivered values, whatever
/// each node started with and however the values were spread. Together
/// with idempotence and monotonicity this is the convergence guarantee:
/// enough periodic rounds on every edge drive all reachable nodes to the
/// same set.
pub proof fn lemma_convergence_along_path(sets: Seq<Set<i32>>)
    requires
        sets.len() >= 1,
    ensures
        ({
            let r = sweep_back(sweep_forward(sets, sets.len() - 1), sets.len() - 2);
            &&& r.len() == sets.len()
            &&& forall|j: int| 0 <= j < sets.len() ==> (#[trigger] r[j]) == union_of(sets)
        }),
{
    let n = sets.len() as int;
    lemma_sweep_forward(sets, n - 1);
    let forward = sweep_forward(sets, n - 1);
    assert(sets.take(n) =~= sets);
    assert(forward[n - 1] == union_of(sets));
    assert(forall|j: int|
        0 <= j < n ==> (#[trigger] forward[j]).subset_of(union_of(sets)));
    lemma_sweep_back(forward, n - 2, union_of(sets));
}

/// After updating the record at index `i`, whose id is `src`, the
/// `known_of(src)` of the new state is that record's known-set.
proof fn lemma_known_of_update(pre: BroadcastState, post: BroadcastState, i: int, src: Seq<char>)
    requires
        pre.wf(),
        0 <= i < pre.neighbours@.len(),
        post.neighbours@.len() == pre.neighbours@.len(),
        pre.neighbours@[i].id@ == src,
        forall|j: int|
            0 <= j < pre.neighbours@.len() ==> (#[trigger] post.neighbours@[j]).id
                == pre.neighbours@[j].id,
    ensures
        post.has_neighbour(src),
        post.known_of(src) == post.neighbours@[i].known@,
{
    assert(post.neighbours@[i].id@ == src);
    let w = choose|w: int|
        0 <= w < post.neighbours@.len() && (#[trigger] post.neighbours@[w]).id@ == src;
    if w != i {
        assert(pre.neighbours@[w].id@ == src);
        assert(false);
    }
}

} // verus!

