use vstd::multiset::Multiset;
use vstd::prelude::*;

use crate::chunk::{views, Chunk, ChunkView};
use crate::error::VideoEncodeError;

verus! {

broadcast use {vstd::seq_lib::group_to_multiset_ensures, vstd::multiset::group_multiset_axioms};

/// Admission state of one node: its declared capacity, the permits not
/// currently held by a send, and whether its loop still pulls new work.
#[derive(Clone, Copy, Debug, PartialEq, Eq)]
pub struct NodeSlot {
    pub capacity: usize,
    pub available: usize,
    pub pulling: bool,
}

/// A unit owned by one send to one node.
pub struct Flight {
    pub node: usize,
    pub chunk: Chunk,
}

/// What a node's loop is told to do next.
pub enum Dispatch {
    /// Send this unit; one permit of the node is now held by the send.
    Send(Chunk),
    /// Every permit is held: wait until one of this node's sends finishes.
    AtCapacity,
    /// The loop pulls no more work; it ends once its sends have finished.
    Drained,
}

/// Shared scheduler state: units awaiting dispatch, units encoded, units
/// owned by a send, and the admission state of every node.
pub struct EncodingState {
    pending_chunks: Vec<Chunk>,
    completed_chunks: Vec<Chunk>,
    in_flight: Vec<Flight>,
    nodes: Vec<NodeSlot>,
    total: usize,
    origin: Ghost<Seq<ChunkView>>,
}

pub open spec fn indices(s: Seq<ChunkView>) -> Seq<int> {
    s.map_values(|c: ChunkView| c.index as int)
}

pub open spec fn flight_indices(f: Seq<(usize, ChunkView)>) -> Seq<int> {
    f.map_values(|e: (usize, ChunkView)| e.1.index as int)
}

/// The indices `0 .. n`, each once.
pub open spec fn all_indices(n: nat) -> Multiset<int> {
    Seq::new(n, |i: int| i).to_multiset()
}

/// How many of the sends in `f` belong to node `n`.
pub open spec fn count_on(f: Seq<(usize, ChunkView)>, n: int) -> nat
    decreases f.len(),
{
    if f.len() == 0 {
        0
    } else {
        count_on(f.drop_last(), n) + if f.last().0 as int == n {
            1nat
        } else {
            0nat
        }
    }
}

/// Units sorted by strictly increasing index.
pub open spec fn strictly_ordered(s: Seq<ChunkView>) -> bool {
    forall|i: int, j: int| 0 <= i < j < s.len() ==> s[i].index < s[j].index
}

/// `r` holds exactly the units of `s`, each one where `s` holds it.
pub open spec fn same_units(r: Seq<ChunkView>, s: Seq<ChunkView>) -> bool {
    &&& forall|i: int| 0 <= i < r.len() ==> s.contains(#[trigger] r[i])
    &&& forall|j: int| 0 <= j < s.len() ==> r.contains(#[trigger] s[j])
}

proof fn lemma_count_on_push(f: Seq<(usize, ChunkView)>, x: (usize, ChunkView), n: int)
    ensures
        count_on(f.push(x), n) == count_on(f, n) + if x.0 as int == n {
            1nat
        } else {
            0nat
        },
{
    assert(f.push(x).drop_last() =~= f);
}

proof fn lemma_count_on_remove(f: Seq<(usize, ChunkView)>, i: int, n: int)
    requires
        0 <= i < f.len(),
    ensures
        count_on(f.remove(i), n) + (if f[i].0 as int == n {
            1nat
        } else {
            0nat
        }) == count_on(f, n),
    decreases f.len(),
{
    if i == f.len() - 1 {
        assert(f.remove(i) =~= f.drop_last());
    } else {
        lemma_count_on_remove(f.drop_last(), i, n);
        assert(f.remove(i).drop_last() =~= f.drop_last().remove(i));
    }
}

proof fn lemma_all_indices_unique(n: nat)
    ensures
        forall|k: int| all_indices(n).count(k) <= 1,
        forall|k: int| all_indices(n).count(k) > 0 ==> 0 <= k < n,
{
    let s = Seq::new(n, |i: int| i);
    assert(s.no_duplicates());
    s.lemma_multiset_has_no_duplicates();
    assert forall|k: int| all_indices(n).count(k) > 0 implies 0 <= k < n by {
        assert(s.contains(k));
    }
}

/// A sequence whose multiset counts every value at most once has no
/// repeated value.
proof fn lemma_unique_from_counts(s: Seq<int>)
    requires
        forall|k: int| s.to_multiset().count(k) <= 1,
    ensures
        s.no_duplicates(),
{
    s.lemma_multiset_has_no_duplicates_conv();
}

impl EncodingState {
    /// Units awaiting dispatch; the last is dispatched first.
    pub closed spec fn pending(&self) -> Seq<ChunkView> {
        views(self.pending_chunks@)
    }

    /// Units encoded, in the order they finished.
    pub closed spec fn completed(&self) -> Seq<ChunkView> {
        views(self.completed_chunks@)
    }

    /// The units owned by sends, each with the node it was sent to.
    pub closed spec fn flight(&self) -> Seq<(usize, ChunkView)> {
        self.in_flight@.map_values(|f: Flight| (f.node, f.chunk@))
    }

    /// The admission state of each node.
    pub closed spec fn slots(&self) -> Seq<NodeSlot> {
        self.nodes@
    }

    /// How many units were created at partition time.
    pub closed spec fn total(&self) -> nat {
        self.total as nat
    }

    /// Each unit as it was created, by index.
    pub closed spec fn origin(&self) -> Seq<ChunkView> {
        self.origin@
    }

    /// How many sends node `n` has outstanding.
    pub open spec fn in_flight_on(&self, n: int) -> nat {
        count_on(self.flight(), n)
    }

    /// The units of every state, by index.
    pub open spec fn index_bag(&self) -> Multiset<int> {
        indices(self.pending()).to_multiset().add(indices(self.completed()).to_multiset()).add(
            flight_indices(self.flight()).to_multiset(),
        )
    }

    /// The scheduler's invariant: every node's capacity is split between its
    /// free permits and its sends; each index `0 .. total` is held exactly
    /// once across the pending, completed and in-flight units; and every unit
    /// is the one created with its index, a completed one differing only by
    /// its encoded location.
    pub closed spec fn wf(&self) -> bool {
        &&& self.nodes@.len() > 0
        &&& forall|n: int|
            0 <= n < self.nodes@.len() ==> {
                &&& (#[trigger] self.nodes@[n]).capacity > 0
                &&& self.nodes@[n].available + count_on(self.flight(), n)
                    == self.nodes@[n].capacity
            }
        &&& forall|i: int| 0 <= i < self.flight().len() ==> (#[trigger] self.flight()[i]).0 < self.nodes@.len()
        &&& self.index_bag() == all_indices(self.total as nat)
        &&& self.origin@.len() == self.total
        &&& forall|k: int|
            0 <= k < self.total ==> (#[trigger] self.origin@[k]).index == k
                && self.origin@[k].encoded_path is None
        &&& forall|i: int|
            0 <= i < self.pending().len() ==> #[trigger] self.pending()[i]
                == self.origin@[self.pending()[i].index as int]
        &&& forall|i: int|
            0 <= i < self.flight().len() ==> (#[trigger] self.flight()[i]).1
                == self.origin@[self.flight()[i].1.index as int]
        &&& forall|i: int|
            0 <= i < self.completed().len() ==> {
                let c = #[trigger] self.completed()[i];
                let o = self.origin@[c.index as int];
                &&& c.encoded_path is Some
                &&& c.source_path == o.source_path
                &&& c.index == o.index
                &&& c.encoder_parameters == o.encoder_parameters
            }
    }

    proof fn lemma_unique(&self)
        requires
            self.wf(),
        ensures
            indices(self.pending()).no_duplicates(),
            indices(self.completed()).no_duplicates(),
            flight_indices(self.flight()).no_duplicates(),
            forall|k: int| #[trigger] self.index_bag().count(k) > 0 ==> 0 <= k < self.total(),
            forall|j: int| 0 <= j < self.completed().len() ==> (#[trigger] self.completed()[j]).index
                < self.total(),
    {
        lemma_all_indices_unique(self.total as nat);
        let a = indices(self.pending()).to_multiset();
        let b = indices(self.completed()).to_multiset();
        let c = flight_indices(self.flight()).to_multiset();
        assert forall|k: int| a.count(k) <= 1 && b.count(k) <= 1 && c.count(k) <= 1 by {
            assert(self.index_bag().count(k) == a.count(k) + b.count(k) + c.count(k));
            assert(self.index_bag().count(k) == all_indices(self.total as nat).count(k));
        }
        lemma_unique_from_counts(indices(self.pending()));
        lemma_unique_from_counts(indices(self.completed()));
        lemma_unique_from_counts(flight_indices(self.flight()));
        assert forall|j: int| 0 <= j < self.completed().len() implies (#[trigger] self.completed()[j]).index
            < self.total() by {
            let k = self.completed()[j].index as int;
            assert(indices(self.completed())[j] == k);
            assert(indices(self.completed()).contains(k));
            assert(self.index_bag().count(k) == a.count(k) + b.count(k) + c.count(k));
        }
    }

    /// Nothing that the units' placement depends on has changed.
    pub open spec fn same_run(s0: Self, s1: Self) -> bool {
        &&& s1.total() == s0.total()
        &&& s1.origin() == s0.origin()
        &&& s1.slots().len() == s0.slots().len()
    }

    /// What `dispatch` does for `node`.
    pub open spec fn dispatched(s0: Self, s1: Self, node: usize, r: Dispatch) -> bool {
        let slot = s0.slots()[node as int];
        &&& Self::same_run(s0, s1)
        &&& s1.completed() == s0.completed()
        &&& if !slot.pulling || slot.available == 0 {
            &&& if !slot.pulling {
                r is Drained
            } else {
                r is AtCapacity
            }
            &&& s1.pending() == s0.pending()
            &&& s1.flight() == s0.flight()
            &&& s1.slots() == s0.slots()
        } else if s0.pending().len() == 0 {
            &&& r is Drained
            &&& s1.pending() == s0.pending()
            &&& s1.flight() == s0.flight()
            &&& s1.slots() == s0.slots().update(node as int, NodeSlot { pulling: false, ..slot })
        } else {
            &&& r matches Dispatch::Send(c) && c@ == s0.pending().last() && s1.flight()
                == s0.flight().push((node, c@))
            &&& s1.pending() == s0.pending().drop_last()
            &&& s1.slots() == s0.slots().update(
                node as int,
                NodeSlot { available: (slot.available - 1) as usize, ..slot },
            )
        }
    }

    /// The unit with index `k` is completed.
    pub open spec fn completed_with(&self, k: int) -> bool {
        exists|j: int| 0 <= j < self.completed().len() && (#[trigger] self.completed()[j]).index == k
    }

    /// The unit with index `k` is completed, its encoded payload at `path`.
    pub open spec fn completed_at(&self, k: int, path: Seq<char>) -> bool {
        exists|j: int|
            0 <= j < self.completed().len() && (#[trigger] self.completed()[j]).index == k
                && self.completed()[j].encoded_path == Some(path)
    }

    /// A send to `node` owns the unit with this index.
    pub open spec fn holds(&self, node: usize, index: usize) -> bool {
        exists|i: int|
            0 <= i < self.flight().len() && (#[trigger] self.flight()[i]).0 == node
                && self.flight()[i].1.index == index
    }

    /// What a report on the send of `index` to `node` does, when that send
    /// sits at position `i`: its permit comes back and the unit leaves the
    /// sends.
    pub open spec fn released(s0: Self, s1: Self, node: usize, i: int) -> bool {
        let slot = s0.slots()[node as int];
        &&& Self::same_run(s0, s1)
        &&& s1.flight() == s0.flight().remove(i)
        &&& s1.slots() == s0.slots().update(
            node as int,
            NodeSlot { available: (slot.available + 1) as usize, ..slot },
        )
    }

    /// The send of `index` to `node` has failed: the unit it owned is
    /// pushed back onto the pending units as it was.
    pub open spec fn requeued(s0: Self, s1: Self, node: usize, index: usize) -> bool {
        forall|i: int|
            0 <= i < s0.flight().len() && (#[trigger] s0.flight()[i]).0 == node
                && s0.flight()[i].1.index == index ==> {
                &&& Self::released(s0, s1, node, i)
                &&& s1.pending() == s0.pending().push(s0.flight()[i].1)
                &&& s1.completed() == s0.completed()
            }
    }

    /// The send of `index` to `node` has succeeded: the unit it owned is
    /// completed, with its encoded payload at `path`.
    pub open spec fn recorded(s0: Self, s1: Self, node: usize, index: usize, path: Seq<char>) -> bool {
        forall|i: int|
            0 <= i < s0.flight().len() && (#[trigger] s0.flight()[i]).0 == node
                && s0.flight()[i].1.index == index ==> {
                &&& Self::released(s0, s1, node, i)
                &&& s1.pending() == s0.pending()
                &&& s1.completed() == s0.completed().push(
                    ChunkView { encoded_path: Some(path), ..s0.flight()[i].1 },
                )
            }
    }

    pub open spec fn unchanged(s0: Self, s1: Self) -> bool {
        &&& Self::same_run(s0, s1)
        &&& s1.pending() == s0.pending()
        &&& s1.completed() == s0.completed()
        &&& s1.flight() == s0.flight()
        &&& s1.slots() == s0.slots()
    }
}

impl EncodingState {
    /// Seeds the pending units and one admission slot per node. Fails with
    /// a configuration error when there is no node or a node has no
    /// capacity, and with a processing error when the unit at position `i`
    /// does not have index `i` or is already encoded.
    pub fn new(chunks: Vec<Chunk>, capacities: &Vec<usize>) -> (r: Result<
        EncodingState,
        VideoEncodeError,
    >)
        ensures
            (capacities@.len() == 0 || exists|n: int|
                0 <= n < capacities@.len() && #[trigger] capacities@[n] == 0) ==> r matches Err(
                VideoEncodeError::Config(_),
            ),
            r is Ok <==> {
                &&& capacities@.len() > 0
                &&& forall|n: int| 0 <= n < capacities@.len() ==> #[trigger] capacities@[n] > 0
                &&& forall|i: int|
                    0 <= i < chunks@.len() ==> (#[trigger] chunks@[i])@.index == i
                        && chunks@[i]@.encoded_path is None
            },
            r is Err ==> r matches Err(VideoEncodeError::Config(_)) || r matches Err(
                VideoEncodeError::ChunkProcessing(_),
            ),
            r matches Ok(s) ==> {
                &&& s.wf()
                &&& s.pending() == views(chunks@)
                &&& s.origin() == views(chunks@)
                &&& s.completed().len() == 0
                &&& s.flight().len() == 0
                &&& s.total() == chunks@.len()
                &&& s.slots().len() == capacities@.len()
                &&& forall|n: int|
                    0 <= n < capacities@.len() ==> #[trigger] s.slots()[n] == (NodeSlot {
                        capacity: capacities@[n],
                        available: capacities@[n],
                        pulling: true,
                    })
            },
    {
        if capacities.len() == 0 {
            return Err(VideoEncodeError::Config("no nodes to dispatch to".to_string()));
        }
        let mut nodes: Vec<NodeSlot> = Vec::new();
        let mut n: usize = 0;
        while n < capacities.len()
            invariant
                n <= capacities@.len(),
                nodes@.len() == n,
                forall|m: int|
                    0 <= m < n ==> #[trigger] nodes@[m] == (NodeSlot {
                        capacity: capacities@[m],
                        available: capacities@[m],
                        pulling: true,
                    }),
                forall|m: int| 0 <= m < n ==> #[trigger] capacities@[m] > 0,
            decreases capacities@.len() - n,
        {
            if capacities[n] == 0 {
                return Err(VideoEncodeError::Config("a node has no capacity".to_string()));
            }
            nodes.push(NodeSlot { capacity: capacities[n], available: capacities[n], pulling: true });
            n = n + 1;
        }
        let mut i: usize = 0;
        while i < chunks.len()
            invariant
                i <= chunks@.len(),
                capacities@.len() > 0,
                forall|m: int| 0 <= m < capacities@.len() ==> #[trigger] capacities@[m] > 0,
                nodes@.len() == capacities@.len(),
                forall|m: int|
                    0 <= m < capacities@.len() ==> #[trigger] nodes@[m] == (NodeSlot {
                        capacity: capacities@[m],
                        available: capacities@[m],
                        pulling: true,
                    }),
                forall|j: int|
                    0 <= j < i ==> (#[trigger] chunks@[j])@.index == j
                        && chunks@[j]@.encoded_path is None,
            decreases chunks@.len() - i,
        {
            if chunks[i].index != i || chunks[i].encoded_path.is_some() {
                return Err(VideoEncodeError::ChunkProcessing("units are not numbered by position".to_string()));
            }
            i = i + 1;
        }
        let total = chunks.len();
        let ghost origin = views(chunks@);
        let s = EncodingState {
            pending_chunks: chunks,
            completed_chunks: Vec::new(),
            in_flight: Vec::new(),
            nodes,
            total,
            origin: Ghost(origin),
        };
        proof {
            assert(indices(s.pending()) =~= Seq::new(total as nat, |k: int| k));
            assert(indices(s.completed()) =~= Seq::<int>::empty());
            assert(flight_indices(s.flight()) =~= Seq::<int>::empty());
            assert(s.index_bag() =~= all_indices(total as nat));
            assert forall|m: int| 0 <= m < s.nodes@.len() implies #[trigger] count_on(s.flight(), m) == 0 by {
                assert(s.flight().len() == 0);
            }
        }
        Ok(s)
    }

    /// One decision of a node's loop: take a permit and the most recently
    /// queued unit, or wait at capacity, or stop pulling once the pending
    /// units are seen empty (for good: later requeues are left to other
    /// loops).
    pub fn dispatch(&mut self, node: usize) -> (r: Dispatch)
        requires
            old(self).wf(),
            node < old(self).slots().len(),
        ensures
            final(self).wf(),
            Self::dispatched(*old(self), *final(self), node, r),
            r matches Dispatch::Send(c) ==> final(self).holds(node, c.index),
    {
        let ghost s0 = *self;
        let slot = self.nodes[node];
        if !slot.pulling {
            return Dispatch::Drained;
        }
        if slot.available == 0 {
            return Dispatch::AtCapacity;
        }
        match self.pending_chunks.pop() {
            None => {
                self.nodes.set(
                    node,
                    NodeSlot { capacity: slot.capacity, available: slot.available, pulling: false },
                );
                proof {
                    assert(self.flight() == s0.flight());
                }
                Dispatch::Drained
            },
            Some(c) => {
                let sent = c.clone();
                self.in_flight.push(Flight { node, chunk: c });
                self.nodes.set(
                    node,
                    NodeSlot {
                        capacity: slot.capacity,
                        available: slot.available - 1,
                        pulling: slot.pulling,
                    },
                );
                proof {
                    let k = sent@.index as int;
                    assert(self.pending() =~= s0.pending().drop_last());
                    assert(self.flight() =~= s0.flight().push((node, sent@)));
                    assert(indices(s0.pending()) =~= indices(self.pending()).push(k));
                    assert(flight_indices(self.flight()) =~= flight_indices(s0.flight()).push(k));
                    assert(self.index_bag() =~= s0.index_bag());
                    assert forall|m: int| 0 <= m < self.nodes@.len() implies {
                        &&& (#[trigger] self.nodes@[m]).capacity > 0
                        &&& self.nodes@[m].available + count_on(self.flight(), m)
                            == self.nodes@[m].capacity
                    } by {
                        lemma_count_on_push(s0.flight(), (node, sent@), m);
                        assert(s0.nodes@[m].capacity > 0);
                        assert(s0.nodes@[m].available + count_on(s0.flight(), m)
                            == s0.nodes@[m].capacity);
                        if m != node {
                            assert(self.nodes@[m] == s0.nodes@[m]);
                            assert(count_on(self.flight(), m) == count_on(s0.flight(), m));
                        } else {
                            assert(self.nodes@[m].available == s0.nodes@[m].available - 1);
                            assert(count_on(self.flight(), m) == count_on(s0.flight(), m) + 1);
                        }
                    }
                    assert forall|i: int| 0 <= i < self.flight().len() implies (#[trigger] self.flight()[i]).1
                        == self.origin@[self.flight()[i].1.index as int] by {
                        if i < s0.flight().len() {
                            assert(self.flight()[i] == s0.flight()[i]);
                        } else {
                            assert(s0.pending()[s0.pending().len() - 1] == sent@);
                        }
                    }
                    assert(self.flight()[self.flight().len() - 1] == (node, sent@));
                    assert(self.holds(node, sent.index));
                }
                Dispatch::Send(sent)
            },
        }
    }

    /// Where the send of `index` to `node` sits among the sends, if any.
    fn find_flight(&self, node: usize, index: usize) -> (r: Option<usize>)
        requires
            self.wf(),
        ensures
            r matches Some(i) ==> i < self.flight().len() && self.flight()[i as int].0 == node
                && self.flight()[i as int].1.index == index,
            r is None ==> !self.holds(node, index),
            forall|i: int|
                0 <= i < self.flight().len() && (#[trigger] self.flight()[i]).0 == node
                    && self.flight()[i].1.index == index ==> (r matches Some(k) && k as int == i),
    {
        proof {
            self.lemma_unique();
        }
        let mut i: usize = 0;
        while i < self.in_flight.len()
            invariant
                self.wf(),
                i <= self.flight().len(),
                self.flight().len() == self.in_flight@.len(),
                flight_indices(self.flight()).no_duplicates(),
                forall|j: int|
                    0 <= j < i ==> !((#[trigger] self.flight()[j]).0 == node
                        && self.flight()[j].1.index == index),
            decreases self.in_flight@.len() - i,
        {
            if self.in_flight[i].node == node && self.in_flight[i].chunk.index == index {
                proof {
                    assert(self.flight()[i as int] == (self.in_flight@[i as int].node, self.in_flight@[i as int].chunk@));
                    assert forall|j: int|
                        0 <= j < self.flight().len() && (#[trigger] self.flight()[j]).0 == node
                            && self.flight()[j].1.index == index implies j == i by {
                        let fi = flight_indices(self.flight());
                        assert(fi.no_duplicates());
                        assert(fi[j] == self.flight()[j].1.index as int);
                        assert(fi[i as int] == self.flight()[i as int].1.index as int);
                        if j != i {
                            assert(fi[j] != fi[i as int]);
                        }
                    }
                }
                return Some(i);
            }
            i = i + 1;
        }
        None
    }

    /// The send of `index` to `node` failed: its permit comes back and the
    /// unit, exactly as it was sent, is pushed back onto the pending units.
    /// A report on a unit that no send to `node` owns changes nothing.
    pub fn report_failure(&mut self, node: usize, index: usize) -> (r: Result<(), VideoEncodeError>)
        requires
            old(self).wf(),
        ensures
            final(self).wf(),
            r is Ok <==> old(self).holds(node, index),
            r is Err ==> Self::unchanged(*old(self), *final(self)) && r matches Err(
                VideoEncodeError::ChunkProcessing(_),
            ),
            Self::requeued(*old(self), *final(self), node, index),
    {
        let ghost s0 = *self;
        let found = self.find_flight(node, index);
        match found {
            None => {
                proof {
                    assert(!s0.holds(node, index));
                    assert(s0 == *old(self));
                    assert forall|i: int|
                        0 <= i < s0.flight().len() && (#[trigger] s0.flight()[i]).0 == node
                            && s0.flight()[i].1.index == index implies false by {
                        assert(s0.holds(node, index));
                    }
                }
                Err(VideoEncodeError::ChunkProcessing("no send owns this unit".to_string()))
            },
            Some(i) => {
                let f = self.in_flight.remove(i);
                let slot = self.nodes[node];
                proof {
                    lemma_count_on_remove(s0.flight(), i as int, node as int);
                }
                self.nodes.set(
                    node,
                    NodeSlot {
                        capacity: slot.capacity,
                        available: slot.available + 1,
                        pulling: slot.pulling,
                    },
                );
                let ghost unit = f.chunk@;
                self.pending_chunks.push(f.chunk);
                proof {
                    let k = unit.index as int;
                    assert(unit == s0.flight()[i as int].1);
                    assert(self.flight() =~= s0.flight().remove(i as int));
                    assert(self.pending() =~= s0.pending().push(unit));
                    assert(indices(self.pending()) =~= indices(s0.pending()).push(k));
                    assert(flight_indices(self.flight()) =~= flight_indices(s0.flight()).remove(i as int));
                    assert(flight_indices(s0.flight())[i as int] == k);
                    assert(flight_indices(s0.flight()).contains(k));
                    assert(self.index_bag() =~= s0.index_bag());
                    self.lemma_slots_after_release(s0, node, i as int);
                    assert forall|j: int| 0 <= j < self.flight().len() implies (#[trigger] self.flight()[j]).1
                        == self.origin@[self.flight()[j].1.index as int] by {
                        if j < i {
                            assert(self.flight()[j] == s0.flight()[j]);
                        } else {
                            assert(self.flight()[j] == s0.flight()[j + 1]);
                        }
                    }
                    assert forall|j: int| 0 <= j < self.pending().len() implies #[trigger] self.pending()[j]
                        == self.origin@[self.pending()[j].index as int] by {
                        if j < s0.pending().len() {
                            assert(self.pending()[j] == s0.pending()[j]);
                        }
                    }
                    assert(self.completed() == s0.completed());
                    assert(Self::released(s0, *self, node, i as int));
                    assert forall|j: int|
                        0 <= j < s0.flight().len() && (#[trigger] s0.flight()[j]).0 == node
                            && s0.flight()[j].1.index == index implies {
                        &&& Self::released(s0, *self, node, j)
                        &&& self.pending() == s0.pending().push(s0.flight()[j].1)
                        &&& self.completed() == s0.completed()
                    } by {
                        assert(j == i as int);
                    }
                }
                Ok(())
            },
        }
    }

    /// The send of `index` to `node` succeeded and its encoded payload was
    /// stored at `encoded_path`: its permit comes back and the unit, with
    /// that location recorded, joins the completed units. A report on a
    /// unit that no send to `node` owns changes nothing.
    pub fn report_success(&mut self, node: usize, index: usize, encoded_path: String) -> (r: Result<
        (),
        VideoEncodeError,
    >)
        requires
            old(self).wf(),
        ensures
            final(self).wf(),
            r is Ok <==> old(self).holds(node, index),
            r is Err ==> Self::unchanged(*old(self), *final(self)) && r matches Err(
                VideoEncodeError::ChunkProcessing(_),
            ),
            Self::recorded(*old(self), *final(self), node, index, encoded_path@),
    {
        let ghost s0 = *self;
        let found = self.find_flight(node, index);
        match found {
            None => {
                proof {
                    assert(!s0.holds(node, index));
                    assert forall|i: int|
                        0 <= i < s0.flight().len() && (#[trigger] s0.flight()[i]).0 == node
                            && s0.flight()[i].1.index == index implies false by {
                        assert(s0.holds(node, index));
                    }
                }
                Err(VideoEncodeError::ChunkProcessing("no send owns this unit".to_string()))
            },
            Some(i) => {
                let f = self.in_flight.remove(i);
                let slot = self.nodes[node];
                proof {
                    lemma_count_on_remove(s0.flight(), i as int, node as int);
                }
                self.nodes.set(
                    node,
                    NodeSlot {
                        capacity: slot.capacity,
                        available: slot.available + 1,
                        pulling: slot.pulling,
                    },
                );
                let ghost sent = f.chunk@;
                let mut unit = f.chunk;
                unit.encoded_path = Some(encoded_path);
                let ghost done = unit@;
                self.completed_chunks.push(unit);
                proof {
                    let k = sent.index as int;
                    assert(sent == s0.flight()[i as int].1);
                    assert(done == ChunkView { encoded_path: Some(encoded_path@), ..sent });
                    assert(self.flight() =~= s0.flight().remove(i as int));
                    assert(self.completed() =~= s0.completed().push(done));
                    assert(self.pending() == s0.pending());
                    assert(indices(self.completed()) =~= indices(s0.completed()).push(k));
                    assert(flight_indices(self.flight()) =~= flight_indices(s0.flight()).remove(i as int));
                    assert(flight_indices(s0.flight())[i as int] == k);
                    assert(flight_indices(s0.flight()).contains(k));
                    assert(self.index_bag() =~= s0.index_bag());
                    self.lemma_slots_after_release(s0, node, i as int);
                    assert forall|j: int| 0 <= j < self.flight().len() implies (#[trigger] self.flight()[j]).1
                        == self.origin@[self.flight()[j].1.index as int] by {
                        if j < i {
                            assert(self.flight()[j] == s0.flight()[j]);
                        } else {
                            assert(self.flight()[j] == s0.flight()[j + 1]);
                        }
                    }
                    assert forall|j: int| 0 <= j < self.completed().len() implies {
                        let c = #[trigger] self.completed()[j];
                        let o = self.origin@[c.index as int];
                        &&& c.encoded_path is Some
                        &&& c.source_path == o.source_path
                        &&& c.index == o.index
                        &&& c.encoder_parameters == o.encoder_parameters
                    } by {
                        if j < s0.completed().len() {
                            assert(self.completed()[j] == s0.completed()[j]);
                        }
                    }
                    assert(Self::released(s0, *self, node, i as int));
                    assert forall|j: int|
                        0 <= j < s0.flight().len() && (#[trigger] s0.flight()[j]).0 == node
                            && s0.flight()[j].1.index == index implies {
                        &&& Self::released(s0, *self, node, j)
                        &&& self.pending() == s0.pending()
                        &&& self.completed() == s0.completed().push(
                            ChunkView { encoded_path: Some(encoded_path@), ..s0.flight()[j].1 },
                        )
                    } by {
                        assert(j == i as int);
                    }
                }
                Ok(())
            },
        }
    }

    pub fn node_count(&self) -> (r: usize)
        ensures
            r == self.slots().len(),
    {
        self.nodes.len()
    }

    /// How many units were created.
    pub fn total_units(&self) -> (r: usize)
        ensures
            r == self.total(),
    {
        self.total
    }

    pub fn pending_chunks(&self) -> (r: &Vec<Chunk>)
        ensures
            views(r@) == self.pending(),
    {
        &self.pending_chunks
    }

    pub fn completed_chunks(&self) -> (r: &Vec<Chunk>)
        ensures
            views(r@) == self.completed(),
    {
        &self.completed_chunks
    }

    /// How many units are owned by sends.
    pub fn in_flight_count(&self) -> (r: usize)
        ensures
            r == self.flight().len(),
    {
        self.in_flight.len()
    }

    pub fn slot(&self, node: usize) -> (r: NodeSlot)
        requires
            node < self.slots().len(),
        ensures
            r == self.slots()[node as int],
    {
        self.nodes[node]
    }

    /// The loop of `node` is over: it pulls no more work and none of its
    /// sends is outstanding.
    pub fn node_finished(&self, node: usize) -> (r: bool)
        requires
            self.wf(),
            node < self.slots().len(),
        ensures
            r == (!self.slots()[node as int].pulling && self.in_flight_on(node as int) == 0),
    {
        let slot = self.nodes[node];
        !slot.pulling && slot.available == slot.capacity
    }

    /// Every node's loop is over.
    pub fn run_finished(&self) -> (r: bool)
        requires
            self.wf(),
        ensures
            r == forall|n: int|
                0 <= n < self.slots().len() ==> !(#[trigger] self.slots()[n]).pulling
                    && self.in_flight_on(n) == 0,
    {
        let mut n: usize = 0;
        while n < self.nodes.len()
            invariant
                self.wf(),
                n <= self.slots().len(),
                forall|m: int|
                    0 <= m < n ==> !(#[trigger] self.slots()[m]).pulling && self.in_flight_on(m)
                        == 0,
            decreases self.slots().len() - n,
        {
            let done = self.node_finished(n);
            if !done {
                return false;
            }
            assert forall|m: int| 0 <= m < n + 1 implies !(#[trigger] self.slots()[m]).pulling
                && self.in_flight_on(m) == 0 by {
                if m == n {
                    assert(!self.slots()[n as int].pulling && self.in_flight_on(n as int) == 0);
                }
            }
            n = n + 1;
        }
        true
    }

    /// The completed units placed by index: slot `k` holds the unit with
    /// index `k`, if it is completed.
    fn completed_by_index(&self) -> (slots: Vec<Option<Chunk>>)
        requires
            self.wf(),
        ensures
            slots@.len() == self.total(),
            forall|k: int|
                0 <= k < slots@.len() && (#[trigger] slots@[k]) is Some ==> {
                    let c = slots@[k]->0@;
                    &&& c.index == k
                    &&& self.completed().contains(c)
                },
            forall|j: int|
                0 <= j < self.completed().len() ==> {
                    let c = #[trigger] self.completed()[j];
                    slots@[c.index as int] is Some && slots@[c.index as int]->0@ == c
                },
    {
        proof {
            self.lemma_unique();
        }
        let mut slots: Vec<Option<Chunk>> = Vec::new();
        let mut k: usize = 0;
        while k < self.total
            invariant
                k <= self.total,
                slots@.len() == k,
                forall|m: int| 0 <= m < k ==> (#[trigger] slots@[m]) is None,
            decreases self.total - k,
        {
            slots.push(None);
            k = k + 1;
        }
        let mut j: usize = 0;
        while j < self.completed_chunks.len()
            invariant
                self.wf(),
                j <= self.completed().len(),
                self.completed().len() == self.completed_chunks@.len(),
                slots@.len() == self.total(),
                indices(self.completed()).no_duplicates(),
                forall|i: int| 0 <= i < self.completed().len() ==> (#[trigger] self.completed()[i]).index
                    < self.total(),
                forall|m: int|
                    0 <= m < slots@.len() && (#[trigger] slots@[m]) is Some ==> {
                        let c = slots@[m]->0@;
                        &&& c.index == m
                        &&& self.completed().contains(c)
                    },
                forall|i: int|
                    0 <= i < j ==> {
                        let c = #[trigger] self.completed()[i];
                        slots@[c.index as int] is Some && slots@[c.index as int]->0@ == c
                    },
            decreases self.completed_chunks@.len() - j,
        {
            let c = self.completed_chunks[j].clone();
            let k = c.index;
            proof {
                assert(c@ == self.completed()[j as int]);
            }
            slots.set(k, Some(c));
            proof {
                assert forall|i: int| 0 <= i < j + 1 implies {
                    let d = #[trigger] self.completed()[i];
                    slots@[d.index as int] is Some && slots@[d.index as int]->0@ == d
                } by {
                    if i < j {
                        let ix = indices(self.completed());
                        assert(ix[i] != ix[j as int]);
                    }
                }
            }
            j = j + 1;
        }
        slots
    }

    /// The completed units sorted by index: the order handed to
    /// reassembly, whatever order the units were dispatched or finished in.
    pub fn ordered_completed(&self) -> (r: Vec<Chunk>)
        requires
            self.wf(),
        ensures
            strictly_ordered(views(r@)),
            same_units(views(r@), self.completed()),
    {
        let slots = self.completed_by_index();
        let mut r: Vec<Chunk> = Vec::new();
        let mut k: usize = 0;
        while k < slots.len()
            invariant
                k <= slots@.len(),
                strictly_ordered(views(r@)),
                forall|i: int| 0 <= i < r@.len() ==> (#[trigger] r@[i])@.index < k,
                forall|i: int| 0 <= i < r@.len() ==> self.completed().contains(#[trigger] r@[i]@),
                forall|m: int|
                    0 <= m < k && (#[trigger] slots@[m]) is Some ==> views(r@).contains(
                        slots@[m]->0@,
                    ),
                forall|m: int|
                    0 <= m < slots@.len() && (#[trigger] slots@[m]) is Some ==> {
                        let c = slots@[m]->0@;
                        &&& c.index == m
                        &&& self.completed().contains(c)
                    },
            decreases slots@.len() - k,
        {
            match &slots[k] {
                Some(c) => {
                    let d = c.clone();
                    let ghost before = r@;
                    r.push(d);
                    proof {
                        assert(views(r@) =~= views(before).push(d@));
                        assert(views(r@)[before.len() as int] == d@);
                        assert forall|m: int|
                            0 <= m < k + 1 && (#[trigger] slots@[m]) is Some implies views(r@).contains(
                                slots@[m]->0@,
                            ) by {
                            if m < k {
                                let w = choose|w: int| 0 <= w < views(before).len() && views(before)[w] == slots@[m]->0@;
                                assert(views(r@)[w] == slots@[m]->0@);
                            }
                        }
                    }
                },
                None => {},
            }
            k = k + 1;
        }
        proof {
            assert forall|i: int| 0 <= i < views(r@).len() implies self.completed().contains(
                #[trigger] views(r@)[i],
            ) by {
                assert(views(r@)[i] == r@[i]@);
            }
            assert forall|j: int| 0 <= j < self.completed().len() implies views(r@).contains(
                #[trigger] self.completed()[j],
            ) by {
                let c = self.completed()[j];
                self.lemma_unique();
                assert(c.index < slots@.len());
                assert(slots@[c.index as int] is Some);
                assert(slots@[c.index as int]->0@ == c);
            }
        }
        r
    }

    /// Once every unit is completed, the encoded locations in index order;
    /// a run that ended with units still pending or owned by a send is an
    /// error, never a partial result.
    pub fn finish(&self) -> (r: Result<Vec<String>, VideoEncodeError>)
        requires
            self.wf(),
        ensures
            r is Ok <==> self.completed().len() == self.total(),
            r is Err ==> r matches Err(VideoEncodeError::ChunkProcessing(_)),
            r matches Ok(paths) ==> {
                &&& paths@.len() == self.total()
                &&& forall|k: int| 0 <= k < paths@.len() ==> self.completed_at(k, (#[trigger] paths@[k])@)
            },
    {
        if self.completed_chunks.len() != self.total {
            return Err(VideoEncodeError::ChunkProcessing("some units were not encoded".to_string()));
        }
        proof {
            self.lemma_complete_covers();
        }
        let slots = self.completed_by_index();
        proof {
            assert forall|m: int| 0 <= m < slots@.len() implies (#[trigger] slots@[m]) is Some by {
                assert(self.completed_with(m));
                let j = choose|j: int|
                    0 <= j < self.completed().len() && (#[trigger] self.completed()[j]).index == m;
                assert(slots@[self.completed()[j].index as int] is Some);
            }
        }
        let mut paths: Vec<String> = Vec::new();
        let mut k: usize = 0;
        while k < slots.len()
            invariant
                self.wf(),
                k <= slots@.len(),
                slots@.len() == self.total(),
                paths@.len() == k,
                forall|m: int|
                    0 <= m < slots@.len() && (#[trigger] slots@[m]) is Some ==> {
                        let c = slots@[m]->0@;
                        &&& c.index == m
                        &&& self.completed().contains(c)
                    },
                forall|m: int| 0 <= m < slots@.len() ==> (#[trigger] slots@[m]) is Some,
                forall|m: int| 0 <= m < k ==> self.completed_at(m, (#[trigger] paths@[m])@),
            decreases slots@.len() - k,
        {
            match &slots[k] {
                Some(c) => {
                    let ghost cv = c@;
                    proof {
                        assert(slots@[k as int] is Some);
                        let j = choose|j: int| 0 <= j < self.completed().len() && self.completed()[j] == cv;
                        assert(self.completed()[j].encoded_path is Some);
                    }
                    match &c.encoded_path {
                        Some(p) => {
                            paths.push(p.clone());
                        },
                        None => {
                            proof {
                                assert(false);
                            }
                        },
                    }
                    proof {
                        let j = choose|j: int| 0 <= j < self.completed().len() && self.completed()[j] == cv;
                        assert(self.completed()[j].index == k);
                        assert(self.completed()[j].encoded_path == Some(paths@[k as int]@));
                        assert(self.completed_at(k as int, paths@[k as int]@));
                    }
                },
                None => {
                    proof {
                        assert(slots@[k as int] is Some);
                    }
                },
            }
            k = k + 1;
        }
        Ok(paths)
    }

    proof fn lemma_complete_covers(&self)
        requires
            self.wf(),
            self.completed().len() == self.total(),
        ensures
            forall|k: int| 0 <= k < self.total() ==> #[trigger] self.completed_with(k),
    {
        let a = indices(self.pending()).to_multiset();
        let b = indices(self.completed()).to_multiset();
        let c = flight_indices(self.flight()).to_multiset();
        let full = Seq::new(self.total(), |i: int| i);
        assert(full.len() == self.total());
        assert(self.index_bag().len() == a.len() + b.len() + c.len());
        assert forall|k: int| 0 <= k < self.total() implies #[trigger] self.completed_with(k) by {
            assert(full[k] == k);
            assert(full.contains(k));
            assert(self.index_bag().count(k) == a.count(k) + b.count(k) + c.count(k));
            assert(a.count(k) == 0);
            assert(c.count(k) == 0);
            assert(indices(self.completed()).contains(k));
            let j = choose|j: int| 0 <= j < indices(self.completed()).len() && indices(self.completed())[j] == k;
            assert(self.completed()[j].index == k);
        }
    }

    /// The node slots after a send at position `i` of `s0` returned its
    /// permit to `node`.
    proof fn lemma_slots_after_release(&self, s0: Self, node: usize, i: int)
        requires
            s0.wf(),
            0 <= i < s0.flight().len(),
            s0.flight()[i].0 == node,
            self.flight() == s0.flight().remove(i),
            self.nodes@ == s0.nodes@.update(
                node as int,
                NodeSlot {
                    capacity: s0.nodes@[node as int].capacity,
                    available: (s0.nodes@[node as int].available + 1) as usize,
                    pulling: s0.nodes@[node as int].pulling,
                },
            ),
        ensures
            forall|m: int|
                0 <= m < self.nodes@.len() ==> {
                    &&& (#[trigger] self.nodes@[m]).capacity > 0
                    &&& self.nodes@[m].available + count_on(self.flight(), m)
                        == self.nodes@[m].capacity
                },
            forall|j: int| 0 <= j < self.flight().len() ==> (#[trigger] self.flight()[j]).0 < self.nodes@.len(),
    {
        assert forall|m: int| 0 <= m < self.nodes@.len() implies {
            &&& (#[trigger] self.nodes@[m]).capacity > 0
            &&& self.nodes@[m].available + count_on(self.flight(), m) == self.nodes@[m].capacity
        } by {
            lemma_count_on_remove(s0.flight(), i, m);
            assert(s0.nodes@[m].available + count_on(s0.flight(), m) == s0.nodes@[m].capacity);
        }
        assert forall|j: int| 0 <= j < self.flight().len() implies (#[trigger] self.flight()[j]).0 < self.nodes@.len() by {
            if j < i {
                assert(self.flight()[j] == s0.flight()[j]);
            } else {
                assert(self.flight()[j] == s0.flight()[j + 1]);
            }
        }
    }
}

/// Conservation of work: in every reachable state the pending, completed
/// and in-flight units together number exactly the units created.
pub proof fn lemma_conservation(s: &EncodingState)
    requires
        s.wf(),
    ensures
        s.pending().len() + s.completed().len() + s.flight().len() == s.total(),
{
    let full = Seq::new(s.total(), |i: int| i);
    assert(s.index_bag().len() == indices(s.pending()).to_multiset().len() + indices(
        s.completed(),
    ).to_multiset().len() + flight_indices(s.flight()).to_multiset().len());
    assert(full.to_multiset().len() == full.len());
}

/// No unit is completed twice: the completed units have distinct indices,
/// and so do the pending units and the in-flight units.
pub proof fn lemma_no_double_completion(s: &EncodingState)
    requires
        s.wf(),
    ensures
        forall|i: int, j: int|
            0 <= i < j < s.completed().len() ==> (#[trigger] s.completed()[i]).index
                != (#[trigger] s.completed()[j]).index,
        forall|i: int, j: int|
            0 <= i < j < s.pending().len() ==> (#[trigger] s.pending()[i]).index
                != (#[trigger] s.pending()[j]).index,
{
    s.lemma_unique();
    assert forall|i: int, j: int| 0 <= i < j < s.completed().len() implies (#[trigger] s.completed()[i]).index
        != (#[trigger] s.completed()[j]).index by {
        assert(indices(s.completed())[i] != indices(s.completed())[j]);
    }
    assert forall|i: int, j: int| 0 <= i < j < s.pending().len() implies (#[trigger] s.pending()[i]).index
        != (#[trigger] s.pending()[j]).index by {
        assert(indices(s.pending())[i] != indices(s.pending())[j]);
    }
}

/// Admission bound and permit conservation: a node never has more sends in
/// flight than its capacity, its free permits plus its sends make up its
/// capacity, and a node with no send outstanding holds all its permits.
pub proof fn lemma_admission(s: &EncodingState, n: usize)
    requires
        s.wf(),
        n < s.slots().len(),
    ensures
        s.in_flight_on(n as int) <= s.slots()[n as int].capacity,
        s.slots()[n as int].available <= s.slots()[n as int].capacity,
        s.slots()[n as int].available + s.in_flight_on(n as int) == s.slots()[n as int].capacity,
        s.in_flight_on(n as int) == 0 ==> s.slots()[n as int].available
            == s.slots()[n as int].capacity,
{
    assert(s.nodes@[n as int].capacity > 0);
}

/// No permit leaks: once every node's loop is over, every node holds all
/// the permits it started with.
pub proof fn lemma_permits_after_run(s: &EncodingState)
    requires
        s.wf(),
        forall|n: int|
            0 <= n < s.slots().len() ==> !(#[trigger] s.slots()[n]).pulling && s.in_flight_on(n) == 0,
    ensures
        forall|n: int|
            0 <= n < s.slots().len() ==> (#[trigger] s.slots()[n]).available == s.slots()[n].capacity,
{
    assert forall|n: int| 0 <= n < s.slots().len() implies (#[trigger] s.slots()[n]).available
        == s.slots()[n].capacity by {
        assert(s.nodes@[n].available + count_on(s.flight(), n) == s.nodes@[n].capacity);
    }
}

/// Requeue idempotence: a unit that is dispatched and then reported failed
/// goes back exactly as it was taken, leaving the pending units as they
/// were before the dispatch.
pub proof fn lemma_requeue_restores(
    s0: &EncodingState,
    s1: &EncodingState,
    s2: &EncodingState,
    node: usize,
    d: Dispatch,
)
    requires
        s0.wf(),
        s1.wf(),
        node < s0.slots().len(),
        EncodingState::dispatched(*s0, *s1, node, d),
        d is Send,
        EncodingState::requeued(*s1, *s2, node, d->0.index),
    ensures
        s2.pending() == s0.pending(),
        s2.completed() == s0.completed(),
        s2.pending().last() == d->0@,
{
    let i = s1.flight().len() - 1;
    assert(s1.flight()[i] == (node, d->0@));
    assert(s0.pending().len() > 0);
    assert(s2.pending() == s1.pending().push(d->0@));
    assert(s2.pending() =~= s0.pending());
}

/// Every unit waiting in pending or owned by a send is the unit created at
/// partition time with its index, unchanged; a completed unit differs from
/// it only by its encoded location.
pub proof fn lemma_units_as_created(s: &EncodingState)
    requires
        s.wf(),
    ensures
        forall|i: int|
            0 <= i < s.pending().len() ==> #[trigger] s.pending()[i] == s.origin()[s.pending()[i].index as int],
        forall|i: int|
            0 <= i < s.flight().len() ==> (#[trigger] s.flight()[i]).1 == s.origin()[s.flight()[i].1.index as int],
        forall|i: int|
            0 <= i < s.completed().len() ==> (#[trigger] s.completed()[i]).encoded_as_of(
                s.origin()[s.completed()[i].index as int],
            ),
{
}

} // verus!
