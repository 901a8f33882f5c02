use std::collections::VecDeque;
use vstd::prelude::*;

verus! {

/// The state of an N-body simulation in structure-of-arrays layout.
///
/// Body `i` has mass `masses[i]`, position `positions[i]`, velocity `velocities[i]`,
/// acceleration `accelerations[i]` and a trail of recent positions `history[i]`.
/// The state only stores these values: the scalar type `M` and the vector type `V`
/// are chosen by the caller (the simulator uses 64-bit floats and 3-vectors).
#[derive(Debug)]
pub struct SystemState<M, V> {
    pub masses: Vec<M>,
    pub positions: Vec<V>,
    pub velocities: Vec<V>,
    pub accelerations: Vec<V>,
    pub history: Vec<VecDeque<V>>,
    pub trail_length: usize,
}

/// A trail after one more position was recorded with capacity `limit`:
/// when the trail is full the oldest position is dropped first.
pub open spec fn trail_push<V>(trail: Seq<V>, pos: V, limit: nat) -> Seq<V> {
    if trail.len() >= limit {
        trail.drop_first().push(pos)
    } else {
        trail.push(pos)
    }
}

/// Recording a position into a trail that respects its capacity keeps it within the
/// capacity, puts the new position last, and keeps the most recent older positions in
/// their order: the result is the newest `min(len + 1, limit) - 1` old positions followed
/// by `pos`.
pub proof fn lemma_trail_push<V>(trail: Seq<V>, pos: V, limit: nat)
    requires
        limit > 0,
        trail.len() <= limit,
    ensures
        trail_push(trail, pos, limit).len() == (if trail.len() < limit {
            trail.len() + 1
        } else {
            limit
        }),
        trail_push(trail, pos, limit).last() == pos,
        trail_push(trail, pos, limit) == trail.subrange(
            trail.len() + 1 - trail_push(trail, pos, limit).len(),
            trail.len() as int,
        ).push(pos),
{
    let r = trail_push(trail, pos, limit);
    assert(r == trail.subrange(trail.len() + 1 - r.len(), trail.len() as int).push(pos));
}

impl<M, V> SystemState<M, V> {
    /// Number of bodies.
    pub open spec fn body_count(&self) -> nat {
        self.masses@.len()
    }

    /// Every per-body array holds exactly one entry per body.
    pub open spec fn wf(&self) -> bool {
        &&& self.positions@.len() == self.masses@.len()
        &&& self.velocities@.len() == self.masses@.len()
        &&& self.accelerations@.len() == self.masses@.len()
        &&& self.history@.len() == self.masses@.len()
    }

    /// No trail holds more than `trail_length` positions.
    pub open spec fn trails_bounded(&self) -> bool {
        forall|i: int| 0 <= i < self.history@.len() ==> #[trigger] self.history@[i]@.len() <= self.trail_length
    }

    /// An empty system whose trails keep at most `trail_length` positions.
    pub fn new(trail_length: usize) -> (s: Self)
        ensures
            s.masses@ == Seq::<M>::empty(),
            s.positions@ == Seq::<V>::empty(),
            s.velocities@ == Seq::<V>::empty(),
            s.accelerations@ == Seq::<V>::empty(),
            s.history@ == Seq::<VecDeque<V>>::empty(),
            s.trail_length == trail_length,
            s.wf(),
            s.trails_bounded(),
    {
        SystemState {
            masses: Vec::new(),
            positions: Vec::new(),
            velocities: Vec::new(),
            accelerations: Vec::new(),
            history: Vec::new(),
            trail_length,
        }
    }

    /// Append a body with the given mass, position and velocity. Its acceleration
    /// starts at `V::default()` (the zero vector) and its trail starts empty.
    pub fn add_body(&mut self, mass: M, position: V, velocity: V)
        where V: Default
        ensures
            final(self).masses@ == old(self).masses@.push(mass),
            final(self).positions@ == old(self).positions@.push(position),
            final(self).velocities@ == old(self).velocities@.push(velocity),
            final(self).accelerations@.len() == old(self).accelerations@.len() + 1,
            final(self).accelerations@.drop_last() == old(self).accelerations@,
            call_ensures(V::default, (), final(self).accelerations@.last()),
            final(self).history@.len() == old(self).history@.len() + 1,
            final(self).history@.drop_last() == old(self).history@,
            final(self).history@.last()@ == Seq::<V>::empty(),
            final(self).trail_length == old(self).trail_length,
            final(self).body_count() == old(self).body_count() + 1,
            old(self).wf() ==> final(self).wf(),
            old(self).trails_bounded() ==> final(self).trails_bounded(),
    {
        self.masses.push(mass);
        self.positions.push(position);
        self.velocities.push(velocity);
        self.accelerations.push(V::default());
        self.history.push(VecDeque::with_capacity(self.trail_length));
        proof {
            assert(self.accelerations@.drop_last() =~= old(self).accelerations@);
            assert(self.history@.drop_last() =~= old(self).history@);
        }
    }

    /// Record the current position of every body at the end of its trail. A trail
    /// that already holds `trail_length` positions or more first drops its oldest one.
    /// With `trail_length == 0` nothing is recorded.
    pub fn record_history(&mut self)
        where V: Copy
        requires
            old(self).trail_length == 0 || old(self).history@.len() >= old(self).positions@.len(),
        ensures
            final(self).masses@ == old(self).masses@,
            final(self).positions@ == old(self).positions@,
            final(self).velocities@ == old(self).velocities@,
            final(self).accelerations@ == old(self).accelerations@,
            final(self).trail_length == old(self).trail_length,
            final(self).history@.len() == old(self).history@.len(),
            forall|i: int|
                0 <= i < old(self).history@.len() ==> #[trigger] final(self).history@[i]@ == (
                if old(self).trail_length > 0 && i < old(self).positions@.len() {
                    trail_push(
                        old(self).history@[i]@,
                        old(self).positions@[i],
                        old(self).trail_length as nat,
                    )
                } else {
                    old(self).history@[i]@
                }),
            forall|i: int|
                0 <= i < old(self).history@.len() && i < old(self).positions@.len() && old(
                    self,
                ).trail_length > 0 ==> #[trigger] final(self).history@[i]@ == (if old(
                    self,
                ).history@[i]@.len() >= old(self).trail_length {
                    old(self).history@[i]@.drop_first().push(old(self).positions@[i])
                } else {
                    old(self).history@[i]@.push(old(self).positions@[i])
                }),
            old(self).trail_length == 0 ==> final(self).history@ == old(self).history@,
            old(self).wf() ==> final(self).wf(),
            old(self).trails_bounded() ==> final(self).trails_bounded(),
    {
        if self.trail_length == 0 {
            return;
        }
        let n = self.positions.len();
        let mut i: usize = 0;
        while i < n
            invariant
                n == self.positions@.len(),
                i <= n,
                n <= self.history@.len(),
                self.trail_length > 0,
                self.masses@ == old(self).masses@,
                self.positions@ == old(self).positions@,
                self.velocities@ == old(self).velocities@,
                self.accelerations@ == old(self).accelerations@,
                self.trail_length == old(self).trail_length,
                self.history@.len() == old(self).history@.len(),
                forall|j: int|
                    0 <= j < self.history@.len() ==> #[trigger] self.history@[j]@ == (if j < i {
                        trail_push(
                            old(self).history@[j]@,
                            old(self).positions@[j],
                            old(self).trail_length as nat,
                        )
                    } else {
                        old(self).history@[j]@
                    }),
            decreases n - i,
        {
            let pos = self.positions[i];
            let limit = self.trail_length;
            let h = &mut self.history[i];
            if h.len() >= limit {
                h.pop_front();
            }
            h.push_back(pos);
            i += 1;
        }
        proof {
            if old(self).trails_bounded() {
                assert forall|j: int| 0 <= j < self.history@.len() implies #[trigger] self.history@[j]@.len()
                    <= self.trail_length by {
                    assert(old(self).history@[j]@.len() <= old(self).trail_length);
                }
            }
        }
    }
}

impl<M, V> Default for SystemState<M, V> {
    /// An empty system that records no trails (`trail_length == 0`).
    fn default() -> (s: Self)
        ensures
            s.masses@ == Seq::<M>::empty(),
            s.positions@ == Seq::<V>::empty(),
            s.velocities@ == Seq::<V>::empty(),
            s.accelerations@ == Seq::<V>::empty(),
            s.history@ == Seq::<VecDeque<V>>::empty(),
            s.trail_length == 0,
    {
        SystemState {
            masses: Vec::new(),
            positions: Vec::new(),
            velocities: Vec::new(),
            accelerations: Vec::new(),
            history: Vec::new(),
            trail_length: 0,
        }
    }
}

} // verus!
