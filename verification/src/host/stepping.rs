//! Advancing the simulation: substeps, and which contacts have begun and ended.

use crate::geometry::{vec_finite, Vec2};
use crate::host::cells::positive;
use crate::host::handles::{
    ordered_pair, packed_collider, sorted_contact_pair_key, AlchemyRapierColliderHandle,
};
use crate::host::pixels::lemma_push_contains;
use crate::host::status::AlchemyRapierStatus;
use crate::scalar::{of_integer, quotient, Scalar};
use vstd::prelude::*;

verus! {

#[derive(Clone, Copy, Debug, PartialEq, Eq, Structural)]
pub struct AlchemyRapierStepResult {
    pub status: AlchemyRapierStatus,
    pub contact_begin_count: usize,
    pub contact_end_count: usize,
    pub contact_hit_count: usize,
}

/// The outcome of a step that was refused.
pub fn empty_step_result(status: AlchemyRapierStatus) -> (r: AlchemyRapierStepResult)
    ensures
        r == (AlchemyRapierStepResult {
            status,
            contact_begin_count: 0,
            contact_end_count: 0,
            contact_hit_count: 0,
        }),
{
    AlchemyRapierStepResult {
        status,
        contact_begin_count: 0,
        contact_end_count: 0,
        contact_hit_count: 0,
    }
}

/// The number of substeps and the time of each.
pub fn substeps(time_step: Scalar, sub_step_count: i32) -> (r: Result<
    (usize, Scalar),
    AlchemyRapierStatus,
>)
    ensures
        match r {
            Ok((count, dt)) => {
                &&& positive(time_step)
                &&& sub_step_count > 0
                &&& count == sub_step_count
                &&& dt == quotient(time_step, of_integer(sub_step_count as int))
            },
            Err(e) => !(positive(time_step) && sub_step_count > 0) && e
                == AlchemyRapierStatus::InvalidArgument,
        },
{
    if !time_step.is_finite() || !Scalar::from_bits(0).is_below(time_step) || sub_step_count <= 0 {
        return Err(AlchemyRapierStatus::InvalidArgument);
    }
    let dt = time_step.over(Scalar::from_u64(sub_step_count as u64));
    Ok((sub_step_count as usize, dt))
}

/// Two colliders in contact.
pub type ColliderPair = (AlchemyRapierColliderHandle, AlchemyRapierColliderHandle);

/// The key of two colliders in contact.
pub open spec fn pair_key(pair: ColliderPair) -> (u64, u64) {
    ordered_pair(packed_collider(pair.0), packed_collider(pair.1))
}

/// The keys of pairs in contact.
pub open spec fn keys_of_pairs(pairs: Seq<ColliderPair>) -> Set<(u64, u64)> {
    Seq::new(pairs.len(), |i: int| pair_key(pairs[i])).to_set()
}

/// The pairs that were in contact at the end of the last step, each once.
#[derive(Debug)]
pub struct ContactPairs {
    pub keys: Vec<(u64, u64)>,
}

impl View for ContactPairs {
    type V = Set<(u64, u64)>;

    open spec fn view(&self) -> Set<(u64, u64)> {
        self.keys@.to_set()
    }
}

fn holds(keys: &Vec<(u64, u64)>, key: (u64, u64)) -> (r: bool)
    ensures
        r == keys@.contains(key),
{
    let mut i: usize = 0;
    while i < keys.len()
        invariant
            i <= keys.len(),
            forall|j: int| 0 <= j < i ==> keys@[j] != key,
        decreases keys.len() - i,
    {
        if keys[i].0 == key.0 && keys[i].1 == key.1 {
            assert(keys@[i as int] == key);
            return true;
        }
        i = i + 1;
    }
    false
}

/// How many of the keys are not among the others.
fn count_missing(keys: &Vec<(u64, u64)>, others: &Vec<(u64, u64)>) -> (r: usize)
    requires
        keys@.no_duplicates(),
    ensures
        r == keys@.to_set().difference(others@.to_set()).len(),
{
    let ghost mut missing: Seq<(u64, u64)> = Seq::empty();
    let mut count: usize = 0;
    let mut i: usize = 0;
    while i < keys.len()
        invariant
            count <= i <= keys.len(),
            keys@.no_duplicates(),
            count == missing.len(),
            missing.no_duplicates(),
            forall|k: (u64, u64)| #[trigger]
                missing.contains(k) <==> keys@.take(i as int).contains(k) && !others@.contains(k),
        decreases keys.len() - i,
    {
        let key = keys[i];
        let ghost before = missing;
        assert forall|k: (u64, u64)| #[trigger] keys@.take(i + 1).contains(k) <==> keys@.take(
            i as int,
        ).contains(k) || k == key by {
            assert(keys@.take(i + 1) =~= keys@.take(i as int).push(key));
            lemma_push_contains(keys@.take(i as int), key, k);
        }
        assert(!keys@.take(i as int).contains(key)) by {
            if keys@.take(i as int).contains(key) {
                let j = choose|j: int| 0 <= j < i && keys@.take(i as int)[j] == key;
                assert(keys@[j] == keys@[i as int]);
            }
        }
        if !holds(others, key) {
            count = count + 1;
            proof {
                missing = before.push(key);
                assert(!before.contains(key));
                assert forall|k: (u64, u64)| #[trigger] missing.contains(k) <==> before.contains(k)
                    || k == key by {
                    lemma_push_contains(before, key, k);
                }
                assert forall|a: int, b: int|
                    0 <= a < missing.len() && 0 <= b < missing.len() && a != b implies missing[a]
                    != missing[b] by {
                    if a == before.len() {
                        assert(before.contains(before[b]));
                    } else if b == before.len() {
                        assert(before.contains(before[a]));
                    }
                }
            }
        }
        i = i + 1;
    }
    proof {
        assert(keys@.take(i as int) =~= keys@);
        missing.unique_seq_to_set();
        assert(missing.to_set() =~= keys@.to_set().difference(others@.to_set()));
    }
    count
}

impl ContactPairs {
    pub open spec fn wf(self) -> bool {
        self.keys@.no_duplicates()
    }

    pub fn new() -> (r: Self)
        ensures
            r.wf(),
            r@ == Set::<(u64, u64)>::empty(),
    {
        let r = ContactPairs { keys: Vec::new() };
        assert(r@ =~= Set::<(u64, u64)>::empty());
        r
    }

    /// The pairs in contact, each once, whichever collider is named first.
    pub fn collect(pairs: &[ColliderPair]) -> (r: Self)
        ensures
            r.wf(),
            r@ == keys_of_pairs(pairs@),
    {
        let mut keys: Vec<(u64, u64)> = Vec::new();
        let mut i: usize = 0;
        let ghost all = Seq::new(pairs@.len(), |j: int| pair_key(pairs@[j]));
        while i < pairs.len()
            invariant
                i <= pairs.len(),
                all == Seq::new(pairs@.len(), |j: int| pair_key(pairs@[j])),
                keys@.no_duplicates(),
                forall|k: (u64, u64)| #[trigger]
                    keys@.contains(k) <==> all.take(i as int).contains(k),
            decreases pairs.len() - i,
        {
            let (collider1, collider2) = pairs[i];
            let key = sorted_contact_pair_key(collider1, collider2);
            let ghost before = keys@;
            assert forall|k: (u64, u64)| #[trigger] all.take(i + 1).contains(k) <==> all.take(
                i as int,
            ).contains(k) || k == key by {
                assert(all.take(i + 1) =~= all.take(i as int).push(key));
                lemma_push_contains(all.take(i as int), key, k);
            }
            if !holds(&keys, key) {
                keys.push(key);
                proof {
                    assert forall|k: (u64, u64)| #[trigger] keys@.contains(k) <==> before.contains(
                        k,
                    ) || k == key by {
                        lemma_push_contains(before, key, k);
                    }
                    assert forall|a: int, b: int|
                        0 <= a < keys@.len() && 0 <= b < keys@.len() && a != b implies keys@[a]
                        != keys@[b] by {
                        if a == before.len() {
                            assert(before.contains(before[b]));
                        } else if b == before.len() {
                            assert(before.contains(before[a]));
                        }
                    }
                }
            }
            i = i + 1;
        }
        assert(all.take(i as int) =~= all);
        let r = ContactPairs { keys };
        assert(r@ =~= keys_of_pairs(pairs@));
        r
    }

    /// Takes over the pairs that are in contact at the end of a step: how many contacts have
    /// begun, and how many have ended.
    pub fn finish_step(&mut self, active: ContactPairs, contact_hit_count: usize) -> (r:
        AlchemyRapierStepResult)
        requires
            old(self).wf(),
            active.wf(),
        ensures
            final(self).wf(),
            final(self)@ == active@,
            r.status == AlchemyRapierStatus::Success,
            r.contact_begin_count == active@.difference(old(self)@).len(),
            r.contact_end_count == old(self)@.difference(active@).len(),
            r.contact_hit_count == contact_hit_count,
    {
        let contact_begin_count = count_missing(&active.keys, &self.keys);
        let contact_end_count = count_missing(&self.keys, &active.keys);
        self.keys = active.keys;
        AlchemyRapierStepResult {
            status: AlchemyRapierStatus::Success,
            contact_begin_count,
            contact_end_count,
            contact_hit_count,
        }
    }
}

/// A step in which the contacts stay the same begins and ends none.
pub proof fn lemma_steady_contacts(pairs: Set<(u64, u64)>)
    ensures
        pairs.difference(pairs).len() == 0,
{
    assert(pairs.difference(pairs) =~= Set::<(u64, u64)>::empty());
}

/// The gravity is refused where it is not finite.
pub fn gravity_status(gravity: Vec2) -> (r: AlchemyRapierStatus)
    ensures
        r == if vec_finite(gravity) {
            AlchemyRapierStatus::Success
        } else {
            AlchemyRapierStatus::InvalidArgument
        },
{
    if gravity.is_finite() {
        AlchemyRapierStatus::Success
    } else {
        AlchemyRapierStatus::InvalidArgument
    }
}

/// At least one substep of continuous collision detection is needed.
pub fn max_ccd_substeps_status(max_ccd_substeps: u32) -> (r: AlchemyRapierStatus)
    ensures
        r == if max_ccd_substeps == 0 {
            AlchemyRapierStatus::InvalidArgument
        } else {
            AlchemyRapierStatus::Success
        },
{
    if max_ccd_substeps == 0 {
        AlchemyRapierStatus::InvalidArgument
    } else {
        AlchemyRapierStatus::Success
    }
}

/// A time step is refused unless it is finite and above zero.
pub fn timestep_status(dt: Scalar) -> (r: AlchemyRapierStatus)
    ensures
        r == if positive(dt) {
            AlchemyRapierStatus::Success
        } else {
            AlchemyRapierStatus::InvalidArgument
        },
{
    if dt.is_finite() && Scalar::from_bits(0).is_below(dt) {
        AlchemyRapierStatus::Success
    } else {
        AlchemyRapierStatus::InvalidArgument
    }
}

} // verus!
