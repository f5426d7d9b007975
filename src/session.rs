//! The per-session allocator of synchronization source identifiers.
use vstd::prelude::*;
use std::collections::HashSet;
use rand::RngCore;
use crate::source::SynchronizationSource;

verus! {

broadcast use vstd::std_specs::hash::group_hash_axioms;

/// Relies on rand's `OsRng` through `RngCore::try_fill_bytes`: four bytes
/// from the operating system's random source, or `None` when that source
/// reports an error (it does not panic). Nothing is promised about which
/// value comes back.
#[verifier::external_body]
fn draw_u32() -> (r: Option<u32>) {
    let mut buf = [0u8; 4];
    match rand::rngs::OsRng.try_fill_bytes(&mut buf) {
        Ok(()) => Some(u32::from_be_bytes(buf)),
        Err(_) => None,
    }
}

/// How many random candidates one allocation draws before it gives up.
pub const MAX_ALLOCATION_ATTEMPTS: u32 = 64;

/// Why an identifier could not be allocated.
#[derive(Clone, Copy, Debug, PartialEq, Eq, Structural)]
pub enum AllocationError {
    /// Every candidate drawn was already in use.
    AllocationExhausted,
    /// The random source failed before a free candidate was drawn.
    RandomSourceFailed,
}

/// The set of synchronization sources currently allocated in one RTP
/// session. Each session owns its own set, so sessions never interfere.
pub struct Session {
    sources: HashSet<u32>,
}

impl View for Session {
    type V = Set<u32>;

    closed spec fn view(&self) -> Set<u32> {
        self.sources@
    }
}

impl Session {
    /// A session holds finitely many sources.
    #[verifier::type_invariant]
    spec fn inv(&self) -> bool {
        self.sources@.finite()
    }
}

/// `after` is `before` with `id` added, and `id` was not in use in `before`.
pub open spec fn allocation_step(before: Set<u32>, after: Set<u32>, id: u32) -> bool {
    &&& !before.contains(id)
    &&& after == before.insert(id)
}

/// Trying `candidates` in order against `before` took the first one that
/// was free, giving `after`; or none was free, and nothing changed.
pub open spec fn picks_first_free(
    before: Set<u32>,
    candidates: Seq<u32>,
    r: Result<SynchronizationSource, AllocationError>,
    after: Set<u32>,
) -> bool {
    match r {
        Ok(s) => exists|k: int|
            0 <= k < candidates.len() && candidates[k] == s.0 && allocation_step(before, after, s.0)
                && (forall|j: int| 0 <= j < k ==> before.contains(#[trigger] candidates[j])),
        Err(e) => {
            &&& e == AllocationError::AllocationExhausted
            &&& after == before
            &&& forall|j: int| 0 <= j < candidates.len() ==> before.contains(#[trigger] candidates[j])
        },
    }
}

impl Session {
    /// An empty session.
    pub fn new() -> (r: Session)
        ensures
            r@ == Set::<u32>::empty(),
            r@.finite(),
    {
        Session { sources: HashSet::new() }
    }

    /// Whether `source` is allocated in this session.
    pub fn contains(&self, source: SynchronizationSource) -> (r: bool)
        ensures
            r == self@.contains(source.0),
    {
        self.sources.contains(&source.0)
    }

    /// Records `source` as allocated. Returns whether it was free before;
    /// if it was not, the session is unchanged.
    pub fn add_source(&mut self, source: SynchronizationSource) -> (r: bool)
        ensures
            r == !old(self)@.contains(source.0),
            final(self)@ == old(self)@.insert(source.0),
            final(self)@.finite(),
    {
        proof {
            use_type_invariant(&*self);
        }
        let mut set: HashSet<u32> = HashSet::new();
        std::mem::swap(&mut self.sources, &mut set);
        let r = set.insert(source.0);
        self.sources = set;
        r
    }

    /// Frees `source` for later reuse. Returns whether it was allocated.
    pub fn release(&mut self, source: SynchronizationSource) -> (r: bool)
        ensures
            r == old(self)@.contains(source.0),
            final(self)@ == old(self)@.remove(source.0),
            final(self)@.finite(),
    {
        proof {
            use_type_invariant(&*self);
        }
        let mut set: HashSet<u32> = HashSet::new();
        std::mem::swap(&mut self.sources, &mut set);
        let r = set.remove(&source.0);
        self.sources = set;
        r
    }

    /// Allocates the first of `candidates` that is free, trying them in
    /// order; fails with `AllocationExhausted`, leaving the session as it
    /// was, when every one of them is already in use.
    pub fn allocate_from(&mut self, candidates: &[u32]) -> (r: Result<
        SynchronizationSource,
        AllocationError,
    >)
        ensures
            picks_first_free(old(self)@, candidates@, r, final(self)@),
            final(self)@.finite(),
    {
        proof {
            use_type_invariant(&*self);
        }
        let n = candidates.len();
        let mut i: usize = 0;
        while i < n
            invariant
                n == candidates@.len(),
                i <= n,
                self@ == old(self)@,
                self@.finite(),
                forall|j: int| 0 <= j < i ==> old(self)@.contains(#[trigger] candidates@[j]),
            decreases n - i,
        {
            let source = SynchronizationSource(candidates[i]);
            if self.add_source(source) {
                assert(allocation_step(old(self)@, self@, source.0));
                return Ok(source);
            }
            i = i + 1;
        }
        Err(AllocationError::AllocationExhausted)
    }

    /// Allocates a fresh identifier: draws random candidates one at a time
    /// and takes the first that is free. Fails with `AllocationExhausted`
    /// after `MAX_ALLOCATION_ATTEMPTS` draws that were all in use, or with
    /// `RandomSourceFailed` if a draw fails; either way the session is
    /// unchanged. On an empty session it can fail only by a failed draw.
    pub fn add_new_source(&mut self) -> (r: Result<SynchronizationSource, AllocationError>)
        ensures
            match r {
                Ok(s) => {
                    &&& allocation_step(old(self)@, final(self)@, s.0)
                    &&& exists|d: Seq<u32>|
                        1 <= d.len() <= MAX_ALLOCATION_ATTEMPTS && #[trigger] picks_first_free(
                            old(self)@,
                            d,
                            r,
                            final(self)@,
                        )
                },
                Err(AllocationError::AllocationExhausted) => exists|d: Seq<u32>|
                    d.len() == MAX_ALLOCATION_ATTEMPTS && #[trigger] picks_first_free(
                        old(self)@,
                        d,
                        r,
                        final(self)@,
                    ),
                Err(AllocationError::RandomSourceFailed) => final(self)@ == old(self)@,
            },
            r is Err ==> final(self)@ == old(self)@,
            old(self)@ == Set::<u32>::empty() ==> r != Err::<SynchronizationSource, AllocationError>(
                AllocationError::AllocationExhausted,
            ),
            final(self)@.finite(),
    {
        proof {
            use_type_invariant(&*self);
        }
        let ghost drawn: Seq<u32> = Seq::empty();
        let mut attempt: u32 = 0;
        while attempt < MAX_ALLOCATION_ATTEMPTS
            invariant
                attempt <= MAX_ALLOCATION_ATTEMPTS,
                drawn.len() == attempt,
                self@ == old(self)@,
                self@.finite(),
                forall|j: int| 0 <= j < drawn.len() ==> old(self)@.contains(#[trigger] drawn[j]),
            decreases MAX_ALLOCATION_ATTEMPTS - attempt,
        {
            let candidate = match draw_u32() {
                Some(c) => c,
                None => return Err(AllocationError::RandomSourceFailed),
            };
            let source = SynchronizationSource(candidate);
            if self.add_source(source) {
                proof {
                    let d = drawn.push(candidate);
                    let k = drawn.len() as int;
                    assert(d[k] == source.0);
                    assert(forall|j: int| 0 <= j < k ==> d[j] == drawn[j]);
                    assert(picks_first_free(old(self)@, d, Ok(source), self@));
                }
                return Ok(source);
            }
            proof {
                let old_drawn = drawn;
                drawn = drawn.push(candidate);
                assert(forall|j: int| 0 <= j < old_drawn.len() ==> drawn[j] == old_drawn[j]);
            }
            attempt = attempt + 1;
        }
        proof {
            assert(picks_first_free(
                old(self)@,
                drawn,
                Err(AllocationError::AllocationExhausted),
                self@,
            ));
            if old(self)@ == Set::<u32>::empty() {
                assert(old(self)@.contains(drawn[0]));
            }
        }
        Err(AllocationError::AllocationExhausted)
    }
}

/// Identifiers handed out by any sequence of allocations on one session are
/// pairwise distinct, and none of them was in use before the first one.
/// `states[i]` is the session before the allocation that returned `ids[i]`,
/// and `states[i + 1]` the session after it.
pub proof fn lemma_allocations_distinct(states: Seq<Set<u32>>, ids: Seq<u32>)
    requires
        states.len() == ids.len() + 1,
        forall|i: int|
            0 <= i < ids.len() ==> #[trigger] allocation_step(states[i], states[i + 1], ids[i]),
    ensures
        forall|i: int, j: int|
            0 <= i < ids.len() && 0 <= j < ids.len() && i != j ==> ids[i] != ids[j],
        forall|i: int| 0 <= i < ids.len() ==> !states[0].contains(#[trigger] ids[i]),
{
    lemma_allocated_stay(states, ids, ids.len() as int);
    assert forall|i: int| 0 <= i < ids.len() implies !states[0].contains(#[trigger] ids[i]) by {
        lemma_allocated_stay(states, ids, i);
        assert(allocation_step(states[i], states[i + 1], ids[i]));
    }
    assert forall|i: int, j: int|
        0 <= i < ids.len() && 0 <= j < ids.len() && i != j implies ids[i] != ids[j] by {
        if i < j {
            lemma_allocated_stay(states, ids, j);
            assert(allocation_step(states[j], states[j + 1], ids[j]));
        } else {
            lemma_allocated_stay(states, ids, i);
            assert(allocation_step(states[i], states[i + 1], ids[i]));
        }
    }
}

/// Every identifier in use at the start, or allocated before step `k`, is
/// still in use at step `k`.
proof fn lemma_allocated_stay(states: Seq<Set<u32>>, ids: Seq<u32>, k: int)
    requires
        states.len() == ids.len() + 1,
        0 <= k <= ids.len(),
        forall|i: int|
            0 <= i < ids.len() ==> #[trigger] allocation_step(states[i], states[i + 1], ids[i]),
    ensures
        forall|i: int| 0 <= i < k ==> states[k].contains(#[trigger] ids[i]),
        states[0].subset_of(states[k]),
    decreases k,
{
    if k > 0 {
        let j = k - 1;
        lemma_allocated_stay(states, ids, j);
        assert(allocation_step(states[j], states[j + 1], ids[j]));
    }
}

} // verus!
