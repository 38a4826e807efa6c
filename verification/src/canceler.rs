use vstd::prelude::*;

verus! {

/// Whether bit `i` of `bits` is set.
pub open spec fn bit_set(bits: u64, i: u64) -> bool {
    (bits >> i) & 1u64 == 1u64
}

/// Set of arm cancellation requests made during one round of polling.
///
/// Arm `i` (counted from 0, in declaration order) is asked to be cancelled when bit `i`
/// is set. Only the first 64 arms can be cancelled.
#[derive(Debug, Clone, Copy)]
pub struct Canceler {
    /// The requests, one bit per arm.
    pub canceled: u64,
}

impl Canceler {
    /// Whether a cancellation of arm `i` has been requested.
    pub open spec fn is_canceled(self, i: int) -> bool {
        0 <= i < 64 && bit_set(self.canceled, i as u64)
    }

    /// The canceler after a request to cancel arm `index`.
    pub open spec fn with_request(self, index: u32) -> Canceler {
        Canceler { canceled: self.canceled | (1u64 << index) }
    }

    /// A canceler with no request.
    pub fn new() -> (r: Canceler)
        ensures
            r.canceled == 0,
            forall|i: int| !r.is_canceled(i),
    {
        proof {
            lemma_empty_cancels_nothing(Canceler { canceled: 0 });
        }
        Canceler { canceled: 0 }
    }

    /// Whether any cancellation was requested.
    pub fn any(&self) -> (r: bool)
        ensures
            r == (self.canceled != 0),
            r <==> exists|i: int| self.is_canceled(i),
    {
        proof {
            lemma_nonzero_iff_some_bit(self.canceled);
        }
        self.canceled != 0
    }

    /// Whether cancellation of arm `i` was requested.
    pub fn canceled(&self, i: u32) -> (r: bool)
        requires
            i < 64,
        ensures
            r == self.is_canceled(i as int),
    {
        proof {
            lemma_mask_is_bit(self.canceled, i as u64);
        }
        (self.canceled & (1u64 << i)) != 0
    }

    /// Cancel the arm with the given index.
    ///
    /// The first arm has index 0, arms are then numbered consecutively. Only the first
    /// 64 arms can be cancelled.
    pub fn cancel(&mut self, index: u32)
        requires
            index < 64,
        ensures
            *final(self) == old(self).with_request(index),
            forall|i: int| #[trigger]
                final(self).is_canceled(i) == (i == index || old(self).is_canceled(i)),
    {
        let val = self.canceled;
        self.canceled = val | (1u64 << index);
        proof {
            assert forall|i: int| #[trigger]
                self.is_canceled(i) == (i == index || old(self).is_canceled(i)) by {
                if 0 <= i < 64 {
                    lemma_or_bit(val, index as u64, i as u64);
                }
            }
        }
    }
}

/// The arm a `CancelerWrapper` stands for, together with the canceler it writes to.
pub struct CancelerWrapper<'a> {
    /// The canceler of the current round.
    pub canceler: &'a mut Canceler,
    /// The index of the arm that `cancel` cancels.
    pub index: u32,
}

impl<'a> CancelerWrapper<'a> {
    /// A handle that cancels arm `index` through `canceler`.
    pub fn new(canceler: &'a mut Canceler, index: u32) -> (r: CancelerWrapper<'a>)
        ensures
            r.index == index,
            *r.canceler == *old(canceler),
            *final(r.canceler) == *final(canceler),
    {
        CancelerWrapper { canceler, index }
    }

    /// Cancel the arm represented by this object.
    pub fn cancel(&mut self)
        requires
            old(self).index < 64,
        ensures
            final(self).index == old(self).index,
            *final(self).canceler == old(self).canceler.with_request(old(self).index),
            forall|i: int| #[trigger]
                final(self).canceler.is_canceled(i) == (i == old(self).index
                    || old(self).canceler.is_canceled(i)),
            *final(final(self).canceler) == *final(old(self).canceler),
    {
        self.canceler.cancel(self.index);
    }
}

/// A canceler with no bit set requests no cancellation.
pub proof fn lemma_empty_cancels_nothing(c: Canceler)
    requires
        c.canceled == 0,
    ensures
        forall|i: int| !c.is_canceled(i),
{
    assert forall|i: int| !c.is_canceled(i) by {
        if 0 <= i < 64 {
            lemma_zero_has_no_bit(i as u64);
        }
    }
}

/// After arm `index` is cancelled, a query of that arm answers yes, a query of any other
/// arm answers as before, and the canceler reports that some cancellation was requested.
pub proof fn lemma_cancel_is_seen(c: Canceler, index: u32)
    requires
        index < 64,
    ensures
        c.with_request(index).is_canceled(index as int),
        forall|j: int| j != index ==> #[trigger] c.with_request(index).is_canceled(j)
            == c.is_canceled(j),
        c.with_request(index).canceled != 0,
{
    let d = c.with_request(index);
    lemma_or_bit(c.canceled, index as u64, index as u64);
    assert forall|j: int| j != index implies #[trigger] d.is_canceled(j) == c.is_canceled(j) by {
        if 0 <= j < 64 {
            lemma_or_bit(c.canceled, index as u64, j as u64);
        }
    }
    lemma_or_nonzero(c.canceled, index as u64);
}

proof fn lemma_or_nonzero(x: u64, i: u64)
    by (bit_vector)
    requires
        i < 64,
    ensures
        (x | (1u64 << i)) != 0,
{
}

proof fn lemma_zero_has_no_bit(i: u64)
    by (bit_vector)
    requires
        i < 64,
    ensures
        (0u64 >> i) & 1u64 != 1u64,
{
}

proof fn lemma_mask_is_bit(x: u64, i: u64)
    by (bit_vector)
    requires
        i < 64,
    ensures
        ((x & (1u64 << i)) != 0u64) == ((x >> i) & 1u64 == 1u64),
{
}

proof fn lemma_or_bit(x: u64, i: u64, j: u64)
    by (bit_vector)
    requires
        i < 64,
        j < 64,
    ensures
        (((x | (1u64 << i)) >> j) & 1u64 == 1u64) == (i == j || (x >> j) & 1u64 == 1u64),
{
}

proof fn lemma_shift_step(x: u64, k: u64)
    by (bit_vector)
    requires
        k < 64,
    ensures
        x >> k == ((x >> (k + 1) as u64) << 1u64) | ((x >> k) & 1u64),
{
}

/// If bits `k..64` of `x` are all clear, then `x >> k` is zero.
proof fn lemma_high_bits_clear(x: u64, k: u64)
    requires
        k <= 64,
        forall|j: u64| k <= j < 64 ==> #[trigger] bit_set(x, j) == false,
    ensures
        k < 64 ==> x >> k == 0,
    decreases 64 - k,
{
    if k < 64 {
        lemma_high_bits_clear(x, (k + 1) as u64);
        assert(!bit_set(x, k));
        lemma_shift_step(x, k);
        if k + 1 < 64 {
            assert(x >> (k + 1) as u64 == 0);
            lemma_zero_shl_or(x >> k, (x >> k) & 1u64);
        } else {
            lemma_top_bit(x);
        }
    }
}

proof fn lemma_zero_shl_or(a: u64, b: u64)
    by (bit_vector)
    requires
        a == ((0u64 << 1u64) | b),
        b != 1u64,
        b == a & 1u64,
    ensures
        a == 0,
{
}

proof fn lemma_top_bit(x: u64)
    by (bit_vector)
    requires
        (x >> 63u64) & 1u64 != 1u64,
    ensures
        x >> 63u64 == 0,
{
}

proof fn lemma_shr_zero(x: u64)
    by (bit_vector)
    ensures
        x >> 0u64 == x,
{
}

/// A word is nonzero exactly when one of its 64 bits is set.
proof fn lemma_nonzero_iff_some_bit(x: u64)
    ensures
        (x != 0) <==> exists|i: int| (Canceler { canceled: x }).is_canceled(i),
{
    let c = Canceler { canceled: x };
    if x != 0 {
        if forall|j: u64| 0 <= j < 64 ==> #[trigger] bit_set(x, j) == false {
            lemma_high_bits_clear(x, 0);
            lemma_shr_zero(x);
            assert(false);
        }
        let j = choose|j: u64| 0 <= j < 64 && #[trigger] bit_set(x, j) != false;
        assert(c.is_canceled(j as int));
    } else {
        assert forall|i: int| !c.is_canceled(i) by {
            if 0 <= i < 64 {
                lemma_zero_has_no_bit(i as u64);
            }
        }
    }
}

} // verus!
