use vstd::prelude::*;
use std::time::{Duration, Instant};

verus! {

/// Unique identifier of a transaction.
pub type TxId = u64;

/// An account address.
pub type Address = u64;

#[verifier::external_type_specification]
#[verifier::external_body]
pub struct ExInstant(Instant);

/// Reads the monotonic clock (`std::time::Instant::now`).
/// Nothing is promised of the value: it depends on the time of the call.
#[verifier::external_body]
pub(crate) fn instant_now() -> Instant {
    Instant::now()
}

/// Time elapsed since an instant (`std::time::Instant::elapsed`, which
/// saturates at zero). Nothing is promised of the value: it depends on the time
/// of the call.
#[verifier::external_body]
fn elapsed_since(start: &Instant) -> Duration {
    start.elapsed()
}

/// Whole nanoseconds of a duration (`std::time::Duration::as_nanos`). The
/// duration is opaque here, so nothing is promised of the value.
#[verifier::external_body]
fn duration_nanos(d: &Duration) -> u128 {
    d.as_nanos()
}

/// Time elapsed since an instant, in nanoseconds, saturating at `u64::MAX`.
pub(crate) fn nanos_since(start: &Instant) -> u64 {
    let n = duration_nanos(&elapsed_since(start));
    if n > u64::MAX as u128 {
        u64::MAX
    } else {
        n as u64
    }
}

/// A transaction in the mempool.
#[derive(Debug, Clone, Copy)]
pub struct Tx {
    /// Unique identifier
    pub id: TxId,
    /// Gas required to execute this transaction
    pub gas_limit: u64,
    /// Max priority fee (tip) in gwei, paid to the block builder
    pub priority_fee_gwei: u64,
    /// Max fee per gas in gwei (EIP-1559); `None` for a legacy transaction
    pub max_fee_gwei: Option<u64>,
    /// When this transaction arrived in the pool
    pub arrival_time: Instant,
    /// Sending account
    pub sender: Address,
    /// Account nonce of the sender
    pub nonce: u64,
}

impl Tx {
    /// The priority fee the builder earns per unit of gas at a base fee.
    pub open spec fn effective_fee(self, base_fee_gwei: u64) -> u64 {
        match self.max_fee_gwei {
            Some(max_fee) => if max_fee < base_fee_gwei {
                0
            } else if self.priority_fee_gwei <= (max_fee - base_fee_gwei) as u64 {
                self.priority_fee_gwei
            } else {
                (max_fee - base_fee_gwei) as u64
            },
            None => self.priority_fee_gwei,
        }
    }

    /// Whether the transaction can pay a base fee.
    pub open spec fn affords(self, base_fee_gwei: u64) -> bool {
        match self.max_fee_gwei {
            Some(max_fee) => max_fee >= base_fee_gwei,
            None => true,
        }
    }

    /// What the builder earns by including the transaction.
    pub open spec fn spec_value(self) -> int {
        self.priority_fee_gwei * self.gas_limit
    }

    /// What the builder earns at a base fee.
    pub open spec fn spec_value_at(self, base_fee_gwei: u64) -> int {
        self.effective_fee(base_fee_gwei) * self.gas_limit
    }

    /// The value of the transaction fits in a `u64`.
    pub open spec fn value_fits(self) -> bool {
        self.spec_value() <= u64::MAX
    }

    /// Create a legacy transaction (priority fee only).
    pub fn new(id: TxId, gas_limit: u64, priority_fee_gwei: u64) -> (tx: Self)
        ensures
            tx.id == id,
            tx.gas_limit == gas_limit,
            tx.priority_fee_gwei == priority_fee_gwei,
            tx.max_fee_gwei is None,
            tx.sender == 0,
            tx.nonce == 0,
    {
        Tx {
            id,
            gas_limit,
            priority_fee_gwei,
            max_fee_gwei: None,
            arrival_time: instant_now(),
            sender: 0,
            nonce: 0,
        }
    }

    /// Create an EIP-1559 transaction with a max fee.
    pub fn new_eip1559(id: TxId, gas_limit: u64, priority_fee_gwei: u64, max_fee_gwei: u64) -> (tx: Self)
        ensures
            tx.id == id,
            tx.gas_limit == gas_limit,
            tx.priority_fee_gwei == priority_fee_gwei,
            tx.max_fee_gwei == Some(max_fee_gwei),
            tx.sender == 0,
            tx.nonce == 0,
    {
        Tx {
            id,
            gas_limit,
            priority_fee_gwei,
            max_fee_gwei: Some(max_fee_gwei),
            arrival_time: instant_now(),
            sender: 0,
            nonce: 0,
        }
    }

    /// Create a legacy transaction with an explicit arrival time.
    pub fn with_arrival_time(id: TxId, gas_limit: u64, priority_fee_gwei: u64, arrival_time: Instant) -> (tx: Self)
        ensures
            tx.id == id,
            tx.gas_limit == gas_limit,
            tx.priority_fee_gwei == priority_fee_gwei,
            tx.max_fee_gwei is None,
            tx.arrival_time == arrival_time,
            tx.sender == 0,
            tx.nonce == 0,
    {
        Tx { id, gas_limit, priority_fee_gwei, max_fee_gwei: None, arrival_time, sender: 0, nonce: 0 }
    }

    /// Create a legacy transaction from a sender with an account nonce.
    pub fn with_sender(id: TxId, sender: Address, nonce: u64, gas_limit: u64, priority_fee_gwei: u64) -> (tx: Self)
        ensures
            tx.id == id,
            tx.gas_limit == gas_limit,
            tx.priority_fee_gwei == priority_fee_gwei,
            tx.max_fee_gwei is None,
            tx.sender == sender,
            tx.nonce == nonce,
    {
        Tx {
            id,
            gas_limit,
            priority_fee_gwei,
            max_fee_gwei: None,
            arrival_time: instant_now(),
            sender,
            nonce,
        }
    }

    /// Effective priority fee at a base fee: `min(priority_fee, max_fee - base_fee)`
    /// for EIP-1559, 0 when the base fee is not affordable, the priority fee for legacy.
    pub fn effective_priority_fee(&self, base_fee_gwei: u64) -> (fee: u64)
        ensures
            fee == self.effective_fee(base_fee_gwei),
            fee <= self.priority_fee_gwei,
    {
        match self.max_fee_gwei {
            Some(max_fee) => {
                if max_fee < base_fee_gwei {
                    0
                } else if self.priority_fee_gwei <= max_fee - base_fee_gwei {
                    self.priority_fee_gwei
                } else {
                    max_fee - base_fee_gwei
                }
            },
            None => self.priority_fee_gwei,
        }
    }

    /// Whether the transaction can be included at a base fee.
    pub fn can_afford_base_fee(&self, base_fee_gwei: u64) -> (b: bool)
        ensures
            b == self.affords(base_fee_gwei),
    {
        match self.max_fee_gwei {
            Some(max_fee) => max_fee >= base_fee_gwei,
            None => true,
        }
    }

    /// Total value of this transaction: priority fee times gas.
    pub fn value(&self) -> (v: u64)
        requires
            self.value_fits(),
        ensures
            v == self.spec_value(),
    {
        self.priority_fee_gwei * self.gas_limit
    }

    /// Value at a base fee: effective priority fee times gas.
    pub fn value_at_base_fee(&self, base_fee_gwei: u64) -> (v: u64)
        requires
            self.spec_value_at(base_fee_gwei) <= u64::MAX,
        ensures
            v == self.spec_value_at(base_fee_gwei),
    {
        let fee = self.effective_priority_fee(base_fee_gwei);
        fee * self.gas_limit
    }

    /// A transaction is worth no more at a base fee than at its full priority fee.
    pub proof fn lemma_value_at_le(self, base_fee_gwei: u64)
        ensures
            0 <= self.spec_value_at(base_fee_gwei) <= self.spec_value(),
    {
        vstd::arithmetic::mul::lemma_mul_inequality(
            self.effective_fee(base_fee_gwei) as int,
            self.priority_fee_gwei as int,
            self.gas_limit as int,
        );
        vstd::arithmetic::mul::lemma_mul_nonnegative(self.effective_fee(base_fee_gwei) as int, self.gas_limit as int);
    }
}

impl PartialEq for Tx {
    fn eq(&self, other: &Self) -> (r: bool) {
        self.id == other.id
    }
}

impl vstd::std_specs::cmp::PartialEqSpecImpl for Tx {
    open spec fn obeys_eq_spec() -> bool {
        true
    }

    open spec fn eq_spec(&self, other: &Self) -> bool {
        self.id == other.id
    }
}

impl Eq for Tx {}

} // verus!
