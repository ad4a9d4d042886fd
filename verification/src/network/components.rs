//! Core components of the stock-and-flow network: storages, converters, flow edges and tags.

use vstd::prelude::*;
use crate::error::{DomainError, DomainErrorView};
use super::types::{ResourceAmount, in_i64, clamp_i64, binary_overflow_message};

verus! {

/// Handle of an entity of a simulation world: its index in spawn order.
#[derive(Debug, Clone, Copy, PartialEq, Eq, Structural, Hash, PartialOrd, Ord)]
pub struct Entity(pub u32);

impl Entity {
    /// The entity with the given index.
    pub fn from_index(index: u32) -> (e: Entity)
        ensures
            e.0 == index,
    {
        Entity(index)
    }

    /// The index of this entity.
    pub fn index(self) -> (i: u32)
        ensures
            i == self.0,
    {
        self.0
    }

    /// A handle that no spawned entity carries (index `u32::MAX`).
    pub fn placeholder() -> (e: Entity)
        ensures
            e.0 == u32::MAX,
    {
        Entity(u32::MAX)
    }
}

/// Passive storage reservoir holding discrete quantities of a resource element.
#[derive(Debug, Clone, Copy, PartialEq, Eq, Structural)]
pub struct Storage {
    /// Unique resource or element identifier.
    pub element_id: u32,
    /// Current stored resource quantity in fixed-point micro-units.
    pub current_amount: ResourceAmount,
    /// Maximum storage capacity in fixed-point micro-units.
    pub capacity: ResourceAmount,
}

/// A storage is well formed when `0 <= current <= capacity`.
pub open spec fn storage_wf(s: Storage) -> bool {
    0 <= s.current_amount.0 <= s.capacity.0
}

/// Remaining room of a storage: `capacity - current`, clamped into `i64`.
pub open spec fn spec_available(s: Storage) -> i64 {
    clamp_i64(s.capacity.0 - s.current_amount.0)
}

/// The storage with a new current amount.
pub open spec fn with_amount(s: Storage, amount: int) -> Storage {
    Storage { current_amount: ResourceAmount(amount as i64), ..s }
}

/// Outcome of depositing `amount` into `s`: the new storage or the error raised.
pub open spec fn deposit_outcome(s: Storage, amount: i64) -> Result<Storage, DomainErrorView> {
    if amount < 0 {
        Err(DomainErrorView::NegativeResourceAmount(amount))
    } else if !in_i64(s.current_amount.0 + amount) {
        Err(DomainErrorView::ResourceOverflow(binary_overflow_message(s.current_amount.0, " + "@, amount)))
    } else if s.current_amount.0 + amount > s.capacity.0 {
        Err(DomainErrorView::CapacityExceeded {
            current: (s.current_amount.0 + amount) as i64,
            capacity: s.capacity.0,
        })
    } else {
        Ok(with_amount(s, s.current_amount.0 + amount))
    }
}

/// Outcome of withdrawing `amount` from `s`: the new storage or the error raised.
pub open spec fn withdraw_outcome(s: Storage, amount: i64) -> Result<Storage, DomainErrorView> {
    if amount < 0 {
        Err(DomainErrorView::NegativeResourceAmount(amount))
    } else if amount > s.current_amount.0 {
        Err(DomainErrorView::InsufficientInventory { available: s.current_amount.0, requested: amount })
    } else {
        Ok(with_amount(s, s.current_amount.0 - amount))
    }
}

impl Storage {
    /// Creates a storage, requiring `0 <= current_amount <= capacity`.
    pub fn new(element_id: u32, current_amount: ResourceAmount, capacity: ResourceAmount) -> (r: Result<
        Self,
        DomainError,
    >)
        ensures
            match r {
                Ok(s) => s.element_id == element_id && s.current_amount == current_amount
                    && s.capacity == capacity && 0 <= current_amount.0 <= capacity.0,
                Err(e) => if current_amount.0 < 0 {
                    e@ == DomainErrorView::NegativeResourceAmount(current_amount.0)
                } else if capacity.0 < 0 {
                    e@ == DomainErrorView::NegativeResourceAmount(capacity.0)
                } else {
                    current_amount.0 > capacity.0 && e@ == DomainErrorView::CapacityExceeded {
                        current: current_amount.0,
                        capacity: capacity.0,
                    }
                },
            },
    {
        current_amount.ensure_non_negative()?;
        capacity.ensure_non_negative()?;
        if current_amount.0 > capacity.0 {
            return Err(
                DomainError::CapacityExceeded {
                    current: current_amount.to_raw(),
                    capacity: capacity.to_raw(),
                },
            );
        }
        Ok(Storage { element_id, current_amount, capacity })
    }

    /// Remaining capacity available for intake (`capacity - current`, saturating).
    pub fn available_capacity(&self) -> (r: ResourceAmount)
        ensures
            r.0 == spec_available(*self),
    {
        self.capacity.saturating_sub(self.current_amount)
    }

    /// Deposits `amount`; on error the storage is left unchanged.
    pub fn deposit(&mut self, amount: ResourceAmount) -> (r: Result<(), DomainError>)
        ensures
            match r {
                Ok(_) => deposit_outcome(*old(self), amount.0) == Ok::<Storage, DomainErrorView>(*final(self)),
                Err(e) => deposit_outcome(*old(self), amount.0) == Err::<Storage, DomainErrorView>(e@)
                    && *final(self) == *old(self),
            },
    {
        amount.ensure_non_negative()?;
        let updated = self.current_amount.checked_add(amount)?;
        if updated.0 > self.capacity.0 {
            return Err(
                DomainError::CapacityExceeded { current: updated.to_raw(), capacity: self.capacity.to_raw() },
            );
        }
        self.current_amount = updated;
        Ok(())
    }

    /// Withdraws `amount`; on error the storage is left unchanged.
    pub fn withdraw(&mut self, amount: ResourceAmount) -> (r: Result<(), DomainError>)
        ensures
            match r {
                Ok(_) => withdraw_outcome(*old(self), amount.0) == Ok::<Storage, DomainErrorView>(*final(self)),
                Err(e) => withdraw_outcome(*old(self), amount.0) == Err::<Storage, DomainErrorView>(e@)
                    && *final(self) == *old(self),
            },
    {
        amount.ensure_non_negative()?;
        if amount.0 > self.current_amount.0 {
            return Err(
                DomainError::InsufficientInventory {
                    available: self.current_amount.to_raw(),
                    requested: amount.to_raw(),
                },
            );
        }
        self.current_amount = self.current_amount.checked_sub(amount)?;
        Ok(())
    }
}

/// Deposits and withdrawals keep a well-formed storage within `0 ..= capacity`; a failed
/// operation leaves it as it was, so the bound always holds.
pub proof fn law_storage_operations_keep_bounds(s: Storage, amount: i64)
    requires
        storage_wf(s),
    ensures
        deposit_outcome(s, amount) matches Ok(s2) ==> storage_wf(s2) && s2.capacity == s.capacity
            && s2.element_id == s.element_id,
        withdraw_outcome(s, amount) matches Ok(s2) ==> storage_wf(s2) && s2.capacity == s.capacity
            && s2.element_id == s.element_id,
{
}

/// On a well-formed storage, a withdrawal undoes a deposit of the same amount, and a deposit
/// undoes a withdrawal.
pub proof fn law_deposit_withdraw_inverse(s: Storage, amount: i64)
    requires
        storage_wf(s),
    ensures
        deposit_outcome(s, amount) matches Ok(s2) ==> withdraw_outcome(s2, amount) == Ok::<
            Storage,
            DomainErrorView,
        >(s),
        withdraw_outcome(s, amount) matches Ok(s2) ==> deposit_outcome(s2, amount) == Ok::<
            Storage,
            DomainErrorView,
        >(s),
{
    if let Ok(s2) = deposit_outcome(s, amount) {
        assert(with_amount(s2, s2.current_amount.0 - amount) == s);
    }
    if let Ok(s2) = withdraw_outcome(s, amount) {
        assert(with_amount(s2, s2.current_amount.0 + amount) == s);
    }
}

/// A deposit succeeds exactly when the amount is non-negative and fits in the free room of a
/// well-formed storage.
pub proof fn law_deposit_succeeds_iff_fits(s: Storage, amount: i64)
    requires
        storage_wf(s),
    ensures
        deposit_outcome(s, amount) is Ok <==> 0 <= amount <= spec_available(s),
{
}

/// Maximum structural health (10,000 basis units = 100%).
pub const MAX_HEALTH: u16 = 10_000;

/// Active transformer executing stoichiometric conversion recipes.
#[derive(Debug, Clone, Copy, PartialEq, Eq, Structural)]
pub struct Converter {
    /// Recipe identifier matching an entry in `RecipeRegistry`.
    pub recipe_id: u32,
    /// Structural health / integrity (0 to 10000 representing 0.0 to 1.0).
    pub health: u16,
    /// Flag indicating whether the converter is enabled.
    pub operational_status: bool,
}

/// Whether a converter runs: enabled and with positive health.
pub open spec fn spec_operational(c: Converter) -> bool {
    c.operational_status && c.health > 0
}

impl Converter {
    /// Creates a converter; health is capped at `MAX_HEALTH`.
    pub fn new(recipe_id: u32, health: u16, operational_status: bool) -> (c: Self)
        ensures
            c.recipe_id == recipe_id,
            c.health == if health <= MAX_HEALTH { health } else { MAX_HEALTH },
            c.operational_status == operational_status,
    {
        let capped = if health <= MAX_HEALTH { health } else { MAX_HEALTH };
        Converter { recipe_id, health: capped, operational_status }
    }

    /// Returns true if the converter is active and structurally operational.
    pub fn is_operational(&self) -> (r: bool)
        ensures
            r == spec_operational(*self),
    {
        self.operational_status && self.health > 0
    }
}

/// Transient tag indicating an entity is in transit until `arrival_tick`.
#[derive(Debug, Clone, Copy, PartialEq, Eq, Structural)]
pub struct Relocating {
    /// Destination entity identifier.
    pub destination_id: Entity,
    /// Simulation tick at which relocation finishes.
    pub arrival_tick: u64,
}

/// Directed flow edge connecting a source storage to a destination storage.
#[derive(Debug, Clone, Copy, PartialEq, Eq, Structural)]
pub struct FlowEdge {
    /// Source entity (typically a Storage reservoir).
    pub source: Entity,
    /// Destination entity (typically a Storage reservoir).
    pub destination: Entity,
    /// Throughput limit per simulation tick.
    pub max_throughput: ResourceAmount,
    /// Transport latency (ticks required to traverse edge).
    pub latency: u64,
    /// Transmission efficiency in millionths (1,000,000 = 100%).
    pub efficiency_millionths: u32,
}

/// An individual discrete packet traversing a flow edge.
#[derive(Debug, Clone, Copy, PartialEq, Eq, Structural)]
pub struct TransitPacket {
    /// Element or resource identifier.
    pub element_id: u32,
    /// Quantity in fixed-point micro-units.
    pub amount: ResourceAmount,
    /// Absolute arrival tick (departure tick + latency).
    pub arrival_tick: u64,
    /// Destination storage entity to receive the packet upon arrival.
    pub destination: Entity,
}

/// Queue of in-flight resource packets travelling along a flow edge.
#[derive(Debug, Clone, Default, PartialEq, Eq)]
pub struct FlowQueue {
    /// Ordered list of resource packets in transit.
    pub packets: Vec<TransitPacket>,
}

impl View for FlowQueue {
    type V = Seq<TransitPacket>;

    open spec fn view(&self) -> Seq<TransitPacket> {
        self.packets@
    }
}

impl FlowQueue {
    /// An empty queue.
    pub fn new() -> (q: Self)
        ensures
            q@ == Seq::<TransitPacket>::empty(),
    {
        FlowQueue { packets: Vec::new() }
    }
}

/// References to input and output storage reservoirs for a converter.
#[derive(Debug, Clone, Default, PartialEq, Eq)]
pub struct ConverterBindings {
    /// Input storages providing recipe ingredients.
    pub inputs: Vec<Entity>,
    /// Output storages receiving conversion products.
    pub outputs: Vec<Entity>,
}

impl ConverterBindings {
    /// Constructs bindings from explicit input and output entity lists.
    pub fn new(inputs: Vec<Entity>, outputs: Vec<Entity>) -> (b: Self)
        ensures
            b.inputs@ == inputs@,
            b.outputs@ == outputs@,
    {
        ConverterBindings { inputs, outputs }
    }
}

} // verus!
