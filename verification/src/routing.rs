//! Bucket routing: 16-bit hash bucket to key-value group.
//!
//! The binding table maps bucket ranges to groups. While a range migrates, its
//! binding also names the group that it comes from.
use vstd::prelude::*;

verus! {

/// Migration state of a bucket range.
#[derive(Debug, Clone, Copy, PartialEq, Eq, Structural)]
pub enum MigrationState {
    NotMigrating,
    Copying,
    Cutover,
    Cleanup,
    Complete,
}

/// A bucket range binding: `[start, end)` to a group. A range that ends at
/// 65535 holds that last bucket too.
#[derive(Debug, Clone, Copy, PartialEq, Eq, Structural)]
pub struct BucketBinding {
    pub start: u16,
    pub end: u16,
    pub kv_store_id: u64,
    pub kv_group_id: u64,
    /// During migration, the old group for fallback reads.
    pub old_kv_store_id: Option<u64>,
    pub old_kv_group_id: Option<u64>,
    pub migration_state: MigrationState,
}

impl BucketBinding {
    /// The binding's range holds the bucket.
    pub open spec fn covers(self, bucket: u16) -> bool {
        self.start <= bucket && (bucket < self.end || (self.end == u16::MAX && bucket == u16::MAX))
    }
}

/// The binding table: a list of bucket range bindings.
#[derive(Debug)]
pub struct BindingTable {
    bindings: Vec<BucketBinding>,
}

impl View for BindingTable {
    type V = Seq<BucketBinding>;

    closed spec fn view(&self) -> Seq<BucketBinding> {
        self.bindings@
    }
}

/// The first binding in table order that covers the bucket.
pub open spec fn first_binding(bindings: Seq<BucketBinding>, bucket: u16) -> Option<BucketBinding>
    decreases bindings.len(),
{
    if bindings.len() == 0 {
        None
    } else if bindings[0].covers(bucket) {
        Some(bindings[0])
    } else {
        first_binding(bindings.skip(1), bucket)
    }
}

/// A bucket has no binding exactly where no range holds it.
pub proof fn lemma_unbound(bindings: Seq<BucketBinding>, bucket: u16)
    ensures
        first_binding(bindings, bucket) is None <==> forall|i: int|
            0 <= i < bindings.len() ==> !(#[trigger] bindings[i]).covers(bucket),
    decreases bindings.len(),
{
    if bindings.len() > 0 && !bindings[0].covers(bucket) {
        let rest = bindings.skip(1);
        lemma_unbound(rest, bucket);
        if first_binding(rest, bucket) is None {
            assert forall|i: int| 0 <= i < bindings.len() implies !(
            #[trigger] bindings[i]).covers(bucket) by {
                if i > 0 {
                    assert(rest[i - 1] == bindings[i]);
                }
            }
        } else {
            let i = choose|i: int| 0 <= i < rest.len() && (#[trigger] rest[i]).covers(bucket);
            assert(bindings[i + 1].covers(bucket));
        }
    }
}

proof fn lemma_first_binding_at(bindings: Seq<BucketBinding>, bucket: u16, at: int)
    requires
        0 <= at < bindings.len(),
        bindings[at].covers(bucket),
        forall|j: int| 0 <= j < at ==> !(#[trigger] bindings[j]).covers(bucket),
    ensures
        first_binding(bindings, bucket) == Some(bindings[at]),
    decreases at,
{
    if at > 0 {
        assert(!bindings[0].covers(bucket));
        lemma_first_binding_at(bindings.skip(1), bucket, at - 1);
    }
}

impl BindingTable {
    /// Create a new binding table from a list of bindings.
    pub fn new(bindings: Vec<BucketBinding>) -> (r: Self)
        ensures
            r@ == bindings@,
    {
        BindingTable { bindings }
    }

    /// Route a bucket to its binding.
    pub fn route(&self, bucket: u16) -> (r: Option<&BucketBinding>)
        ensures
            match r {
                Some(binding) => first_binding(self@, bucket) == Some(*binding),
                None => first_binding(self@, bucket) is None,
            },
    {
        let mut i: usize = 0;
        while i < self.bindings.len()
            invariant
                i <= self.bindings.len(),
                forall|j: int| 0 <= j < i ==> !(#[trigger] self@[j]).covers(bucket),
            decreases self.bindings.len() - i,
        {
            let b = &self.bindings[i];
            if bucket >= b.start && (bucket < b.end || (b.end == u16::MAX && bucket == u16::MAX)) {
                proof {
                    lemma_first_binding_at(self@, bucket, i as int);
                }
                return Some(b);
            }
            i = i + 1;
        }
        proof {
            lemma_unbound(self@, bucket);
        }
        None
    }

    /// Number of bindings.
    pub fn len(&self) -> (r: usize)
        ensures
            r == self@.len(),
    {
        self.bindings.len()
    }

    /// Is the table empty?
    pub fn is_empty(&self) -> (r: bool)
        ensures
            r == (self@.len() == 0),
    {
        self.bindings.len() == 0
    }

    /// Get all bindings.
    pub fn bindings(&self) -> (r: &[BucketBinding])
        ensures
            r@ == self@,
    {
        self.bindings.as_slice()
    }

    /// Get all bindings (mutable).
    pub fn bindings_mut(&mut self) -> (r: &mut Vec<BucketBinding>)
        ensures
            r@ == old(self)@,
            final(self)@ == final(r)@,
    {
        &mut self.bindings
    }
}

impl Clone for BindingTable {
    fn clone(&self) -> (r: Self)
        ensures
            r@ == self@,
    {
        let mut bindings: Vec<BucketBinding> = Vec::new();
        let mut i: usize = 0;
        while i < self.bindings.len()
            invariant
                i <= self.bindings.len(),
                bindings@ == self@.take(i as int),
            decreases self.bindings.len() - i,
        {
            bindings.push(self.bindings[i]);
            assert(self@.take(i + 1) =~= self@.take(i as int).push(self@[i as int]));
            i = i + 1;
        }
        assert(self@.take(i as int) =~= self@);
        BindingTable { bindings }
    }
}

impl Default for BindingTable {
    fn default() -> (r: Self)
        ensures
            r@ == Seq::<BucketBinding>::empty(),
    {
        BindingTable { bindings: Vec::new() }
    }
}

/// The current binding table.
#[derive(Debug)]
pub struct BindingCache {
    table: BindingTable,
}

impl View for BindingCache {
    type V = Seq<BucketBinding>;

    closed spec fn view(&self) -> Seq<BucketBinding> {
        self.table@
    }
}

impl BindingCache {
    /// An empty cache.
    pub fn new() -> (r: Self)
        ensures
            r@ == Seq::<BucketBinding>::empty(),
    {
        BindingCache { table: BindingTable::default() }
    }

    /// Replace the entire binding table.
    pub fn replace(&mut self, table: BindingTable)
        ensures
            final(self)@ == table@,
    {
        self.table = table;
    }

    /// Route a bucket directly.
    pub fn route_bucket(&self, bucket: u16) -> (r: Option<BucketBinding>)
        ensures
            r == first_binding(self@, bucket),
    {
        match self.table.route(bucket) {
            Some(b) => Some(*b),
            None => None,
        }
    }

    /// Check if the cache is empty.
    pub fn is_empty(&self) -> (r: bool)
        ensures
            r == (self@.len() == 0),
    {
        self.table.is_empty()
    }

    /// Get a snapshot of the binding table.
    pub fn snapshot(&self) -> (r: BindingTable)
        ensures
            r@ == self@,
    {
        self.table.clone()
    }
}

impl Default for BindingCache {
    fn default() -> (r: Self)
        ensures
            r@ == Seq::<BucketBinding>::empty(),
    {
        BindingCache::new()
    }
}

/// Binding of every bucket to one group.
pub open spec fn whole_range_binding(store_id: u64, group_id: u64) -> BucketBinding {
    BucketBinding {
        start: 0,
        end: 65535,
        kv_store_id: store_id,
        kv_group_id: group_id,
        old_kv_store_id: None,
        old_kv_group_id: None,
        migration_state: MigrationState::NotMigrating,
    }
}

/// Build a default binding table that maps all buckets to a single group. Used
/// when no binding table is stored yet.
pub fn default_binding_table(store_id: u64, group_id: u64) -> (r: BindingTable)
    ensures
        r@ == seq![whole_range_binding(store_id, group_id)],
{
    let mut bindings: Vec<BucketBinding> = Vec::new();
    bindings.push(
        BucketBinding {
            start: 0,
            end: 65535,
            kv_store_id: store_id,
            kv_group_id: group_id,
            old_kv_store_id: None,
            old_kv_group_id: None,
            migration_state: MigrationState::NotMigrating,
        },
    );
    assert(bindings@ =~= seq![whole_range_binding(store_id, group_id)]);
    BindingTable { bindings }
}

/// The default table routes every bucket, the last one included, to its group.
pub proof fn law_default_table_is_total(store_id: u64, group_id: u64, bucket: u16)
    ensures
        first_binding(seq![whole_range_binding(store_id, group_id)], bucket) == Some(
            whole_range_binding(store_id, group_id),
        ),
{
    assert(seq![whole_range_binding(store_id, group_id)][0].covers(bucket));
}

/// Routing error.
#[derive(Debug, Clone, Copy, PartialEq, Eq, Structural)]
pub enum RouteError {
    NoBinding,
    BucketUnbound { bucket: u16 },
}

impl RouteError {
    /// Text of the error.
    pub open spec fn spec_message(self) -> Seq<char> {
        match self {
            RouteError::NoBinding => "binding table empty — no routing information"@,
            RouteError::BucketUnbound { bucket } => "bucket "@ + crate::text::decimal(bucket as nat)
                + " has no binding"@,
        }
    }

    /// Text of the error.
    pub fn message(&self) -> (r: String)
        ensures
            r@ == self.spec_message(),
    {
        match self {
            RouteError::NoBinding => crate::text::text("binding table empty — no routing information"),
            RouteError::BucketUnbound { bucket } => crate::text::text_number_text(
                "bucket ",
                *bucket as u64,
                " has no binding",
            ),
        }
    }
}

/// Route result: where to read and write the chunk metadata.
#[derive(Debug, Clone, Copy, PartialEq, Eq, Structural)]
pub struct Route {
    pub kv_store_id: u64,
    pub kv_group_id: u64,
    pub migration_state: MigrationState,
    pub old_kv_store_id: Option<u64>,
    pub old_kv_group_id: Option<u64>,
}

impl Route {
    /// The old group that is still read and written while the range moves.
    pub open spec fn spec_old_route(self) -> Option<Route> {
        match (self.old_kv_store_id, self.old_kv_group_id) {
            (Some(store), Some(group)) if self.migration_state == MigrationState::Copying
                || self.migration_state == MigrationState::Cutover => Some(
                Route {
                    kv_store_id: store,
                    kv_group_id: group,
                    migration_state: MigrationState::NotMigrating,
                    old_kv_store_id: None,
                    old_kv_group_id: None,
                },
            ),
            _ => None,
        }
    }

    /// The old group that is still read and written while the range moves.
    pub fn old_route(&self) -> (r: Option<Route>)
        ensures
            r == self.spec_old_route(),
    {
        if self.migration_state == MigrationState::Copying || self.migration_state
            == MigrationState::Cutover {
            match (self.old_kv_store_id, self.old_kv_group_id) {
                (Some(store), Some(group)) => Some(
                    Route {
                        kv_store_id: store,
                        kv_group_id: group,
                        migration_state: MigrationState::NotMigrating,
                        old_kv_store_id: None,
                        old_kv_group_id: None,
                    },
                ),
                _ => None,
            }
        } else {
            None
        }
    }
}

/// The route that a table gives to a bucket.
pub open spec fn route_of(bindings: Seq<BucketBinding>, bucket: u16) -> Result<Route, RouteError> {
    if bindings.len() == 0 {
        Err(RouteError::NoBinding)
    } else {
        match first_binding(bindings, bucket) {
            Some(b) => Ok(
                Route {
                    kv_store_id: b.kv_store_id,
                    kv_group_id: b.kv_group_id,
                    migration_state: b.migration_state,
                    old_kv_store_id: b.old_kv_store_id,
                    old_kv_group_id: b.old_kv_group_id,
                },
            ),
            None => Err(RouteError::BucketUnbound { bucket }),
        }
    }
}

/// Route the bucket of a chunk using the binding cache.
pub fn route(cache: &BindingCache, bucket: u16) -> (r: Result<Route, RouteError>)
    ensures
        r == route_of(cache@, bucket),
{
    if cache.is_empty() {
        return Err(RouteError::NoBinding);
    }
    match cache.route_bucket(bucket) {
        Some(binding) => Ok(
            Route {
                kv_store_id: binding.kv_store_id,
                kv_group_id: binding.kv_group_id,
                migration_state: binding.migration_state,
                old_kv_store_id: binding.old_kv_store_id,
                old_kv_group_id: binding.old_kv_group_id,
            },
        ),
        None => Err(RouteError::BucketUnbound { bucket }),
    }
}

/// A bucket is routed to the first binding that holds it: one that begins at or
/// before it and ends behind it, or at the last bucket, which belongs to the range
/// that ends there. Without such a binding there is no route.
pub proof fn law_bucket_goes_to_its_binding(bindings: Seq<BucketBinding>, bucket: u16, at: int)
    requires
        0 <= at < bindings.len(),
        forall|j: int|
            0 <= j < at ==> !((#[trigger] bindings[j]).start <= bucket && (bucket < bindings[j].end
                || bindings[j].end == 65535)),
    ensures
        bindings[at].start <= bucket && (bucket < bindings[at].end || bindings[at].end == 65535) ==> (
        route_of(bindings, bucket) matches Ok(route) && route.kv_store_id
            == bindings[at].kv_store_id && route.kv_group_id == bindings[at].kv_group_id
            && route.migration_state == bindings[at].migration_state && route.old_kv_store_id
            == bindings[at].old_kv_store_id && route.old_kv_group_id
            == bindings[at].old_kv_group_id),
        at == bindings.len() - 1 && !(bindings[at].start <= bucket && (bucket < bindings[at].end
            || bindings[at].end == 65535)) ==> route_of(bindings, bucket) == Err::<
            Route,
            RouteError,
        >(RouteError::BucketUnbound { bucket }),
{
    if bindings[at].covers(bucket) {
        lemma_first_binding_at(bindings, bucket, at);
    } else {
        lemma_unbound(bindings, bucket);
    }
}

/// A table without bindings gives no route.
pub proof fn law_empty_table_routes_nothing(bucket: u16)
    ensures
        route_of(Seq::empty(), bucket) == Err::<Route, RouteError>(RouteError::NoBinding),
{
}

/// While a range is copied or cut over, its old group still counts, where the
/// binding names it; before and after that only the owning one does.
pub proof fn law_old_group_counts_while_moving(route: Route)
    ensures
        route.spec_old_route() is Some <==> (route.migration_state == MigrationState::Copying
            || route.migration_state == MigrationState::Cutover) && route.old_kv_store_id is Some
            && route.old_kv_group_id is Some,
        route.spec_old_route() matches Some(old) ==> Some(old.kv_store_id) == route.old_kv_store_id
            && Some(old.kv_group_id) == route.old_kv_group_id && old.spec_old_route() is None,
{
}

/// The binding of every bucket is one of the whole range to the given group.
pub proof fn law_default_table_routes_to_its_group(store_id: u64, group_id: u64, bucket: u16)
    ensures
        route_of(seq![whole_range_binding(store_id, group_id)], bucket) matches Ok(route)
            && route.kv_store_id == store_id && route.kv_group_id == group_id
            && route.spec_old_route() is None,
{
    law_default_table_is_total(store_id, group_id, bucket);
}

} // verus!
