//! Chunk metadata storage: keys, write plans and their conflicts.
use vstd::prelude::*;
use crate::routing::{route, route_of, BindingCache, BucketBinding, Route, RouteError};
use crate::text::text;

pub mod keys;
pub mod reservation;

verus! {

/// Storage error.
#[derive(Debug)]
pub enum StoreError {
    ChunkNotFound,
    ChunkAlreadyExists,
    Conflict,
    Route(RouteError),
    Kv(String),
    Serde(String),
}

/// Model of a storage error.
pub enum StoreErrorModel {
    ChunkNotFound,
    ChunkAlreadyExists,
    Conflict,
    Route(RouteError),
    Kv(Seq<char>),
    Serde(Seq<char>),
}

impl View for StoreError {
    type V = StoreErrorModel;

    open spec fn view(&self) -> StoreErrorModel {
        match self {
            StoreError::ChunkNotFound => StoreErrorModel::ChunkNotFound,
            StoreError::ChunkAlreadyExists => StoreErrorModel::ChunkAlreadyExists,
            StoreError::Conflict => StoreErrorModel::Conflict,
            StoreError::Route(e) => StoreErrorModel::Route(*e),
            StoreError::Kv(m) => StoreErrorModel::Kv(m@),
            StoreError::Serde(m) => StoreErrorModel::Serde(m@),
        }
    }
}

impl StoreErrorModel {
    /// Text of the error.
    pub open spec fn message(self) -> Seq<char> {
        match self {
            StoreErrorModel::ChunkNotFound => "chunk not found"@,
            StoreErrorModel::ChunkAlreadyExists => "chunk already exists"@,
            StoreErrorModel::Conflict => "concurrent modification"@,
            StoreErrorModel::Route(e) => "routing error: "@ + e.spec_message(),
            StoreErrorModel::Kv(m) => "kv client error: "@ + m,
            StoreErrorModel::Serde(m) => "serialization error: "@ + m,
        }
    }
}

impl StoreError {
    /// Text of the error.
    pub fn message(&self) -> (r: String)
        ensures
            r@ == self@.message(),
    {
        match self {
            StoreError::ChunkNotFound => text("chunk not found"),
            StoreError::ChunkAlreadyExists => text("chunk already exists"),
            StoreError::Conflict => text("concurrent modification"),
            StoreError::Route(e) => {
                let mut out = text("routing error: ");
                out.append(e.message().as_str());
                out
            },
            StoreError::Kv(m) => {
                let mut out = text("kv client error: ");
                out.append(m.as_str());
                out
            },
            StoreError::Serde(m) => {
                let mut out = text("serialization error: ");
                out.append(m.as_str());
                out
            },
        }
    }
}

/// Where a record is written: the owning group first; while a range moves also
/// the old group, whose failure is tolerated.
#[derive(Debug, Clone, Copy, PartialEq, Eq, Structural)]
pub struct StoreTargets {
    pub primary: Route,
    pub old: Option<Route>,
}

/// Where the records of a bucket are written and read.
pub open spec fn targets_of(bindings: Seq<BucketBinding>, bucket: u16) -> Result<
    StoreTargets,
    StoreErrorModel,
> {
    match route_of(bindings, bucket) {
        Ok(primary) => Ok(StoreTargets { primary, old: primary.spec_old_route() }),
        Err(error) => Err(StoreErrorModel::Route(error)),
    }
}

/// What a read of one group leads to.
#[derive(Debug, Clone, Copy, PartialEq, Eq, Structural)]
pub enum ReadStep {
    /// Decode what was found.
    Decode,
    /// Read the old group.
    TryOld(Route),
    /// There is no record.
    NotFound,
}

/// Chunk metadata store: where records go.
#[derive(Debug)]
pub struct ChunkStore {
    pub bindings: BindingCache,
}

impl ChunkStore {
    /// A store over a binding table.
    pub fn new(bindings: BindingCache) -> (r: Self)
        ensures
            r.bindings == bindings,
    {
        ChunkStore { bindings }
    }

    /// Where the records of a bucket are written and read.
    pub fn targets(&self, bucket: u16) -> (r: Result<StoreTargets, StoreError>)
        ensures
            (match r {
                Ok(targets) => Ok(targets),
                Err(error) => Err(error@),
            }) == targets_of(self.bindings@, bucket),
    {
        match route(&self.bindings, bucket) {
            Ok(primary) => Ok(StoreTargets { primary, old: primary.old_route() }),
            Err(error) => Err(StoreError::Route(error)),
        }
    }

    /// What follows a read of the owning group.
    pub fn after_primary_read(targets: &StoreTargets, found: bool) -> (r: ReadStep)
        ensures
            r == (if found {
                ReadStep::Decode
            } else {
                match targets.old {
                    Some(old) => ReadStep::TryOld(old),
                    None => ReadStep::NotFound,
                }
            }),
    {
        if found {
            return ReadStep::Decode;
        }
        match targets.old {
            Some(old) => ReadStep::TryOld(old),
            None => ReadStep::NotFound,
        }
    }

    /// The groups that a scan of all records visits.
    pub fn scan_targets(&self) -> (r: Result<Vec<(u64, u64)>, StoreError>)
        ensures
            match r {
                Ok(groups) => self.bindings@.len() > 0 && groups@ == Seq::new(
                    self.bindings@.len(),
                    |i: int| (self.bindings@[i].kv_store_id, self.bindings@[i].kv_group_id),
                ),
                Err(error) => self.bindings@.len() == 0 && error@ == StoreErrorModel::Route(
                    RouteError::NoBinding,
                ),
            },
    {
        let table = self.bindings.snapshot();
        if table.is_empty() {
            return Err(StoreError::Route(RouteError::NoBinding));
        }
        let bindings = table.bindings();
        let mut groups: Vec<(u64, u64)> = Vec::new();
        let mut i: usize = 0;
        while i < bindings.len()
            invariant
                i <= bindings.len(),
                bindings@ == self.bindings@,
                groups@ == Seq::new(
                    i as nat,
                    |j: int| (self.bindings@[j].kv_store_id, self.bindings@[j].kv_group_id),
                ),
            decreases bindings.len() - i,
        {
            groups.push((bindings[i].kv_store_id, bindings[i].kv_group_id));
            i = i + 1;
            assert(groups@ =~= Seq::new(
                i as nat,
                |j: int| (self.bindings@[j].kv_store_id, self.bindings@[j].kv_group_id),
            ));
        }
        Ok(groups)
    }
}

} // verus!
