//! Where the disk-groups are served and which disk belongs to which.
use std::hash::RandomState;
use dashmap::DashMap;
use vstd::prelude::*;
use crate::arith::{clip_u64, sat_add_u64};
use crate::text::{decimal, text, text_number};
use crate::topology::DiskGroupEntry;
use crate::types::{DiskId, Segment};

verus! {

/// `dashmap::DashMap`, carried as it is.
#[verifier::external_type_specification]
#[verifier::external_body]
#[verifier::reject_recursive_types(K)]
#[verifier::reject_recursive_types(V)]
#[verifier::reject_recursive_types(S)]
pub struct ExDashMap<K, V, S>(DashMap<K, V, S>);

/// What a disk lookup holds: disk-group by high and low half of the disk ID.
pub uninterp spec fn lookup_contents(map: DashMap<(u64, u64), u64, RandomState>) -> Map<
    (u64, u64),
    u64,
>;

/// What an endpoint cache holds: endpoint by disk-group.
pub uninterp spec fn endpoint_contents(map: DashMap<u64, String, RandomState>) -> Map<u64, Seq<char>>;

/// `DashMap::new`: the map is empty.
#[verifier::external_body]
fn new_lookup() -> (r: DashMap<(u64, u64), u64, RandomState>)
    ensures
        lookup_contents(r) == (Map::<(u64, u64), u64>::empty()),
{
    DashMap::new()
}

/// `DashMap::clear`: nothing is left.
#[verifier::external_body]
fn lookup_clear(map: &mut DashMap<(u64, u64), u64, RandomState>)
    ensures
        lookup_contents(*final(map)) == (Map::<(u64, u64), u64>::empty()),
{
    map.clear();
}

/// `DashMap::insert`: the key has the value afterwards, other keys keep theirs.
#[verifier::external_body]
fn lookup_insert(map: &mut DashMap<(u64, u64), u64, RandomState>, key: (u64, u64), value: u64)
    ensures
        lookup_contents(*final(map)) == lookup_contents(*old(map)).insert(key, value),
{
    map.insert(key, value);
}

/// `DashMap::get`: the value of the key where it is there.
#[verifier::external_body]
fn lookup_get(map: &DashMap<(u64, u64), u64, RandomState>, key: (u64, u64)) -> (r: Option<u64>)
    ensures
        r == (if lookup_contents(*map).dom().contains(key) {
            Some(lookup_contents(*map)[key])
        } else {
            None
        }),
{
    map.get(&key).map(|found| *found.value())
}

/// `DashMap::new`: the map is empty.
#[verifier::external_body]
fn new_endpoints() -> (r: DashMap<u64, String, RandomState>)
    ensures
        endpoint_contents(r) == (Map::<u64, Seq<char>>::empty()),
{
    DashMap::new()
}

/// `DashMap::insert`: the key has the value afterwards, other keys keep theirs.
#[verifier::external_body]
fn endpoint_insert(map: &mut DashMap<u64, String, RandomState>, key: u64, value: String)
    ensures
        endpoint_contents(*final(map)) == endpoint_contents(*old(map)).insert(key, value@),
{
    map.insert(key, value);
}

/// `DashMap::get`: a copy of the value of the key where it is there.
#[verifier::external_body]
fn endpoint_get(map: &DashMap<u64, String, RandomState>, key: u64) -> (r: Option<String>)
    ensures
        match r {
            Some(endpoint) => endpoint_contents(*map).dom().contains(key) && endpoint@
                == endpoint_contents(*map)[key],
            None => !endpoint_contents(*map).dom().contains(key),
        },
{
    map.get(&key).map(|found| found.value().clone())
}

/// The values of the map, one for each key, in some order of the keys.
pub open spec fn values_in_some_order(values: Seq<String>, map: Map<u64, Seq<char>>) -> bool {
    exists|keys: Seq<u64>| #[trigger] values_in_order_of(values, map, keys)
}

/// The values of the map in the order of the keys.
pub open spec fn values_in_order_of(
    values: Seq<String>,
    map: Map<u64, Seq<char>>,
    keys: Seq<u64>,
) -> bool {
    &&& keys.no_duplicates()
    &&& keys.to_set() == map.dom()
    &&& values.len() == keys.len()
    &&& forall|i: int| 0 <= i < keys.len() ==> (#[trigger] values[i])@ == map[keys[i]]
}

/// `DashMap::iter`: every entry comes once; the order is left open.
#[verifier::external_body]
fn endpoint_values(map: &DashMap<u64, String, RandomState>) -> (r: Vec<String>)
    ensures
        values_in_some_order(r@, endpoint_contents(*map)),
{
    map.iter().map(|entry| entry.value().clone()).collect()
}

/// The owners with the disks of one disk-group.
pub open spec fn with_disks(
    owners: Map<(u64, u64), u64>,
    disks: Seq<DiskId>,
    dg_id: u64,
) -> Map<(u64, u64), u64>
    decreases disks.len(),
{
    if disks.len() == 0 {
        owners
    } else {
        with_disks(owners, disks.drop_last(), dg_id).insert(
            (disks.last().high, disks.last().low),
            dg_id,
        )
    }
}

/// Disk-group by disk: of two groups with one disk the later one has it.
pub open spec fn owners_of(entries: Seq<DiskGroupEntry>) -> Map<(u64, u64), u64>
    decreases entries.len(),
{
    if entries.len() == 0 {
        Map::empty()
    } else {
        with_disks(
            owners_of(entries.drop_last()),
            entries.last().value.disk_ids@,
            entries.last().dg_id,
        )
    }
}

/// The disk-group that the owners give for a disk.
pub open spec fn owner_of(owners: Map<(u64, u64), u64>, disk_id: DiskId) -> Option<u64> {
    if owners.dom().contains((disk_id.high, disk_id.low)) {
        Some(owners[(disk_id.high, disk_id.low)])
    } else {
        None
    }
}

/// The disk-group that a segment lies on, where that is known.
pub open spec fn segment_group(owners: Map<(u64, u64), u64>, segment: Segment) -> Option<u64> {
    match segment.disk_id {
        Some(disk_id) => owner_of(owners, disk_id),
        None => None,
    }
}

/// The segments that lie on a disk-group, or those with no known one, in order.
pub open spec fn members(
    owners: Map<(u64, u64), u64>,
    segments: Seq<Segment>,
    group: Option<u64>,
) -> Seq<Segment>
    decreases segments.len(),
{
    if segments.len() == 0 {
        Seq::empty()
    } else {
        let front = members(owners, segments.drop_last(), group);
        if segment_group(owners, segments.last()) == group {
            front.push(segments.last())
        } else {
            front
        }
    }
}

/// The known disk-groups of the segments, each once, by first appearance.
pub open spec fn groups_of(owners: Map<(u64, u64), u64>, segments: Seq<Segment>) -> Seq<u64>
    decreases segments.len(),
{
    if segments.len() == 0 {
        Seq::empty()
    } else {
        let front = groups_of(owners, segments.drop_last());
        match segment_group(owners, segments.last()) {
            Some(dg_id) => if front.contains(dg_id) {
                front
            } else {
                front.push(dg_id)
            },
            None => front,
        }
    }
}

/// A disk service instance: its endpoint and the disk-groups it serves.
#[derive(Debug)]
pub struct DiskdbInstance {
    pub rpc_endpoint: String,
    pub owned_dg_ids: Vec<u64>,
}

/// The routes with the disk-groups of one instance.
pub open spec fn with_owned(
    routes: Map<u64, Seq<char>>,
    dg_ids: Seq<u64>,
    endpoint: Seq<char>,
) -> Map<u64, Seq<char>>
    decreases dg_ids.len(),
{
    if dg_ids.len() == 0 {
        routes
    } else {
        with_owned(routes, dg_ids.drop_last(), endpoint).insert(dg_ids.last(), endpoint)
    }
}

/// The routes with the disk-groups of all instances; later instances win.
pub open spec fn with_instances(
    routes: Map<u64, Seq<char>>,
    instances: Seq<DiskdbInstance>,
) -> Map<u64, Seq<char>>
    decreases instances.len(),
{
    if instances.len() == 0 {
        routes
    } else {
        with_owned(
            with_instances(routes, instances.drop_last()),
            instances.last().owned_dg_ids@,
            instances.last().rpc_endpoint@,
        )
    }
}

/// Segments to free on one disk-group.
#[derive(Debug)]
pub struct GroupSegments {
    pub dg_id: u64,
    pub segments: Vec<Segment>,
}

/// Segments by disk-group, and those whose disk-group is not known.
#[derive(Debug)]
pub struct GroupedSegments {
    pub groups: Vec<GroupSegments>,
    pub unrouted: Vec<Segment>,
}

/// The groups with their segments.
pub open spec fn group_models(groups: Seq<GroupSegments>) -> Seq<(u64, Seq<Segment>)> {
    Seq::new(groups.len(), |i: int| (groups[i].dg_id, groups[i].segments@))
}

/// One free request.
#[derive(Debug)]
pub struct FreeRequest {
    pub endpoint: String,
    pub segments: Vec<Segment>,
}

/// Requests as endpoint and segments.
pub open spec fn request_models(requests: Seq<FreeRequest>) -> Seq<(Seq<char>, Seq<Segment>)> {
    Seq::new(requests.len(), |i: int| (requests[i].endpoint@, requests[i].segments@))
}

/// One request for each group whose endpoint was found, in order.
pub open spec fn routed_requests(
    groups: Seq<(u64, Seq<Segment>)>,
    endpoints: Seq<Option<Seq<char>>>,
) -> Seq<(Seq<char>, Seq<Segment>)>
    decreases groups.len(),
{
    if groups.len() == 0 {
        Seq::empty()
    } else {
        let front = routed_requests(groups.drop_last(), endpoints);
        match endpoints[groups.len() - 1] {
            Some(endpoint) => front.push((endpoint, groups.last().1)),
            None => front,
        }
    }
}

/// What has to be broadcast: the unrouted segments, then those of the groups
/// whose endpoint was not found.
pub open spec fn broadcast_segments(
    groups: Seq<(u64, Seq<Segment>)>,
    endpoints: Seq<Option<Seq<char>>>,
    unrouted: Seq<Segment>,
) -> Seq<Segment>
    decreases groups.len(),
{
    if groups.len() == 0 {
        unrouted
    } else {
        let front = broadcast_segments(groups.drop_last(), endpoints, unrouted);
        match endpoints[groups.len() - 1] {
            Some(_) => front,
            None => front + groups.last().1,
        }
    }
}

/// The same segments to every endpoint; nothing where there are none.
pub open spec fn broadcast_requests(endpoints: Seq<Seq<char>>, segments: Seq<Segment>) -> Seq<
    (Seq<char>, Seq<Segment>),
> {
    if segments.len() == 0 {
        Seq::empty()
    } else {
        Seq::new(endpoints.len(), |i: int| (endpoints[i], segments))
    }
}

/// Views of strings.
pub open spec fn string_views(strings: Seq<String>) -> Seq<Seq<char>> {
    Seq::new(strings.len(), |i: int| strings[i]@)
}

/// Views of optional strings.
pub open spec fn optional_views(strings: Seq<Option<String>>) -> Seq<Option<Seq<char>>> {
    Seq::new(
        strings.len(),
        |i: int|
            match strings[i] {
                Some(s) => Some(s@),
                None => None,
            },
    )
}

fn copy_text(s: &String) -> (r: String)
    ensures
        r@ == s@,
{
    text(s.as_str())
}

/// How one request ended.
#[derive(Debug, Clone, Copy, PartialEq, Eq, Structural)]
pub enum CallOutcome {
    Completed,
    /// A transient failure: timeout, reset, endpoint not known yet.
    Unreachable,
    /// A hard failure.
    Refused,
}

/// What follows a request.
#[derive(Debug, Clone, Copy, PartialEq, Eq, Structural)]
pub enum RetryStep {
    /// Return what the request gave.
    Return,
    /// Refresh the endpoints, wait so many milliseconds, and ask again.
    Retry(u64),
}

/// Retries of a request that met a transient failure.
pub const MAX_TRANSIENT_RETRIES: u32 = 2;

/// Pause before the first retry; it doubles with each.
pub const INITIAL_BACKOFF_MS: u64 = 200;

/// What follows the attempt with this number, counted from 0.
pub fn after_allocate_call(attempt: u32, outcome: CallOutcome) -> (r: RetryStep)
    ensures
        r == (if outcome == CallOutcome::Unreachable && attempt == 0 {
            RetryStep::Retry(INITIAL_BACKOFF_MS)
        } else if outcome == CallOutcome::Unreachable && attempt < MAX_TRANSIENT_RETRIES {
            RetryStep::Retry((2 * INITIAL_BACKOFF_MS) as u64)
        } else {
            RetryStep::Return
        }),
{
    if outcome != CallOutcome::Unreachable || attempt >= MAX_TRANSIENT_RETRIES {
        return RetryStep::Return;
    }
    let mut backoff: u64 = INITIAL_BACKOFF_MS;
    if attempt > 0 {
        backoff = backoff * 2;
    }
    RetryStep::Retry(backoff)
}

/// Disk services by disk-group.
pub struct DiskdbClientPool {
    /// Endpoint by disk-group.
    endpoints: DashMap<u64, String, RandomState>,
    /// Disk-group by disk.
    disk_id_to_dg: DashMap<(u64, u64), u64, RandomState>,
}

impl DiskdbClientPool {
    /// Disk-group by disk.
    pub closed spec fn owners(&self) -> Map<(u64, u64), u64> {
        lookup_contents(self.disk_id_to_dg)
    }

    /// Endpoint by disk-group.
    pub closed spec fn routes(&self) -> Map<u64, Seq<char>> {
        endpoint_contents(self.endpoints)
    }

    /// A pool that knows nothing.
    pub fn new() -> (r: Self)
        ensures
            r.owners() == Map::<(u64, u64), u64>::empty(),
            r.routes() == Map::<u64, Seq<char>>::empty(),
    {
        DiskdbClientPool { endpoints: new_endpoints(), disk_id_to_dg: new_lookup() }
    }

    /// Replace the disk lookup by the disks of these disk-groups.
    pub fn update_disk_id_lookup(&mut self, entries: &[DiskGroupEntry])
        ensures
            final(self).owners() == owners_of(entries@),
            final(self).routes() == old(self).routes(),
    {
        lookup_clear(&mut self.disk_id_to_dg);
        let mut i: usize = 0;
        while i < entries.len()
            invariant
                i <= entries.len(),
                self.owners() == owners_of(entries@.take(i as int)),
                self.routes() == old(self).routes(),
            decreases entries.len() - i,
        {
            let entry = &entries[i];
            let disks = &entry.value.disk_ids;
            let ghost before = self.owners();
            let mut j: usize = 0;
            assert(disks@.take(0) =~= Seq::<DiskId>::empty());
            while j < disks.len()
                invariant
                    j <= disks.len(),
                    self.owners() == with_disks(before, disks@.take(j as int), entry.dg_id),
                    self.routes() == old(self).routes(),
                decreases disks.len() - j,
            {
                proof {
                    assert(disks@.take(j + 1).drop_last() =~= disks@.take(j as int));
                    assert(disks@.take(j + 1).last() == disks@[j as int]);
                }
                lookup_insert(
                    &mut self.disk_id_to_dg,
                    (disks[j].high, disks[j].low),
                    entry.dg_id,
                );
                j = j + 1;
            }
            proof {
                assert(disks@.take(j as int) =~= disks@);
                assert(entries@.take(i + 1).drop_last() =~= entries@.take(i as int));
                assert(entries@.take(i + 1).last() == entries@[i as int]);
            }
            i = i + 1;
        }
        assert(entries@.take(i as int) =~= entries@);
    }

    /// Look up the disk-group of a disk.
    pub fn dg_for_disk(&self, disk_id: &DiskId) -> (r: Option<u64>)
        ensures
            r == owner_of(self.owners(), *disk_id),
    {
        lookup_get(&self.disk_id_to_dg, (disk_id.high, disk_id.low))
    }

    /// The known endpoint of a disk-group.
    pub fn endpoint_for_dg(&self, dg_id: u64) -> (r: Result<String, String>)
        ensures
            match r {
                Ok(endpoint) => self.routes().dom().contains(dg_id) && endpoint@
                    == self.routes()[dg_id],
                Err(message) => !self.routes().dom().contains(dg_id) && message@
                    == "no endpoint cached for disk_group "@ + decimal(dg_id as nat),
            },
    {
        match endpoint_get(&self.endpoints, dg_id) {
            Some(endpoint) => Ok(endpoint),
            None => Err(text_number("no endpoint cached for disk_group ", dg_id)),
        }
    }

    /// Take over what the service registry says of the disk services.
    pub fn refresh_endpoints(&mut self, instances: &[DiskdbInstance])
        ensures
            final(self).routes() == with_instances(old(self).routes(), instances@),
            final(self).owners() == old(self).owners(),
    {
        let ghost start = self.routes();
        let mut i: usize = 0;
        assert(instances@.take(0) =~= Seq::<DiskdbInstance>::empty());
        while i < instances.len()
            invariant
                i <= instances.len(),
                start == old(self).routes(),
                self.routes() == with_instances(start, instances@.take(i as int)),
                self.owners() == old(self).owners(),
            decreases instances.len() - i,
        {
            let instance = &instances[i];
            let owned = &instance.owned_dg_ids;
            let ghost before = self.routes();
            let mut j: usize = 0;
            assert(owned@.take(0) =~= Seq::<u64>::empty());
            while j < owned.len()
                invariant
                    j <= owned.len(),
                    self.routes() == with_owned(
                        before,
                        owned@.take(j as int),
                        instance.rpc_endpoint@,
                    ),
                    self.owners() == old(self).owners(),
                decreases owned.len() - j,
            {
                proof {
                    assert(owned@.take(j + 1).drop_last() =~= owned@.take(j as int));
                    assert(owned@.take(j + 1).last() == owned@[j as int]);
                }
                let endpoint = copy_text(&instance.rpc_endpoint);
                endpoint_insert(&mut self.endpoints, owned[j], endpoint);
                j = j + 1;
            }
            proof {
                assert(owned@.take(j as int) =~= owned@);
                assert(instances@.take(i + 1).drop_last() =~= instances@.take(i as int));
                assert(instances@.take(i + 1).last() == instances@[i as int]);
            }
            i = i + 1;
        }
        assert(instances@.take(i as int) =~= instances@);
    }

    /// All known endpoints, one for each disk-group, for broadcasts.
    pub fn all_endpoints(&self) -> (r: Vec<String>)
        ensures
            values_in_some_order(r@, self.routes()),
    {
        endpoint_values(&self.endpoints)
    }

    fn group_for_segment(&self, segment: &Segment) -> (r: Option<u64>)
        ensures
            r == segment_group(self.owners(), *segment),
    {
        match segment.disk_id {
            Some(disk_id) => self.dg_for_disk(&disk_id),
            None => None,
        }
    }

    fn segments_of(&self, segments: &[Segment], group: Option<u64>) -> (r: Vec<Segment>)
        ensures
            r@ == members(self.owners(), segments@, group),
    {
        let mut out: Vec<Segment> = Vec::new();
        let mut i: usize = 0;
        while i < segments.len()
            invariant
                i <= segments.len(),
                out@ == members(self.owners(), segments@.take(i as int), group),
            decreases segments.len() - i,
        {
            proof {
                assert(segments@.take(i + 1).drop_last() =~= segments@.take(i as int));
                assert(segments@.take(i + 1).last() == segments@[i as int]);
            }
            if self.group_for_segment(&segments[i]) == group {
                out.push(segments[i]);
            }
            i = i + 1;
        }
        assert(segments@.take(i as int) =~= segments@);
        out
    }

    /// Group segments by their disk-group; those on unknown disks stay apart.
    pub fn group_segments(&self, segments: &[Segment]) -> (r: GroupedSegments)
        ensures
            r.groups@.len() == groups_of(self.owners(), segments@).len(),
            forall|i: int|
                0 <= i < r.groups@.len() ==> group_models(r.groups@)[i] == (
                    #[trigger] groups_of(self.owners(), segments@)[i],
                    members(
                        self.owners(),
                        segments@,
                        Some(groups_of(self.owners(), segments@)[i]),
                    ),
                ),
            r.unrouted@ == members(self.owners(), segments@, None),
    {
        let mut ids: Vec<u64> = Vec::new();
        let mut i: usize = 0;
        while i < segments.len()
            invariant
                i <= segments.len(),
                ids@ == groups_of(self.owners(), segments@.take(i as int)),
            decreases segments.len() - i,
        {
            proof {
                assert(segments@.take(i + 1).drop_last() =~= segments@.take(i as int));
                assert(segments@.take(i + 1).last() == segments@[i as int]);
            }
            match self.group_for_segment(&segments[i]) {
                Some(dg_id) => {
                    if !crate::selector::contains_id(&ids, dg_id) {
                        ids.push(dg_id);
                    }
                },
                None => {},
            }
            i = i + 1;
        }
        assert(segments@.take(i as int) =~= segments@);
        let mut groups: Vec<GroupSegments> = Vec::new();
        let mut k: usize = 0;
        while k < ids.len()
            invariant
                k <= ids.len(),
                ids@ == groups_of(self.owners(), segments@),
                groups@.len() == k,
                forall|j: int|
                    0 <= j < k ==> (#[trigger] groups@[j]).dg_id == ids@[j] && groups@[j].segments@
                        == members(self.owners(), segments@, Some(ids@[j])),
            decreases ids.len() - k,
        {
            let dg_id: u64 = ids[k];
            groups.push(
                GroupSegments { dg_id, segments: self.segments_of(segments, Some(dg_id)) },
            );
            k = k + 1;
        }
        GroupedSegments { groups, unrouted: self.segments_of(segments, None) }
    }
}

/// Requests that free segments.
#[derive(Debug)]
pub struct FreeRequests {
    /// One for each disk-group with a known endpoint.
    pub routed: Vec<FreeRequest>,
    /// One for each endpoint, with the segments that no other request frees.
    pub broadcast: Vec<FreeRequest>,
    /// Whether there are such segments.
    pub broadcasts: bool,
}

/// The requests that free grouped segments: one to the endpoint of each group,
/// and a broadcast of everything else.
pub fn free_requests(
    grouped: GroupedSegments,
    endpoints: &[Option<String>],
    all_endpoints: &[String],
) -> (r: FreeRequests)
    requires
        endpoints@.len() == grouped.groups@.len(),
    ensures
        request_models(r.routed@) == routed_requests(
            group_models(grouped.groups@),
            optional_views(endpoints@),
        ),
        ({
            let rest = broadcast_segments(
                group_models(grouped.groups@),
                optional_views(endpoints@),
                grouped.unrouted@,
            );
            &&& request_models(r.broadcast@) == broadcast_requests(
                string_views(all_endpoints@),
                rest,
            )
            &&& r.broadcasts == (rest.len() > 0)
        }),
{
    let ghost groups = group_models(grouped.groups@);
    let ghost views = optional_views(endpoints@);
    let mut requests: Vec<FreeRequest> = Vec::new();
    let mut rest: Vec<Segment> = crate::types::copy_segments(&grouped.unrouted);
    let mut i: usize = 0;
    assert(request_models(requests@) =~= Seq::<(Seq<char>, Seq<Segment>)>::empty());
    while i < grouped.groups.len()
        invariant
            i <= grouped.groups.len(),
            endpoints@.len() == grouped.groups@.len(),
            groups == group_models(grouped.groups@),
            views == optional_views(endpoints@),
            request_models(requests@) == routed_requests(groups.take(i as int), views),
            rest@ == broadcast_segments(groups.take(i as int), views, grouped.unrouted@),
        decreases grouped.groups.len() - i,
    {
        proof {
            assert(groups.take(i + 1).drop_last() =~= groups.take(i as int));
            assert(groups.take(i + 1).last() == groups[i as int]);
        }
        let group = &grouped.groups[i];
        match &endpoints[i] {
            Some(endpoint) => {
                let request = FreeRequest {
                    endpoint: copy_text(endpoint),
                    segments: crate::types::copy_segments(&group.segments),
                };
                let ghost before = requests@;
                requests.push(request);
                assert(request_models(requests@) =~= request_models(before).push(
                    (endpoint@, group.segments@),
                ));
            },
            None => {
                let mut extra = crate::types::copy_segments(&group.segments);
                rest.append(&mut extra);
            },
        }
        i = i + 1;
    }
    proof {
        assert(groups.take(i as int) =~= groups);
    }
    let mut broadcast: Vec<FreeRequest> = Vec::new();
    let ghost names = string_views(all_endpoints@);
    assert(request_models(broadcast@) =~= Seq::<(Seq<char>, Seq<Segment>)>::empty());
    if rest.len() > 0 {
        let mut k: usize = 0;
        while k < all_endpoints.len()
            invariant
                k <= all_endpoints.len(),
                rest@.len() > 0,
                names == string_views(all_endpoints@),
                request_models(broadcast@) == broadcast_requests(names, rest@).take(k as int),
            decreases all_endpoints.len() - k,
        {
            let request = FreeRequest {
                endpoint: copy_text(&all_endpoints[k]),
                segments: crate::types::copy_segments(&rest),
            };
            let ghost before = broadcast@;
            let ghost model = (request.endpoint@, request.segments@);
            broadcast.push(request);
            proof {
                assert(request_models(broadcast@) =~= request_models(before).push(model));
                assert(broadcast_requests(names, rest@)[k as int] == model);
                assert(broadcast_requests(names, rest@).take(k + 1) =~= broadcast_requests(
                    names,
                    rest@,
                ).take(k as int).push(model));
            }
            k = k + 1;
        }
        assert(broadcast_requests(names, rest@).take(k as int) =~= broadcast_requests(names, rest@));
    }
    let broadcasts = rest.len() > 0;
    FreeRequests { routed: requests, broadcast, broadcasts }
}

fn any_accepted(accepted: &[bool]) -> (r: bool)
    ensures
        r == accepted@.contains(true),
{
    let mut i: usize = 0;
    while i < accepted.len()
        invariant
            i <= accepted.len(),
            forall|j: int| 0 <= j < i ==> !(#[trigger] accepted@[j]),
        decreases accepted.len() - i,
    {
        if accepted[i] {
            assert(accepted@[i as int] == true);
            return true;
        }
        i = i + 1;
    }
    false
}

fn all_accepted(accepted: &[bool]) -> (r: bool)
    ensures
        r == !accepted@.contains(false),
{
    let mut i: usize = 0;
    while i < accepted.len()
        invariant
            i <= accepted.len(),
            forall|j: int| 0 <= j < i ==> #[trigger] accepted@[j],
        decreases accepted.len() - i,
    {
        if !accepted[i] {
            assert(accepted@[i as int] == false);
            return false;
        }
        i = i + 1;
    }
    true
}

/// What the requests that free segments come to. Every routed request has to be
/// accepted; of a broadcast any one, since only the owning instance accepts.
pub fn free_result(routed: &[bool], broadcast: &[bool], broadcasts: bool) -> (r: Result<
    (),
    String,
>)
    ensures
        match r {
            Ok(()) => routed@.len() + broadcast@.len() > 0 && !routed@.contains(false) && (
            broadcasts ==> broadcast@.contains(true)),
            Err(message) => if routed@.len() + broadcast@.len() == 0 {
                message@ == "no endpoints available for free_blocks"@
            } else {
                &&& routed@.contains(false) || (broadcasts && !broadcast@.contains(true))
                &&& message@ == (if routed@.contains(true) || broadcast@.contains(true) {
                    "some free_blocks RPCs failed ("@
                } else {
                    "all free_blocks RPCs failed ("@
                }) + decimal(clip_u64((routed@.len() + broadcast@.len()) as int) as nat) + " attempts)"@
            },
        },
{
    let attempts: u64 = sat_add_u64(routed.len() as u64, broadcast.len() as u64);
    if attempts == 0 {
        return Err(text("no endpoints available for free_blocks"));
    }
    let found = any_accepted(broadcast);
    if all_accepted(routed) && (!broadcasts || found) {
        return Ok(());
    }
    let mut message = if any_accepted(routed) || found {
        text("some free_blocks RPCs failed (")
    } else {
        text("all free_blocks RPCs failed (")
    };
    crate::text::push_decimal(&mut message, attempts);
    message.append(" attempts)");
    Err(message)
}

/// What a fan-out of requests comes to: it succeeds where any of them was
/// accepted, since only the owning instance accepts.
pub fn fan_out_result(operation: &str, accepted: &[bool]) -> (r: Result<(), String>)
    ensures
        match r {
            Ok(()) => accepted@.contains(true),
            Err(message) => !accepted@.contains(true) && message@ == (if accepted@.len() == 0 {
                "no endpoints available for "@ + operation@
            } else {
                "all "@ + operation@ + " RPCs failed ("@ + decimal(accepted@.len()) + " attempts)"@
            }),
        },
{
    let n: usize = accepted.len();
    if n == 0 {
        let mut message = text("no endpoints available for ");
        message.append(operation);
        return Err(message);
    }
    if any_accepted(accepted) {
        return Ok(());
    }
    let mut message = text("all ");
    message.append(operation);
    message.append(" RPCs failed (");
    crate::text::push_decimal(&mut message, n as u64);
    message.append(" attempts)");
    Err(message)
}

/// A disk-group is routed to the last instance that owns it, and one that none owns
/// stays where it was.
pub proof fn law_groups_go_to_their_last_owner(
    routes: Map<u64, Seq<char>>,
    instances: Seq<DiskdbInstance>,
    dg_id: u64,
)
    ensures
        forall|i: int|
            0 <= i < instances.len() && (#[trigger] instances[i]).owned_dg_ids@.contains(dg_id) && (
            forall|j: int|
                i < j < instances.len() ==> !(#[trigger] instances[j]).owned_dg_ids@.contains(dg_id))
                ==> with_instances(routes, instances).dom().contains(dg_id) && with_instances(
                routes,
                instances,
            )[dg_id] == instances[i].rpc_endpoint@,
        (forall|i: int|
            0 <= i < instances.len() ==> !(#[trigger] instances[i]).owned_dg_ids@.contains(dg_id))
            ==> (with_instances(routes, instances).dom().contains(dg_id) <==> routes.dom().contains(
            dg_id,
        )) && with_instances(routes, instances)[dg_id] == routes[dg_id],
    decreases instances.len(),
{
    if instances.len() > 0 {
        let front = instances.drop_last();
        let last = instances.len() - 1;
        law_groups_go_to_their_last_owner(routes, front, dg_id);
        lemma_owned_goes_there(
            with_instances(routes, front),
            instances[last].owned_dg_ids@,
            instances[last].rpc_endpoint@,
            dg_id,
        );
        assert forall|i: int|
            0 <= i < instances.len() && (#[trigger] instances[i]).owned_dg_ids@.contains(dg_id) && (
            forall|j: int|
                i < j < instances.len() ==> !(#[trigger] instances[j]).owned_dg_ids@.contains(
                    dg_id,
                )) implies with_instances(routes, instances).dom().contains(dg_id)
            && with_instances(routes, instances)[dg_id] == instances[i].rpc_endpoint@ by {
            if i < last {
                assert(!instances[last].owned_dg_ids@.contains(dg_id));
                assert(front[i].owned_dg_ids@.contains(dg_id));
                assert forall|j: int| i < j < front.len() implies !(
                #[trigger] front[j]).owned_dg_ids@.contains(dg_id) by {
                    assert(!instances[j].owned_dg_ids@.contains(dg_id));
                }
            }
        }
        if forall|i: int|
            0 <= i < instances.len() ==> !(#[trigger] instances[i]).owned_dg_ids@.contains(dg_id) {
            assert forall|i: int| 0 <= i < front.len() implies !(
            #[trigger] front[i]).owned_dg_ids@.contains(dg_id) by {
                assert(!instances[i].owned_dg_ids@.contains(dg_id));
            }
            assert(!instances[last].owned_dg_ids@.contains(dg_id));
        }
    }
}

proof fn lemma_owned_goes_there(
    routes: Map<u64, Seq<char>>,
    dg_ids: Seq<u64>,
    endpoint: Seq<char>,
    dg_id: u64,
)
    ensures
        dg_ids.contains(dg_id) ==> with_owned(routes, dg_ids, endpoint).dom().contains(dg_id)
            && with_owned(routes, dg_ids, endpoint)[dg_id] == endpoint,
        !dg_ids.contains(dg_id) ==> (with_owned(routes, dg_ids, endpoint).dom().contains(dg_id)
            <==> routes.dom().contains(dg_id)) && with_owned(routes, dg_ids, endpoint)[dg_id]
            == routes[dg_id],
    decreases dg_ids.len(),
{
    if dg_ids.len() > 0 {
        let front = dg_ids.drop_last();
        lemma_owned_goes_there(routes, front, endpoint, dg_id);
        if dg_ids.contains(dg_id) && dg_ids.last() != dg_id {
            let i = choose|i: int| 0 <= i < dg_ids.len() && dg_ids[i] == dg_id;
            assert(front[i] == dg_id);
        }
        if front.contains(dg_id) {
            let i = choose|i: int| 0 <= i < front.len() && front[i] == dg_id;
            assert(dg_ids[i] == dg_id);
        }
        assert(dg_ids[dg_ids.len() - 1] == dg_ids.last());
    }
}

} // verus!
