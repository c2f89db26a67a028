//! Choice of the mirror copies that a conversion to erasure coding keeps.
//!
//! Out of each mirrored strip one copy survives. The choice spreads the shards:
//! it keeps the load of the fullest node low, then the concentration of the
//! load, and then reaches as many racks and nodes as it can.
use vstd::prelude::*;
use crate::allocator::pool::{segment_group, DiskdbClientPool};
use crate::arith::{clip_u32, sat_add_u32};
use crate::lifecycle::error::{LifecycleError, LifecycleErrorModel};
use crate::topology::{group_is_healthy, TopologySnapshot};
use crate::types::{strip_models, ChunkStrip, Segment, StripModel};

verus! {

/// A copy that may survive, and the node and rack that hold it.
#[derive(Debug, Clone, Copy, PartialEq, Eq, Structural)]
pub struct Survivor {
    pub segment: Segment,
    pub node_id: u64,
    pub rack_id: u64,
}

/// How well a choice spreads its shards.
#[derive(Debug, Clone, Copy, PartialEq, Eq, Structural)]
pub struct SurvivorScore {
    /// Shards on the fullest node.
    pub max_load: usize,
    /// Sum of the squared loads.
    pub concentration: u128,
    /// Racks in use.
    pub racks: usize,
    /// Nodes in use.
    pub nodes: usize,
}

/// Shards on a node.
pub open spec fn load(places: Seq<(u64, u64)>, node_id: u64) -> nat
    decreases places.len(),
{
    if places.len() == 0 {
        0
    } else {
        load(places.drop_last(), node_id) + (if places.last().0 == node_id {
            1nat
        } else {
            0nat
        })
    }
}

/// Highest load of the nodes of the first `n` places.
pub open spec fn peak_load(places: Seq<(u64, u64)>, n: int) -> nat
    decreases n,
{
    if n <= 0 {
        0
    } else {
        let before = peak_load(places, n - 1);
        let here = load(places, places[n - 1].0);
        if here > before {
            here
        } else {
            before
        }
    }
}

/// No earlier place is on the node of place `i`.
pub open spec fn first_on_node(places: Seq<(u64, u64)>, i: int) -> bool {
    forall|j: int| 0 <= j < i ==> (#[trigger] places[j]).0 != places[i].0
}

/// No earlier place is in the rack of place `i`.
pub open spec fn first_in_rack(places: Seq<(u64, u64)>, i: int) -> bool {
    forall|j: int| 0 <= j < i ==> (#[trigger] places[j]).1 != places[i].1
}

/// Sum of the squared loads of the nodes of the first `n` places.
pub open spec fn concentration(places: Seq<(u64, u64)>, n: int) -> nat
    decreases n,
{
    if n <= 0 {
        0
    } else {
        concentration(places, n - 1) + (if first_on_node(places, n - 1) {
            clip_u32((load(places, places[n - 1].0) * load(places, places[n - 1].0)) as int) as nat
        } else {
            0nat
        })
    }
}

/// Number of nodes of the first `n` places.
pub open spec fn node_count(places: Seq<(u64, u64)>, n: int) -> nat
    decreases n,
{
    if n <= 0 {
        0
    } else {
        node_count(places, n - 1) + (if first_on_node(places, n - 1) {
            1nat
        } else {
            0nat
        })
    }
}

/// Number of racks of the first `n` places.
pub open spec fn rack_count(places: Seq<(u64, u64)>, n: int) -> nat
    decreases n,
{
    if n <= 0 {
        0
    } else {
        rack_count(places, n - 1) + (if first_in_rack(places, n - 1) {
            1nat
        } else {
            0nat
        })
    }
}

/// Fullest node, concentration, racks and nodes of the places.
pub open spec fn score_of(places: Seq<(u64, u64)>) -> (nat, nat, nat, nat) {
    (
        peak_load(places, places.len() as int),
        concentration(places, places.len() as int),
        rack_count(places, places.len() as int),
        node_count(places, places.len() as int),
    )
}

impl SurvivorScore {
    /// The score as numbers.
    pub open spec fn numbers(self) -> (nat, nat, nat, nat) {
        (self.max_load as nat, self.concentration as nat, self.racks as nat, self.nodes as nat)
    }

    /// Whether this score spreads better.
    pub fn is_better(&self, other: &SurvivorScore) -> (r: bool)
        ensures
            r == better(self.numbers(), other.numbers()),
    {
        if self.max_load != other.max_load {
            self.max_load < other.max_load
        } else if self.concentration != other.concentration {
            self.concentration < other.concentration
        } else if self.racks != other.racks {
            self.racks > other.racks
        } else {
            self.nodes > other.nodes
        }
    }
}

/// The first score spreads better: a lower peak; at equal peaks a lower
/// concentration; then more racks; then more nodes.
pub open spec fn better(a: (nat, nat, nat, nat), b: (nat, nat, nat, nat)) -> bool {
    a.0 < b.0 || (a.0 == b.0 && (a.1 < b.1 || (a.1 == b.1 && (a.2 > b.2 || (a.2 == b.2 && a.3
        > b.3)))))
}

/// Every node holds at most `max_per_node` shards.
pub open spec fn bearable(places: Seq<(u64, u64)>, max_per_node: nat) -> bool {
    forall|i: int| 0 <= i < places.len() ==> load(places, (#[trigger] places[i]).0) <= max_per_node
}

/// The candidates of each strip.
pub open spec fn candidate_lists(candidates: Seq<Vec<Survivor>>) -> Seq<Seq<Survivor>> {
    Seq::new(candidates.len(), |i: int| candidates[i]@)
}

/// `choice` takes one candidate of each strip.
pub open spec fn is_choice(lists: Seq<Seq<Survivor>>, choice: Seq<int>) -> bool {
    choice.len() == lists.len() && in_lists(lists, choice)
}

/// Every entry of `choice` is the position of a candidate.
pub open spec fn in_lists(lists: Seq<Seq<Survivor>>, choice: Seq<int>) -> bool {
    choice.len() <= lists.len() && forall|i: int|
        0 <= i < choice.len() ==> 0 <= #[trigger] choice[i] < lists[i].len()
}

/// The places of the chosen candidates.
pub open spec fn chosen_places(lists: Seq<Seq<Survivor>>, choice: Seq<int>) -> Seq<(u64, u64)> {
    Seq::new(
        choice.len(),
        |i: int| (lists[i][choice[i]].node_id, lists[i][choice[i]].rack_id),
    )
}

/// The segments of the chosen candidates.
pub open spec fn chosen_segments(lists: Seq<Seq<Survivor>>, choice: Seq<int>) -> Seq<Segment> {
    Seq::new(choice.len(), |i: int| lists[i][choice[i]].segment)
}

/// A choice that, with the places in use, overloads no node.
pub open spec fn viable(
    lists: Seq<Seq<Survivor>>,
    base: Seq<(u64, u64)>,
    max_per_node: nat,
    choice: Seq<int>,
) -> bool {
    is_choice(lists, choice) && bearable(base + chosen_places(lists, choice), max_per_node)
}

/// The first choice comes before the second: at the first strip where they
/// differ it takes the earlier candidate.
pub open spec fn earlier(a: Seq<int>, b: Seq<int>) -> bool {
    exists|k: int| #[trigger] differs_first_at(a, b, k)
}

/// The choices agree before `k`, and at `k` the first takes the earlier
/// candidate.
pub open spec fn differs_first_at(a: Seq<int>, b: Seq<int>, k: int) -> bool {
    0 <= k < a.len() && k < b.len() && a.take(k) == b.take(k) && a[k] < b[k]
}

/// The first choice spreads better than the second, or as well and comes first.
pub open spec fn preferred(
    lists: Seq<Seq<Survivor>>,
    base: Seq<(u64, u64)>,
    a: Seq<int>,
    b: Seq<int>,
) -> bool {
    let sa = score_of(base + chosen_places(lists, a));
    let sb = score_of(base + chosen_places(lists, b));
    better(sa, sb) || (sa == sb && (a == b || earlier(a, b)))
}

/// The choice goes on from `prefix`.
pub open spec fn extends(choice: Seq<int>, prefix: Seq<int>) -> bool {
    prefix.len() <= choice.len() && choice.take(prefix.len() as int) == prefix
}

/// The best viable choice that goes on from `prefix`.
pub open spec fn best_from(
    lists: Seq<Seq<Survivor>>,
    base: Seq<(u64, u64)>,
    max_per_node: nat,
    prefix: Seq<int>,
    choice: Seq<int>,
) -> bool {
    &&& viable(lists, base, max_per_node, choice)
    &&& extends(choice, prefix)
    &&& forall|other: Seq<int>| #[trigger]
        viable(lists, base, max_per_node, other) && extends(other, prefix) ==> preferred(
            lists,
            base,
            choice,
            other,
        )
}

/// The best viable choice, if there is a viable one.
pub open spec fn best_choice(
    lists: Seq<Seq<Survivor>>,
    base: Seq<(u64, u64)>,
    max_per_node: nat,
) -> Option<Seq<int>> {
    if exists|choice: Seq<int>| viable(lists, base, max_per_node, choice) {
        Some(choose|choice: Seq<int>| best_from(lists, base, max_per_node, Seq::empty(), choice))
    } else {
        None
    }
}

proof fn lemma_not_both_earlier(a: Seq<int>, b: Seq<int>)
    requires
        earlier(a, b),
    ensures
        !earlier(b, a),
        a != b,
{
    let k = choose|k: int| #[trigger] differs_first_at(a, b, k);
    if earlier(b, a) {
        let j = choose|j: int| #[trigger] differs_first_at(b, a, j);
        if j < k {
            assert(a.take(k)[j] == b.take(k)[j]);
        } else if k < j {
            assert(a.take(j)[k] == b.take(j)[k]);
        }
    }
}

/// There is one best choice at most.
pub proof fn lemma_best_is_unique(
    lists: Seq<Seq<Survivor>>,
    base: Seq<(u64, u64)>,
    max_per_node: nat,
    prefix: Seq<int>,
    a: Seq<int>,
    b: Seq<int>,
)
    requires
        best_from(lists, base, max_per_node, prefix, a),
        best_from(lists, base, max_per_node, prefix, b),
    ensures
        a == b,
{
    assert(preferred(lists, base, a, b));
    assert(preferred(lists, base, b, a));
    if a != b {
        if earlier(a, b) {
            lemma_not_both_earlier(a, b);
        }
    }
}

proof fn lemma_load_of_prefix(places: Seq<(u64, u64)>, n: int, node_id: u64)
    requires
        0 <= n <= places.len(),
    ensures
        load(places.take(n), node_id) <= load(places, node_id),
    decreases places.len() - n,
{
    if n < places.len() {
        lemma_load_of_prefix(places, n + 1, node_id);
        assert(places.take(n + 1).drop_last() =~= places.take(n));
        assert(places.take(n + 1).last() == places[n]);
    } else {
        assert(places.take(n) =~= places);
    }
}

proof fn lemma_load_bound(places: Seq<(u64, u64)>, node_id: u64)
    ensures
        load(places, node_id) <= places.len(),
    decreases places.len(),
{
    if places.len() > 0 {
        lemma_load_bound(places.drop_last(), node_id);
    }
}

proof fn lemma_peak(places: Seq<(u64, u64)>, n: int, max_per_node: nat)
    requires
        0 <= n <= places.len(),
    ensures
        peak_load(places, n) <= max_per_node <==> (forall|i: int|
            0 <= i < n ==> load(places, (#[trigger] places[i]).0) <= max_per_node),
    decreases n,
{
    if n > 0 {
        lemma_peak(places, n - 1, max_per_node);
        assert(places[n - 1].0 == places[n - 1].0);
    }
}

fn node_load(places: &Vec<(u64, u64)>, node_id: u64) -> (r: usize)
    ensures
        r == load(places@, node_id),
{
    let mut count: usize = 0;
    let mut i: usize = 0;
    while i < places.len()
        invariant
            i <= places.len(),
            count <= i,
            count == load(places@.take(i as int), node_id),
        decreases places.len() - i,
    {
        proof {
            assert(places@.take(i + 1).drop_last() =~= places@.take(i as int));
            assert(places@.take(i + 1).last() == places@[i as int]);
        }
        if places[i].0 == node_id {
            count = count + 1;
        }
        i = i + 1;
    }
    assert(places@.take(i as int) =~= places@);
    count
}

fn is_first_on_node(places: &Vec<(u64, u64)>, i: usize) -> (r: bool)
    requires
        i < places@.len(),
    ensures
        r == first_on_node(places@, i as int),
{
    let mut j: usize = 0;
    while j < i
        invariant
            j <= i < places@.len(),
            forall|k: int| 0 <= k < j ==> (#[trigger] places@[k]).0 != places@[i as int].0,
        decreases i - j,
    {
        if places[j].0 == places[i].0 {
            assert(places@[j as int].0 == places@[i as int].0);
            return false;
        }
        j = j + 1;
    }
    true
}

fn is_first_in_rack(places: &Vec<(u64, u64)>, i: usize) -> (r: bool)
    requires
        i < places@.len(),
    ensures
        r == first_in_rack(places@, i as int),
{
    let mut j: usize = 0;
    while j < i
        invariant
            j <= i < places@.len(),
            forall|k: int| 0 <= k < j ==> (#[trigger] places@[k]).1 != places@[i as int].1,
        decreases i - j,
    {
        if places[j].1 == places[i].1 {
            assert(places@[j as int].1 == places@[i as int].1);
            return false;
        }
        j = j + 1;
    }
    true
}

fn squared(n: usize) -> (r: u32)
    ensures
        r == clip_u32(n * n),
{
    if n > 65535 {
        assert(n * n > 0xffff_ffff) by (nonlinear_arith)
            requires
                n > 65535,
        ;
        u32::MAX
    } else {
        assert(0 <= n * n <= 65535 * 65535) by (nonlinear_arith)
            requires
                0 <= n <= 65535,
        ;
        let small: u32 = n as u32;
        small * small
    }
}

/// How well the places are spread.
pub fn spread_score(places: &Vec<(u64, u64)>) -> (r: SurvivorScore)
    ensures
        r.numbers() == score_of(places@),
{
    let mut max_load: usize = 0;
    let mut total: u128 = 0;
    let mut racks: usize = 0;
    let mut nodes: usize = 0;
    let mut i: usize = 0;
    while i < places.len()
        invariant
            i <= places.len(),
            max_load == peak_load(places@, i as int),
            total == concentration(places@, i as int),
            total <= i * 0xffff_ffff,
            racks == rack_count(places@, i as int),
            nodes == node_count(places@, i as int),
            racks <= i,
            nodes <= i,
        decreases places.len() - i,
    {
        let here: usize = node_load(places, places[i].0);
        if here > max_load {
            max_load = here;
        }
        if is_first_on_node(places, i) {
            total = total + (squared(here) as u128);
            nodes = nodes + 1;
        }
        if is_first_in_rack(places, i) {
            racks = racks + 1;
        }
        i = i + 1;
    }
    SurvivorScore { max_load, concentration: total, racks, nodes }
}

/// Views of positions.
pub open spec fn positions(choice: Seq<usize>) -> Seq<int> {
    Seq::new(choice.len(), |i: int| choice[i] as int)
}

struct Found {
    score: SurvivorScore,
    choice: Vec<usize>,
}

spec fn found_best(
    lists: Seq<Seq<Survivor>>,
    base: Seq<(u64, u64)>,
    max_per_node: nat,
    prefix: Seq<int>,
    found: Option<Found>,
) -> bool {
    match found {
        Some(f) => best_from(lists, base, max_per_node, prefix, positions(f.choice@))
            && f.score.numbers() == score_of(
            base + chosen_places(lists, positions(f.choice@)),
        ),
        None => forall|other: Seq<int>| #[trigger]
            viable(lists, base, max_per_node, other) ==> !extends(other, prefix),
    }
}

/// Like `best_from`, among the choices whose next candidate lies before `n`.
spec fn best_before(
    lists: Seq<Seq<Survivor>>,
    base: Seq<(u64, u64)>,
    max_per_node: nat,
    prefix: Seq<int>,
    n: int,
    choice: Seq<int>,
) -> bool {
    let k = prefix.len() as int;
    &&& viable(lists, base, max_per_node, choice)
    &&& extends(choice, prefix)
    &&& choice[k] < n
    &&& forall|other: Seq<int>| #[trigger]
        viable(lists, base, max_per_node, other) && extends(other, prefix) && other[k] < n
            ==> preferred(lists, base, choice, other)
}

spec fn found_before(
    lists: Seq<Seq<Survivor>>,
    base: Seq<(u64, u64)>,
    max_per_node: nat,
    prefix: Seq<int>,
    n: int,
    found: Option<Found>,
) -> bool {
    match found {
        Some(f) => best_before(lists, base, max_per_node, prefix, n, positions(f.choice@))
            && f.score.numbers() == score_of(
            base + chosen_places(lists, positions(f.choice@)),
        ),
        None => forall|other: Seq<int>| #[trigger]
            viable(lists, base, max_per_node, other) && extends(other, prefix)
                ==> other[prefix.len() as int] >= n,
    }
}

proof fn lemma_extends_push(choice: Seq<int>, prefix: Seq<int>, n: int)
    requires
        prefix.len() < choice.len(),
    ensures
        extends(choice, prefix.push(n)) <==> extends(choice, prefix) && choice[prefix.len() as int]
            == n,
{
    let k = prefix.len() as int;
    if extends(choice, prefix.push(n)) {
        assert(choice.take(k + 1)[k] == n);
        assert(choice.take(k) =~= choice.take(k + 1).take(k));
        assert(prefix.push(n).take(k) =~= prefix);
    }
    if extends(choice, prefix) && choice[k] == n {
        assert(choice.take(k + 1) =~= choice.take(k).push(n));
    }
}

/// A candidate on a full node leads to no viable choice.
proof fn lemma_pruned(
    lists: Seq<Seq<Survivor>>,
    base: Seq<(u64, u64)>,
    max_per_node: nat,
    prefix: Seq<int>,
    n: int,
    other: Seq<int>,
)
    requires
        prefix.len() < lists.len(),
        0 <= n < lists[prefix.len() as int].len(),
        load(
            base + chosen_places(lists, prefix),
            lists[prefix.len() as int][n].node_id,
        ) >= max_per_node,
        viable(lists, base, max_per_node, other),
        extends(other, prefix),
    ensures
        other[prefix.len() as int] != n,
{
    let k = prefix.len() as int;
    if other[k] == n {
        let node = lists[k][n].node_id;
        let all = base + chosen_places(lists, other);
        let at = base.len() + k;
        assert(all[at].0 == node);
        assert(all.take(at) =~= base + chosen_places(lists, prefix)) by {
            assert forall|i: int| 0 <= i < k implies other[i] == prefix[i] by {
                assert(other.take(k)[i] == prefix[i]);
            }
        }
        assert(all.take(at + 1).drop_last() =~= all.take(at));
        assert(all.take(at + 1).last() == all[at]);
        lemma_load_of_prefix(all, at + 1, node);
        assert(load(all, all[at].0) <= max_per_node);
    }
}

/// Joining the best choice so far with the best one through candidate `n`.
proof fn lemma_join(
    lists: Seq<Seq<Survivor>>,
    base: Seq<(u64, u64)>,
    max_per_node: nat,
    prefix: Seq<int>,
    n: int,
    best: Option<Found>,
    next: Option<Found>,
)
    requires
        prefix.len() < lists.len(),
        found_before(lists, base, max_per_node, prefix, n, best),
        found_best(lists, base, max_per_node, prefix.push(n), next),
    ensures
        match next {
            None => found_before(lists, base, max_per_node, prefix, n + 1, best),
            Some(f) => match best {
                None => found_before(lists, base, max_per_node, prefix, n + 1, next),
                Some(b) => if better(f.score.numbers(), b.score.numbers()) {
                    found_before(lists, base, max_per_node, prefix, n + 1, next)
                } else {
                    found_before(lists, base, max_per_node, prefix, n + 1, best)
                },
            },
        },
{
    let k = prefix.len() as int;
    assert forall|other: Seq<int>| #[trigger] viable(lists, base, max_per_node, other) implies (
    extends(other, prefix.push(n)) <==> extends(other, prefix) && other[k] == n) by {
        lemma_extends_push(other, prefix, n);
    }
    match next {
        None => {
            match best {
                Some(b) => {
                    assert(best_before(
                        lists,
                        base,
                        max_per_node,
                        prefix,
                        n + 1,
                        positions(b.choice@),
                    ));
                },
                None => {},
            }
        },
        Some(f) => {
            let fc = positions(f.choice@);
            assert(extends(fc, prefix) && fc[k] == n);
            match best {
                None => {
                    assert(best_before(lists, base, max_per_node, prefix, n + 1, fc));
                },
                Some(b) => {
                    let bc = positions(b.choice@);
                    if better(f.score.numbers(), b.score.numbers()) {
                        assert forall|other: Seq<int>| #[trigger]
                            viable(lists, base, max_per_node, other) && extends(other, prefix)
                                && other[k] < n + 1 implies preferred(lists, base, fc, other) by {
                            if other[k] < n {
                                assert(preferred(lists, base, bc, other));
                            } else {
                                assert(preferred(lists, base, fc, other));
                            }
                        }
                        assert(best_before(lists, base, max_per_node, prefix, n + 1, fc));
                    } else {
                        assert forall|other: Seq<int>| #[trigger]
                            viable(lists, base, max_per_node, other) && extends(other, prefix)
                                && other[k] < n + 1 implies preferred(lists, base, bc, other) by {
                            if other[k] < n {
                                assert(preferred(lists, base, bc, other));
                            } else {
                                assert(preferred(lists, base, fc, other));
                                assert(bc.take(k) =~= other.take(k));
                                assert(differs_first_at(bc, other, k));
                            }
                        }
                        assert(best_before(lists, base, max_per_node, prefix, n + 1, bc));
                    }
                },
            }
        },
    }
}

fn copy_positions(choice: &Vec<usize>) -> (r: Vec<usize>)
    ensures
        r@ == choice@,
{
    let mut out: Vec<usize> = Vec::new();
    let mut i: usize = 0;
    while i < choice.len()
        invariant
            i <= choice.len(),
            out@ == choice@.take(i as int),
        decreases choice.len() - i,
    {
        assert(choice@.take(i + 1) =~= choice@.take(i as int).push(choice@[i as int]));
        out.push(choice[i]);
        i = i + 1;
    }
    assert(choice@.take(i as int) =~= choice@);
    out
}

/// Searches the choices that go on from `choice`, depth first.
fn search(
    candidates: &Vec<Vec<Survivor>>,
    base: &Vec<(u64, u64)>,
    max_per_node: usize,
    places: &mut Vec<(u64, u64)>,
    choice: &mut Vec<usize>,
) -> (r: Option<Found>)
    requires
        in_lists(candidate_lists(candidates@), positions(old(choice)@)),
        old(places)@ == base@ + chosen_places(
            candidate_lists(candidates@),
            positions(old(choice)@),
        ),
    ensures
        final(places)@ == old(places)@,
        final(choice)@ == old(choice)@,
        found_best(
            candidate_lists(candidates@),
            base@,
            max_per_node as nat,
            positions(old(choice)@),
            r,
        ),
    decreases candidates@.len() - old(choice)@.len(),
{
    let ghost lists = candidate_lists(candidates@);
    let ghost prefix = positions(choice@);
    let ghost places_before = places@;
    let ghost choice_before = choice@;
    let index: usize = choice.len();
    if index == candidates.len() {
        let score = spread_score(places);
        proof {
            lemma_peak(places@, places@.len() as int, max_per_node as nat);
            assert(prefix.take(prefix.len() as int) =~= prefix);
            assert forall|other: Seq<int>| #[trigger]
                viable(lists, base@, max_per_node as nat, other) && extends(other, prefix) implies other
                == prefix by {
                assert(other.take(prefix.len() as int) =~= other);
            }
        }
        if score.max_load > max_per_node {
            assert(!viable(lists, base@, max_per_node as nat, prefix));
            return None;
        }
        let taken = copy_positions(choice);
        assert(viable(lists, base@, max_per_node as nat, positions(taken@)));
        return Some(Found { score, choice: taken });
    }
    let n: usize = candidates[index].len();
    let mut best: Option<Found> = None;
    let mut i: usize = 0;
    while i < n
        invariant
            i <= n,
            index < candidates@.len(),
            index == prefix.len(),
            n == candidates@[index as int]@.len(),
            lists == candidate_lists(candidates@),
            in_lists(lists, prefix),
            prefix == positions(choice_before),
            choice@ == choice_before,
            places@ == places_before,
            places_before == base@ + chosen_places(lists, prefix),
            found_before(lists, base@, max_per_node as nat, prefix, i as int, best),
            choice_before == old(choice)@,
            places_before == old(places)@,
        decreases n - i,
    {
        let candidate: Survivor = candidates[index][i];
        assert(lists[index as int][i as int] == candidate);
        if node_load(places, candidate.node_id) >= max_per_node {
            proof {
                assert forall|other: Seq<int>| #[trigger]
                    viable(lists, base@, max_per_node as nat, other) && extends(
                        other,
                        prefix,
                    ) implies other[index as int] != i by {
                    lemma_pruned(lists, base@, max_per_node as nat, prefix, i as int, other);
                }
                assert(found_before(lists, base@, max_per_node as nat, prefix, i + 1, best));
            }
        } else {
            places.push((candidate.node_id, candidate.rack_id));
            choice.push(i);
            proof {
                assert(positions(choice@) =~= prefix.push(i as int));
                assert(chosen_places(lists, prefix.push(i as int)) =~= chosen_places(
                    lists,
                    prefix,
                ).push((candidate.node_id, candidate.rack_id)));
                assert(places@ =~= base@ + chosen_places(lists, prefix.push(i as int)));
            }
            let next = search(candidates, base, max_per_node, places, choice);
            places.pop();
            choice.pop();
            proof {
                assert(places@ =~= places_before);
                assert(choice@ =~= choice_before);
                lemma_join(lists, base@, max_per_node as nat, prefix, i as int, best, next);
            }
            let improves = match (&next, &best) {
                (Some(f), Some(b)) => f.score.is_better(&b.score),
                (Some(_), None) => true,
                (None, _) => false,
            };
            if improves {
                best = next;
            }
        }
        i = i + 1;
    }
    proof {
        assert forall|other: Seq<int>| #[trigger]
            viable(lists, base@, max_per_node as nat, other) && extends(other, prefix) implies other[index as int]
            < n by {
            assert(0 <= other[index as int] < lists[index as int].len());
        }
    }
    best
}

/// Where a segment stands, if its disk-group is known and healthy: node and
/// rack.
pub open spec fn located(
    snap: &TopologySnapshot,
    owners: Map<(u64, u64), u64>,
    segment: Segment,
) -> Option<(u64, u64)> {
    match segment_group(owners, segment) {
        Some(dg_id) => if snap.disk_groups@.dom().contains((dg_id, 0)) && group_is_healthy(
            snap.racks@,
            snap.nodes@,
            snap.disk_groups@[(dg_id, 0)],
        ) {
            let group = snap.disk_groups@[(dg_id, 0)];
            Some((group.node_id, group.rack_id))
        } else {
            None
        },
        None => None,
    }
}

/// Where a segment stands.
pub fn locate(snap: &TopologySnapshot, pool: &DiskdbClientPool, segment: &Segment) -> (r: Option<
    (u64, u64),
>)
    ensures
        r == located(snap, pool.owners(), *segment),
{
    let dg_id: u64 = match segment.disk_id {
        Some(disk_id) => match pool.dg_for_disk(&disk_id) {
            Some(dg_id) => dg_id,
            None => {
                return None;
            },
        },
        None => {
            return None;
        },
    };
    match snap.disk_group(dg_id) {
        Some(group) => {
            if snap.is_healthy(group) {
                Some((group.node_id, group.rack_id))
            } else {
                None
            }
        },
        None => None,
    }
}

/// The copies of a strip that stand somewhere, in order.
pub open spec fn survivors_of(
    snap: &TopologySnapshot,
    owners: Map<(u64, u64), u64>,
    segments: Seq<Segment>,
) -> Seq<Survivor>
    decreases segments.len(),
{
    if segments.len() == 0 {
        Seq::empty()
    } else {
        let front = survivors_of(snap, owners, segments.drop_last());
        match located(snap, owners, segments.last()) {
            Some(place) => front.push(
                Survivor {
                    segment: segments.last(),
                    node_id: place.0,
                    rack_id: place.1,
                },
            ),
            None => front,
        }
    }
}

/// The surviving copies of each mirrored strip.
pub open spec fn survivor_lists(
    snap: &TopologySnapshot,
    owners: Map<(u64, u64), u64>,
    strips: Seq<StripModel>,
) -> Seq<Seq<Survivor>> {
    Seq::new(strips.len(), |i: int| survivors_of(snap, owners, strips[i].mirror_segments()))
}

/// The places of segments that all stand somewhere.
pub open spec fn places_of(
    snap: &TopologySnapshot,
    owners: Map<(u64, u64), u64>,
    segments: Seq<Segment>,
) -> Seq<(u64, u64)> {
    Seq::new(segments.len(), |i: int| located(snap, owners, segments[i])->0)
}

/// Every segment stands somewhere.
pub open spec fn all_located(
    snap: &TopologySnapshot,
    owners: Map<(u64, u64), u64>,
    segments: Seq<Segment>,
) -> bool {
    forall|i: int| 0 <= i < segments.len() ==> located(snap, owners, #[trigger] segments[i]) is Some
}

/// The copies that a conversion keeps, one of each strip: the best choice that
/// leaves every node with at most the shards that the code can lose, or with
/// any number where unsafe placement is allowed. None where a parity shard
/// stands nowhere or no choice is viable.
pub open spec fn conversion_survivors(
    snap: &TopologySnapshot,
    owners: Map<(u64, u64), u64>,
    strips: Seq<StripModel>,
    parity: Seq<Segment>,
    max_per_node: nat,
) -> Option<Seq<Segment>> {
    if !all_located(snap, owners, parity) {
        None
    } else {
        let lists = survivor_lists(snap, owners, strips);
        match best_choice(lists, places_of(snap, owners, parity), max_per_node) {
            Some(choice) => Some(chosen_segments(lists, choice)),
            None => None,
        }
    }
}

/// Shards that one node may hold of a converted strip.
pub open spec fn node_limit(data_num: u32, code_num: u32, allow_unsafe: bool) -> u32 {
    if allow_unsafe {
        clip_u32(data_num + code_num)
    } else {
        code_num
    }
}

fn collect_survivors(snap: &TopologySnapshot, pool: &DiskdbClientPool, segments: &[Segment]) -> (r: Vec<
    Survivor,
>)
    ensures
        r@ == survivors_of(snap, pool.owners(), segments@),
{
    let mut out: Vec<Survivor> = Vec::new();
    let mut i: usize = 0;
    while i < segments.len()
        invariant
            i <= segments.len(),
            out@ == survivors_of(snap, pool.owners(), segments@.take(i as int)),
        decreases segments.len() - i,
    {
        proof {
            assert(segments@.take(i + 1).drop_last() =~= segments@.take(i as int));
            assert(segments@.take(i + 1).last() == segments@[i as int]);
        }
        match locate(snap, pool, &segments[i]) {
            Some(place) => {
                out.push(Survivor { segment: segments[i], node_id: place.0, rack_id: place.1 });
            },
            None => {},
        }
        i = i + 1;
    }
    assert(segments@.take(i as int) =~= segments@);
    out
}

/// Selects the copies that a conversion keeps.
pub fn select_conversion_survivors(
    snap: &TopologySnapshot,
    pool: &DiskdbClientPool,
    strips: &[ChunkStrip],
    parity_segments: &[Segment],
    data_num: u32,
    code_num: u32,
    allow_unsafe: bool,
) -> (r: Result<Vec<Segment>, LifecycleError>)
    ensures
        match r {
            Ok(selected) => conversion_survivors(
                snap,
                pool.owners(),
                strip_models(strips@),
                parity_segments@,
                node_limit(data_num, code_num, allow_unsafe) as nat,
            ) == Some(selected@),
            Err(e) => e@ == LifecycleErrorModel::StateConflict && conversion_survivors(
                snap,
                pool.owners(),
                strip_models(strips@),
                parity_segments@,
                node_limit(data_num, code_num, allow_unsafe) as nat,
            ) is None,
        },
{
    let ghost owners = pool.owners();
    let ghost models = strip_models(strips@);
    let mut base: Vec<(u64, u64)> = Vec::new();
    let mut i: usize = 0;
    while i < parity_segments.len()
        invariant
            i <= parity_segments.len(),
            owners == pool.owners(),
            base@.len() == i,
            forall|j: int|
                0 <= j < i ==> located(snap, owners, #[trigger] parity_segments@[j]) == Some(base@[j]),
        decreases parity_segments.len() - i,
    {
        match locate(snap, pool, &parity_segments[i]) {
            Some(place) => {
                base.push(place);
            },
            None => {
                assert(located(snap, owners, parity_segments@[i as int]) is None);
                return Err(LifecycleError::StateConflict);
            },
        }
        i = i + 1;
    }
    assert(base@ =~= places_of(snap, owners, parity_segments@));
    let mut candidates: Vec<Vec<Survivor>> = Vec::new();
    let ghost lists = survivor_lists(snap, owners, models);
    let mut k: usize = 0;
    while k < strips.len()
        invariant
            k <= strips.len(),
            owners == pool.owners(),
            models == strip_models(strips@),
            lists == survivor_lists(snap, owners, models),
            candidates@.len() == k,
            forall|j: int| 0 <= j < k ==> (#[trigger] candidates@[j])@ == lists[j],
        decreases strips.len() - k,
    {
        let segments = strips[k].mirror_segments();
        let found = collect_survivors(snap, pool, &segments);
        assert(models[k as int] == strips@[k as int]@);
        candidates.push(found);
        k = k + 1;
    }
    assert(candidate_lists(candidates@) =~= lists);
    let max_per_node: u32 = if allow_unsafe {
        sat_add_u32(data_num, code_num)
    } else {
        code_num
    };
    let mut places: Vec<(u64, u64)> = Vec::new();
    let mut p: usize = 0;
    while p < base.len()
        invariant
            p <= base.len(),
            places@ == base@.take(p as int),
        decreases base.len() - p,
    {
        assert(base@.take(p + 1) =~= base@.take(p as int).push(base@[p as int]));
        places.push(base[p]);
        p = p + 1;
    }
    assert(base@.take(p as int) =~= base@);
    let mut choice: Vec<usize> = Vec::new();
    proof {
        assert(positions(choice@) =~= Seq::<int>::empty());
        assert(places@ =~= base@ + chosen_places(lists, positions(choice@)));
    }
    let found = search(&candidates, &base, max_per_node as usize, &mut places, &mut choice);
    let ghost bound = max_per_node as nat;
    match found {
        Some(f) => {
            let ghost taken = positions(f.choice@);
            let mut selected: Vec<Segment> = Vec::new();
            let mut q: usize = 0;
            while q < f.choice.len()
                invariant
                    q <= f.choice.len(),
                    taken == positions(f.choice@),
                    is_choice(lists, taken),
                    lists == candidate_lists(candidates@),
                    selected@.len() == q,
                    forall|j: int|
                        0 <= j < q ==> #[trigger] selected@[j] == lists[j][taken[j]].segment,
                decreases f.choice.len() - q,
            {
                assert(0 <= taken[q as int] < lists[q as int].len());
                selected.push(candidates[q][f.choice[q]].segment);
                q = q + 1;
            }
            proof {
                assert(viable(lists, base@, bound, taken));
                assert(best_from(lists, base@, bound, Seq::empty(), taken));
                let best = choose|c: Seq<int>| best_from(lists, base@, bound, Seq::empty(), c);
                lemma_best_is_unique(lists, base@, bound, Seq::empty(), taken, best);
                assert(selected@ =~= chosen_segments(lists, taken));
            }
            Ok(selected)
        },
        None => {
            proof {
                assert forall|c: Seq<int>| !viable(lists, base@, bound, c) by {
                    assert(c.take(0) =~= Seq::<int>::empty());
                    assert(extends(c, Seq::<int>::empty()));
                }
            }
            Err(LifecycleError::StateConflict)
        },
    }
}

/// The best of the viable choices that go on from `prefix` with one of the first
/// `n` candidates, given one such choice.
proof fn lemma_best_before_exists(
    lists: Seq<Seq<Survivor>>,
    base: Seq<(u64, u64)>,
    max_per_node: nat,
    prefix: Seq<int>,
    n: int,
    some: Seq<int>,
) -> (best: Seq<int>)
    requires
        prefix.len() < lists.len(),
        viable(lists, base, max_per_node, some),
        extends(some, prefix),
        some[prefix.len() as int] < n,
    ensures
        best_before(lists, base, max_per_node, prefix, n, best),
    decreases lists.len() - prefix.len(), 0int, n,
{
    let k = prefix.len() as int;
    let last = n - 1;
    assert forall|other: Seq<int>| #[trigger] viable(lists, base, max_per_node, other) implies (
    extends(other, prefix.push(last)) <==> extends(other, prefix) && other[k] == last) by {
        lemma_extends_push(other, prefix, last);
    }
    let through = exists|c: Seq<int>| #[trigger]
        viable(lists, base, max_per_node, c) && extends(c, prefix) && c[k] == last;
    let before = exists|c: Seq<int>| #[trigger]
        viable(lists, base, max_per_node, c) && extends(c, prefix) && c[k] < last;
    assert(0 <= some[k]);
    if !through {
        let first = lemma_best_before_exists(lists, base, max_per_node, prefix, last, some);
        assert(best_before(lists, base, max_per_node, prefix, n, first));
        first
    } else {
        let c = choose|c: Seq<int>| #[trigger]
            viable(lists, base, max_per_node, c) && extends(c, prefix) && c[k] == last;
        let fc = law_best_choice_exists(lists, base, max_per_node, prefix.push(last), c);
        assert(extends(fc, prefix) && fc[k] == last);
        if !before {
            assert(best_before(lists, base, max_per_node, prefix, n, fc));
            fc
        } else {
            let c = choose|c: Seq<int>| #[trigger]
                viable(lists, base, max_per_node, c) && extends(c, prefix) && c[k] < last;
            assert(0 <= c[k]);
            let bc = lemma_best_before_exists(lists, base, max_per_node, prefix, last, c);
            let sf = score_of(base + chosen_places(lists, fc));
            let sb = score_of(base + chosen_places(lists, bc));
            if better(sf, sb) {
                assert forall|other: Seq<int>| #[trigger]
                    viable(lists, base, max_per_node, other) && extends(other, prefix) && other[k]
                        < n implies preferred(lists, base, fc, other) by {
                    if other[k] < last {
                        assert(preferred(lists, base, bc, other));
                    } else {
                        assert(preferred(lists, base, fc, other));
                    }
                }
                assert(best_before(lists, base, max_per_node, prefix, n, fc));
                fc
            } else {
                assert forall|other: Seq<int>| #[trigger]
                    viable(lists, base, max_per_node, other) && extends(other, prefix) && other[k]
                        < n implies preferred(lists, base, bc, other) by {
                    if other[k] < last {
                        assert(preferred(lists, base, bc, other));
                    } else {
                        assert(preferred(lists, base, fc, other));
                        assert(bc.take(k) =~= other.take(k));
                        assert(differs_first_at(bc, other, k));
                    }
                }
                assert(best_before(lists, base, max_per_node, prefix, n, bc));
                bc
            }
        }
    }
}

/// Where some viable choice goes on from `prefix`, there is a best one.
pub proof fn law_best_choice_exists(
    lists: Seq<Seq<Survivor>>,
    base: Seq<(u64, u64)>,
    max_per_node: nat,
    prefix: Seq<int>,
    some: Seq<int>,
) -> (best: Seq<int>)
    requires
        viable(lists, base, max_per_node, some),
        extends(some, prefix),
    ensures
        best_from(lists, base, max_per_node, prefix, best),
    decreases lists.len() - prefix.len(), 1int, 0int,
{
    let k = prefix.len() as int;
    if k == lists.len() {
        assert(some.take(k) =~= some);
        assert forall|other: Seq<int>| #[trigger]
            viable(lists, base, max_per_node, other) && extends(other, prefix) implies other
            == some by {
            assert(other.take(k) =~= other);
        }
        some
    } else {
        let n = lists[k].len() as int;
        assert(some[k] < n);
        let best = lemma_best_before_exists(lists, base, max_per_node, prefix, n, some);
        assert forall|other: Seq<int>| #[trigger]
            viable(lists, base, max_per_node, other) && extends(other, prefix) implies preferred(
            lists,
            base,
            best,
            other,
        ) by {
            assert(other[k] < n);
        }
        best
    }
}

proof fn lemma_survivors_of(
    snap: &TopologySnapshot,
    owners: Map<(u64, u64), u64>,
    segments: Seq<Segment>,
)
    ensures
        forall|i: int|
            0 <= i < survivors_of(snap, owners, segments).len() ==> ({
                let survivor = #[trigger] survivors_of(snap, owners, segments)[i];
                &&& segments.contains(survivor.segment)
                &&& located(snap, owners, survivor.segment) == Some(
                    (survivor.node_id, survivor.rack_id),
                )
            }),
    decreases segments.len(),
{
    if segments.len() > 0 {
        let front = segments.drop_last();
        lemma_survivors_of(snap, owners, front);
        let before = survivors_of(snap, owners, front);
        let all = survivors_of(snap, owners, segments);
        assert forall|i: int| 0 <= i < all.len() implies ({
            let survivor = #[trigger] all[i];
            &&& segments.contains(survivor.segment)
            &&& located(snap, owners, survivor.segment) == Some(
                (survivor.node_id, survivor.rack_id),
            )
        }) by {
            if i < before.len() {
                assert(all[i] == before[i]);
                let k = choose|k: int| 0 <= k < front.len() && front[k] == before[i].segment;
                assert(segments[k] == all[i].segment);
            } else {
                assert(segments[segments.len() - 1] == all[i].segment);
            }
        }
    }
}

/// Where every parity shard stands somewhere and some choice is viable, a
/// conversion keeps the copies of the best choice.
pub proof fn law_survivors_are_the_best_choice(
    snap: &TopologySnapshot,
    owners: Map<(u64, u64), u64>,
    strips: Seq<StripModel>,
    parity: Seq<Segment>,
    max_per_node: nat,
    choice: Seq<int>,
)
    requires
        all_located(snap, owners, parity),
        viable(
            survivor_lists(snap, owners, strips),
            places_of(snap, owners, parity),
            max_per_node,
            choice,
        ),
    ensures
        exists|best: Seq<int>|
            best_from(
                survivor_lists(snap, owners, strips),
                places_of(snap, owners, parity),
                max_per_node,
                Seq::empty(),
                best,
            ) && conversion_survivors(snap, owners, strips, parity, max_per_node) == Some(
                #[trigger] chosen_segments(survivor_lists(snap, owners, strips), best),
            ),
{
    let lists = survivor_lists(snap, owners, strips);
    let base = places_of(snap, owners, parity);
    assert(choice.take(0) =~= Seq::<int>::empty());
    assert(extends(choice, Seq::<int>::empty()));
    let found = law_best_choice_exists(lists, base, max_per_node, Seq::empty(), choice);
    let best = choose|c: Seq<int>| best_from(lists, base, max_per_node, Seq::empty(), c);
    assert(best_from(lists, base, max_per_node, Seq::empty(), best));
    assert(best_choice(lists, base, max_per_node) == Some(best));
    assert(conversion_survivors(snap, owners, strips, parity, max_per_node) == Some(
        chosen_segments(lists, best),
    ));
}

/// The copies that a conversion keeps are one of each mirrored strip, each stands
/// somewhere, and with the parity no node holds more shards than the limit.
pub proof fn law_survivors_respect_limit(
    snap: &TopologySnapshot,
    owners: Map<(u64, u64), u64>,
    strips: Seq<StripModel>,
    parity: Seq<Segment>,
    max_per_node: nat,
)
    ensures
        conversion_survivors(snap, owners, strips, parity, max_per_node) matches Some(kept) ==> {
            &&& kept.len() == strips.len()
            &&& forall|i: int|
                0 <= i < strips.len() ==> (#[trigger] strips[i]).mirror_segments().contains(kept[i])
            &&& all_located(snap, owners, parity)
            &&& all_located(snap, owners, kept)
            &&& bearable(
                places_of(snap, owners, parity) + places_of(snap, owners, kept),
                max_per_node,
            )
        },
{
    let lists = survivor_lists(snap, owners, strips);
    let base = places_of(snap, owners, parity);
    match conversion_survivors(snap, owners, strips, parity, max_per_node) {
        Some(kept) => {
            let some = choose|c: Seq<int>| viable(lists, base, max_per_node, c);
            assert(some.take(0) =~= Seq::<int>::empty());
            assert(extends(some, Seq::<int>::empty()));
            let found = law_best_choice_exists(lists, base, max_per_node, Seq::empty(), some);
            let best = choose|c: Seq<int>| best_from(lists, base, max_per_node, Seq::empty(), c);
            assert(best_from(lists, base, max_per_node, Seq::empty(), best));
            assert(kept == chosen_segments(lists, best));
            assert forall|i: int| 0 <= i < kept.len() implies (
            #[trigger] strips[i]).mirror_segments().contains(kept[i]) && located(
                snap,
                owners,
                kept[i],
            ) == Some(chosen_places(lists, best)[i]) by {
                lemma_survivors_of(snap, owners, strips[i].mirror_segments());
                assert(lists[i] == survivors_of(snap, owners, strips[i].mirror_segments()));
                assert(0 <= best[i] < lists[i].len());
                let survivor = lists[i][best[i]];
                assert(kept[i] == survivor.segment);
            }
            assert forall|i: int| 0 <= i < kept.len() implies located(
                snap,
                owners,
                #[trigger] kept[i],
            ) == Some(chosen_places(lists, best)[i]) by {
                assert(strips[i].mirror_segments().contains(kept[i]));
            }
            assert(places_of(snap, owners, kept) =~= chosen_places(lists, best));
        },
        None => {},
    }
}

/// The load of a node is the number of shards on it. The fullest node has the highest
/// load there is, and the racks and the nodes in use are counted once each.
pub proof fn law_score_counts_the_shards(places: Seq<(u64, u64)>, node_id: u64)
    ensures
        load(places, node_id) == places.filter(|p: (u64, u64)| p.0 == node_id).len(),
        load(places, node_id) <= score_of(places).0,
        places.len() > 0 ==> exists|i: int|
            0 <= i < places.len() && score_of(places).0 == load(places, (#[trigger] places[i]).0),
        score_of(places).2 == places.map_values(|p: (u64, u64)| p.1).to_set().len(),
        score_of(places).3 == places.map_values(|p: (u64, u64)| p.0).to_set().len(),
{
    lemma_load_is_filter(places, node_id);
    lemma_peak_is_highest(places, places.len() as int);
    lemma_counts_are_sets(places, places.len() as int);
    assert(places.take(places.len() as int) =~= places);
    if load(places, node_id) > 0 {
        lemma_loaded_is_there(places, node_id);
    }
}

proof fn lemma_load_is_filter(places: Seq<(u64, u64)>, node_id: u64)
    ensures
        load(places, node_id) == places.filter(|p: (u64, u64)| p.0 == node_id).len(),
    decreases places.len(),
{
    reveal(Seq::filter);
    if places.len() > 0 {
        lemma_load_is_filter(places.drop_last(), node_id);
    }
}

proof fn lemma_loaded_is_there(places: Seq<(u64, u64)>, node_id: u64)
    requires
        load(places, node_id) > 0,
    ensures
        exists|i: int| 0 <= i < places.len() && (#[trigger] places[i]).0 == node_id,
    decreases places.len(),
{
    if places.last().0 == node_id {
        assert(places[places.len() - 1].0 == node_id);
    } else {
        lemma_loaded_is_there(places.drop_last(), node_id);
        let i = choose|i: int|
            0 <= i < places.drop_last().len() && (#[trigger] places.drop_last()[i]).0 == node_id;
        assert(places[i].0 == node_id);
    }
}

proof fn lemma_peak_is_highest(places: Seq<(u64, u64)>, n: int)
    requires
        0 <= n <= places.len(),
    ensures
        forall|i: int| 0 <= i < n ==> load(places, (#[trigger] places[i]).0) <= peak_load(places, n),
        n > 0 ==> exists|i: int|
            0 <= i < n && peak_load(places, n) == load(places, (#[trigger] places[i]).0),
    decreases n,
{
    if n > 0 {
        lemma_peak_is_highest(places, n - 1);
        if load(places, places[n - 1].0) > peak_load(places, n - 1) || n == 1 {
            lemma_own_load(places, n - 1);
            assert(peak_load(places, n) == load(places, places[n - 1].0));
        } else {
            let i = choose|i: int|
                0 <= i < n - 1 && peak_load(places, n - 1) == load(places, (#[trigger] places[i]).0);
            assert(peak_load(places, n) == load(places, places[i].0));
        }
    }
}

proof fn lemma_own_load(places: Seq<(u64, u64)>, i: int)
    requires
        0 <= i < places.len(),
    ensures
        load(places, places[i].0) >= 1,
    decreases places.len(),
{
    if i < places.len() - 1 {
        lemma_own_load(places.drop_last(), i);
    }
}

proof fn lemma_counts_are_sets(places: Seq<(u64, u64)>, n: int)
    requires
        0 <= n <= places.len(),
    ensures
        node_count(places, n) == places.take(n).map_values(|p: (u64, u64)| p.0).to_set().len(),
        rack_count(places, n) == places.take(n).map_values(|p: (u64, u64)| p.1).to_set().len(),
    decreases n,
{
    let nodes = places.take(n).map_values(|p: (u64, u64)| p.0);
    let racks = places.take(n).map_values(|p: (u64, u64)| p.1);
    if n == 0 {
        assert(nodes.to_set() =~= Set::<u64>::empty());
        assert(racks.to_set() =~= Set::<u64>::empty());
    } else {
        lemma_counts_are_sets(places, n - 1);
        let front_nodes = places.take(n - 1).map_values(|p: (u64, u64)| p.0);
        let front_racks = places.take(n - 1).map_values(|p: (u64, u64)| p.1);
        let (node, rack) = places[n - 1];
        assert(nodes =~= front_nodes.push(node));
        assert(racks =~= front_racks.push(rack));
        lemma_push_set(front_nodes, node);
        lemma_push_set(front_racks, rack);
        assert(front_nodes.contains(node) <==> !first_on_node(places, n - 1)) by {
            if front_nodes.contains(node) {
                let j = choose|j: int| 0 <= j < front_nodes.len() && front_nodes[j] == node;
                assert(places[j].0 == node);
            }
            if !first_on_node(places, n - 1) {
                let j = choose|j: int| 0 <= j < n - 1 && (#[trigger] places[j]).0 == node;
                assert(front_nodes[j] == node);
            }
        }
        assert(front_racks.contains(rack) <==> !first_in_rack(places, n - 1)) by {
            if front_racks.contains(rack) {
                let j = choose|j: int| 0 <= j < front_racks.len() && front_racks[j] == rack;
                assert(places[j].1 == rack);
            }
            if !first_in_rack(places, n - 1) {
                let j = choose|j: int| 0 <= j < n - 1 && (#[trigger] places[j]).1 == rack;
                assert(front_racks[j] == rack);
            }
        }
    }
}

proof fn lemma_push_set(s: Seq<u64>, x: u64)
    ensures
        s.push(x).to_set() == s.to_set().insert(x),
        s.push(x).to_set().len() == s.to_set().len() + (if s.contains(x) {
            0nat
        } else {
            1nat
        }),
{
    let pushed = s.push(x);
    assert forall|y: u64| #[trigger] pushed.to_set().contains(y) <==> s.to_set().insert(x).contains(
        y,
    ) by {
        if pushed.contains(y) {
            let i = choose|i: int| 0 <= i < pushed.len() && pushed[i] == y;
            if i < s.len() {
                assert(s[i] == y);
            }
        }
        if s.contains(y) {
            let i = choose|i: int| 0 <= i < s.len() && s[i] == y;
            assert(pushed[i] == y);
        }
        assert(pushed[s.len() as int] == x);
    }
    assert(pushed.to_set() =~= s.to_set().insert(x));
    s.lemma_cardinality_of_set();
}

/// Shards on nodes that hold no other add one each to the concentration; a node that
/// holds all shards adds the square of their number, as far as that is counted.
pub proof fn law_concentration_squares_the_loads(places: Seq<(u64, u64)>)
    ensures
        (forall|i: int, j: int|
            0 <= i < j < places.len() ==> (#[trigger] places[i]).0 != (#[trigger] places[j]).0)
            ==> score_of(places).1 == places.len(),
        places.len() > 0 && (forall|i: int|
            0 <= i < places.len() ==> (#[trigger] places[i]).0 == places[0].0) && places.len()
            * places.len() <= u32::MAX ==> score_of(places).1 == places.len() * places.len(),
        score_of(places).1 == Seq::new(places.len(), |i: int| i).filter(
            |i: int| first_on_node(places, i),
        ).fold_left(
            0nat,
            |sum: nat, i: int|
                if load(places, places[i].0) * load(places, places[i].0) <= u32::MAX {
                    sum + load(places, places[i].0) * load(places, places[i].0)
                } else {
                    sum + u32::MAX as nat
                },
        ),
{
    let n = places.len() as int;
    lemma_concentration_is_fold(places, n);
    if forall|i: int, j: int|
        0 <= i < j < places.len() ==> (#[trigger] places[i]).0 != (#[trigger] places[j]).0 {
        lemma_apart(places, n);
    }
    if n > 0 && forall|i: int| 0 <= i < n ==> (#[trigger] places[i]).0 == places[0].0 {
        lemma_all_on(places, places[0].0);
        lemma_together(places, n);
    }
}

proof fn lemma_concentration_is_fold(places: Seq<(u64, u64)>, n: int)
    requires
        0 <= n <= places.len(),
    ensures
        concentration(places, n) == Seq::new(n as nat, |i: int| i).filter(
            |i: int| first_on_node(places, i),
        ).fold_left(
            0nat,
            |sum: nat, i: int|
                if load(places, places[i].0) * load(places, places[i].0) <= u32::MAX {
                    sum + load(places, places[i].0) * load(places, places[i].0)
                } else {
                    sum + u32::MAX as nat
                },
        ),
    decreases n,
{
    reveal(Seq::filter);
    reveal(Seq::fold_left);
    let keep = |i: int| first_on_node(places, i);
    let step = |sum: nat, i: int|
        if load(places, places[i].0) * load(places, places[i].0) <= u32::MAX {
            sum + load(places, places[i].0) * load(places, places[i].0)
        } else {
            sum + u32::MAX as nat
        };
    let all = Seq::new(n as nat, |i: int| i);
    if n > 0 {
        lemma_concentration_is_fold(places, n - 1);
        let front = Seq::new((n - 1) as nat, |i: int| i);
        assert(all.drop_last() =~= front);
        assert(all.last() == n - 1);
        if keep(n - 1) {
            let kept = front.filter(keep).push(n - 1);
            assert(all.filter(keep) == kept);
            assert(kept.drop_last() =~= front.filter(keep));
            assert(kept.last() == n - 1);
            let l = load(places, places[n - 1].0);
            assert(l * l >= 0) by (nonlinear_arith);
        }
    } else {
        assert(all =~= Seq::empty());
    }
}

proof fn lemma_single_load(places: Seq<(u64, u64)>, i: int)
    requires
        0 <= i < places.len(),
        forall|j: int| 0 <= j < places.len() && j != i ==> (#[trigger] places[j]).0 != places[i].0,
    ensures
        load(places, places[i].0) == 1,
    decreases places.len(),
{
    if i < places.len() - 1 {
        let front = places.drop_last();
        assert forall|j: int| 0 <= j < front.len() && j != i implies (#[trigger] front[j]).0
            != front[i].0 by {
            assert(places[j].0 != places[i].0);
        }
        lemma_single_load(front, i);
        assert(places[places.len() - 1].0 != places[i].0);
    } else {
        if load(places.drop_last(), places[i].0) > 0 {
            lemma_loaded_is_there(places.drop_last(), places[i].0);
            let j = choose|j: int|
                0 <= j < places.drop_last().len() && (#[trigger] places.drop_last()[j]).0
                    == places[i].0;
            assert(places[j].0 == places[i].0);
        }
    }
}

proof fn lemma_apart(places: Seq<(u64, u64)>, n: int)
    requires
        0 <= n <= places.len(),
        forall|i: int, j: int|
            0 <= i < j < places.len() ==> (#[trigger] places[i]).0 != (#[trigger] places[j]).0,
    ensures
        concentration(places, n) == n,
    decreases n,
{
    if n > 0 {
        lemma_apart(places, n - 1);
        lemma_single_load(places, n - 1);
        assert(first_on_node(places, n - 1));
    }
}

proof fn lemma_all_on(places: Seq<(u64, u64)>, node: u64)
    requires
        forall|i: int| 0 <= i < places.len() ==> (#[trigger] places[i]).0 == node,
    ensures
        load(places, node) == places.len(),
    decreases places.len(),
{
    if places.len() > 0 {
        let front = places.drop_last();
        assert forall|i: int| 0 <= i < front.len() implies (#[trigger] front[i]).0 == node by {
            assert(places[i].0 == node);
        }
        lemma_all_on(front, node);
        assert(places[places.len() - 1].0 == node);
    }
}

proof fn lemma_together(places: Seq<(u64, u64)>, n: int)
    requires
        0 < n <= places.len(),
        forall|i: int| 0 <= i < places.len() ==> (#[trigger] places[i]).0 == places[0].0,
    ensures
        concentration(places, n) == clip_u32(
            (load(places, places[0].0) * load(places, places[0].0)) as int,
        ) as nat,
    decreases n,
{
    if n > 1 {
        lemma_together(places, n - 1);
        assert(places[0].0 == places[n - 1].0);
        assert(!first_on_node(places, n - 1));
    } else {
        assert(first_on_node(places, 0));
        assert(concentration(places, 0) == 0);
    }
}

/// Of two choices the one with the lower peak is better, whatever else; at one peak the
/// one that is less concentrated; then the one on more racks; then that on more nodes.
/// No choice is better than itself, and of two that differ one is better.
pub proof fn law_scores_are_ranked(a: (nat, nat, nat, nat), b: (nat, nat, nat, nat))
    ensures
        a.0 < b.0 ==> better(a, b),
        a.0 == b.0 && a.1 < b.1 ==> better(a, b),
        a.0 == b.0 && a.1 == b.1 && a.2 > b.2 ==> better(a, b),
        a.0 == b.0 && a.1 == b.1 && a.2 == b.2 && a.3 > b.3 ==> better(a, b),
        !(better(a, b) && better(b, a)),
        !better(a, b) && !better(b, a) ==> a == b,
{
}

} // verus!
