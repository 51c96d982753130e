//! The work item that travels down the line, and the configuration of a
//! station as far as an item depends on it.

use vstd::prelude::*;

verus! {

/// One station's place in the line and the service it owes every item.
#[derive(Clone, Copy, Debug)]
pub struct StationCfg {
    /// Position in the line, and the index of this station's slot in an item.
    pub id: usize,
    /// Identity for messages only.
    pub name: &'static str,
    /// Total service time that each item needs here, in milliseconds.
    pub service_ms: u64,
}

/// A work item.
#[derive(Clone, Debug, PartialEq, Eq)]
pub struct Product {
    /// Sequence number given by the generator.
    pub id: u32,
    /// Work still owed at each station.
    pub remaining_ms: Vec<u64>,
    /// When the item entered the line.
    pub arrival_ms: u128,
    /// When each station first took the item into service, once it has.
    pub enter_ms: Vec<Option<u128>>,
    /// Reserved for the time each station finished the item; no station sets it.
    pub exit_ms: Vec<Option<u128>>,
}

/// The mathematical value of a [`Product`].
pub struct ProductView {
    pub id: u32,
    pub remaining: Seq<u64>,
    pub arrival: u128,
    pub enter: Seq<Option<u128>>,
    pub exit: Seq<Option<u128>>,
}

impl View for Product {
    type V = ProductView;

    open spec fn view(&self) -> ProductView {
        ProductView {
            id: self.id,
            remaining: self.remaining_ms@,
            arrival: self.arrival_ms,
            enter: self.enter_ms@,
            exit: self.exit_ms@,
        }
    }
}

impl ProductView {
    /// The three per-station sequences have one slot per station.
    pub open spec fn wf(self) -> bool {
        self.remaining.len() == self.enter.len() && self.enter.len() == self.exit.len()
    }

    /// The item is well formed and has a slot for the station at `index`.
    pub open spec fn fits(self, index: int) -> bool {
        self.wf() && 0 <= index < self.remaining.len()
    }

    /// The item with its remaining work at `index` replaced.
    pub open spec fn with_remaining(self, index: int, remaining: u64) -> ProductView {
        ProductView { remaining: self.remaining.update(index, remaining), ..self }
    }

    /// The item with the slot of the station at `index` blanked: all that the
    /// other stations and the generator have written, and nothing else.
    pub open spec fn elsewhere(self, index: int) -> ProductView {
        ProductView {
            remaining: self.remaining.update(index, 0),
            enter: self.enter.update(index, None),
            ..self
        }
    }

    /// The item as it is once the station at `index` admits it at time `now`:
    /// the first admission stamps the entry time, a later one changes nothing.
    pub open spec fn admitted(self, index: int, now: u128) -> ProductView {
        if self.enter[index] is None {
            ProductView { enter: self.enter.update(index, Some(now)), ..self }
        } else {
            self
        }
    }
}

/// The views of a sequence of items, in order.
pub open spec fn views(items: Seq<Product>) -> Seq<ProductView> {
    items.map_values(|p: Product| p@)
}

/// The identifiers of a sequence of items, in order.
pub open spec fn ids(items: Seq<ProductView>) -> Seq<u32> {
    items.map_values(|p: ProductView| p.id)
}

/// The service times of a sequence of stations, in order.
pub open spec fn services(stations: Seq<StationCfg>) -> Seq<u64> {
    stations.map_values(|c: StationCfg| c.service_ms)
}

/// The sum of a sequence of service times.
pub open spec fn sum_ms(times: Seq<u64>) -> nat
    decreases times.len(),
{
    if times.len() == 0 {
        0
    } else {
        sum_ms(times.drop_last()) + times.last() as nat
    }
}

/// A new item: all of every station's service still owed, no station entered
/// or left yet.
pub open spec fn fresh(id: u32, services: Seq<u64>, arrival: u128) -> ProductView {
    ProductView {
        id,
        remaining: services,
        arrival,
        enter: Seq::new(services.len(), |i: int| None::<u128>),
        exit: Seq::new(services.len(), |i: int| None::<u128>),
    }
}

impl Product {
    /// Builds the item with sequence number `id` for a line of `stations`,
    /// arriving at `arrival_ms`.
    pub fn new(id: u32, stations: &Vec<StationCfg>, arrival_ms: u128) -> (p: Product)
        ensures
            p@ == fresh(id, services(stations@), arrival_ms),
            p@.wf(),
    {
        let n: usize = stations.len();
        let mut remaining_ms: Vec<u64> = Vec::new();
        let mut enter_ms: Vec<Option<u128>> = Vec::new();
        let mut exit_ms: Vec<Option<u128>> = Vec::new();
        let mut i: usize = 0;
        while i < n
            invariant
                n == stations.len(),
                i <= n,
                remaining_ms@ == services(stations@).take(i as int),
                enter_ms@ == Seq::new(i as nat, |k: int| None::<u128>),
                exit_ms@ == Seq::new(i as nat, |k: int| None::<u128>),
            decreases n - i,
        {
            remaining_ms.push(stations[i].service_ms);
            enter_ms.push(None);
            exit_ms.push(None);
            i += 1;
        }
        proof {
            let want = fresh(id, services(stations@), arrival_ms);
            assert(remaining_ms@ =~= want.remaining);
            assert(enter_ms@ =~= want.enter);
            assert(exit_ms@ =~= want.exit);
        }
        Product { id, remaining_ms, arrival_ms, enter_ms, exit_ms }
    }

    /// Whether the item is well formed and has a slot for the station at
    /// `index`.
    pub fn fits(&self, index: usize) -> (b: bool)
        ensures
            b == self@.fits(index as int),
    {
        self.remaining_ms.len() == self.enter_ms.len() && self.enter_ms.len()
            == self.exit_ms.len() && index < self.remaining_ms.len()
    }
}

/// The service that one item needs over the whole line.
pub fn total_service(stations: &Vec<StationCfg>) -> (total: u128)
    ensures
        total == sum_ms(services(stations@)),
{
    let n: usize = stations.len();
    let ghost times = services(stations@);
    let mut total: u128 = 0;
    let mut i: usize = 0;
    while i < n
        invariant
            n == stations.len(),
            i <= n,
            times == services(stations@),
            total == sum_ms(times.take(i as int)),
            total <= i * u64::MAX,
        decreases n - i,
    {
        proof {
            assert(times.take(i + 1).drop_last() == times.take(i as int));
            assert(i * u64::MAX + u64::MAX <= usize::MAX * u64::MAX + u64::MAX) by (nonlinear_arith)
                requires
                    i <= usize::MAX,
            ;
            assert((i + 1) * u64::MAX == i * u64::MAX + u64::MAX) by (nonlinear_arith);
        }
        total = total + stations[i].service_ms as u128;
        i += 1;
    }
    proof {
        assert(times.take(n as int) == times);
    }
    total
}

} // verus!
