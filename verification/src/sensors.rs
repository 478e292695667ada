//! Sensor discovery and per-cycle reading-set assembly.
//!
//! The single-wire bus is driven outside this crate; its transactions are
//! handed in as plain values. A device search yields a list of addresses and
//! a flag saying whether the search ended in a bus fault (`BusScan`); a
//! per-sensor read-back yields `Some(temperature)` or `None` once its retry
//! budget is spent. This module makes every decision of the discovery and
//! sampling pipeline on those values.

use vstd::prelude::*;

verus! {

/// Number of sensors the deployment expects on the bus. Discovery succeeds
/// only when exactly this many matching devices are found, and a reading set
/// is published only when all of them were read in the same cycle.
pub const NUM_SENSORS: usize = 2;

/// One temperature sample from one sensor.
///
/// The temperature is carried in sixteenths of a degree Celsius, the native
/// fixed-point step of the sensor family's highest (12-bit) resolution; the
/// bus delivers every reading as a whole number of sixteenths.
#[derive(Clone, Copy, PartialEq, Eq, Structural, Debug)]
pub struct Reading {
    pub sensor_address: u64,
    pub temperature_sixteenths: i32,
}

/// A sensor discovered on the bus, identified by its 64-bit address.
#[derive(Clone, Copy, PartialEq, Eq, Structural, Debug)]
pub struct SensorHandle {
    pub address: u64,
}

/// The outcome of one full device search on the bus: the addresses that were
/// yielded, in search order, and whether the search ended in a bus fault
/// (the search stops at the first fault, so a fault is always terminal).
pub struct BusScan {
    pub addresses: Vec<u64>,
    pub failed: bool,
}

/// Why one discovery attempt failed.
#[derive(Clone, Copy, PartialEq, Eq, Structural, Debug)]
pub enum DiscoveryError {
    /// The device search reported a bus fault; partial progress is discarded.
    Bus,
    /// The search completed, but the number of matching devices was not
    /// `NUM_SENSORS`.
    WrongCount,
}

/// The family code is the least-significant byte of a device address.
pub open spec fn spec_family_code(address: u64) -> u8 {
    (address & 0xff) as u8
}

/// Extracts the device-family code from a bus address.
pub fn family_code(address: u64) -> (r: u8)
    ensures
        r == spec_family_code(address),
{
    (address & 0xff) as u8
}

/// The addresses of `addresses` whose family code is `fc`, in order.
pub open spec fn matching(addresses: Seq<u64>, fc: u8) -> Seq<u64>
    decreases addresses.len(),
{
    if addresses.len() == 0 {
        Seq::empty()
    } else {
        let rest = matching(addresses.drop_last(), fc);
        if spec_family_code(addresses.last()) == fc {
            rest.push(addresses.last())
        } else {
            rest
        }
    }
}

/// What one discovery attempt returns for a given scan: the first
/// `NUM_SENSORS` matching addresses when more were found (the excess is
/// discarded), a bus error when the search faulted before enough matches
/// appeared, the matches themselves when there are exactly `NUM_SENSORS`,
/// and a count error otherwise.
pub open spec fn spec_find_devices(addresses: Seq<u64>, failed: bool, fc: u8) -> Result<
    Seq<u64>,
    DiscoveryError,
> {
    let m = matching(addresses, fc);
    if m.len() > NUM_SENSORS {
        Ok(m.take(NUM_SENSORS as int))
    } else if failed {
        Err(DiscoveryError::Bus)
    } else if m.len() == NUM_SENSORS {
        Ok(m)
    } else {
        Err(DiscoveryError::WrongCount)
    }
}

/// Every element of `matching(addresses, fc)` occurs in `addresses`.
proof fn lemma_matching_subset(addresses: Seq<u64>, fc: u8)
    ensures
        forall|a: u64| #[trigger]
            matching(addresses, fc).contains(a) ==> addresses.contains(a),
    decreases addresses.len(),
{
    if addresses.len() > 0 {
        lemma_matching_subset(addresses.drop_last(), fc);
        assert forall|a: u64| #[trigger]
            matching(addresses, fc).contains(a) implies addresses.contains(a) by {
            let m = matching(addresses, fc);
            let rest = matching(addresses.drop_last(), fc);
            let i = choose|i: int| 0 <= i < m.len() && m[i] == a;
            if i < rest.len() {
                assert(rest.contains(a));
                let j = choose|j: int| 0 <= j < addresses.drop_last().len()
                    && addresses.drop_last()[j] == a;
                assert(addresses[j] == a);
            } else {
                assert(a == addresses.last());
                assert(addresses[addresses.len() - 1] == a);
            }
        }
    }
}

/// Distinct bus addresses give distinct matching addresses.
proof fn lemma_matching_distinct(addresses: Seq<u64>, fc: u8)
    requires
        addresses.no_duplicates(),
    ensures
        matching(addresses, fc).no_duplicates(),
    decreases addresses.len(),
{
    if addresses.len() > 0 {
        let prefix = addresses.drop_last();
        assert(prefix.no_duplicates());
        lemma_matching_distinct(prefix, fc);
        if spec_family_code(addresses.last()) == fc {
            let rest = matching(prefix, fc);
            lemma_matching_subset(prefix, fc);
            if rest.contains(addresses.last()) {
                assert(prefix.contains(addresses.last()));
                let j = choose|j: int| 0 <= j < prefix.len() && prefix[j] == addresses.last();
                assert(addresses[j] == addresses[addresses.len() - 1]);
                assert(false);
            }
        }
    }
}

/// When the bus yields distinct addresses -- which the bus guarantees, every
/// device address being globally unique -- a successful discovery yields
/// distinct handles.
pub proof fn lemma_discovered_distinct(addresses: Seq<u64>, failed: bool, fc: u8)
    requires
        addresses.no_duplicates(),
    ensures
        spec_find_devices(addresses, failed, fc) matches Ok(addrs) ==> addrs.no_duplicates(),
{
    lemma_matching_distinct(addresses, fc);
    let m = matching(addresses, fc);
    if m.len() > NUM_SENSORS {
        let t = m.take(NUM_SENSORS as int);
        assert forall|i: int, j: int| 0 <= i < t.len() && 0 <= j < t.len() && i != j implies t[i]
            != t[j] by {
            assert(t[i] == m[i] && t[j] == m[j]);
        }
    }
}

/// One discovery attempt over a completed scan.
///
/// Walks the yielded addresses in order, keeps those whose family code is
/// `fc`, stops as soon as one more than `NUM_SENSORS` matches has appeared
/// (the excess is discarded), surfaces a bus fault as a hard failure, and
/// accepts only a count of exactly `NUM_SENSORS`.
pub fn find_devices(scan: &BusScan, fc: u8) -> (r: Result<Vec<SensorHandle>, DiscoveryError>)
    ensures
        match r {
            Ok(handles) => {
                &&& spec_find_devices(scan.addresses@, scan.failed, fc) matches Ok(addrs)
                    && handles@.map_values(|h: SensorHandle| h.address) == addrs
                &&& handles@.len() == NUM_SENSORS
                &&& forall|i: int|
                    0 <= i < handles@.len() ==> spec_family_code(
                        #[trigger] handles@[i].address,
                    ) == fc
            },
            Err(e) => spec_find_devices(scan.addresses@, scan.failed, fc) == Err::<
                Seq<u64>,
                DiscoveryError,
            >(e),
        },
{
    let ghost all = scan.addresses@;
    let mut handles: Vec<SensorHandle> = Vec::new();
    let mut overflow = false;
    let mut i: usize = 0;
    while i < scan.addresses.len() && !overflow
        invariant
            0 <= i <= all.len(),
            all == scan.addresses@,
            handles@.map_values(|h: SensorHandle| h.address) == if overflow {
                matching(all.take(i as int), fc).take(NUM_SENSORS as int)
            } else {
                matching(all.take(i as int), fc)
            },
            forall|k: int|
                0 <= k < handles@.len() ==> spec_family_code(#[trigger] handles@[k].address) == fc,
            handles@.len() <= NUM_SENSORS,
            overflow ==> matching(all.take(i as int), fc).len() > NUM_SENSORS,
            !overflow ==> handles@.len() == matching(all.take(i as int), fc).len(),
        decreases all.len() - i,
    {
        let a = scan.addresses[i];
        proof {
            assert(all.take(i + 1).drop_last() =~= all.take(i as int));
            assert(all.take(i + 1).last() == a);
        }
        if family_code(a) == fc {
            if handles.len() < NUM_SENSORS {
                handles.push(SensorHandle { address: a });
                proof {
                    assert(handles@.map_values(|h: SensorHandle| h.address) =~= matching(
                        all.take(i as int),
                        fc,
                    ).push(a));
                }
            } else {
                overflow = true;
                proof {
                    let m1 = matching(all.take(i + 1), fc);
                    assert(m1 =~= matching(all.take(i as int), fc).push(a));
                    assert(m1.take(NUM_SENSORS as int) =~= matching(all.take(i as int), fc));
                }
            }
        }
        i = i + 1;
    }
    proof {
        if overflow {
            lemma_matching_take_stable(all, fc, i as int);
        } else {
            assert(all.take(i as int) =~= all);
        }
    }
    if overflow {
        Ok(handles)
    } else if scan.failed {
        Err(DiscoveryError::Bus)
    } else if handles.len() == NUM_SENSORS {
        Ok(handles)
    } else {
        Err(DiscoveryError::WrongCount)
    }
}

/// Once a prefix already holds more than `NUM_SENSORS` matches, scanning
/// further addresses does not change the first `NUM_SENSORS` of them.
proof fn lemma_matching_take_stable(addresses: Seq<u64>, fc: u8, i: int)
    requires
        0 <= i <= addresses.len(),
        matching(addresses.take(i), fc).len() > NUM_SENSORS,
    ensures
        matching(addresses, fc).len() > NUM_SENSORS,
        matching(addresses, fc).take(NUM_SENSORS as int) == matching(
            addresses.take(i),
            fc,
        ).take(NUM_SENSORS as int),
    decreases addresses.len() - i,
{
    if i < addresses.len() {
        let j = i + 1;
        assert(addresses.take(j).drop_last() =~= addresses.take(i));
        let mi = matching(addresses.take(i), fc);
        let mj = matching(addresses.take(j), fc);
        assert(mj.len() >= mi.len());
        assert(mj.take(NUM_SENSORS as int) =~= mi.take(NUM_SENSORS as int));
        lemma_matching_take_stable(addresses, fc, j);
        assert(addresses.take(addresses.len() as int) =~= addresses);
    } else {
        assert(addresses.take(i) =~= addresses);
    }
}

/// One scan outcome at the specification level: the yielded addresses and
/// whether the search ended in a bus fault.
pub struct ScanView {
    pub addresses: Seq<u64>,
    pub failed: bool,
}

/// What bounded-retry discovery yields over a run of scan outcomes: the
/// result of the first attempt that succeeds, and `None` when every attempt
/// of the run fails.
pub open spec fn spec_discover(scans: Seq<ScanView>, fc: u8) -> Option<Seq<u64>>
    decreases scans.len(),
{
    if scans.len() == 0 {
        None
    } else {
        match spec_find_devices(scans.first().addresses, scans.first().failed, fc) {
            Ok(addrs) => Some(addrs),
            Err(_) => spec_discover(scans.drop_first(), fc),
        }
    }
}

/// Discovery succeeds only with exactly `NUM_SENSORS` handles, all of the
/// requested family; it fails when, in every attempt of the run, the bus
/// yielded a search fault or the matching count was not `NUM_SENSORS`.
///
/// The driving loop grants at most `BUS_ATTEMPTS` attempts (it asks
/// `RetryPolicy::may_attempt` before each one), so a run in which all of
/// them fail is fatal.
pub proof fn lemma_discovery(scans: Seq<ScanView>, fc: u8)
    ensures
        spec_discover(scans, fc) matches Some(addrs) ==> {
            &&& addrs.len() == NUM_SENSORS
            &&& forall|i: int|
                0 <= i < addrs.len() ==> spec_family_code(#[trigger] addrs[i]) == fc
            &&& exists|k: int|
                0 <= k < scans.len() && spec_find_devices(
                    scans[k].addresses,
                    scans[k].failed,
                    fc,
                ) == Ok::<Seq<u64>, DiscoveryError>(addrs)
        },
        (forall|k: int|
            0 <= k < scans.len() ==> spec_find_devices(
                (#[trigger] scans[k]).addresses,
                scans[k].failed,
                fc,
            ) is Err) ==> spec_discover(scans, fc) is None,
    decreases scans.len(),
{
    if scans.len() > 0 {
        lemma_discovery(scans.drop_first(), fc);
        match spec_find_devices(scans.first().addresses, scans.first().failed, fc) {
            Ok(addrs) => {
                lemma_find_devices_count(scans.first().addresses, scans.first().failed, fc);
                assert(scans[0] == scans.first());
            },
            Err(_) => {
                if spec_discover(scans, fc) is Some {
                    let rest = scans.drop_first();
                    let addrs = spec_discover(rest, fc)->Some_0;
                    let k = choose|k: int|
                        0 <= k < rest.len() && spec_find_devices(
                            rest[k].addresses,
                            rest[k].failed,
                            fc,
                        ) == Ok::<Seq<u64>, DiscoveryError>(addrs);
                    assert(scans[k + 1] == rest[k]);
                }
                assert forall|k: int|
                    0 <= k < scans.drop_first().len() implies spec_find_devices(
                    (#[trigger] scans.drop_first()[k]).addresses,
                    scans.drop_first()[k].failed,
                    fc,
                ) == spec_find_devices(scans[k + 1].addresses, scans[k + 1].failed, fc) by {
                    assert(scans.drop_first()[k] == scans[k + 1]);
                }
            },
        }
    }
}

/// A successful attempt yields exactly `NUM_SENSORS` addresses, all of the
/// requested family.
pub proof fn lemma_find_devices_count(addresses: Seq<u64>, failed: bool, fc: u8)
    ensures
        spec_find_devices(addresses, failed, fc) matches Ok(addrs) ==> {
            &&& addrs.len() == NUM_SENSORS
            &&& forall|i: int|
                0 <= i < addrs.len() ==> spec_family_code(#[trigger] addrs[i]) == fc
        },
{
    lemma_matching_family(addresses, fc);
}

/// Every matching address carries the requested family code.
proof fn lemma_matching_family(addresses: Seq<u64>, fc: u8)
    ensures
        forall|i: int|
            0 <= i < matching(addresses, fc).len() ==> spec_family_code(
                #[trigger] matching(addresses, fc)[i],
            ) == fc,
    decreases addresses.len(),
{
    if addresses.len() > 0 {
        lemma_matching_family(addresses.drop_last(), fc);
        let m = matching(addresses, fc);
        let rest = matching(addresses.drop_last(), fc);
        assert forall|i: int| 0 <= i < m.len() implies spec_family_code(#[trigger] m[i]) == fc by {
            if i < rest.len() {
                assert(m[i] == rest[i]);
            }
        }
    }
}

/// The atomic unit of published telemetry: one reading per discovered sensor,
/// in discovery order, produced in a single sampling cycle.
pub struct ReadingSet {
    pub readings: Vec<Reading>,
}

impl View for ReadingSet {
    type V = Seq<Reading>;

    open spec fn view(&self) -> Seq<Reading> {
        self.readings@
    }
}

impl ReadingSet {
    /// A reading set is complete: it holds exactly one reading per sensor.
    pub open spec fn wf(self) -> bool {
        self@.len() == NUM_SENSORS
    }

    /// A copy with the same readings.
    pub fn duplicate(&self) -> (r: ReadingSet)
        ensures
            r@ == self@,
    {
        let mut readings: Vec<Reading> = Vec::new();
        let mut i: usize = 0;
        while i < self.readings.len()
            invariant
                0 <= i <= self.readings@.len(),
                readings@ == self.readings@.take(i as int),
            decreases self.readings@.len() - i,
        {
            readings.push(self.readings[i]);
            proof {
                assert(self.readings@.take(i + 1) =~= self.readings@.take(i as int).push(
                    self.readings@[i as int],
                ));
            }
            i = i + 1;
        }
        proof {
            assert(self.readings@.take(i as int) =~= self.readings@);
        }
        ReadingSet { readings }
    }
}

/// Assembles the cycle's reading set from the per-sensor read-back outcomes,
/// one outcome per discovered sensor: `Some(t)` when the sensor was read
/// within its retry budget, `None` when the budget was spent.
///
/// Returns the complete set, in discovery order, exactly when every sensor
/// was read; a single missing outcome discards the whole cycle.
pub fn build_reading_set(handles: &Vec<SensorHandle>, temps: &Vec<Option<i32>>) -> (r: Option<
    ReadingSet,
>)
    requires
        handles@.len() == temps@.len(),
    ensures
        r is Some <==> (forall|i: int| 0 <= i < temps@.len() ==> temps@[i] is Some),
        r matches Some(rs) ==> {
            &&& rs@.len() == handles@.len()
            &&& forall|i: int|
                0 <= i < rs@.len() ==> (#[trigger] rs@[i]).sensor_address == handles@[i].address
                    && temps@[i] == Some(rs@[i].temperature_sixteenths)
        },
{
    let mut readings: Vec<Reading> = Vec::new();
    let mut i: usize = 0;
    while i < handles.len()
        invariant
            handles@.len() == temps@.len(),
            0 <= i <= handles@.len(),
            readings@.len() == i,
            forall|k: int| 0 <= k < i ==> temps@[k] is Some,
            forall|k: int|
                0 <= k < i ==> (#[trigger] readings@[k]).sensor_address == handles@[k].address
                    && temps@[k] == Some(readings@[k].temperature_sixteenths),
        decreases handles@.len() - i,
    {
        match temps[i] {
            Some(t) => {
                readings.push(Reading { sensor_address: handles[i].address, temperature_sixteenths: t });
            },
            None => {
                return None;
            },
        }
        i = i + 1;
    }
    Some(ReadingSet { readings })
}

/// A complete published set carries every discovered sensor's address exactly
/// once, in discovery order: with distinct discovered addresses, each address
/// of the set occurs at exactly one position.
pub proof fn lemma_published_addresses_unique(handles: Seq<SensorHandle>, rs: Seq<Reading>)
    requires
        forall|i: int, j: int|
            0 <= i < handles.len() && 0 <= j < handles.len() && i != j ==> handles[i].address
                != handles[j].address,
        rs.len() == handles.len(),
        forall|i: int|
            0 <= i < rs.len() ==> (#[trigger] rs[i]).sensor_address == handles[i].address,
    ensures
        forall|i: int|
            0 <= i < rs.len() ==> rs.map_values(|r: Reading| r.sensor_address).to_multiset().count(
                #[trigger] rs[i].sensor_address,
            ) == 1,
{
    let addrs = rs.map_values(|r: Reading| r.sensor_address);
    assert forall|i: int| 0 <= i < rs.len() implies addrs.to_multiset().count(
        #[trigger] rs[i].sensor_address,
    ) == 1 by {
        lemma_count_distinct_at(addrs, i);
    }
}

/// In a sequence whose elements are pairwise distinct at every pair of
/// positions, the element at position `i` is counted once.
proof fn lemma_count_distinct_at(s: Seq<u64>, i: int)
    requires
        0 <= i < s.len(),
        forall|p: int, q: int| 0 <= p < s.len() && 0 <= q < s.len() && p != q ==> s[p] != s[q],
    ensures
        s.to_multiset().count(s[i]) == 1,
{
    assert(s.no_duplicates());
    s.lemma_multiset_has_no_duplicates();
    s.to_multiset_ensures();
    assert(s.contains(s[i]));
    assert(s.to_multiset().count(s[i]) > 0);
}

} // verus!
