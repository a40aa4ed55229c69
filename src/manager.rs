use vstd::prelude::*;
use crate::delivery::{Pending, Publish, serials_of};
use crate::registry::{Registry, RegistryModel, Sighting, added_serials, call_matches, consistent, ids_of, model_wf, pruned, replay, scan_ok, scan_round};
use crate::result::WiimoteDeviceError;

verus! {

/// The scan interval that a manager starts with, in milliseconds.
pub const DEFAULT_SCAN_INTERVAL_MS: u64 = 500;

/// The identifiers of a sequence of strings.
pub open spec fn views_of(s: Seq<String>) -> Seq<Seq<char>> {
    s.map_values(|x: String| x@)
}

/// What one scan did.
pub struct ScanReport<R> {
    /// One observation per record examined by the prune pass, in order.
    pub observations: Vec<Option<bool>>,
    /// The identifiers of the handles reconciled, in the provider's order.
    pub identifiers: Vec<String>,
    /// One sighting per reconciled handle.
    pub sightings: Vec<Sighting>,
    /// The records registered by this scan, in order of discovery.
    pub discovered: Vec<Pending<R>>,
}

/// Keeps track of the controllers seen so far and of the receiving end of the
/// channel on which newly found ones arrive. Scans are driven from outside,
/// periodically, by a single worker that owns the producing end.
#[verifier::reject_recursive_types(R)]
pub struct WiimoteManager<R> {
    seen_devices: Registry<R>,
    scan_interval_ms: u64,
    new_devices_receiver: Option<calloop::channel::Channel<R>>,
}

impl<R> WiimoteManager<R> {
    /// The registry of the devices seen so far.
    pub closed spec fn registry(&self) -> RegistryModel {
        self.seen_devices@
    }

    /// The registered records, in order of discovery.
    pub closed spec fn records(&self) -> Seq<R> {
        self.seen_devices.records()
    }

    /// The interval between two scans, in milliseconds.
    pub closed spec fn interval(&self) -> u64 {
        self.scan_interval_ms
    }

    /// Whether the receiving end has been handed out.
    pub closed spec fn receiver_claimed(&self) -> bool {
        self.new_devices_receiver is None
    }

    /// Every identifier of the registry maps to one record, and there is one
    /// record per entry.
    pub open spec fn wf(&self) -> bool {
        &&& model_wf(self.registry())
        &&& self.records().len() == self.registry().entries.len()
    }

    /// A manager with the default scan interval, holding the receiving end of
    /// the delivery channel.
    pub fn new(receiver: calloop::channel::Channel<R>) -> (r: Self)
        ensures
            r.wf(),
            r.registry().entries.len() == 0,
            r.interval() == DEFAULT_SCAN_INTERVAL_MS,
            !r.receiver_claimed(),
    {
        Self::new_with_interval(DEFAULT_SCAN_INTERVAL_MS, receiver)
    }

    /// A manager with the given scan interval, holding the receiving end of
    /// the delivery channel.
    pub fn new_with_interval(scan_interval_ms: u64, receiver: calloop::channel::Channel<R>) -> (r: Self)
        ensures
            r.wf(),
            r.registry().entries.len() == 0,
            r.interval() == scan_interval_ms,
            !r.receiver_claimed(),
    {
        WiimoteManager {
            seen_devices: Registry::new(),
            scan_interval_ms,
            new_devices_receiver: Some(receiver),
        }
    }

    /// Sets the interval at which the manager scans for controllers; a sleep
    /// already begun keeps its length.
    pub fn set_scan_interval(&mut self, scan_interval_ms: u64)
        ensures
            final(self).interval() == scan_interval_ms,
            final(self).registry() == old(self).registry(),
            final(self).records() == old(self).records(),
            final(self).receiver_claimed() == old(self).receiver_claimed(),
            final(self).wf() == old(self).wf(),
    {
        self.scan_interval_ms = scan_interval_ms;
    }

    /// The interval at which the manager scans, in milliseconds.
    pub fn scan_interval(&self) -> (r: u64)
        ensures
            r == self.interval(),
    {
        self.scan_interval_ms
    }

    /// The number of devices registered.
    pub fn seen_count(&self) -> (n: usize)
        ensures
            n == self.registry().entries.len(),
    {
        self.seen_devices.len()
    }

    /// The receiving end of the channel of newly found devices. It is handed
    /// out once: every later call gives `None`.
    pub fn new_devices_receiver(&mut self) -> (r: Option<calloop::channel::Channel<R>>)
        ensures
            r is Some <==> !old(self).receiver_claimed(),
            final(self).receiver_claimed(),
            final(self).registry() == old(self).registry(),
            final(self).records() == old(self).records(),
            final(self).interval() == old(self).interval(),
            final(self).wf() == old(self).wf(),
    {
        self.new_devices_receiver.take()
    }

    /// Every device seen so far and still registered, in order of discovery.
    pub fn seen_devices(&self) -> (r: Vec<R>)
        where
            R: Clone,
        ensures
            r.len() == self.registry().entries.len(),
            forall|i: int|
                0 <= i < r.len() ==> call_ensures(R::clone, (&self.records()[i],), #[trigger] r[i]),
    {
        self.seen_devices.cloned_records()
    }

    /// One scan: prunes the registry with `observe`, asks `enumerate` for the
    /// handles present now, and reconciles them, in order, with `connect` and
    /// `reconnect` (see `Registry::reconcile`). Handles beyond what the serial
    /// numbers left can name are not reconciled.
    pub fn scan<O, E, H, C, G>(&mut self, observe: O, enumerate: E, connect: C, reconnect: G) -> (r: ScanReport<R>) where
        R: Clone,
        O: Fn(&R) -> Option<bool>,
        E: Fn() -> Vec<(String, H)>,
        C: Fn(H) -> Result<R, WiimoteDeviceError>,
        G: Fn(&R, H) -> Result<(), WiimoteDeviceError>,

        requires
            old(self).wf(),
            forall|x: R| call_requires(observe, (&x,)),
            call_requires(enumerate, ()),
            forall|h: H| call_requires(connect, (h,)),
            forall|x: R, h: H| call_requires(reconnect, (&x, h)),
        ensures
            final(self).wf(),
            r.observations.len() == old(self).registry().entries.len(),
            forall|i: int|
                0 <= i < r.observations.len() ==> call_ensures(
                    observe,
                    (&old(self).records()[i],),
                    #[trigger] r.observations@[i],
                ),
            ({
                let m1 = RegistryModel {
                    entries: pruned(old(self).registry().entries, r.observations@),
                    next_serial: old(self).registry().next_serial,
                };
                &&& consistent(m1, views_of(r.identifiers@), r.sightings@)
                &&& final(self).registry() == replay(m1, views_of(r.identifiers@), r.sightings@)
                &&& exists|found: Vec<(String, H)>|
                    call_ensures(enumerate, (), found) && views_of(r.identifiers@) == ids_of(
                        found@,
                    ).take(r.identifiers.len() as int) && (r.identifiers.len() == found.len()
                        || m1.next_serial + r.identifiers.len() == u64::MAX) && forall|k: int|
                        0 <= k < r.identifiers.len() ==> call_matches(
                            connect,
                            reconnect,
                            final(self).registry().entries,
                            final(self).records(),
                            r.identifiers@[k]@,
                            found@[k].1,
                            #[trigger] r.sightings@[k],
                        )
                &&& final(self).records().len() == final(self).registry().entries.len()
                &&& final(self).records().subrange(0, m1.entries.len() as int) == pruned(
                    old(self).records(),
                    r.observations@,
                )
                &&& final(self).registry().entries.len() == m1.entries.len() + r.discovered.len()
                &&& forall|t: int|
                    0 <= t < r.discovered.len() ==> call_ensures(
                        R::clone,
                        (&final(self).records()[m1.entries.len() + t],),
                        (#[trigger] r.discovered@[t]).item,
                    )
            }),
            scan_ok(old(self).registry(), r.observations@, views_of(r.identifiers@), r.sightings@),
            final(self).registry() == scan_round(
                old(self).registry(),
                r.observations@,
                views_of(r.identifiers@),
                r.sightings@,
            ),
            serials_of(r.discovered@) == added_serials(r.sightings@),
            final(self).interval() == old(self).interval(),
            final(self).receiver_claimed() == old(self).receiver_claimed(),
    {
        let observations = self.seen_devices.prune(observe);
        let mut found = enumerate();
        let ghost found0 = found;
        let room = u64::MAX - self.seen_devices.next_serial();
        if found.len() as u64 > room {
            found.truncate(room as usize);
        }
        let mut identifiers: Vec<String> = Vec::new();
        let mut i: usize = 0;
        while i < found.len()
            invariant
                i <= found.len(),
                identifiers.len() == i,
                forall|j: int| 0 <= j < i ==> (#[trigger] identifiers@[j])@ == found@[j].0@,
            decreases found.len() - i,
        {
            identifiers.push(found[i].0.clone());
            i += 1;
        }
        assert(views_of(identifiers@) =~= ids_of(found@));
        assert(ids_of(found@) =~= ids_of(found0@).take(found.len() as int));
        let ghost kept = found;
        let (sightings, discovered) = self.seen_devices.reconcile(found, connect, reconnect);
        assert forall|k: int| 0 <= k < identifiers.len() implies found0@[k] == kept@[k] && identifiers@[k]@
            == kept@[k].0@ by {
            assert(ids_of(kept@)[k] == kept@[k].0@);
        }
        ScanReport { observations, identifiers, sightings, discovered }
    }
}

/// What the scan worker does once an iteration has published: it stops for
/// good when the consumer dropped the receiving end, and otherwise sleeps for
/// the scan interval read now, before the next iteration.
pub fn pause_after(outcome: &Publish, scan_interval_ms: u64) -> (r: Option<u64>)
    ensures
        r == (if *outcome == Publish::Closed { None::<u64> } else { Some(scan_interval_ms) }),
{
    match outcome {
        Publish::Closed => None,
        _ => Some(scan_interval_ms),
    }
}

} // verus!
