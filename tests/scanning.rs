use std::sync::{Arc, Mutex};

use wiimote_manager::delivery::{Pending, Publish, Publisher};
use wiimote_manager::manager::{ScanReport, WiimoteManager, DEFAULT_SCAN_INTERVAL_MS};
use wiimote_manager::registry::{Registry, Sighting};
use wiimote_manager::result::WiimoteDeviceError;

#[derive(Debug)]
struct Device {
    id: String,
    reconnects: u32,
    manually_disconnected: bool,
}

type Rec = Arc<Mutex<Device>>;

struct Handle {
    id: String,
    valid: bool,
}

fn connect(h: Handle) -> Result<Rec, WiimoteDeviceError> {
    if h.valid {
        Ok(Arc::new(Mutex::new(Device { id: h.id, reconnects: 0, manually_disconnected: false })))
    } else {
        Err(WiimoteDeviceError::InvalidProductID(1))
    }
}

fn reconnect(r: &Rec, h: Handle) -> Result<(), WiimoteDeviceError> {
    if h.valid {
        r.lock().unwrap().reconnects += 1;
        Ok(())
    } else {
        Err(WiimoteDeviceError::InvalidData)
    }
}

fn observe(r: &Rec) -> Option<bool> {
    r.try_lock().ok().map(|d| d.manually_disconnected)
}

fn found(list: &[(&str, bool)]) -> Vec<(String, Handle)> {
    list.iter()
        .map(|(id, valid)| (id.to_string(), Handle { id: id.to_string(), valid: *valid }))
        .collect()
}

fn make() -> (WiimoteManager<Rec>, Publisher<Rec>, calloop::channel::Channel<Rec>) {
    let (sender, receiver) = calloop::channel::sync_channel::<Rec>(8);
    let mut manager = WiimoteManager::new(receiver);
    let receiver = manager.new_devices_receiver().unwrap();
    (manager, Publisher::new(sender), receiver)
}

fn scan(manager: &mut WiimoteManager<Rec>, list: &[(&str, bool)]) -> ScanReport<Rec> {
    manager.scan(observe, || found(list), connect, reconnect)
}

fn drain(receiver: &calloop::channel::Channel<Rec>) -> Vec<String> {
    let mut out = Vec::new();
    while let Ok(r) = receiver.try_recv() {
        out.push(r.lock().unwrap().id.clone());
    }
    out
}

#[test]
fn first_sighting_registers_and_delivers() {
    let (mut manager, mut publisher, receiver) = make();
    let report = scan(&mut manager, &[("AA:11", true)]);
    assert_eq!(report.sightings, vec![Sighting::Added { serial: 0 }]);
    assert_eq!(report.identifiers, vec!["AA:11".to_string()]);
    assert_eq!(manager.seen_count(), 1);
    assert_eq!(manager.seen_devices()[0].lock().unwrap().id, "AA:11");
    assert_eq!(publisher.publish(report.discovered), Publish::Drained);
    assert_eq!(drain(&receiver), vec!["AA:11".to_string()]);
}

#[test]
fn second_sighting_reconnects_without_delivery() {
    let (mut manager, mut publisher, receiver) = make();
    let report = scan(&mut manager, &[("AA:11", true)]);
    publisher.publish(report.discovered);
    assert_eq!(drain(&receiver).len(), 1);
    let report = scan(&mut manager, &[("AA:11", true)]);
    assert_eq!(report.sightings, vec![Sighting::Reconnected { serial: 0 }]);
    assert!(report.discovered.is_empty());
    assert_eq!(publisher.publish(report.discovered), Publish::Drained);
    assert!(drain(&receiver).is_empty());
    assert_eq!(manager.seen_devices()[0].lock().unwrap().reconnects, 1);
}

#[test]
fn repeated_sightings_deliver_once() {
    let (mut manager, mut publisher, receiver) = make();
    let mut delivered = Vec::new();
    for _ in 0..5 {
        let report = scan(&mut manager, &[("AA:11", true)]);
        publisher.publish(report.discovered);
        delivered.extend(drain(&receiver));
    }
    assert_eq!(delivered, vec!["AA:11".to_string()]);
    assert_eq!(manager.seen_count(), 1);
    assert_eq!(manager.seen_devices()[0].lock().unwrap().reconnects, 4);
}

#[test]
fn manually_disconnected_device_is_pruned_and_rediscovered() {
    let (mut manager, mut publisher, receiver) = make();
    let report = scan(&mut manager, &[("AA:11", true)]);
    publisher.publish(report.discovered);
    let first = receiver.try_recv().unwrap();
    first.lock().unwrap().reconnects = 7;
    first.lock().unwrap().manually_disconnected = true;
    let report = scan(&mut manager, &[("AA:11", true)]);
    assert_eq!(report.observations, vec![Some(true)]);
    assert_eq!(report.sightings, vec![Sighting::Added { serial: 1 }]);
    publisher.publish(report.discovered);
    let second = receiver.try_recv().unwrap();
    assert!(!Arc::ptr_eq(&first, &second));
    assert_eq!(second.lock().unwrap().reconnects, 0);
    assert!(!second.lock().unwrap().manually_disconnected);
    assert_eq!(manager.seen_count(), 1);
}

#[test]
fn busy_device_is_not_pruned() {
    let (mut manager, _publisher, _receiver) = make();
    let report = scan(&mut manager, &[("AA:11", true)]);
    let device = report.discovered[0].item.clone();
    device.lock().unwrap().manually_disconnected = true;
    let guard = device.lock().unwrap();
    let report = manager.scan(observe, || found(&[]), connect, reconnect);
    assert_eq!(report.observations, vec![None]);
    assert_eq!(manager.seen_count(), 1);
    drop(guard);
    let report = manager.scan(observe, || found(&[]), connect, reconnect);
    assert_eq!(report.observations, vec![Some(true)]);
    assert_eq!(manager.seen_count(), 0);
}

#[test]
fn failures_do_not_stop_other_devices() {
    let (mut manager, mut publisher, receiver) = make();
    let report = scan(&mut manager, &[("AA:11", true)]);
    publisher.publish(report.discovered);
    drain(&receiver);
    let report = scan(&mut manager, &[("AA:11", false), ("BB:22", false), ("CC:33", true)]);
    assert_eq!(
        report.sightings,
        vec![
            Sighting::ReconnectFailed { serial: 0, error: WiimoteDeviceError::InvalidData },
            Sighting::Rejected { error: WiimoteDeviceError::InvalidProductID(1) },
            Sighting::Added { serial: 1 },
        ]
    );
    publisher.publish(report.discovered);
    assert_eq!(drain(&receiver), vec!["CC:33".to_string()]);
    assert_eq!(manager.seen_count(), 2);
}

#[test]
fn duplicate_handles_in_one_scan_register_once() {
    let (mut manager, _publisher, _receiver) = make();
    let report = scan(&mut manager, &[("AA:11", true), ("AA:11", true)]);
    assert_eq!(report.sightings, vec![Sighting::Added { serial: 0 }, Sighting::Reconnected { serial: 0 }]);
    assert_eq!(report.discovered.len(), 1);
    assert_eq!(manager.seen_count(), 1);
}

#[test]
fn backpressure_buffers_in_order() {
    let (sender, receiver) = calloop::channel::sync_channel::<Rec>(1);
    let mut manager = WiimoteManager::new(receiver);
    let receiver = manager.new_devices_receiver().unwrap();
    let mut publisher = Publisher::new(sender);
    let report = scan(&mut manager, &[("BB:22", true), ("CC:33", true)]);
    assert_eq!(publisher.publish(report.discovered), Publish::Backlogged);
    assert_eq!(publisher.backlog_len(), 1);
    assert_eq!(drain(&receiver), vec!["BB:22".to_string()]);
    let report = scan(&mut manager, &[("BB:22", true), ("CC:33", true), ("DD:44", true)]);
    assert_eq!(publisher.publish(report.discovered), Publish::Backlogged);
    assert_eq!(drain(&receiver), vec!["CC:33".to_string()]);
    assert_eq!(publisher.publish(Vec::new()), Publish::Drained);
    assert_eq!(publisher.backlog_len(), 0);
    assert_eq!(drain(&receiver), vec!["DD:44".to_string()]);
}

#[test]
fn burst_larger_than_capacity_arrives_complete_and_ordered() {
    let (sender, receiver) = calloop::channel::sync_channel::<u32>(3);
    let mut publisher = Publisher::new(sender);
    let burst: Vec<Pending<u32>> = (0..10u32).map(|i| Pending { serial: i as u64, item: i }).collect();
    let mut got = Vec::new();
    let mut outcome = publisher.publish(burst);
    while outcome == Publish::Backlogged {
        while let Ok(x) = receiver.try_recv() {
            got.push(x);
        }
        outcome = publisher.publish(Vec::new());
    }
    assert_eq!(outcome, Publish::Drained);
    while let Ok(x) = receiver.try_recv() {
        got.push(x);
    }
    assert_eq!(got, (0..10u32).collect::<Vec<_>>());
}

#[test]
fn dropped_receiver_closes_publisher() {
    let (sender, receiver) = calloop::channel::sync_channel::<u32>(2);
    let mut publisher = Publisher::new(sender);
    drop(receiver);
    let outcome = publisher.publish(vec![Pending { serial: 0, item: 5 }]);
    assert_eq!(outcome, Publish::Closed);
}

#[test]
fn receiver_is_handed_out_once() {
    let (_sender, receiver) = calloop::channel::sync_channel::<u32>(2);
    let mut manager: WiimoteManager<u32> = WiimoteManager::new(receiver);
    assert!(manager.new_devices_receiver().is_some());
    assert!(manager.new_devices_receiver().is_none());
    assert!(manager.new_devices_receiver().is_none());
}

#[test]
fn scan_interval_defaults_and_updates() {
    let (_sender, receiver) = calloop::channel::sync_channel::<u32>(2);
    let mut manager: WiimoteManager<u32> = WiimoteManager::new(receiver);
    assert_eq!(manager.scan_interval(), DEFAULT_SCAN_INTERVAL_MS);
    assert_eq!(DEFAULT_SCAN_INTERVAL_MS, 500);
    manager.set_scan_interval(20);
    assert_eq!(manager.scan_interval(), 20);
    let (_sender, receiver) = calloop::channel::sync_channel::<u32>(2);
    let manager: WiimoteManager<u32> = WiimoteManager::new_with_interval(75, receiver);
    assert_eq!(manager.scan_interval(), 75);
}

#[test]
fn registry_find_and_prune() {
    let mut registry: Registry<Rec> = Registry::new();
    assert_eq!(registry.len(), 0);
    let (report, fresh) = registry.reconcile(found(&[("AA:11", true), ("BB:22", true)]), connect, reconnect);
    assert_eq!(report.len(), 2);
    assert_eq!(fresh.iter().map(|p| p.serial).collect::<Vec<_>>(), vec![0, 1]);
    assert_eq!(registry.find(&"BB:22".to_string()), Some(1));
    assert_eq!(registry.find(&"ZZ:99".to_string()), None);
    assert_eq!(registry.next_serial(), 2);
    fresh[0].item.lock().unwrap().manually_disconnected = true;
    let obs = registry.prune(observe);
    assert_eq!(obs, vec![Some(true), Some(false)]);
    assert_eq!(registry.find(&"AA:11".to_string()), None);
    assert_eq!(registry.find(&"BB:22".to_string()), Some(0));
    assert_eq!(registry.cloned_records().len(), 1);
}

#[test]
fn worker_stops_only_when_receiver_is_gone() {
    assert_eq!(wiimote_manager::manager::pause_after(&Publish::Drained, 500), Some(500));
    assert_eq!(wiimote_manager::manager::pause_after(&Publish::Backlogged, 20), Some(20));
    assert_eq!(wiimote_manager::manager::pause_after(&Publish::Closed, 500), None);
}

#[test]
fn delivered_record_is_the_registered_one() {
    let (mut manager, mut publisher, receiver) = make();
    let report = scan(&mut manager, &[("AA:11", true), ("BB:22", true)]);
    assert_eq!(publisher.publish(report.discovered), Publish::Drained);
    let seen = manager.seen_devices();
    let first = receiver.try_recv().unwrap();
    let second = receiver.try_recv().unwrap();
    assert!(Arc::ptr_eq(&first, &seen[0]));
    assert!(Arc::ptr_eq(&second, &seen[1]));
    let report = scan(&mut manager, &[("BB:22", true)]);
    assert_eq!(report.sightings, vec![Sighting::Reconnected { serial: 1 }]);
    assert!(Arc::ptr_eq(&manager.seen_devices()[1], &second));
    assert_eq!(second.lock().unwrap().reconnects, 1);
    assert_eq!(first.lock().unwrap().reconnects, 0);
}
