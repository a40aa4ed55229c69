use vstd::prelude::*;
use crate::result::WiimoteDeviceError;
use crate::delivery::{Pending, serials_of};

verus! {

/// The abstract state of a registry: its entries in order of registration,
/// each an identifier and the serial number of its record, and the serial
/// number that the next new record receives.
pub struct RegistryModel {
    pub entries: Seq<(Seq<char>, u64)>,
    pub next_serial: nat,
}

/// Whether some entry of `m` is registered under `id`.
pub open spec fn has_id(m: RegistryModel, id: Seq<char>) -> bool {
    exists|i: int| 0 <= i < m.entries.len() && (#[trigger] m.entries[i]).0 == id
}

/// Whether the entry for `id` in `m` holds the record with serial `serial`.
pub open spec fn has_entry(m: RegistryModel, id: Seq<char>, serial: u64) -> bool {
    exists|i: int| 0 <= i < m.entries.len() && #[trigger] m.entries[i] == (id, serial)
}

/// Every identifier maps to at most one record, and every serial number handed
/// out so far lies below the next one.
pub open spec fn model_wf(m: RegistryModel) -> bool {
    &&& forall|i: int, j: int|
        0 <= i < j < m.entries.len() ==> (#[trigger] m.entries[i]).0 != (#[trigger] m.entries[j]).0
    &&& forall|i: int| 0 <= i < m.entries.len() ==> (#[trigger] m.entries[i]).1 < m.next_serial
}

/// Best-effort pruning: an entry is evicted only when its record could be
/// examined (`Some`) and reported itself manually disconnected (`true`). A
/// record that was busy (`None`) stays.
pub open spec fn evicts(o: Option<bool>) -> bool {
    o == Some(true)
}

/// The entries that remain after pruning with one observation per entry.
pub open spec fn pruned<A>(entries: Seq<A>, obs: Seq<Option<bool>>) -> Seq<A>
    decreases entries.len(),
{
    if entries.len() == 0 || obs.len() == 0 {
        Seq::empty()
    } else {
        let rest = pruned(entries.drop_last(), obs.drop_last());
        if evicts(obs.last()) {
            rest
        } else {
            rest.push(entries.last())
        }
    }
}

/// What became of one handle returned by the scan provider.
#[derive(Debug, PartialEq, Eq, Structural)]
pub enum Sighting {
    /// The identifier was registered; its record was rebound to the handle.
    Reconnected { serial: u64 },
    /// The identifier was registered; rebinding its record failed.
    ReconnectFailed { serial: u64, error: WiimoteDeviceError },
    /// The identifier was new; a record was built and registered.
    Added { serial: u64 },
    /// The identifier was new; no record could be built from the handle.
    Rejected { error: WiimoteDeviceError },
}

/// Whether `s` is what a registry in state `m` owes a handle named `id`:
/// a registered identifier is reconnected on its own record, a new one is
/// either registered under the next serial number or rejected.
pub open spec fn step_ok(m: RegistryModel, id: Seq<char>, s: Sighting) -> bool {
    if has_id(m, id) {
        match s {
            Sighting::Reconnected { serial } => has_entry(m, id, serial),
            Sighting::ReconnectFailed { serial, .. } => has_entry(m, id, serial),
            _ => false,
        }
    } else {
        match s {
            Sighting::Added { serial } => serial == m.next_serial,
            Sighting::Rejected { .. } => true,
            _ => false,
        }
    }
}

/// The registry state after one sighting.
pub open spec fn apply(m: RegistryModel, id: Seq<char>, s: Sighting) -> RegistryModel {
    match s {
        Sighting::Added { serial } => RegistryModel {
            entries: m.entries.push((id, serial)),
            next_serial: m.next_serial + 1,
        },
        _ => m,
    }
}

/// The registry state after a sequence of sightings, in order.
pub open spec fn replay(m: RegistryModel, ids: Seq<Seq<char>>, report: Seq<Sighting>) -> RegistryModel
    decreases ids.len(),
{
    if ids.len() == 0 || report.len() == 0 {
        m
    } else {
        apply(replay(m, ids.drop_last(), report.drop_last()), ids.last(), report.last())
    }
}

/// Whether `report` holds one sighting per identifier of `ids`, each what the
/// registry owed it in the state that the sightings before it left.
pub open spec fn consistent(m: RegistryModel, ids: Seq<Seq<char>>, report: Seq<Sighting>) -> bool {
    &&& ids.len() == report.len()
    &&& forall|k: int|
        0 <= k < ids.len() ==> step_ok(
            #[trigger] replay(m, ids.take(k), report.take(k)),
            ids[k],
            report[k],
        )
}

/// The serial numbers of the records added by `report`, in order.
pub open spec fn added_serials(report: Seq<Sighting>) -> Seq<u64>
    decreases report.len(),
{
    if report.len() == 0 {
        Seq::empty()
    } else {
        let rest = added_serials(report.drop_last());
        match report.last() {
            Sighting::Added { serial } => rest.push(serial),
            _ => rest,
        }
    }
}

/// Whether sighting `s` of handle `h`, named `id`, is what the calls made for
/// it returned: a record was added only as the value that `connect` returned
/// for `h`, and registered as entry `i` with record `recs[i]`; a rejection
/// carries the error that `connect` returned for `h`; a reconnection, failed or
/// not, is the result of `reconnect` on the registered record and `h`.
pub open spec fn call_matches<R, H, C, G>(
    connect: C,
    reconnect: G,
    entries: Seq<(Seq<char>, u64)>,
    recs: Seq<R>,
    id: Seq<char>,
    h: H,
    s: Sighting,
) -> bool where
    C: Fn(H) -> Result<R, WiimoteDeviceError>,
    G: Fn(&R, H) -> Result<(), WiimoteDeviceError>,
 {
    match s {
        Sighting::Added { serial } => exists|i: int|
            0 <= i < entries.len() && i < recs.len() && #[trigger] entries[i] == (id, serial)
                && call_ensures(connect, (h,), Ok(recs[i])),
        Sighting::Rejected { error } => call_ensures(connect, (h,), Err(error)),
        Sighting::Reconnected { serial } => exists|i: int|
            0 <= i < entries.len() && i < recs.len() && #[trigger] entries[i] == (id, serial)
                && call_ensures(reconnect, (&recs[i], h), Ok(())),
        Sighting::ReconnectFailed { serial, error } => exists|i: int|
            0 <= i < entries.len() && i < recs.len() && #[trigger] entries[i] == (id, serial)
                && call_ensures(reconnect, (&recs[i], h), Err(error)),
    }
}

proof fn lemma_call_matches_extend<R, H, C, G>(
    connect: C,
    reconnect: G,
    e1: Seq<(Seq<char>, u64)>,
    r1: Seq<R>,
    e2: Seq<(Seq<char>, u64)>,
    r2: Seq<R>,
    id: Seq<char>,
    h: H,
    s: Sighting,
) where
    C: Fn(H) -> Result<R, WiimoteDeviceError>,
    G: Fn(&R, H) -> Result<(), WiimoteDeviceError>,

    requires
        call_matches(connect, reconnect, e1, r1, id, h, s),
        e1.len() <= e2.len(),
        r1.len() <= r2.len(),
        e2.subrange(0, e1.len() as int) == e1,
        r2.subrange(0, r1.len() as int) == r1,
    ensures
        call_matches(connect, reconnect, e2, r2, id, h, s),
{
    match s {
        Sighting::Rejected { .. } => {},
        Sighting::Added { serial } => {
            let i = choose|i: int|
                0 <= i < e1.len() && i < r1.len() && #[trigger] e1[i] == (id, serial)
                    && call_ensures(connect, (h,), Ok(r1[i]));
            assert(e2.subrange(0, e1.len() as int)[i] == e2[i]);
            assert(r2.subrange(0, r1.len() as int)[i] == r2[i]);
        },
        Sighting::Reconnected { serial } => {
            let i = choose|i: int|
                0 <= i < e1.len() && i < r1.len() && #[trigger] e1[i] == (id, serial)
                    && call_ensures(reconnect, (&r1[i], h), Ok(()));
            assert(e2.subrange(0, e1.len() as int)[i] == e2[i]);
            assert(r2.subrange(0, r1.len() as int)[i] == r2[i]);
        },
        Sighting::ReconnectFailed { serial, error } => {
            let i = choose|i: int|
                0 <= i < e1.len() && i < r1.len() && #[trigger] e1[i] == (id, serial)
                    && call_ensures(reconnect, (&r1[i], h), Err(error));
            assert(e2.subrange(0, e1.len() as int)[i] == e2[i]);
            assert(r2.subrange(0, r1.len() as int)[i] == r2[i]);
        },
    }
}

/// The identifiers of the handles that a scan returned, in order.
pub open spec fn ids_of<H>(found: Seq<(String, H)>) -> Seq<Seq<char>> {
    found.map_values(|p: (String, H)| p.0@)
}

proof fn lemma_replay_append(
    m: RegistryModel,
    a1: Seq<Seq<char>>,
    r1: Seq<Sighting>,
    a2: Seq<Seq<char>>,
    r2: Seq<Sighting>,
)
    requires
        a1.len() == r1.len(),
        a2.len() == r2.len(),
    ensures
        replay(m, a1 + a2, r1 + r2) == replay(replay(m, a1, r1), a2, r2),
    decreases a2.len(),
{
    if a2.len() == 0 {
        assert(a1 + a2 =~= a1);
        assert(r1 + r2 =~= r1);
    } else {
        lemma_replay_append(m, a1, r1, a2.drop_last(), r2.drop_last());
        assert((a1 + a2).drop_last() =~= a1 + a2.drop_last());
        assert((r1 + r2).drop_last() =~= r1 + r2.drop_last());
    }
}

proof fn lemma_replay_grows(m: RegistryModel, ids: Seq<Seq<char>>, report: Seq<Sighting>)
    ensures
        replay(m, ids, report).entries.len() >= m.entries.len(),
        replay(m, ids, report).entries.subrange(0, m.entries.len() as int) == m.entries,
        replay(m, ids, report).next_serial >= m.next_serial,
    decreases ids.len(),
{
    if ids.len() == 0 || report.len() == 0 {
        assert(m.entries.subrange(0, m.entries.len() as int) =~= m.entries);
    } else {
        let prev = replay(m, ids.drop_last(), report.drop_last());
        lemma_replay_grows(m, ids.drop_last(), report.drop_last());
        let next = apply(prev, ids.last(), report.last());
        assert(next.entries.subrange(0, m.entries.len() as int) =~= prev.entries.subrange(
            0,
            m.entries.len() as int,
        ));
    }
}

proof fn lemma_has_id_kept(m: RegistryModel, ids: Seq<Seq<char>>, report: Seq<Sighting>, id: Seq<char>)
    requires
        has_id(m, id),
    ensures
        has_id(replay(m, ids, report), id),
{
    lemma_replay_grows(m, ids, report);
    let r = replay(m, ids, report);
    let i = choose|i: int| 0 <= i < m.entries.len() && (#[trigger] m.entries[i]).0 == id;
    assert(r.entries.subrange(0, m.entries.len() as int)[i] == r.entries[i]);
    assert(r.entries[i].0 == id);
}

proof fn lemma_step_wf(m: RegistryModel, id: Seq<char>, s: Sighting)
    requires
        model_wf(m),
        step_ok(m, id, s),
    ensures
        model_wf(apply(m, id, s)),
{
    if let Sighting::Added { serial } = s {
        let n = apply(m, id, s);
        assert forall|i: int, j: int| 0 <= i < j < n.entries.len() implies (#[trigger] n.entries[i]).0
            != (#[trigger] n.entries[j]).0 by {
            if j == m.entries.len() {
                assert(n.entries[i] == m.entries[i]);
            }
        }
    }
}

proof fn lemma_take_take<A>(s: Seq<A>, k: int, j: int)
    requires
        0 <= j <= k <= s.len(),
    ensures
        s.take(k).take(j) == s.take(j),
{
    assert(s.take(k).take(j) =~= s.take(j));
}

/// A consistent report stays consistent on every prefix.
proof fn lemma_consistent_prefix(m: RegistryModel, ids: Seq<Seq<char>>, report: Seq<Sighting>, k: int)
    requires
        consistent(m, ids, report),
        0 <= k <= ids.len(),
    ensures
        consistent(m, ids.take(k), report.take(k)),
{
    assert forall|j: int| 0 <= j < k implies step_ok(
        #[trigger] replay(m, ids.take(k).take(j), report.take(k).take(j)),
        ids.take(k)[j],
        report.take(k)[j],
    ) by {
        lemma_take_take(ids, k, j);
        lemma_take_take(report, k, j);
        assert(step_ok(replay(m, ids.take(j), report.take(j)), ids[j], report[j]));
    }
}

/// No identifier is ever registered twice: reconciling a consistent report
/// keeps every identifier of the registry unique, and every serial number
/// issued below the next one.
pub proof fn reconcile_keeps_identifiers_unique(m: RegistryModel, ids: Seq<Seq<char>>, report: Seq<Sighting>)
    requires
        model_wf(m),
        consistent(m, ids, report),
    ensures
        model_wf(replay(m, ids, report)),
    decreases ids.len(),
{
    if ids.len() > 0 {
        let n = (ids.len() - 1) as int;
        lemma_consistent_prefix(m, ids, report, n);
        assert(ids.take(n) =~= ids.drop_last());
        assert(report.take(n) =~= report.drop_last());
        reconcile_keeps_identifiers_unique(m, ids.drop_last(), report.drop_last());
        lemma_step_wf(replay(m, ids.drop_last(), report.drop_last()), ids.last(), report.last());
    }
}

/// Every entry left by pruning is an entry of the registry that was not
/// evicted.
proof fn lemma_pruned_members(entries: Seq<(Seq<char>, u64)>, obs: Seq<Option<bool>>)
    requires
        entries.len() == obs.len(),
    ensures
        forall|a: int|
            0 <= a < pruned(entries, obs).len() ==> exists|j: int|
                0 <= j < entries.len() && !evicts(obs[j]) && #[trigger] pruned(entries, obs)[a]
                    == entries[j],
    decreases entries.len(),
{
    if entries.len() > 0 {
        let e = entries.drop_last();
        let o = obs.drop_last();
        lemma_pruned_members(e, o);
        assert forall|a: int| 0 <= a < pruned(entries, obs).len() implies exists|j: int|
            0 <= j < entries.len() && !evicts(obs[j]) && #[trigger] pruned(entries, obs)[a]
                == entries[j] by {
            if a < pruned(e, o).len() {
                let j = choose|j: int|
                    0 <= j < e.len() && !evicts(o[j]) && #[trigger] pruned(e, o)[a] == e[j];
                assert(pruned(entries, obs)[a] == entries[j]);
            } else {
                assert(pruned(entries, obs)[a] == entries[entries.len() - 1]);
            }
        }
    }
}

/// Pruning keeps every identifier of the registry unique.
pub proof fn prune_keeps_identifiers_unique(m: RegistryModel, obs: Seq<Option<bool>>)
    requires
        model_wf(m),
        obs.len() == m.entries.len(),
    ensures
        model_wf(RegistryModel { entries: pruned(m.entries, obs), next_serial: m.next_serial }),
    decreases m.entries.len(),
{
    if m.entries.len() > 0 {
        let e = m.entries.drop_last();
        let o = obs.drop_last();
        let sub = RegistryModel { entries: e, next_serial: m.next_serial };
        prune_keeps_identifiers_unique(sub, o);
        lemma_pruned_members(e, o);
        let p = pruned(m.entries, obs);
        if !evicts(obs.last()) {
            assert(p =~= pruned(e, o).push(m.entries.last()));
            assert forall|a: int, b: int| 0 <= a < b < p.len() implies (#[trigger] p[a]).0
                != (#[trigger] p[b]).0 by {
                assert(p[a] == pruned(e, o)[a]);
                if b == p.len() - 1 {
                    let j = choose|j: int|
                        0 <= j < e.len() && !evicts(o[j]) && #[trigger] pruned(e, o)[a] == e[j];
                    assert(m.entries[j] == e[j]);
                    assert(m.entries[j].0 != m.entries[m.entries.len() - 1].0);
                } else {
                    let q = pruned(e, o);
                    let mq = RegistryModel { entries: q, next_serial: m.next_serial };
                    assert(model_wf(mq));
                    assert(mq.entries[a].0 != mq.entries[b].0);
                    assert(p[b] == q[b]);
                }
            }
        }
    }
}

/// Once registered, an identifier stays registered through every later
/// sighting, and each sighting of it rebinds the existing record: it is
/// never built or announced again.
pub proof fn registered_identifier_is_reconnected(
    m: RegistryModel,
    ids: Seq<Seq<char>>,
    report: Seq<Sighting>,
    id: Seq<char>,
)
    requires
        consistent(m, ids, report),
        has_id(m, id),
    ensures
        has_id(replay(m, ids, report), id),
        forall|k: int|
            0 <= k < ids.len() && ids[k] == id ==> (#[trigger] report[k] is Reconnected
                || report[k] is ReconnectFailed),
{
    lemma_has_id_kept(m, ids, report, id);
    assert forall|k: int| 0 <= k < ids.len() && ids[k] == id implies (#[trigger] report[k] is Reconnected
        || report[k] is ReconnectFailed) by {
        lemma_has_id_kept(m, ids.take(k), report.take(k), id);
        assert(step_ok(replay(m, ids.take(k), report.take(k)), ids[k], report[k]));
    }
}

/// Within one scan, an identifier returned several times is built and
/// announced at most once: every later sighting rebinds that record.
pub proof fn identifier_added_at_most_once(
    m: RegistryModel,
    ids: Seq<Seq<char>>,
    report: Seq<Sighting>,
    j: int,
    k: int,
)
    requires
        consistent(m, ids, report),
        0 <= j < k < ids.len(),
        ids[j] == ids[k],
        report[j] is Added,
    ensures
        report[k] is Reconnected || report[k] is ReconnectFailed,
{
    let before = replay(m, ids.take(j), report.take(j));
    assert(step_ok(before, ids[j], report[j]));
    let after = replay(m, ids.take(j + 1), report.take(j + 1));
    assert(ids.take(j + 1).drop_last() =~= ids.take(j));
    assert(report.take(j + 1).drop_last() =~= report.take(j));
    assert(after.entries.last() == (ids[j], report[j]->Added_serial));
    assert(has_id(after, ids[j]));
    let mid_ids = ids.subrange(j + 1, k);
    let mid_report = report.subrange(j + 1, k);
    lemma_replay_append(m, ids.take(j + 1), report.take(j + 1), mid_ids, mid_report);
    assert(ids.take(j + 1) + mid_ids =~= ids.take(k));
    assert(report.take(j + 1) + mid_report =~= report.take(k));
    lemma_has_id_kept(after, mid_ids, mid_report, ids[j]);
    assert(step_ok(replay(m, ids.take(k), report.take(k)), ids[k], report[k]));
}

/// A failed sighting is isolated: leaving that handle out of the scan gives a
/// report that is still consistent for all the other handles, and the same
/// registry in the end.
pub proof fn failed_sighting_is_isolated(m: RegistryModel, ids: Seq<Seq<char>>, report: Seq<Sighting>, k: int)
    requires
        consistent(m, ids, report),
        0 <= k < ids.len(),
        report[k] is ReconnectFailed || report[k] is Rejected,
    ensures
        consistent(m, ids.remove(k), report.remove(k)),
        replay(m, ids.remove(k), report.remove(k)) == replay(m, ids, report),
{
    let n = ids.len() as int;
    let base = replay(m, ids.take(k), report.take(k));
    assert(ids.take(k + 1).drop_last() =~= ids.take(k));
    assert(report.take(k + 1).drop_last() =~= report.take(k));
    assert(replay(m, ids.take(k + 1), report.take(k + 1)) == base);
    let ids2 = ids.remove(k);
    let rep2 = report.remove(k);
    // Beyond the failed handle, both runs go on from the same state.
    assert forall|t: int| k <= t <= n - 1 implies #[trigger] replay(m, ids2.take(t), rep2.take(t))
        == replay(m, ids.take(t + 1), report.take(t + 1)) by {
        let tail_ids = ids.subrange(k + 1, t + 1);
        let tail_rep = report.subrange(k + 1, t + 1);
        assert(ids2.take(t) =~= ids.take(k) + tail_ids);
        assert(rep2.take(t) =~= report.take(k) + tail_rep);
        assert(ids.take(t + 1) =~= ids.take(k + 1) + tail_ids);
        assert(report.take(t + 1) =~= report.take(k + 1) + tail_rep);
        lemma_replay_append(m, ids.take(k), report.take(k), tail_ids, tail_rep);
        lemma_replay_append(m, ids.take(k + 1), report.take(k + 1), tail_ids, tail_rep);
    }
    assert forall|j: int| 0 <= j < ids2.len() implies step_ok(
        #[trigger] replay(m, ids2.take(j), rep2.take(j)),
        ids2[j],
        rep2[j],
    ) by {
        if j < k {
            assert(ids2.take(j) =~= ids.take(j));
            assert(rep2.take(j) =~= report.take(j));
            assert(step_ok(replay(m, ids.take(j), report.take(j)), ids[j], report[j]));
        } else {
            assert(replay(m, ids2.take(j), rep2.take(j)) == replay(m, ids.take(j + 1), report.take(j + 1)));
            assert(step_ok(replay(m, ids.take(j + 1), report.take(j + 1)), ids[j + 1], report[j + 1]));
        }
    }
    assert(replay(m, ids2.take(n - 1), rep2.take(n - 1)) == replay(m, ids.take(n), report.take(n)));
    assert(ids2.take(n - 1) =~= ids2);
    assert(rep2.take(n - 1) =~= rep2);
    assert(ids.take(n) =~= ids);
    assert(report.take(n) =~= report);
}

/// The registry state after one scan: a prune with one observation per entry,
/// then the sightings of the handles returned, in order.
pub open spec fn scan_round(
    m: RegistryModel,
    obs: Seq<Option<bool>>,
    ids: Seq<Seq<char>>,
    report: Seq<Sighting>,
) -> RegistryModel {
    replay(RegistryModel { entries: pruned(m.entries, obs), next_serial: m.next_serial }, ids, report)
}

/// Whether a scan of `m` with these observations, handles and sightings is one
/// that the scan contract allows.
pub open spec fn scan_ok(m: RegistryModel, obs: Seq<Option<bool>>, ids: Seq<Seq<char>>, report: Seq<Sighting>) -> bool {
    &&& obs.len() == m.entries.len()
    &&& consistent(
        RegistryModel { entries: pruned(m.entries, obs), next_serial: m.next_serial },
        ids,
        report,
    )
}

proof fn lemma_pruned_keeps(entries: Seq<(Seq<char>, u64)>, obs: Seq<Option<bool>>, i: int)
    requires
        entries.len() == obs.len(),
        0 <= i < entries.len(),
        !evicts(obs[i]),
    ensures
        exists|a: int| 0 <= a < pruned(entries, obs).len() && #[trigger] pruned(entries, obs)[a] == entries[i],
    decreases entries.len(),
{
    let e = entries.drop_last();
    let o = obs.drop_last();
    let p = pruned(entries, obs);
    if i == entries.len() - 1 {
        assert(p == pruned(e, o).push(entries[i]));
        assert(p[p.len() - 1] == entries[i]);
    } else {
        lemma_pruned_keeps(e, o, i);
        let a = choose|a: int| 0 <= a < pruned(e, o).len() && #[trigger] pruned(e, o)[a] == e[i];
        if evicts(obs.last()) {
            assert(p[a] == entries[i]);
        } else {
            assert(p == pruned(e, o).push(entries.last()));
            assert(p[a] == entries[i]);
        }
    }
}

proof fn lemma_added_registered(m: RegistryModel, ids: Seq<Seq<char>>, report: Seq<Sighting>, k: int)
    requires
        consistent(m, ids, report),
        0 <= k < ids.len(),
        report[k] is Added,
    ensures
        has_id(replay(m, ids, report), ids[k]),
{
    let n = ids.len() as int;
    let before = replay(m, ids.take(k), report.take(k));
    assert(step_ok(before, ids[k], report[k]));
    let after = replay(m, ids.take(k + 1), report.take(k + 1));
    assert(ids.take(k + 1).drop_last() =~= ids.take(k));
    assert(report.take(k + 1).drop_last() =~= report.take(k));
    assert(after.entries.last() == (ids[k], report[k]->Added_serial));
    assert(has_id(after, ids[k]));
    let tail_ids = ids.subrange(k + 1, n);
    let tail_rep = report.subrange(k + 1, n);
    lemma_replay_append(m, ids.take(k + 1), report.take(k + 1), tail_ids, tail_rep);
    assert(ids.take(k + 1) + tail_ids =~= ids);
    assert(report.take(k + 1) + tail_rep =~= report);
    lemma_has_id_kept(after, tail_ids, tail_rep, ids[k]);
}

/// A registered identifier whose record is not evicted is still registered
/// after a scan, and every sighting of it in that scan rebinds its record.
pub proof fn registered_identifier_survives_scan(
    m: RegistryModel,
    obs: Seq<Option<bool>>,
    ids: Seq<Seq<char>>,
    report: Seq<Sighting>,
    id: Seq<char>,
)
    requires
        scan_ok(m, obs, ids, report),
        has_id(m, id),
        forall|i: int| 0 <= i < m.entries.len() && (#[trigger] m.entries[i]).0 == id ==> !evicts(obs[i]),
    ensures
        has_id(scan_round(m, obs, ids, report), id),
        forall|k: int|
            0 <= k < ids.len() && ids[k] == id ==> (#[trigger] report[k] is Reconnected
                || report[k] is ReconnectFailed),
{
    let m1 = RegistryModel { entries: pruned(m.entries, obs), next_serial: m.next_serial };
    let i = choose|i: int| 0 <= i < m.entries.len() && (#[trigger] m.entries[i]).0 == id;
    lemma_pruned_keeps(m.entries, obs, i);
    let a = choose|a: int| 0 <= a < pruned(m.entries, obs).len() && #[trigger] pruned(m.entries, obs)[a] == m.entries[i];
    assert(m1.entries[a].0 == id);
    assert(has_id(m1, id));
    registered_identifier_is_reconnected(m1, ids, report, id);
}

/// Idempotent rediscovery over many scans: an identifier returned by `N`
/// consecutive scans, first built and registered in the first of them, and
/// never evicted, is added in no later scan: each later sighting of it rebinds
/// its record; within the first scan it is added once.
pub proof fn rediscovery_adds_once(
    states: Seq<RegistryModel>,
    obss: Seq<Seq<Option<bool>>>,
    idss: Seq<Seq<Seq<char>>>,
    reports: Seq<Seq<Sighting>>,
    id: Seq<char>,
    k0: int,
)
    requires
        obss.len() == idss.len() == reports.len(),
        idss.len() >= 1,
        states.len() == idss.len() + 1,
        forall|t: int|
            0 <= t < idss.len() ==> #[trigger] scan_ok(states[t], obss[t], idss[t], reports[t])
                && states[t + 1] == scan_round(states[t], obss[t], idss[t], reports[t]),
        forall|t: int, i: int|
            0 <= t < idss.len() && 0 <= i < states[t].entries.len() && (#[trigger] states[t].entries[i]).0 == id
                ==> !evicts(obss[t][i]),
        0 <= k0 < idss[0].len(),
        idss[0][k0] == id,
        reports[0][k0] is Added,
    ensures
        forall|k: int|
            0 <= k < idss[0].len() && k != k0 && idss[0][k] == id ==> !(#[trigger] reports[0][k] is Added),
        forall|t: int, k: int|
            1 <= t < idss.len() && 0 <= k < idss[t].len() && idss[t][k] == id ==> (
            #[trigger] reports[t][k] is Reconnected || reports[t][k] is ReconnectFailed),
{
    let m1 = RegistryModel { entries: pruned(states[0].entries, obss[0]), next_serial: states[0].next_serial };
    assert(scan_ok(states[0], obss[0], idss[0], reports[0]));
    assert forall|k: int|
        0 <= k < idss[0].len() && k != k0 && idss[0][k] == id implies !(#[trigger] reports[0][k] is Added) by {
        if k < k0 {
            if reports[0][k] is Added {
                identifier_added_at_most_once(m1, idss[0], reports[0], k, k0);
            }
        } else {
            identifier_added_at_most_once(m1, idss[0], reports[0], k0, k);
        }
    }
    lemma_added_registered(m1, idss[0], reports[0], k0);
    lemma_registered_through(states, obss, idss, reports, id, 1);
    assert forall|t: int, k: int|
        1 <= t < idss.len() && 0 <= k < idss[t].len() && idss[t][k] == id implies (
        #[trigger] reports[t][k] is Reconnected || reports[t][k] is ReconnectFailed) by {
        lemma_registered_through(states, obss, idss, reports, id, t);
        assert(scan_ok(states[t], obss[t], idss[t], reports[t]));
        registered_identifier_survives_scan(states[t], obss[t], idss[t], reports[t], id);
    }
}

proof fn lemma_registered_through(
    states: Seq<RegistryModel>,
    obss: Seq<Seq<Option<bool>>>,
    idss: Seq<Seq<Seq<char>>>,
    reports: Seq<Seq<Sighting>>,
    id: Seq<char>,
    t: int,
)
    requires
        obss.len() == idss.len() == reports.len(),
        states.len() == idss.len() + 1,
        forall|u: int|
            0 <= u < idss.len() ==> #[trigger] scan_ok(states[u], obss[u], idss[u], reports[u])
                && states[u + 1] == scan_round(states[u], obss[u], idss[u], reports[u]),
        forall|u: int, i: int|
            0 <= u < idss.len() && 0 <= i < states[u].entries.len() && (#[trigger] states[u].entries[i]).0 == id
                ==> !evicts(obss[u][i]),
        1 <= t <= idss.len(),
        has_id(states[1], id),
    ensures
        has_id(states[t], id),
    decreases t,
{
    if t > 1 {
        lemma_registered_through(states, obss, idss, reports, id, t - 1);
        assert(scan_ok(states[t - 1], obss[t - 1], idss[t - 1], reports[t - 1]));
        registered_identifier_survives_scan(states[t - 1], obss[t - 1], idss[t - 1], reports[t - 1], id);
    }
}

/// Prune, then rediscover: once a record observed as manually disconnected
/// is pruned, its identifier is no longer registered, and a record built for
/// it on a later sighting has a serial number that the pruned one never had.
pub proof fn rediscovered_identifier_gets_new_record(
    m: RegistryModel,
    obs: Seq<Option<bool>>,
    ids: Seq<Seq<char>>,
    report: Seq<Sighting>,
    i: int,
    k: int,
)
    requires
        model_wf(m),
        obs.len() == m.entries.len(),
        0 <= i < m.entries.len(),
        evicts(obs[i]),
        consistent(
            RegistryModel { entries: pruned(m.entries, obs), next_serial: m.next_serial },
            ids,
            report,
        ),
        0 <= k < ids.len(),
        ids[k] == m.entries[i].0,
    ensures
        !has_id(RegistryModel { entries: pruned(m.entries, obs), next_serial: m.next_serial }, m.entries[i].0),
        report[k] is Added ==> report[k]->Added_serial != m.entries[i].1,
{
    let m1 = RegistryModel { entries: pruned(m.entries, obs), next_serial: m.next_serial };
    lemma_pruned_members(m.entries, obs);
    if has_id(m1, m.entries[i].0) {
        let a = choose|a: int| 0 <= a < m1.entries.len() && (#[trigger] m1.entries[a]).0 == m.entries[i].0;
        let j = choose|j: int|
            0 <= j < m.entries.len() && !evicts(obs[j]) && #[trigger] pruned(m.entries, obs)[a] == m.entries[j];
        assert(j != i);
        if j < i {
            assert(m.entries[j].0 != m.entries[i].0);
        } else {
            assert(m.entries[i].0 != m.entries[j].0);
        }
    }
    lemma_replay_grows(m1, ids.take(k), report.take(k));
    assert(step_ok(replay(m1, ids.take(k), report.take(k)), ids[k], report[k]));
}

struct Entry<R> {
    identifier: String,
    serial: u64,
    record: R,
}

/// The devices seen so far, by identifier. Each registered record carries a
/// serial number that no other record of this registry ever had.
pub struct Registry<R> {
    entries: Vec<Entry<R>>,
    next_serial: u64,
}

spec fn entry_view<R>(e: Entry<R>) -> (Seq<char>, u64) {
    (e.identifier@, e.serial)
}

impl<R> View for Registry<R> {
    type V = RegistryModel;

    closed spec fn view(&self) -> RegistryModel {
        RegistryModel {
            entries: self.entries@.map_values(|e: Entry<R>| entry_view(e)),
            next_serial: self.next_serial as nat,
        }
    }
}

impl<R> Registry<R> {
    /// Every identifier maps to one record, and there is one record per entry.
    pub open spec fn wf(&self) -> bool {
        &&& model_wf(self@)
        &&& self.records().len() == self@.entries.len()
    }

    /// The records, in the order of the entries.
    pub closed spec fn records(&self) -> Seq<R> {
        self.entries@.map_values(|e: Entry<R>| e.record)
    }

    /// An empty registry.
    pub fn new() -> (r: Self)
        ensures
            r.wf(),
            r@.entries.len() == 0,
            r@.next_serial == 0,
    {
        let r = Registry { entries: Vec::new(), next_serial: 0 };
        assert(r@.entries =~= Seq::empty());
        r
    }

    /// The number of registered records.
    pub fn len(&self) -> (n: usize)
        ensures
            n == self@.entries.len(),
    {
        self.entries.len()
    }

    /// The serial number that the next new record receives.
    pub fn next_serial(&self) -> (n: u64)
        ensures
            n == self@.next_serial,
    {
        self.next_serial
    }

    /// The position of the entry registered under `id`, if any.
    pub fn find(&self, id: &String) -> (r: Option<usize>)
        ensures
            match r {
                Some(i) => i < self@.entries.len() && self@.entries[i as int].0 == id@,
                None => !has_id(self@, id@),
            },
    {
        let mut i: usize = 0;
        while i < self.entries.len()
            invariant
                i <= self.entries.len(),
                forall|j: int| 0 <= j < i ==> (#[trigger] self@.entries[j]).0 != id@,
            decreases self.entries.len() - i,
        {
            if self.entries[i].identifier.eq(id) {
                return Some(i);
            }
            i += 1;
        }
        None
    }

    /// A clone of each registered record, in the order of the entries.
    pub fn cloned_records(&self) -> (r: Vec<R>)
        where
            R: Clone,
        ensures
            r.len() == self@.entries.len(),
            forall|i: int| 0 <= i < r.len() ==> call_ensures(R::clone, (&self.records()[i],), #[trigger] r[i]),
    {
        let mut r: Vec<R> = Vec::new();
        let mut i: usize = 0;
        while i < self.entries.len()
            invariant
                i <= self.entries.len(),
                r.len() == i,
                forall|j: int| 0 <= j < i ==> call_ensures(R::clone, (&self.records()[j],), #[trigger] r[j]),
            decreases self.entries.len() - i,
        {
            r.push(self.entries[i].record.clone());
            i += 1;
        }
        r
    }

    /// Prunes the registry: every record is examined once, in order, by
    /// `observe`, which must not wait for a record in use elsewhere: it gives
    /// `None` for such a record, else whether the record was manually
    /// disconnected. The entries that `evicts` marks are removed; the rest keep
    /// their order. The observations come back, one per former entry.
    pub fn prune<F: Fn(&R) -> Option<bool>>(&mut self, observe: F) -> (obs: Vec<Option<bool>>)
        requires
            old(self).wf(),
            forall|r: R| call_requires(observe, (&r,)),
        ensures
            final(self).wf(),
            obs.len() == old(self)@.entries.len(),
            forall|i: int|
                0 <= i < obs.len() ==> call_ensures(observe, (&old(self).records()[i],), #[trigger] obs[i]),
            final(self)@ == (RegistryModel {
                entries: pruned(old(self)@.entries, obs@),
                next_serial: old(self)@.next_serial,
            }),
            final(self).records() == pruned(old(self).records(), obs@),
    {
        let ghost om = self@.entries;
        let ghost recs = self.records();
        let mut rest: Vec<Entry<R>> = Vec::new();
        std::mem::swap(&mut rest, &mut self.entries);
        let ghost orig = rest@;
        assert(self@.entries =~= Seq::empty());
        assert(om.take(0) =~= Seq::empty());
        assert(recs.take(0) =~= Seq::empty());
        assert(self.records() =~= Seq::empty());
        let mut obs: Vec<Option<bool>> = Vec::new();
        while rest.len() > 0
            invariant
                orig.len() == obs.len() + rest.len(),
                rest@ =~= orig.subrange(obs.len() as int, orig.len() as int),
                om == orig.map_values(|e: Entry<R>| entry_view(e)),
                recs == orig.map_values(|e: Entry<R>| e.record),
                forall|a: int, b: int| 0 <= a < b < om.len() ==> (#[trigger] om[a]).0 != (#[trigger] om[b]).0,
                forall|a: int| 0 <= a < om.len() ==> (#[trigger] om[a]).1 < self.next_serial,
                self.next_serial == old(self).next_serial,
                self.records() == pruned(recs.take(obs.len() as int), obs@),
                forall|r: R| call_requires(observe, (&r,)),
                forall|k: int| 0 <= k < obs.len() ==> call_ensures(observe, (&recs[k],), #[trigger] obs[k]),
                self@.entries == pruned(om.take(obs.len() as int), obs@),
                model_wf(self@),
                forall|a: int|
                    0 <= a < self@.entries.len() ==> exists|j: int|
                        0 <= j < obs.len() && #[trigger] self@.entries[a] == om[j],
            decreases rest.len(),
        {
            let ghost i = obs.len() as int;
            let ghost before = self@.entries;
            let ghost recs_before = self.records();
            let ghost obs_before = obs@;
            let e = rest.remove(0);
            assert(orig[i] == e);
            let o = observe(&e.record);
            obs.push(o);
            let evict = match o {
                Some(b) => b,
                None => false,
            };
            if !evict {
                self.entries.push(e);
                assert(self@.entries =~= before.push(om[i]));
                assert(self.records() =~= recs_before.push(recs[i]));
                assert forall|a: int, b: int|
                    0 <= a < b < self@.entries.len() implies (#[trigger] self@.entries[a]).0
                        != (#[trigger] self@.entries[b]).0 by {
                    if b == before.len() {
                        let j = choose|j: int| 0 <= j < i && before[a] == om[j];
                        assert(om[j].0 != om[i].0);
                    }
                }
                assert(om[i].1 < self.next_serial);
                assert forall|a: int|
                    0 <= a < self@.entries.len() implies exists|j: int|
                        0 <= j < obs.len() && #[trigger] self@.entries[a] == om[j] by {
                    if a == before.len() {
                        assert(self@.entries[a] == om[i]);
                    } else {
                        let j = choose|j: int| 0 <= j < i && before[a] == om[j];
                        assert(self@.entries[a] == om[j]);
                    }
                }
            } else {
                assert(self@.entries =~= before);
                assert(self.records() =~= recs_before);
            }
            assert(om.take(i + 1).drop_last() =~= om.take(i));
            assert(recs.take(i + 1).drop_last() =~= recs.take(i));
            assert(recs.take(i + 1).last() == recs[i]);
            assert(obs@.drop_last() =~= obs_before);
            assert(om.take(i + 1).last() == om[i]);
        }
        assert(om.take(orig.len() as int) =~= om);
        assert(recs.take(orig.len() as int) =~= recs);
        obs
    }

    /// Reconciles the handles of one scan with the registry, in order. A
    /// handle whose identifier is registered rebinds that record through
    /// `reconnect`; any other is handed to `connect`, and the record built
    /// from it is registered under the next serial number. A failure of
    /// either is recorded and the next handle is processed. The result is
    /// one sighting per handle and the newly registered records, in order of
    /// discovery, each a clone of the registered one.
    pub fn reconcile<H, C, G>(&mut self, found: Vec<(String, H)>, connect: C, reconnect: G) -> (out: (
        Vec<Sighting>,
        Vec<Pending<R>>,
    )) where
        R: Clone,
        C: Fn(H) -> Result<R, WiimoteDeviceError>,
        G: Fn(&R, H) -> Result<(), WiimoteDeviceError>,

        requires
            old(self).wf(),
            old(self)@.next_serial + found.len() <= u64::MAX,
            forall|h: H| call_requires(connect, (h,)),
            forall|r: R, h: H| call_requires(reconnect, (&r, h)),
        ensures
            final(self).wf(),
            consistent(old(self)@, ids_of(found@), out.0@),
            final(self)@ == replay(old(self)@, ids_of(found@), out.0@),
            serials_of(out.1@) == added_serials(out.0@),
            final(self)@.entries.len() == old(self)@.entries.len() + out.1.len(),
            forall|t: int|
                0 <= t < out.1.len() ==> call_ensures(
                    R::clone,
                    (&final(self).records()[old(self)@.entries.len() + t],),
                    (#[trigger] out.1@[t]).item,
                ),
            final(self).records().len() == final(self)@.entries.len(),
            final(self).records().subrange(0, old(self)@.entries.len() as int) == old(self).records(),
            forall|k: int|
                0 <= k < found.len() ==> call_matches(
                    connect,
                    reconnect,
                    final(self)@.entries,
                    final(self).records(),
                    found@[k].0@,
                    found@[k].1,
                    #[trigger] out.0@[k],
                ),
    {
        let ghost m0 = self@;
        let ghost e0 = self@.entries.len();
        let ghost recs0 = self.records();
        assert(recs0.subrange(0, e0 as int) =~= recs0);
        let ghost ids = ids_of(found@);
        let ghost all = found@;
        let mut rest = found;
        let mut report: Vec<Sighting> = Vec::new();
        let mut fresh: Vec<Pending<R>> = Vec::new();
        assert(ids.take(0) =~= Seq::<Seq<char>>::empty());
        assert(report@ =~= Seq::<Sighting>::empty());
        assert(serials_of(fresh@) =~= Seq::<u64>::empty());
        while rest.len() > 0
            invariant
                all.len() == report.len() + rest.len(),
                rest@ =~= all.subrange(report.len() as int, all.len() as int),
                ids == ids_of(all),
                self.wf(),
                self.next_serial + rest.len() <= u64::MAX,
                forall|h: H| call_requires(connect, (h,)),
                forall|r: R, h: H| call_requires(reconnect, (&r, h)),
                forall|j: int|
                    0 <= j < report.len() ==> step_ok(
                        #[trigger] replay(m0, ids.take(j), report@.take(j)),
                        ids[j],
                        report@[j],
                    ),
                self@ == replay(m0, ids.take(report.len() as int), report@),
                serials_of(fresh@) == added_serials(report@),
                self@.entries.len() == e0 + fresh.len(),
                forall|t: int|
                    0 <= t < fresh.len() ==> call_ensures(
                        R::clone,
                        (&self.records()[e0 + t],),
                        (#[trigger] fresh@[t]).item,
                    ),
                self.records().len() == self@.entries.len(),
                self.records().subrange(0, e0 as int) == recs0,
                forall|j: int|
                    0 <= j < report.len() ==> call_matches(
                        connect,
                        reconnect,
                        self@.entries,
                        self.records(),
                        all[j].0@,
                        all[j].1,
                        #[trigger] report@[j],
                    ),
            decreases rest.len(),
        {
            let ghost k = report.len() as int;
            let ghost before = self@;
            let ghost report_before = report@;
            let ghost recs_pre = self.records();
            let (id, handle) = rest.remove(0);
            assert(all[k] == (id, handle));
            assert(ids[k] == id@);
            let s = match self.find(&id) {
                Some(i) => {
                    let serial = self.entries[i].serial;
                    assert(self@.entries[i as int] == (id@, serial));
                    assert(self.records()[i as int] == self.entries@[i as int].record);
                    let result = reconnect(&self.entries[i].record, handle);
                    assert(call_ensures(reconnect, (&self.records()[i as int], all[k].1), result));
                    assert(self@.entries[i as int] == (all[k].0@, serial));
                    match result {
                        Ok(u) => {
                            assert(result == Ok::<(), WiimoteDeviceError>(u));
                            assert(u == ());
                            assert(call_matches(connect, reconnect, self@.entries, self.records(), all[k].0@, all[k].1, Sighting::Reconnected { serial }));
                            Sighting::Reconnected { serial }
                        },
                        Err(error) => {
                            assert(call_matches(connect, reconnect, self@.entries, self.records(), all[k].0@, all[k].1, Sighting::ReconnectFailed { serial, error }));
                            Sighting::ReconnectFailed { serial, error }
                        },
                    }
                },
                None => match connect(handle) {
                    Ok(record) => {
                        assert(call_ensures(connect, (all[k].1,), Ok::<R, WiimoteDeviceError>(record)));
                        let serial = self.next_serial;
                        let copy = record.clone();
                        let ghost recs_before = self.records();
                        let ghost fresh_before = fresh@;
                        self.entries.push(Entry { identifier: id, serial, record });
                        assert(self.records() =~= recs_before.push(record));
                        self.next_serial = serial + 1;
                        fresh.push(Pending { serial, item: copy });
                        assert(self@.entries =~= before.entries.push((ids[k], serial)));
                        assert(self@.entries[before.entries.len() as int] == (id@, serial));
                        assert(self.records()[before.entries.len() as int] == record);
                        assert(call_matches(
                            connect,
                            reconnect,
                            self@.entries,
                            self.records(),
                            all[k].0@,
                            all[k].1,
                            Sighting::Added { serial },
                        ));
                        assert(self.records().subrange(0, e0 as int) =~= recs_before.subrange(0, e0 as int));
                        assert(serials_of(fresh@) =~= added_serials(report_before).push(serial));
                        assert forall|t: int| 0 <= t < fresh.len() implies call_ensures(
                            R::clone,
                            (&self.records()[e0 + t],),
                            (#[trigger] fresh@[t]).item,
                        ) by {
                            if t < fresh_before.len() {
                                assert(fresh@[t] == fresh_before[t]);
                                assert(self.records()[e0 + t] == recs_before[e0 + t]);
                            }
                        }
                        Sighting::Added { serial }
                    },
                    Err(error) => {
                        assert(call_matches(connect, reconnect, self@.entries, self.records(), all[k].0@, all[k].1, Sighting::Rejected { error }));
                        Sighting::Rejected { error }
                    },
                },
            };
            assert(step_ok(before, ids[k], s));
            assert(call_matches(connect, reconnect, self@.entries, self.records(), all[k].0@, all[k].1, s));
            assert forall|j: int| 0 <= j < k implies call_matches(
                connect,
                reconnect,
                self@.entries,
                self.records(),
                all[j].0@,
                all[j].1,
                #[trigger] report_before[j],
            ) by {
                assert(self@.entries.subrange(0, before.entries.len() as int) =~= before.entries);
                assert(self.records().subrange(0, recs_pre.len() as int) =~= recs_pre);
                lemma_call_matches_extend(
                    connect,
                    reconnect,
                    before.entries,
                    recs_pre,
                    self@.entries,
                    self.records(),
                    all[j].0@,
                    all[j].1,
                    report_before[j],
                );
            }
            report.push(s);
            assert forall|j: int| 0 <= j < report.len() implies call_matches(
                connect,
                reconnect,
                self@.entries,
                self.records(),
                all[j].0@,
                all[j].1,
                #[trigger] report@[j],
            ) by {
                if j < k {
                    assert(report@[j] == report_before[j]);
                }
            }
            assert forall|j: int| 0 <= j < report.len() implies step_ok(
                #[trigger] replay(m0, ids.take(j), report@.take(j)),
                ids[j],
                report@[j],
            ) by {
                if j < k {
                    assert(report@.take(j) =~= report_before.take(j));
                    assert(report@[j] == report_before[j]);
                } else {
                    assert(report@.take(j) =~= report_before);
                }
            }
            assert(ids.take(k + 1).drop_last() =~= ids.take(k));
            assert(report@.drop_last() =~= report_before);
            assert(self@ == apply(before, ids[k], s));
        }
        assert(ids.take(all.len() as int) =~= ids);
        (report, fresh)
    }
}

} // verus!
