//! The three-way reconciliation between the two canonical inventories.
//!
//! The registry says which devices should exist; the monitor says which
//! it knows and which of those are disabled. The diff yields three
//! action sets: register what the monitor lacks, disable what the
//! registry no longer holds, and re-enable what is disabled yet present
//! in the registry. Planning the writes of a run, including the dry-run
//! mode that plans none, lives here too.

use vstd::prelude::*;

use crate::inventory::Inventory;
use crate::inventory::InventoryEntry;
use crate::inventory::spec_monitor_map;
use crate::netshot;

verus! {

/// Does some element of `ips` read as the IP `k`?
pub open spec fn spec_contains_ip(ips: Seq<String>, k: Seq<char>) -> bool {
    exists|i: int| 0 <= i < ips.len() && #[trigger] ips[i]@ == k
}

/// No IP occurs twice in `ips`.
pub open spec fn spec_unique_ips(ips: Seq<String>) -> bool {
    forall|a: int, b: int| 0 <= a < b < ips.len() ==> ips[a]@ != ips[b]@
}

/// Does one of the first `n` inventory entries carry the IP `k`?
pub open spec fn spec_prefix_has(pairs: Seq<InventoryEntry>, n: int, k: Seq<char>) -> bool {
    exists|j: int| 0 <= j < n && #[trigger] pairs[j].ip@ == k
}

/// Does some device of `devs` with status `DISABLED` carry the IP `k`?
pub open spec fn spec_disabled_ip(devs: Seq<netshot::Device>, k: Seq<char>) -> bool {
    exists|i: int|
        0 <= i < devs.len() && netshot::spec_is_disabled(#[trigger] devs[i])
            && devs[i].management_address.ip@ == k
}

/// The IPs to re-enable, in device-list order: one for each disabled
/// monitor device whose IP the registry holds.
pub open spec fn spec_enable_ips(
    devs: Seq<netshot::Device>,
    registry: Map<Seq<char>, Seq<char>>,
) -> Seq<Seq<char>>
    decreases devs.len(),
{
    if devs.len() == 0 {
        Seq::empty()
    } else {
        let rest = spec_enable_ips(devs.drop_last(), registry);
        let d = devs.last();
        if netshot::spec_is_disabled(d) && registry.dom().contains(d.management_address.ip@) {
            rest.push(d.management_address.ip@)
        } else {
            rest
        }
    }
}

/// The three action sets of one reconciliation run, each an ordered
/// sequence of bare IPs, computed once and immutable afterwards.
pub struct ReconcileResult {
    pub to_register: Vec<String>,
    pub to_disable: Vec<String>,
    pub to_enable: Vec<String>,
}

/// Everything `reconcile` promises of its result:
/// `to_register` holds, once each, exactly the IPs in the registry map
/// and not in the monitor map; `to_disable` holds, once each, exactly
/// the IPs in the monitor map and not in the registry map; `to_enable`
/// holds, in device-list order, the IP of each disabled monitor device
/// that the registry map contains.
pub open spec fn spec_reconcile_post(
    r: ReconcileResult,
    registry: Map<Seq<char>, Seq<char>>,
    monitor: Map<Seq<char>, Seq<char>>,
    monitor_devices: Seq<netshot::Device>,
) -> bool {
    &&& forall|k: Seq<char>| #[trigger] spec_contains_ip(r.to_register@, k) <==> registry.dom().contains(k)
        && !monitor.dom().contains(k)
    &&& spec_unique_ips(r.to_register@)
    &&& forall|k: Seq<char>| #[trigger] spec_contains_ip(r.to_disable@, k) <==> monitor.dom().contains(k)
        && !registry.dom().contains(k)
    &&& spec_unique_ips(r.to_disable@)
    &&& r.to_enable@.map_values(|s: String| s@) == spec_enable_ips(monitor_devices, registry)
}

/// Compute the three action sets from the two canonical maps and the raw
/// monitor device list (which alone knows each device's status).
pub fn reconcile(
    registry: &Inventory,
    monitor: &Inventory,
    monitor_devices: &Vec<netshot::Device>,
) -> (r: ReconcileResult)
    requires
        registry.wf(),
        monitor.wf(),
    ensures
        spec_reconcile_post(r, registry@, monitor@, monitor_devices@),
{
    let to_register = keys_missing_from(registry, monitor);
    let to_disable = keys_missing_from(monitor, registry);

    let mut to_enable: Vec<String> = Vec::new();
    let dev_count = monitor_devices.len();
    let mut i: usize = 0;
    proof {
        assert(monitor_devices@.take(0int) =~= Seq::<netshot::Device>::empty());
        assert(to_enable@.map_values(|s: String| s@) =~= spec_enable_ips(
            monitor_devices@.take(0int),
            registry@,
        ));
    }
    while i < dev_count
        invariant
            registry.wf(),
            dev_count == monitor_devices@.len(),
            0 <= i <= dev_count,
            to_enable@.map_values(|s: String| s@) == spec_enable_ips(
                monitor_devices@.take(i as int),
                registry@,
            ),
        decreases dev_count - i,
    {
        let device = &monitor_devices[i];
        let ghost pre = to_enable@;
        if device.is_disabled() && registry.contains_ip(&device.management_address.ip) {
            to_enable.push(device.management_address.ip.clone());
            proof {
                assert(to_enable@.map_values(|s: String| s@) =~= pre.map_values(|s: String| s@)
                    .push(device.management_address.ip@));
            }
        }
        proof {
            assert(monitor_devices@.take(i + 1).drop_last() =~= monitor_devices@.take(i as int));
            assert(monitor_devices@.take(i + 1).last() == monitor_devices@[i as int]);
        }
        i = i + 1;
    }
    proof {
        assert(monitor_devices@.take(dev_count as int) =~= monitor_devices@);
    }

    proof {
        assert forall|k: Seq<char>| #[trigger] spec_contains_ip(to_register@, k)
            <==> registry@.dom().contains(k) && !monitor@.dom().contains(k) by {
            registry.lemma_view_pairs(k);
        }
        assert forall|k: Seq<char>| #[trigger] spec_contains_ip(to_disable@, k)
            <==> monitor@.dom().contains(k) && !registry@.dom().contains(k) by {
            monitor.lemma_view_pairs(k);
        }
    }
    ReconcileResult { to_register, to_disable, to_enable }
}

/// The IPs of `from`'s entries, in entry order, that `other` does not
/// hold: one side of the set difference.
fn keys_missing_from(from: &Inventory, other: &Inventory) -> (r: Vec<String>)
    requires
        from.wf(),
        other.wf(),
    ensures
        forall|k: Seq<char>| #[trigger] spec_contains_ip(r@, k) <==> spec_prefix_has(
            from.pairs(),
            from.pairs().len() as int,
            k,
        ) && !other@.dom().contains(k),
        spec_unique_ips(r@),
{
    let mut r: Vec<String> = Vec::new();
    let count = from.len();
    let mut i: usize = 0;
    while i < count
        invariant
            from.wf(),
            other.wf(),
            count == from.pairs().len(),
            0 <= i <= count,
            forall|k: Seq<char>| #[trigger] spec_contains_ip(r@, k) <==> spec_prefix_has(
                from.pairs(),
                i as int,
                k,
            ) && !other@.dom().contains(k),
            spec_unique_ips(r@),
        decreases count - i,
    {
        let entry = from.entry_at(i);
        if !other.contains_ip(&entry.ip) {
            let ghost pre = r@;
            r.push(entry.ip.clone());
            proof {
                assert(r@ =~= pre.push(entry.ip));
                assert(!spec_contains_ip(pre, entry.ip@)) by {
                    if spec_contains_ip(pre, entry.ip@) {
                        let j = choose|j: int|
                            0 <= j < i && #[trigger] from.pairs()[j].ip@ == entry.ip@;
                        assert(from.pairs()[j].ip@ == from.pairs()[i as int].ip@);
                    }
                }
                assert forall|k: Seq<char>| #[trigger] spec_contains_ip(r@, k)
                    <==> spec_prefix_has(from.pairs(), i + 1, k) && !other@.dom().contains(k) by {
                    if spec_contains_ip(r@, k) {
                        let idx = choose|idx: int| 0 <= idx < r@.len() && #[trigger] r@[idx]@ == k;
                        if idx < pre.len() {
                            assert(spec_contains_ip(pre, k));
                            let j = choose|j: int|
                                0 <= j < i && #[trigger] from.pairs()[j].ip@ == k;
                            assert(spec_prefix_has(from.pairs(), i + 1, k));
                        } else {
                            assert(k == entry.ip@);
                            assert(from.pairs()[i as int].ip@ == k);
                            assert(spec_prefix_has(from.pairs(), i + 1, k));
                        }
                    }
                    if spec_prefix_has(from.pairs(), i + 1, k) && !other@.dom().contains(k) {
                        let j = choose|j: int|
                            0 <= j < i + 1 && #[trigger] from.pairs()[j].ip@ == k;
                        if j < i {
                            assert(spec_prefix_has(from.pairs(), i as int, k));
                            assert(spec_contains_ip(pre, k));
                            let idx = choose|idx: int|
                                0 <= idx < pre.len() && #[trigger] pre[idx]@ == k;
                            assert(r@[idx]@ == k);
                        } else {
                            assert(r@[pre.len() as int]@ == k);
                        }
                    }
                }
                assert forall|a: int, b: int| 0 <= a < b < r@.len() implies r@[a]@ != r@[b]@ by {
                    if b < pre.len() {
                        assert(pre[a]@ != pre[b]@);
                    } else {
                        assert(r@[b]@ == entry.ip@);
                        if r@[a]@ == entry.ip@ {
                            assert(pre[a]@ == entry.ip@);
                            assert(spec_contains_ip(pre, entry.ip@));
                        }
                    }
                }
            }
        } else {
            proof {
                assert forall|k: Seq<char>| #[trigger] spec_contains_ip(r@, k)
                    <==> spec_prefix_has(from.pairs(), i + 1, k) && !other@.dom().contains(k) by {
                    if spec_contains_ip(r@, k) {
                        let j = choose|j: int|
                            0 <= j < i && #[trigger] from.pairs()[j].ip@ == k;
                        assert(spec_prefix_has(from.pairs(), i + 1, k));
                    }
                    if spec_prefix_has(from.pairs(), i + 1, k) && !other@.dom().contains(k) {
                        let j = choose|j: int|
                            0 <= j < i + 1 && #[trigger] from.pairs()[j].ip@ == k;
                        if j == i {
                            assert(from.pairs()[i as int].ip@ == k);
                            assert(other@.dom().contains(k));
                        } else {
                            assert(spec_prefix_has(from.pairs(), i as int, k));
                        }
                    }
                }
            }
        }
        i = i + 1;
    }
    r
}

/// Does some element of `s` equal the IP `k`?
pub open spec fn spec_seq_has(s: Seq<Seq<char>>, k: Seq<char>) -> bool {
    exists|i: int| 0 <= i < s.len() && #[trigger] s[i] == k
}

/// An IP string sequence holds `k` exactly when its sequence of views
/// does.
proof fn lemma_contains_map_values(ips: Seq<String>, k: Seq<char>)
    ensures
        spec_contains_ip(ips, k) <==> spec_seq_has(ips.map_values(|s: String| s@), k),
{
    let mapped = ips.map_values(|s: String| s@);
    if spec_contains_ip(ips, k) {
        let i = choose|i: int| 0 <= i < ips.len() && #[trigger] ips[i]@ == k;
        assert(mapped[i] == k);
    }
    if spec_seq_has(mapped, k) {
        let i = choose|i: int| 0 <= i < mapped.len() && #[trigger] mapped[i] == k;
        assert(ips[i]@ == k);
    }
}

/// The enable list holds `k` exactly when some disabled monitor device
/// carries `k` and the registry map holds `k`.
proof fn lemma_enable_ips_membership(
    devs: Seq<netshot::Device>,
    registry: Map<Seq<char>, Seq<char>>,
    k: Seq<char>,
)
    ensures
        spec_seq_has(spec_enable_ips(devs, registry), k) <==> spec_disabled_ip(devs, k)
            && registry.dom().contains(k),
    decreases devs.len(),
{
    if devs.len() > 0 {
        lemma_enable_ips_membership(devs.drop_last(), registry, k);
        assert(forall|i: int| 0 <= i < devs.len() - 1 ==> devs.drop_last()[i] == #[trigger] devs[i]);
        let d = devs.last();
        let rest = spec_enable_ips(devs.drop_last(), registry);
        let whole = spec_enable_ips(devs, registry);
        if netshot::spec_is_disabled(d) && registry.dom().contains(d.management_address.ip@) {
            assert(whole == rest.push(d.management_address.ip@));
            if spec_seq_has(whole, k) {
                let i = choose|i: int| 0 <= i < whole.len() && #[trigger] whole[i] == k;
                if i < rest.len() {
                    assert(rest[i] == k);
                } else {
                    assert(k == d.management_address.ip@);
                    assert(netshot::spec_is_disabled(devs[devs.len() - 1]));
                }
            }
            if spec_disabled_ip(devs, k) && registry.dom().contains(k) {
                if k == d.management_address.ip@ {
                    assert(whole[rest.len() as int] == k);
                } else {
                    let i = choose|i: int|
                        0 <= i < devs.len() && netshot::spec_is_disabled(#[trigger] devs[i])
                            && devs[i].management_address.ip@ == k;
                    assert(i < devs.len() - 1);
                    assert(netshot::spec_is_disabled(devs.drop_last()[i]));
                    assert(spec_disabled_ip(devs.drop_last(), k));
                    let j = choose|j: int| 0 <= j < rest.len() && #[trigger] rest[j] == k;
                    assert(whole[j] == k);
                }
            }
        } else {
            assert(whole == rest);
            if spec_disabled_ip(devs, k) && registry.dom().contains(k) {
                let i = choose|i: int|
                    0 <= i < devs.len() && netshot::spec_is_disabled(#[trigger] devs[i])
                        && devs[i].management_address.ip@ == k;
                if i == devs.len() - 1 {
                    assert(netshot::spec_is_disabled(d) && registry.dom().contains(
                        d.management_address.ip@,
                    ));
                } else {
                    assert(netshot::spec_is_disabled(devs.drop_last()[i]));
                    assert(spec_disabled_ip(devs.drop_last(), k));
                }
            }
            if spec_seq_has(whole, k) {
                assert(spec_disabled_ip(devs.drop_last(), k));
                let i = choose|i: int|
                    0 <= i < devs.drop_last().len() && netshot::spec_is_disabled(
                        #[trigger] devs.drop_last()[i],
                    ) && devs.drop_last()[i].management_address.ip@ == k;
                assert(netshot::spec_is_disabled(devs[i]));
            }
        }
    }
}

/// No IP appears in more than one action set: an IP can only be missing
/// from the monitor, missing from the registry, or disabled yet wanted —
/// never two of these at once.
pub proof fn lemma_action_sets_disjoint(
    r: ReconcileResult,
    registry: Map<Seq<char>, Seq<char>>,
    monitor: Map<Seq<char>, Seq<char>>,
    monitor_devices: Seq<netshot::Device>,
)
    requires
        spec_reconcile_post(r, registry, monitor, monitor_devices),
        monitor == spec_monitor_map(monitor_devices),
    ensures
        forall|k: Seq<char>|
            !(#[trigger] spec_contains_ip(r.to_register@, k) && spec_contains_ip(r.to_disable@, k)),
        forall|k: Seq<char>|
            !(#[trigger] spec_contains_ip(r.to_register@, k) && spec_contains_ip(r.to_enable@, k)),
        forall|k: Seq<char>|
            !(#[trigger] spec_contains_ip(r.to_disable@, k) && spec_contains_ip(r.to_enable@, k)),
{
    assert forall|k: Seq<char>|
        !(#[trigger] spec_contains_ip(r.to_register@, k) && spec_contains_ip(
            r.to_enable@,
            k,
        )) by {
        if spec_contains_ip(r.to_enable@, k) {
            lemma_contains_map_values(r.to_enable@, k);
            lemma_enable_ips_membership(monitor_devices, registry, k);
            let i = choose|i: int|
                0 <= i < monitor_devices.len() && netshot::spec_is_disabled(
                    #[trigger] monitor_devices[i],
                ) && monitor_devices[i].management_address.ip@ == k;
            crate::inventory::lemma_monitor_map_domain(monitor_devices, k);
            assert(monitor.dom().contains(k));
        }
    }
    assert forall|k: Seq<char>|
        !(#[trigger] spec_contains_ip(r.to_disable@, k) && spec_contains_ip(
            r.to_enable@,
            k,
        )) by {
        if spec_contains_ip(r.to_enable@, k) {
            lemma_contains_map_values(r.to_enable@, k);
            lemma_enable_ips_membership(monitor_devices, registry, k);
            assert(registry.dom().contains(k));
        }
    }
}

/// Reconciliation is deterministic: any two results that meet the
/// contract on the same inputs hold the same register and disable IPs
/// and the very same enable list.
pub proof fn lemma_reconcile_deterministic(
    r1: ReconcileResult,
    r2: ReconcileResult,
    registry: Map<Seq<char>, Seq<char>>,
    monitor: Map<Seq<char>, Seq<char>>,
    monitor_devices: Seq<netshot::Device>,
)
    requires
        spec_reconcile_post(r1, registry, monitor, monitor_devices),
        spec_reconcile_post(r2, registry, monitor, monitor_devices),
    ensures
        forall|k: Seq<char>| #[trigger] spec_contains_ip(r1.to_register@, k)
            <==> spec_contains_ip(r2.to_register@, k),
        forall|k: Seq<char>| #[trigger] spec_contains_ip(r1.to_disable@, k)
            <==> spec_contains_ip(r2.to_disable@, k),
        r1.to_enable@.map_values(|s: String| s@) == r2.to_enable@.map_values(|s: String| s@),
{
}

/// After the actions are applied, a second run finds nothing to
/// register and nothing to enable; what it finds to disable are exactly
/// the IPs of the first run's disable set, each already disabled, so no
/// write follows from them.
///
/// Applying is stated abstractly: registering adds exactly the first
/// run's register IPs to the monitor map, and afterwards a device is
/// disabled exactly when it was disabled and not re-enabled, or was
/// just disabled.
pub proof fn lemma_reconcile_fixed_point(
    r1: ReconcileResult,
    r2: ReconcileResult,
    registry: Map<Seq<char>, Seq<char>>,
    monitor1: Map<Seq<char>, Seq<char>>,
    devices1: Seq<netshot::Device>,
    monitor2: Map<Seq<char>, Seq<char>>,
    devices2: Seq<netshot::Device>,
)
    requires
        spec_reconcile_post(r1, registry, monitor1, devices1),
        forall|k: Seq<char>| #[trigger] monitor2.dom().contains(k) <==> monitor1.dom().contains(k)
            || spec_contains_ip(r1.to_register@, k),
        forall|k: Seq<char>| #[trigger] spec_disabled_ip(devices2, k) <==> (spec_disabled_ip(
            devices1,
            k,
        ) && !spec_contains_ip(r1.to_enable@, k)) || spec_contains_ip(r1.to_disable@, k),
        spec_reconcile_post(r2, registry, monitor2, devices2),
    ensures
        r2.to_register@.len() == 0,
        r2.to_enable@.len() == 0,
        forall|k: Seq<char>| #[trigger] spec_contains_ip(r2.to_disable@, k) <==> spec_contains_ip(
            r1.to_disable@,
            k,
        ),
        forall|k: Seq<char>| #[trigger] spec_contains_ip(r2.to_disable@, k) ==> spec_disabled_ip(
            devices2,
            k,
        ),
{
    assert forall|k: Seq<char>| !(#[trigger] spec_contains_ip(r2.to_register@, k)) by {
        if spec_contains_ip(r2.to_register@, k) {
            assert(registry.dom().contains(k) && !monitor2.dom().contains(k));
            if !monitor1.dom().contains(k) {
                assert(spec_contains_ip(r1.to_register@, k));
            }
        }
    }
    if r2.to_register@.len() > 0 {
        assert(spec_contains_ip(r2.to_register@, r2.to_register@[0]@));
    }
    assert forall|k: Seq<char>|
        !(spec_disabled_ip(devices2, k) && #[trigger] registry.dom().contains(k)) by {
        if spec_disabled_ip(devices2, k) && registry.dom().contains(k) {
            if spec_contains_ip(r1.to_disable@, k) {
                assert(!registry.dom().contains(k));
            } else {
                assert(spec_disabled_ip(devices1, k) && !spec_contains_ip(r1.to_enable@, k));
                lemma_contains_map_values(r1.to_enable@, k);
                lemma_enable_ips_membership(devices1, registry, k);
            }
        }
    }
    let enable2 = spec_enable_ips(devices2, registry);
    if enable2.len() > 0 {
        assert(spec_seq_has(enable2, enable2[0]));
        lemma_enable_ips_membership(devices2, registry, enable2[0]);
    }
    assert(r2.to_enable@.map_values(|s: String| s@).len() == r2.to_enable@.len());
    assert forall|k: Seq<char>| #[trigger] spec_contains_ip(r2.to_disable@, k)
        <==> spec_contains_ip(r1.to_disable@, k) by {
        if spec_contains_ip(r2.to_disable@, k) {
            assert(monitor2.dom().contains(k) && !registry.dom().contains(k));
            if spec_contains_ip(r1.to_register@, k) {
                assert(registry.dom().contains(k));
            }
            assert(monitor1.dom().contains(k));
        }
        if spec_contains_ip(r1.to_disable@, k) {
            assert(monitor1.dom().contains(k) && !registry.dom().contains(k));
            assert(monitor2.dom().contains(k));
        }
    }
}

/// One write that a run applies to the monitor.
pub enum WriteAction {
    Register(String),
    Disable(String),
    Enable(String),
}

/// The registration writes for a register list, in order.
pub open spec fn spec_register_writes(ips: Seq<String>) -> Seq<WriteAction>
    decreases ips.len(),
{
    if ips.len() == 0 {
        Seq::empty()
    } else {
        spec_register_writes(ips.drop_last()).push(WriteAction::Register(ips.last()))
    }
}

/// The disable writes for a disable list, in order.
pub open spec fn spec_disable_writes(ips: Seq<String>) -> Seq<WriteAction>
    decreases ips.len(),
{
    if ips.len() == 0 {
        Seq::empty()
    } else {
        spec_disable_writes(ips.drop_last()).push(WriteAction::Disable(ips.last()))
    }
}

/// The enable writes for an enable list, in order.
pub open spec fn spec_enable_writes(ips: Seq<String>) -> Seq<WriteAction>
    decreases ips.len(),
{
    if ips.len() == 0 {
        Seq::empty()
    } else {
        spec_enable_writes(ips.drop_last()).push(WriteAction::Enable(ips.last()))
    }
}

/// The writes one run applies: register every missing device, then
/// disable every stale one, then enable every disabled-but-wanted one.
/// In check mode no write is planned at all; the action sets are only
/// reported.
pub fn plan_actions(r: &ReconcileResult, check: bool) -> (w: Vec<WriteAction>)
    ensures
        check ==> w@ == Seq::<WriteAction>::empty(),
        !check ==> w@ == spec_register_writes(r.to_register@) + spec_disable_writes(r.to_disable@)
            + spec_enable_writes(r.to_enable@),
{
    let mut w: Vec<WriteAction> = Vec::new();
    proof {
        assert(w@ =~= Seq::<WriteAction>::empty());
    }
    if check {
        return w;
    }
    let reg_count = r.to_register.len();
    let mut i: usize = 0;
    proof {
        assert(r.to_register@.take(0int) =~= Seq::<String>::empty());
        assert(w@ =~= spec_register_writes(r.to_register@.take(0int)));
    }
    while i < reg_count
        invariant
            reg_count == r.to_register@.len(),
            0 <= i <= reg_count,
            w@ == spec_register_writes(r.to_register@.take(i as int)),
        decreases reg_count - i,
    {
        w.push(WriteAction::Register(r.to_register[i].clone()));
        proof {
            assert(r.to_register@.take(i + 1).drop_last() =~= r.to_register@.take(i as int));
            assert(r.to_register@.take(i + 1).last() == r.to_register@[i as int]);
        }
        i = i + 1;
    }
    proof {
        assert(r.to_register@.take(reg_count as int) =~= r.to_register@);
    }
    let dis_count = r.to_disable.len();
    let mut i: usize = 0;
    proof {
        assert(r.to_disable@.take(0int) =~= Seq::<String>::empty());
        assert(spec_disable_writes(r.to_disable@.take(0int)) =~= Seq::<WriteAction>::empty());
        assert(w@ =~= spec_register_writes(r.to_register@) + spec_disable_writes(
            r.to_disable@.take(0int),
        ));
    }
    while i < dis_count
        invariant
            dis_count == r.to_disable@.len(),
            0 <= i <= dis_count,
            w@ == spec_register_writes(r.to_register@) + spec_disable_writes(
                r.to_disable@.take(i as int),
            ),
        decreases dis_count - i,
    {
        w.push(WriteAction::Disable(r.to_disable[i].clone()));
        proof {
            assert(r.to_disable@.take(i + 1).drop_last() =~= r.to_disable@.take(i as int));
            assert(r.to_disable@.take(i + 1).last() == r.to_disable@[i as int]);
            assert(w@ =~= spec_register_writes(r.to_register@) + spec_disable_writes(
                r.to_disable@.take(i + 1),
            ));
        }
        i = i + 1;
    }
    proof {
        assert(r.to_disable@.take(dis_count as int) =~= r.to_disable@);
    }
    let ena_count = r.to_enable.len();
    let mut i: usize = 0;
    proof {
        assert(r.to_enable@.take(0int) =~= Seq::<String>::empty());
        assert(spec_enable_writes(r.to_enable@.take(0int)) =~= Seq::<WriteAction>::empty());
        assert(w@ =~= spec_register_writes(r.to_register@) + spec_disable_writes(r.to_disable@)
            + spec_enable_writes(r.to_enable@.take(0int)));
    }
    while i < ena_count
        invariant
            ena_count == r.to_enable@.len(),
            0 <= i <= ena_count,
            w@ == spec_register_writes(r.to_register@) + spec_disable_writes(r.to_disable@)
                + spec_enable_writes(r.to_enable@.take(i as int)),
        decreases ena_count - i,
    {
        w.push(WriteAction::Enable(r.to_enable[i].clone()));
        proof {
            assert(r.to_enable@.take(i + 1).drop_last() =~= r.to_enable@.take(i as int));
            assert(r.to_enable@.take(i + 1).last() == r.to_enable@[i as int]);
            assert(w@ =~= spec_register_writes(r.to_register@) + spec_disable_writes(r.to_disable@)
                + spec_enable_writes(r.to_enable@.take(i + 1)));
        }
        i = i + 1;
    }
    proof {
        assert(r.to_enable@.take(ena_count as int) =~= r.to_enable@);
    }
    w
}

} // verus!
