//! Canonical inventories: the IP-keyed snapshot of one system's devices.
//!
//! Both systems' raw device lists are projected into the same shape, a map
//! from bare IP address to display name. Registry records keep their IP
//! only after the CIDR suffix is stripped, and records lacking a name or a
//! primary IP are dropped; monitor records are taken as they are, their
//! IPs being bare already. Duplicate IPs resolve last-write-wins.

use vstd::prelude::*;

use crate::netbox;
use crate::netshot;

verus! {

/// The bare IP of an address string: everything before the first `/`, the
/// whole string when there is none.
pub open spec fn spec_bare_ip(s: Seq<char>) -> Seq<char>
    decreases s.len(),
{
    if s.len() == 0 {
        s
    } else if s[0] == '/' {
        Seq::empty()
    } else {
        seq![s[0]] + spec_bare_ip(s.drop_first())
    }
}

/// On a prefix free of `/` that ends at the string's end or at a `/`, the
/// bare IP is exactly that prefix.
proof fn lemma_bare_ip_take(s: Seq<char>, j: int)
    requires
        0 <= j <= s.len(),
        forall|k: int| 0 <= k < j ==> s[k] != '/',
        j == s.len() || s[j] == '/',
    ensures
        spec_bare_ip(s) == s.take(j),
    decreases s.len(),
{
    if j == 0 {
        if s.len() == 0 {
            assert(s.take(0int) =~= s);
        } else {
            assert(s[0] == '/');
            assert(s.take(0int) =~= Seq::<char>::empty());
        }
    } else {
        assert(s[0] != '/');
        let rest = s.drop_first();
        assert(forall|k: int| 0 <= k < j - 1 ==> rest[k] == s[k + 1] && s[k + 1] != '/');
        lemma_bare_ip_take(rest, j - 1);
        assert(s.take(j) =~= seq![s[0]] + rest.take(j - 1));
    }
}

/// A string without `/` is already bare.
pub proof fn lemma_bare_ip_id(s: Seq<char>)
    requires
        forall|k: int| 0 <= k < s.len() ==> s[k] != '/',
    ensures
        spec_bare_ip(s) == s,
{
    lemma_bare_ip_take(s, s.len() as int);
    assert(s.take(s.len() as int) =~= s);
}

/// Strip the CIDR suffix off an address: `"10.0.0.1/24"` becomes
/// `"10.0.0.1"`, and an address without a suffix is returned unchanged.
pub fn strip_cidr(address: &str) -> (r: String)
    ensures
        r@ == spec_bare_ip(address@),
{
    let n = address.unicode_len();
    let mut j: usize = 0;
    while j < n
        invariant
            0 <= j <= n == address@.len(),
            forall|k: int| 0 <= k < j ==> address@[k] != '/',
        decreases n - j,
    {
        if address.get_char(j) == '/' {
            proof {
                lemma_bare_ip_take(address@, j as int);
            }
            let prefix = address.substring_char(0, j);
            return prefix.to_owned();
        }
        j = j + 1;
    }
    proof {
        lemma_bare_ip_take(address@, n as int);
    }
    let whole = address.substring_char(0, n);
    whole.to_owned()
}

/// One entry of a canonical inventory: a bare IP and the display name
/// recorded for it.
pub struct InventoryEntry {
    pub ip: String,
    pub name: String,
}

/// A canonical inventory: a map from bare IP to display name, with one
/// entry per distinct IP.
pub struct Inventory {
    entries: Vec<InventoryEntry>,
}

/// The map that an entry sequence denotes, entries inserted front to
/// back, so that a later entry for the same IP wins.
spec fn map_of(entries: Seq<InventoryEntry>) -> Map<Seq<char>, Seq<char>>
    decreases entries.len(),
{
    if entries.len() == 0 {
        Map::empty()
    } else {
        map_of(entries.drop_last()).insert(entries.last().ip@, entries.last().name@)
    }
}

/// A key is in the denoted map exactly when some entry carries it.
proof fn lemma_map_of_dom(entries: Seq<InventoryEntry>, k: Seq<char>)
    ensures
        map_of(entries).dom().contains(k) <==> exists|i: int|
            0 <= i < entries.len() && #[trigger] entries[i].ip@ == k,
    decreases entries.len(),
{
    if entries.len() > 0 {
        lemma_map_of_dom(entries.drop_last(), k);
        if entries.last().ip@ == k {
            assert(entries[entries.len() - 1].ip@ == k);
        } else if map_of(entries).dom().contains(k) {
            let i = choose|i: int|
                0 <= i < entries.drop_last().len() && #[trigger] entries.drop_last()[i].ip@ == k;
            assert(entries[i].ip@ == k);
        } else {
            assert(forall|i: int| 0 <= i < entries.len() - 1 ==> entries.drop_last()[i] == #[trigger] entries[i]);
        }
    }
}

/// With unique keys, the denoted map sends each entry's IP to that
/// entry's name.
proof fn lemma_map_of_value(entries: Seq<InventoryEntry>, i: int)
    requires
        unique_ips(entries),
        0 <= i < entries.len(),
    ensures
        map_of(entries).dom().contains(entries[i].ip@),
        map_of(entries)[entries[i].ip@] == entries[i].name@,
    decreases entries.len(),
{
    lemma_map_of_dom(entries, entries[i].ip@);
    if i < entries.len() - 1 {
        assert(forall|a: int, b: int|
            0 <= a < b < entries.drop_last().len() ==> entries.drop_last()[a].ip@
                != entries.drop_last()[b].ip@);
        lemma_map_of_value(entries.drop_last(), i);
        assert(entries[i].ip@ != entries.last().ip@);
    }
}

/// Replacing the entry that carries a key denotes the same map as a map
/// insert of that key.
proof fn lemma_map_of_update(entries: Seq<InventoryEntry>, i: int, e: InventoryEntry)
    requires
        unique_ips(entries),
        0 <= i < entries.len(),
        e.ip@ == entries[i].ip@,
    ensures
        map_of(entries.update(i, e)) == map_of(entries).insert(e.ip@, e.name@),
    decreases entries.len(),
{
    let updated = entries.update(i, e);
    if i == entries.len() - 1 {
        assert(updated.drop_last() =~= entries.drop_last());
        assert(updated.last() == e);
        assert(map_of(entries.drop_last()).insert(entries.last().ip@, entries.last().name@).insert(
            e.ip@,
            e.name@,
        ) =~= map_of(entries.drop_last()).insert(e.ip@, e.name@));
    } else {
        assert(forall|a: int, b: int|
            0 <= a < b < entries.drop_last().len() ==> entries.drop_last()[a].ip@
                != entries.drop_last()[b].ip@);
        lemma_map_of_update(entries.drop_last(), i, e);
        assert(updated.drop_last() =~= entries.drop_last().update(i, e));
        assert(updated.last() == entries.last());
        assert(entries.last().ip@ != e.ip@);
        assert(map_of(entries.drop_last()).insert(e.ip@, e.name@).insert(
            entries.last().ip@,
            entries.last().name@,
        ) =~= map_of(entries.drop_last()).insert(entries.last().ip@, entries.last().name@).insert(
            e.ip@,
            e.name@,
        ));
    }
}

/// No two entries carry the same IP.
pub open spec fn unique_ips(entries: Seq<InventoryEntry>) -> bool {
    forall|a: int, b: int| 0 <= a < b < entries.len() ==> entries[a].ip@ != entries[b].ip@
}

impl Inventory {
    /// The entries in insertion order. The map view forgets this order;
    /// iteration and the reconciler's output order rest on it.
    pub closed spec fn pairs(self) -> Seq<InventoryEntry> {
        self.entries@
    }

    /// Well-formed: one entry per distinct IP.
    pub open spec fn wf(self) -> bool {
        unique_ips(self.pairs())
    }

    /// An empty inventory.
    pub fn new() -> (r: Self)
        ensures
            r.wf(),
            r@ == Map::<Seq<char>, Seq<char>>::empty(),
            r.pairs() == Seq::<InventoryEntry>::empty(),
    {
        Inventory { entries: Vec::new() }
    }

    /// How many distinct IPs the inventory holds.
    pub fn len(&self) -> (n: usize)
        ensures
            n == self.pairs().len(),
    {
        self.entries.len()
    }

    /// The entry at a position, for iteration.
    pub fn entry_at(&self, i: usize) -> (e: &InventoryEntry)
        requires
            i < self.pairs().len(),
        ensures
            *e == self.pairs()[i as int],
    {
        &self.entries[i]
    }

    /// Record `name` under `ip`, replacing what an earlier record left
    /// there: the later write wins.
    pub fn insert(&mut self, ip: String, name: String)
        requires
            old(self).wf(),
        ensures
            final(self).wf(),
            final(self)@ == old(self)@.insert(ip@, name@),
            final(self).pairs().len() <= old(self).pairs().len() + 1,
    {
        let count = self.entries.len();
        let mut i: usize = 0;
        while i < count
            invariant
                *self == *old(self),
                old(self).wf(),
                count == self.entries@.len(),
                0 <= i <= count,
                forall|k: int| 0 <= k < i ==> #[trigger] self.entries@[k].ip@ != ip@,
            decreases count - i,
        {
            if self.entries[i].ip == ip {
                let ghost pre = self.entries@;
                proof {
                    lemma_map_of_update(pre, i as int, InventoryEntry { ip: ip, name: name });
                }
                self.entries.set(i, InventoryEntry { ip, name });
                proof {
                    assert forall|a: int, b: int|
                        0 <= a < b < self.entries@.len() implies #[trigger] self.entries@[a].ip@
                        != #[trigger] self.entries@[b].ip@ by {
                        assert(pre[a].ip@ != pre[b].ip@);
                        if a != i && b != i {
                            assert(self.entries@[a] == pre[a] && self.entries@[b] == pre[b]);
                        } else if a == i {
                            assert(self.entries@[a].ip@ == pre[a].ip@ && self.entries@[b]
                                == pre[b]);
                        } else {
                            assert(self.entries@[b].ip@ == pre[b].ip@ && self.entries@[a]
                                == pre[a]);
                        }
                    }
                }
                return ;
            }
            i = i + 1;
        }
        let ghost pre = self.entries@;
        self.entries.push(InventoryEntry { ip, name });
        proof {
            assert(self.entries@.drop_last() =~= pre);
            assert(self.entries@.last().ip@ == self.entries@[pre.len() as int].ip@);
            assert forall|a: int, b: int|
                0 <= a < b < self.entries@.len() implies #[trigger] self.entries@[a].ip@
                != #[trigger] self.entries@[b].ip@ by {
                if b < pre.len() {
                    assert(self.entries@[a] == pre[a] && self.entries@[b] == pre[b]);
                    assert(pre[a].ip@ != pre[b].ip@);
                } else {
                    assert(self.entries@[a] == pre[a]);
                    assert(self.entries@[b].ip@ == ip@);
                }
            }
        }
    }

    /// Is `ip` one of the inventory's keys?
    pub fn contains_ip(&self, ip: &String) -> (r: bool)
        requires
            self.wf(),
        ensures
            r == self@.dom().contains(ip@),
    {
        let count = self.entries.len();
        let mut i: usize = 0;
        while i < count
            invariant
                count == self.entries@.len(),
                0 <= i <= count,
                forall|k: int| 0 <= k < i ==> self.entries@[k].ip@ != ip@,
            decreases count - i,
        {
            if self.entries[i].ip == *ip {
                proof {
                    lemma_map_of_dom(self.entries@, ip@);
                }
                return true;
            }
            i = i + 1;
        }
        proof {
            lemma_map_of_dom(self.entries@, ip@);
        }
        false
    }

    /// The name recorded under `ip`, when there is one.
    pub fn get(&self, ip: &String) -> (r: Option<&String>)
        requires
            self.wf(),
        ensures
            match r {
                Some(name) => self@.dom().contains(ip@) && name@ == self@[ip@],
                None => !self@.dom().contains(ip@),
            },
    {
        let count = self.entries.len();
        let mut i: usize = 0;
        while i < count
            invariant
                count == self.entries@.len(),
                0 <= i <= count,
                self.wf(),
                forall|k: int| 0 <= k < i ==> self.entries@[k].ip@ != ip@,
            decreases count - i,
        {
            if self.entries[i].ip == *ip {
                proof {
                    lemma_map_of_value(self.entries@, i as int);
                }
                return Some(&self.entries[i].name);
            }
            i = i + 1;
        }
        proof {
            lemma_map_of_dom(self.entries@, ip@);
        }
        None
    }

    /// Every key of the map view is some entry's IP.
    pub proof fn lemma_view_pairs(self, k: Seq<char>)
        ensures
            self@.dom().contains(k) <==> exists|i: int|
                0 <= i < self.pairs().len() && #[trigger] self.pairs()[i].ip@ == k,
    {
        lemma_map_of_dom(self.entries@, k);
        if self@.dom().contains(k) {
            let i = choose|i: int| 0 <= i < self.entries@.len() && #[trigger] self.entries@[i].ip@ == k;
            assert(self.pairs()[i].ip@ == k);
        } else if exists|i: int| 0 <= i < self.pairs().len() && #[trigger] self.pairs()[i].ip@ == k {
            let i = choose|i: int| 0 <= i < self.pairs().len() && #[trigger] self.pairs()[i].ip@ == k;
            assert(self.entries@[i].ip@ == k);
        }
    }
}

impl View for Inventory {
    type V = Map<Seq<char>, Seq<char>>;

    closed spec fn view(&self) -> Map<Seq<char>, Seq<char>> {
        map_of(self.entries@)
    }
}

/// The canonical registry map of a raw registry device list: each valid
/// device contributes its bare primary IP, keyed to its name; invalid
/// devices contribute nothing.
pub open spec fn spec_registry_map(devs: Seq<netbox::Device>) -> Map<Seq<char>, Seq<char>>
    decreases devs.len(),
{
    if devs.len() == 0 {
        Map::empty()
    } else {
        let m = spec_registry_map(devs.drop_last());
        let d = devs.last();
        if netbox::spec_is_valid(d) {
            m.insert(spec_bare_ip(d.primary_ip4.unwrap().address@), d.name.unwrap()@)
        } else {
            m
        }
    }
}

/// The canonical monitor map of a raw monitor device list: each device's
/// management IP, taken bare as it came, keyed to its name.
pub open spec fn spec_monitor_map(devs: Seq<netshot::Device>) -> Map<Seq<char>, Seq<char>>
    decreases devs.len(),
{
    if devs.len() == 0 {
        Map::empty()
    } else {
        spec_monitor_map(devs.drop_last()).insert(
            devs.last().management_address.ip@,
            devs.last().name@,
        )
    }
}

/// Build the canonical registry inventory: valid devices only, their
/// primary IP stripped of the CIDR suffix; a device lacking a name or a
/// primary IP is skipped.
pub fn build_registry_inventory(devices: &Vec<netbox::Device>) -> (r: Inventory)
    ensures
        r.wf(),
        r@ == spec_registry_map(devices@),
{
    let mut inv = Inventory::new();
    let count = devices.len();
    let mut i: usize = 0;
    while i < count
        invariant
            count == devices@.len(),
            0 <= i <= count,
            inv.wf(),
            inv@ == spec_registry_map(devices@.take(i as int)),
        decreases count - i,
    {
        let device = &devices[i];
        if device.is_valid() {
            let ip = match &device.primary_ip4 {
                Some(primary) => strip_cidr(primary.address.as_str()),
                None => String::new(),
            };
            let name = match &device.name {
                Some(name) => name.clone(),
                None => String::new(),
            };
            inv.insert(ip, name);
        }
        proof {
            assert(devices@.take(i + 1).drop_last() =~= devices@.take(i as int));
            assert(devices@.take(i + 1).last() == devices@[i as int]);
        }
        i = i + 1;
    }
    proof {
        assert(devices@.take(count as int) =~= devices@);
    }
    inv
}

/// Build the canonical monitor inventory: every device's management IP,
/// unstripped, keyed to its name.
pub fn build_monitor_inventory(devices: &Vec<netshot::Device>) -> (r: Inventory)
    ensures
        r.wf(),
        r@ == spec_monitor_map(devices@),
{
    let mut inv = Inventory::new();
    let count = devices.len();
    let mut i: usize = 0;
    while i < count
        invariant
            count == devices@.len(),
            0 <= i <= count,
            inv.wf(),
            inv@ == spec_monitor_map(devices@.take(i as int)),
        decreases count - i,
    {
        let device = &devices[i];
        inv.insert(device.management_address.ip.clone(), device.name.clone());
        proof {
            assert(devices@.take(i + 1).drop_last() =~= devices@.take(i as int));
            assert(devices@.take(i + 1).last() == devices@[i as int]);
        }
        i = i + 1;
    }
    proof {
        assert(devices@.take(count as int) =~= devices@);
    }
    inv
}

/// A device failing the validity predicate never contributes a key: the
/// registry map's domain is exactly the bare IPs of the valid devices.
pub proof fn lemma_registry_map_domain(devs: Seq<netbox::Device>, k: Seq<char>)
    ensures
        spec_registry_map(devs).dom().contains(k) <==> exists|i: int|
            0 <= i < devs.len() && netbox::spec_is_valid(#[trigger] devs[i]) && spec_bare_ip(
                devs[i].primary_ip4.unwrap().address@,
            ) == k,
    decreases devs.len(),
{
    if devs.len() > 0 {
        lemma_registry_map_domain(devs.drop_last(), k);
        let d = devs.last();
        assert(forall|i: int| 0 <= i < devs.len() - 1 ==> devs.drop_last()[i] == #[trigger] devs[i]);
        if netbox::spec_is_valid(d) && spec_bare_ip(d.primary_ip4.unwrap().address@) == k {
            assert(devs[devs.len() - 1] == d);
        } else if spec_registry_map(devs).dom().contains(k) {
            let i = choose|i: int|
                0 <= i < devs.drop_last().len() && netbox::spec_is_valid(
                    #[trigger] devs.drop_last()[i],
                ) && spec_bare_ip(devs.drop_last()[i].primary_ip4.unwrap().address@) == k;
            assert(netbox::spec_is_valid(devs[i]));
        }
    }
}

/// The monitor map's domain is exactly the devices' management IPs.
pub proof fn lemma_monitor_map_domain(devs: Seq<netshot::Device>, k: Seq<char>)
    ensures
        spec_monitor_map(devs).dom().contains(k) <==> exists|i: int|
            0 <= i < devs.len() && #[trigger] devs[i].management_address.ip@ == k,
    decreases devs.len(),
{
    if devs.len() > 0 {
        lemma_monitor_map_domain(devs.drop_last(), k);
        assert(forall|i: int| 0 <= i < devs.len() - 1 ==> devs.drop_last()[i] == #[trigger] devs[i]);
        if devs.last().management_address.ip@ == k {
            assert(devs[devs.len() - 1].management_address.ip@ == k);
        } else if spec_monitor_map(devs).dom().contains(k) {
            let i = choose|i: int|
                0 <= i < devs.drop_last().len()
                    && #[trigger] devs.drop_last()[i].management_address.ip@ == k;
            assert(devs[i].management_address.ip@ == k);
        }
    }
}

} // verus!
