//! What the cache's storage reports of itself.
//!
//! The master names the volume servers, and each of them reports what its disks hold.  Everything is
//! optional: a field that is missing leaves the usage unknown, and an unknown usage evicts nothing.

use crate::error::{Error, ErrorView};
use crate::text::{chars_of, has_prefix, text_between};
use vstd::prelude::*;
use vstd::string::StringExecFns;

verus! {

/// How much is used, and of how much.
#[derive(Clone, Copy, Debug, PartialEq, Eq, Structural)]
pub struct Usage {
    pub used: u64,
    pub capacity: u64,
}

// ---- the topology -----------------------------------------------------------------------------

/// A volume server.  Which field carries its address depends on the version.
#[derive(Clone, Debug, PartialEq, Eq)]
pub struct DataNode {
    pub url: Option<String>,
    pub public_url: Option<String>,
    pub id: Option<String>,
}

#[derive(Clone, Debug, PartialEq, Eq)]
pub struct Rack {
    pub nodes: Vec<DataNode>,
}

#[derive(Clone, Debug, PartialEq, Eq)]
pub struct DataCenter {
    pub racks: Vec<Rack>,
}

#[derive(Clone, Debug, PartialEq, Eq)]
pub struct Topology {
    pub data_centers: Vec<DataCenter>,
}

#[derive(Clone, Debug, PartialEq, Eq)]
pub struct DirStatus {
    pub topology: Option<Topology>,
}

/// Whether a field holds something.
pub open spec fn filled(field: Option<String>) -> bool {
    field matches Some(text) && text@.len() > 0
}

/// An address with its scheme.
pub open spec fn absolute(addr: Seq<char>) -> Seq<char> {
    if "http"@.is_prefix_of(addr) {
        addr
    } else {
        "http://"@ + addr
    }
}

/// A node's address: that of the first field that holds something.
pub open spec fn address_of(node: DataNode) -> Option<Seq<char>> {
    if filled(node.url) {
        Some(absolute(node.url->Some_0@))
    } else if filled(node.public_url) {
        Some(absolute(node.public_url->Some_0@))
    } else if filled(node.id) {
        Some(absolute(node.id->Some_0@))
    } else {
        None
    }
}

/// The addresses of some nodes, in their order.
pub open spec fn addresses_of(nodes: Seq<DataNode>) -> Seq<Seq<char>>
    decreases nodes.len(),
{
    if nodes.len() == 0 {
        Seq::empty()
    } else {
        let before = addresses_of(nodes.drop_last());
        match address_of(nodes.last()) {
            Some(a) => before.push(a),
            None => before,
        }
    }
}

/// The addresses in some racks, in their order.
pub open spec fn addresses_in(racks: Seq<Rack>) -> Seq<Seq<char>>
    decreases racks.len(),
{
    if racks.len() == 0 {
        Seq::empty()
    } else {
        addresses_in(racks.drop_last()) + addresses_of(racks.last().nodes@)
    }
}

/// The addresses in some data centers, in their order.
pub open spec fn addresses_at(centers: Seq<DataCenter>) -> Seq<Seq<char>>
    decreases centers.len(),
{
    if centers.len() == 0 {
        Seq::empty()
    } else {
        addresses_at(centers.drop_last()) + addresses_in(centers.last().racks@)
    }
}

/// The addresses that a topology names.
pub open spec fn servers_named(status: DirStatus) -> Seq<Seq<char>> {
    match status.topology {
        Some(t) => addresses_at(t.data_centers@),
        None => Seq::empty(),
    }
}

/// Texts as sequences.
pub open spec fn address_views(list: Seq<String>) -> Seq<Seq<char>> {
    Seq::new(list.len(), |i: int| list[i]@)
}

fn with_scheme(addr: &str) -> (address: String)
    ensures
        address@ == absolute(addr@),
{
    if has_prefix(&chars_of(addr), "http") {
        addr.to_string()
    } else {
        let mut address: String = "http://".to_string();
        address.append(addr);
        address
    }
}

/// What a field holds, if it holds something.
fn content(field: &Option<String>) -> (text: Option<&String>)
    ensures
        match text {
            Some(t) => filled(*field) && *field == Some(*t),
            None => !filled(*field),
        },
{
    match field {
        Some(t) => if chars_of(t.as_str()).len() > 0 {
            Some(t)
        } else {
            None
        },
        None => None,
    }
}

impl DataNode {
    /// The address of the node, with its scheme.
    pub fn address(&self) -> (address: Option<String>)
        ensures
            match address {
                Some(a) => address_of(*self) == Some(a@),
                None => address_of(*self) is None,
            },
    {
        if let Some(t) = content(&self.url) {
            return Some(with_scheme(t.as_str()));
        }
        if let Some(t) = content(&self.public_url) {
            return Some(with_scheme(t.as_str()));
        }
        match content(&self.id) {
            Some(t) => Some(with_scheme(t.as_str())),
            None => None,
        }
    }
}

fn add_addresses(list: &mut Vec<String>, nodes: &Vec<DataNode>)
    ensures
        address_views(final(list)@) == address_views(old(list)@) + addresses_of(nodes@),
{
    let ghost first = address_views(list@);
    let mut i: usize = 0;
    assert(nodes@.take(0) =~= Seq::empty());
    assert(first =~= first + addresses_of(nodes@.take(0)));
    while i < nodes.len()
        invariant
            i <= nodes@.len(),
            address_views(list@) == first + addresses_of(nodes@.take(i as int)),
        decreases nodes@.len() - i,
    {
        let ghost before = list@;
        proof {
            assert(nodes@.take(i + 1).drop_last() =~= nodes@.take(i as int));
            assert(nodes@.take(i + 1).last() == nodes@[i as int]);
        }
        if let Some(address) = nodes[i].address() {
            list.push(address);
            assert(address_views(list@) =~= address_views(before).push(address@));
            assert(address_views(list@) =~= first + addresses_of(nodes@.take(i + 1)));
        }
        i += 1;
    }
    assert(nodes@.take(i as int) =~= nodes@);
}

fn add_racks(list: &mut Vec<String>, racks: &Vec<Rack>)
    ensures
        address_views(final(list)@) == address_views(old(list)@) + addresses_in(racks@),
{
    let ghost first = address_views(list@);
    let mut i: usize = 0;
    assert(racks@.take(0) =~= Seq::empty());
    assert(first =~= first + addresses_in(racks@.take(0)));
    while i < racks.len()
        invariant
            i <= racks@.len(),
            address_views(list@) == first + addresses_in(racks@.take(i as int)),
        decreases racks@.len() - i,
    {
        proof {
            assert(racks@.take(i + 1).drop_last() =~= racks@.take(i as int));
            assert(racks@.take(i + 1).last() == racks@[i as int]);
        }
        add_addresses(list, &racks[i].nodes);
        i += 1;
        assert(address_views(list@) =~= first + addresses_in(racks@.take(i as int)));
    }
    assert(racks@.take(i as int) =~= racks@);
}

impl DirStatus {
    /// The volume servers that the topology names.
    pub fn volume_servers(&self) -> (servers: Vec<String>)
        ensures
            address_views(servers@) == servers_named(*self),
    {
        let mut list: Vec<String> = Vec::new();
        assert(address_views(list@) =~= Seq::empty());
        if let Some(t) = &self.topology {
            let centers: &Vec<DataCenter> = &t.data_centers;
            let mut i: usize = 0;
            assert(centers@.take(0) =~= Seq::empty());
            while i < centers.len()
                invariant
                    i <= centers@.len(),
                    address_views(list@) == addresses_at(centers@.take(i as int)),
                decreases centers@.len() - i,
            {
                proof {
                    assert(centers@.take(i + 1).drop_last() =~= centers@.take(i as int));
                    assert(centers@.take(i + 1).last() == centers@[i as int]);
                }
                add_racks(&mut list, &centers[i].racks);
                i += 1;
            }
            assert(centers@.take(i as int) =~= centers@);
        }
        list
    }

    /// The volume servers to ask; a topology that names none tells nothing.
    pub fn servers_to_ask(&self) -> (servers: Result<Vec<String>, Error>)
        ensures
            match servers {
                Ok(list) => address_views(list@) == servers_named(*self) && list@.len() > 0,
                Err(e) => servers_named(*self).len() == 0 && e@ == ErrorView::Backend(
                    "seaweedfs topology named no volume servers"@,
                ),
            },
    {
        let list: Vec<String> = self.volume_servers();
        assert(address_views(list@).len() == list@.len());
        if list.len() == 0 {
            Err(Error::Backend("seaweedfs topology named no volume servers".to_string()))
        } else {
            Ok(list)
        }
    }
}

/// A text without the slashes that it ends in.
pub open spec fn unslashed(s: Seq<char>) -> Seq<char>
    decreases s.len(),
{
    if s.len() > 0 && s.last() == '/' {
        unslashed(s.drop_last())
    } else {
        s
    }
}

/// The master's address, without the slashes that it ends in.
pub fn master_address(master: &str) -> (address: String)
    ensures
        address@ == unslashed(master@),
{
    let chars: Vec<char> = chars_of(master);
    let mut end: usize = chars.len();
    assert(master@.take(end as int) =~= master@);
    while end > 0 && chars[end - 1] == '/'
        invariant
            end <= chars@.len(),
            chars@ == master@,
            unslashed(master@.take(end as int)) == unslashed(master@),
        decreases end,
    {
        assert(master@.take(end as int).drop_last() =~= master@.take(end - 1));
        assert(master@.take(end as int).last() == '/');
        end -= 1;
    }
    assert(end > 0 ==> master@.take(end as int).last() == chars@[end - 1]);
    let address: String = text_between(&chars, 0, end);
    assert(address@ =~= master@.take(end as int));
    address
}

// ---- the disks --------------------------------------------------------------------------------

#[derive(Clone, Copy, Debug, PartialEq, Eq, Structural)]
pub struct DiskStatus {
    pub all: Option<u64>,
    pub used: Option<u64>,
}

#[derive(Clone, Debug, PartialEq, Eq)]
pub struct VolumeStatus {
    pub disk_statuses: Vec<DiskStatus>,
}

/// A number, or zero where there is none.
pub open spec fn or_zero(n: Option<u64>) -> nat {
    match n {
        Some(v) => v as nat,
        None => 0,
    }
}

/// What some disks hold, and can hold.
pub open spec fn disks_total(disks: Seq<DiskStatus>) -> (nat, nat)
    decreases disks.len(),
{
    if disks.len() == 0 {
        (0, 0)
    } else {
        let before = disks_total(disks.drop_last());
        (before.0 + or_zero(disks.last().used), before.1 + or_zero(disks.last().all))
    }
}

/// What the disks of some servers hold, and can hold.
pub open spec fn cluster_total(statuses: Seq<VolumeStatus>) -> (nat, nat)
    decreases statuses.len(),
{
    if statuses.len() == 0 {
        (0, 0)
    } else {
        let before = cluster_total(statuses.drop_last());
        let own = disks_total(statuses.last().disk_statuses@);
        (before.0 + own.0, before.1 + own.1)
    }
}

proof fn lemma_disks_prefix(disks: Seq<DiskStatus>, i: int)
    requires
        0 <= i <= disks.len(),
    ensures
        disks_total(disks.take(i)).0 <= disks_total(disks).0,
        disks_total(disks.take(i)).1 <= disks_total(disks).1,
    decreases disks.len(),
{
    if i < disks.len() {
        lemma_disks_prefix(disks.drop_last(), i);
        assert(disks.drop_last().take(i) =~= disks.take(i));
    } else {
        assert(disks.take(i) =~= disks);
    }
}

proof fn lemma_cluster_prefix(statuses: Seq<VolumeStatus>, i: int)
    requires
        0 <= i <= statuses.len(),
    ensures
        cluster_total(statuses.take(i)).0 <= cluster_total(statuses).0,
        cluster_total(statuses.take(i)).1 <= cluster_total(statuses).1,
    decreases statuses.len(),
{
    if i < statuses.len() {
        lemma_cluster_prefix(statuses.drop_last(), i);
        assert(statuses.drop_last().take(i) =~= statuses.take(i));
    } else {
        assert(statuses.take(i) =~= statuses);
    }
}

fn number_or_zero(n: Option<u64>) -> (v: u64)
    ensures
        v == or_zero(n),
{
    match n {
        Some(v) => v,
        None => 0,
    }
}

fn add_disks(total: &mut Usage, disks: &Vec<DiskStatus>)
    requires
        old(total).used + disks_total(disks@).0 <= u64::MAX,
        old(total).capacity + disks_total(disks@).1 <= u64::MAX,
    ensures
        final(total).used == old(total).used + disks_total(disks@).0,
        final(total).capacity == old(total).capacity + disks_total(disks@).1,
{
    let mut i: usize = 0;
    assert(disks@.take(0) =~= Seq::empty());
    while i < disks.len()
        invariant
            i <= disks@.len(),
            old(total).used + disks_total(disks@).0 <= u64::MAX,
            old(total).capacity + disks_total(disks@).1 <= u64::MAX,
            total.used == old(total).used + disks_total(disks@.take(i as int)).0,
            total.capacity == old(total).capacity + disks_total(disks@.take(i as int)).1,
        decreases disks@.len() - i,
    {
        proof {
            assert(disks@.take(i + 1).drop_last() =~= disks@.take(i as int));
            assert(disks@.take(i + 1).last() == disks@[i as int]);
            lemma_disks_prefix(disks@, i + 1);
        }
        total.used = total.used + number_or_zero(disks[i].used);
        total.capacity = total.capacity + number_or_zero(disks[i].all);
        i += 1;
    }
    assert(disks@.take(i as int) =~= disks@);
}

/// The usage of a cluster, from what every one of its servers reports.
pub fn total_usage(statuses: &Vec<VolumeStatus>) -> (total: Usage)
    requires
        cluster_total(statuses@).0 <= u64::MAX,
        cluster_total(statuses@).1 <= u64::MAX,
    ensures
        total.used == cluster_total(statuses@).0,
        total.capacity == cluster_total(statuses@).1,
{
    let mut total = Usage { used: 0, capacity: 0 };
    let mut i: usize = 0;
    assert(statuses@.take(0) =~= Seq::empty());
    while i < statuses.len()
        invariant
            i <= statuses@.len(),
            cluster_total(statuses@).0 <= u64::MAX,
            cluster_total(statuses@).1 <= u64::MAX,
            total.used == cluster_total(statuses@.take(i as int)).0,
            total.capacity == cluster_total(statuses@.take(i as int)).1,
        decreases statuses@.len() - i,
    {
        proof {
            assert(statuses@.take(i + 1).drop_last() =~= statuses@.take(i as int));
            assert(statuses@.take(i + 1).last() == statuses@[i as int]);
            lemma_cluster_prefix(statuses@, i + 1);
        }
        add_disks(&mut total, &statuses[i].disk_statuses);
        i += 1;
    }
    assert(statuses@.take(i as int) =~= statuses@);
    total
}

/// A node is asked at the first of its own address, its public one and its name that it gives, over plain
/// HTTP where it names no scheme.
pub proof fn a_node_is_asked_where_it_says(node: DataNode)
    ensures
        ({
            let first = if node.url is Some && node.url->0@.len() > 0 {
                node.url
            } else if node.public_url is Some && node.public_url->0@.len() > 0 {
                node.public_url
            } else {
                node.id
            };
            &&& first is None || first->0@.len() == 0 ==> address_of(node) is None
            &&& first is Some && first->0@.len() > 0 && "http"@.is_prefix_of(first->0@)
                ==> address_of(node) == Some(first->0@)
            &&& first is Some && first->0@.len() > 0 && !"http"@.is_prefix_of(first->0@)
                ==> address_of(node) == Some("http://"@ + first->0@)
        }),
{
}

/// An address loses the slashes at its end and nothing else.
pub proof fn an_address_loses_its_last_slashes(s: Seq<char>, n: nat)
    requires
        s.len() == 0 || s.last() != '/',
    ensures
        unslashed(s) == s,
        unslashed(s + Seq::new(n, |i: int| '/')) == s,
    decreases n,
{
    let whole = s + Seq::new(n, |i: int| '/');
    if n == 0 {
        assert(whole =~= s);
    } else {
        an_address_loses_its_last_slashes(s, (n - 1) as nat);
        assert(whole.drop_last() =~= s + Seq::new((n - 1) as nat, |i: int| '/'));
    }
}

/// The nodes of a rack are named in their order, those with no address left out.
pub proof fn every_node_is_named(
    a: Seq<DataNode>,
    b: Seq<DataNode>,
    one: DataNode,
)
    ensures
        addresses_of(a + b) == addresses_of(a) + addresses_of(b),
        addresses_of(Seq::<DataNode>::empty()).len() == 0,
        address_of(one) is Some ==> addresses_of(seq![one]) == seq![address_of(one)->0],
        address_of(one) is None ==> addresses_of(seq![one]).len() == 0,
    decreases b.len(),
{
    assert(seq![one].drop_last() =~= Seq::<DataNode>::empty());
    assert(seq![one].last() == one);
    reveal_with_fuel(addresses_of, 2);
    if address_of(one) is Some {
        assert(addresses_of(seq![one]) =~= seq![address_of(one)->0]);
    }
    if b.len() == 0 {
        assert(a + b =~= a);
        assert(addresses_of(a) + addresses_of(b) =~= addresses_of(a));
    } else {
        every_node_is_named(a, b.drop_last(), one);
        assert((a + b).drop_last() =~= a + b.drop_last());
        assert((a + b).last() == b.last());
        assert(addresses_of(a + b) =~= addresses_of(a) + addresses_of(b));
    }
}

/// The racks of a data centre give the addresses of all their nodes, in their order.
pub proof fn every_rack_is_named(
    a: Seq<Rack>,
    b: Seq<Rack>,
    one: Rack,
)
    ensures
        addresses_in(a + b) == addresses_in(a) + addresses_in(b),
        addresses_in(Seq::<Rack>::empty()).len() == 0,
        addresses_in(seq![one]) == addresses_of(one.nodes@),
    decreases b.len(),
{
    assert(seq![one].drop_last() =~= Seq::<Rack>::empty());
    assert(seq![one].last() == one);
    reveal_with_fuel(addresses_in, 2);
    assert(addresses_in(seq![one]) =~= addresses_of(one.nodes@));
    if b.len() == 0 {
        assert(a + b =~= a);
        assert(addresses_in(a) + addresses_in(b) =~= addresses_in(a));
    } else {
        every_rack_is_named(a, b.drop_last(), one);
        assert((a + b).drop_last() =~= a + b.drop_last());
        assert((a + b).last() == b.last());
        assert(addresses_in(a + b) =~= addresses_in(a) + addresses_in(b));
    }
}

/// The data centres give the addresses of all their racks, in their order.
pub proof fn every_centre_is_named(
    a: Seq<DataCenter>,
    b: Seq<DataCenter>,
    one: DataCenter,
)
    ensures
        addresses_at(a + b) == addresses_at(a) + addresses_at(b),
        addresses_at(Seq::<DataCenter>::empty()).len() == 0,
        addresses_at(seq![one]) == addresses_in(one.racks@),
    decreases b.len(),
{
    assert(seq![one].drop_last() =~= Seq::<DataCenter>::empty());
    assert(seq![one].last() == one);
    reveal_with_fuel(addresses_at, 2);
    assert(addresses_at(seq![one]) =~= addresses_in(one.racks@));
    if b.len() == 0 {
        assert(a + b =~= a);
        assert(addresses_at(a) + addresses_at(b) =~= addresses_at(a));
    } else {
        every_centre_is_named(a, b.drop_last(), one);
        assert((a + b).drop_last() =~= a + b.drop_last());
        assert((a + b).last() == b.last());
        assert(addresses_at(a + b) =~= addresses_at(a) + addresses_at(b));
    }
}

/// The disks of a server add up: what is in use and what there is, each on its own; a number that is
/// missing counts for nothing.
pub proof fn disks_add_up(a: Seq<DiskStatus>, b: Seq<DiskStatus>, one: DiskStatus)
    ensures
        disks_total(a + b).0 == disks_total(a).0 + disks_total(b).0,
        disks_total(a + b).1 == disks_total(a).1 + disks_total(b).1,
        one.used is Some ==> disks_total(seq![one]).0 == one.used->0,
        one.used is None ==> disks_total(seq![one]).0 == 0,
        one.all is Some ==> disks_total(seq![one]).1 == one.all->0,
        one.all is None ==> disks_total(seq![one]).1 == 0,
    decreases b.len(),
{
    assert(seq![one].drop_last() =~= Seq::<DiskStatus>::empty());
    reveal_with_fuel(disks_total, 2);
    if b.len() == 0 {
        assert(a + b =~= a);
    } else {
        disks_add_up(a, b.drop_last(), one);
        assert((a + b).drop_last() =~= a + b.drop_last());
    }
}

/// The servers of a cluster add up, each with all its disks.
pub proof fn servers_add_up(a: Seq<VolumeStatus>, b: Seq<VolumeStatus>, one: VolumeStatus)
    ensures
        cluster_total(a + b).0 == cluster_total(a).0 + cluster_total(b).0,
        cluster_total(a + b).1 == cluster_total(a).1 + cluster_total(b).1,
        cluster_total(seq![one]) == disks_total(one.disk_statuses@),
    decreases b.len(),
{
    assert(seq![one].drop_last() =~= Seq::<VolumeStatus>::empty());
    reveal_with_fuel(cluster_total, 2);
    if b.len() == 0 {
        assert(a + b =~= a);
    } else {
        servers_add_up(a, b.drop_last(), one);
        assert((a + b).drop_last() =~= a + b.drop_last());
    }
}

/// Addresses are seen one by one, in their order.
pub proof fn addresses_are_seen_one_by_one(list: Seq<String>, i: int)
    ensures
        address_views(list).len() == list.len(),
        0 <= i < list.len() ==> address_views(list)[i] == list[i]@,
{
}

/// The servers that are asked are those of all data centres of the topology, and none where there is no
/// topology.
pub proof fn all_data_centres_are_asked(status: DirStatus)
    ensures
        status.topology is Some ==> servers_named(status) == addresses_at(
            status.topology->0.data_centers@,
        ),
        status.topology is None ==> servers_named(status).len() == 0,
{
}

} // verus!
