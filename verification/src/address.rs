//! Name server addresses and the sorted, duplicate-free sets of them that
//! resolution keeps.
use vstd::prelude::*;

verus! {

/// An IP address: four octets for IPv4, sixteen for IPv6.
#[derive(Debug, Clone, Copy, PartialEq, Eq, PartialOrd, Ord, Hash)]
pub enum IpAddress {
    V4([u8; 4]),
    V6([u8; 16]),
}

/// A server's socket address: an IP address and a UDP port.
#[derive(Debug, Clone, Copy, PartialEq, Eq, PartialOrd, Ord, Hash)]
pub struct ServerAddr {
    pub ip: IpAddress,
    pub port: u16,
}

/// The content of an address: the family, the octets and the port.
pub struct AddrView {
    pub v6: bool,
    pub octets: Seq<u8>,
    pub port: u16,
}

impl View for ServerAddr {
    type V = AddrView;

    open spec fn view(&self) -> AddrView {
        match self.ip {
            IpAddress::V4(b) => AddrView { v6: false, octets: b@, port: self.port },
            IpAddress::V6(b) => AddrView { v6: true, octets: b@, port: self.port },
        }
    }
}

/// `a` comes before `b` in dictionary order of equal-length octets.
pub open spec fn octets_lt(a: Seq<u8>, b: Seq<u8>) -> bool {
    exists|i: int|
        0 <= i < a.len() && i < b.len() && a[i] < b[i] && a.take(i) == b.take(i)
}

/// The order of addresses: IPv4 before IPv6, then by octets, then by port.
pub open spec fn addr_lt(a: AddrView, b: AddrView) -> bool {
    if a.v6 != b.v6 {
        !a.v6
    } else if a.octets != b.octets {
        octets_lt(a.octets, b.octets)
    } else {
        a.port < b.port
    }
}

/// Addresses in strictly increasing order: sorted, with no address twice.
pub open spec fn strictly_sorted(s: Seq<AddrView>) -> bool {
    forall|i: int, j: int| 0 <= i < j < s.len() ==> addr_lt(#[trigger] s[i], #[trigger] s[j])
}

/// The addresses of a vector.
pub open spec fn addr_views(v: Seq<ServerAddr>) -> Seq<AddrView> {
    v.map_values(|a: ServerAddr| a@)
}

/// Dictionary order on equal-length octets is a strict total order.
proof fn lemma_octets_order(a: Seq<u8>, b: Seq<u8>, c: Seq<u8>)
    requires
        a.len() == b.len(),
        b.len() == c.len(),
    ensures
        !octets_lt(a, a),
        a != b ==> (octets_lt(a, b) || octets_lt(b, a)),
        octets_lt(a, b) ==> !octets_lt(b, a),
        octets_lt(a, b) && octets_lt(b, c) ==> octets_lt(a, c),
{
    if octets_lt(a, a) {
        let i = choose|i: int| 0 <= i < a.len() && i < a.len() && a[i] < a[i] && a.take(i) == a.take(i);
    }
    if a != b {
        assert(exists|k: int| 0 <= k < a.len() && a[k] != b[k]) by {
            if forall|k: int| 0 <= k < a.len() ==> a[k] == b[k] {
                assert(a =~= b);
            }
        }
        let k = choose|k: int| 0 <= k < a.len() && a[k] != b[k];
        lemma_first_difference(a, b, k);
    }
    if octets_lt(a, b) && octets_lt(b, a) {
        let i = choose|i: int| 0 <= i < a.len() && i < b.len() && a[i] < b[i] && a.take(i) == b.take(i);
        let j = choose|j: int| 0 <= j < b.len() && j < a.len() && b[j] < a[j] && b.take(j) == a.take(j);
        if i < j {
            assert(b.take(j)[i] == a.take(j)[i]);
        } else if j < i {
            assert(a.take(i)[j] == b.take(i)[j]);
        }
    }
    if octets_lt(a, b) && octets_lt(b, c) {
        let i = choose|i: int| 0 <= i < a.len() && i < b.len() && a[i] < b[i] && a.take(i) == b.take(i);
        let j = choose|j: int| 0 <= j < b.len() && j < c.len() && b[j] < c[j] && b.take(j) == c.take(j);
        let m = if i < j { i } else { j };
        assert(a.take(m) =~= c.take(m)) by {
            assert forall|k: int| 0 <= k < m implies a.take(m)[k] == c.take(m)[k] by {
                assert(a.take(i)[k] == b.take(i)[k]);
                assert(b.take(j)[k] == c.take(j)[k]);
            }
        }
        if i < j {
            assert(b.take(j)[i] == c.take(j)[i]);
        } else if j < i {
            assert(a.take(i)[j] == b.take(i)[j]);
        }
        assert(a[m] < c[m]);
    }
}

/// Two different sequences of equal length differ first at some index.
proof fn lemma_first_difference(a: Seq<u8>, b: Seq<u8>, k: int)
    requires
        a.len() == b.len(),
        0 <= k < a.len(),
        a[k] != b[k],
    ensures
        octets_lt(a, b) || octets_lt(b, a),
    decreases k,
{
    if exists|j: int| 0 <= j < k && a[j] != b[j] {
        let j = choose|j: int| 0 <= j < k && a[j] != b[j];
        lemma_first_difference(a, b, j);
    } else {
        assert(a.take(k) =~= b.take(k));
        if a[k] < b[k] {
            assert(octets_lt(a, b));
        } else {
            assert(octets_lt(b, a));
        }
    }
}

/// The order of addresses is a strict total order.
pub proof fn lemma_addr_order(a: AddrView, b: AddrView, c: AddrView)
    requires
        a.octets.len() == (if a.v6 { 16int } else { 4int }),
        b.octets.len() == (if b.v6 { 16int } else { 4int }),
        c.octets.len() == (if c.v6 { 16int } else { 4int }),
    ensures
        !addr_lt(a, a),
        a != b ==> (addr_lt(a, b) || addr_lt(b, a)),
        addr_lt(a, b) ==> !addr_lt(b, a),
        addr_lt(a, b) && addr_lt(b, c) ==> addr_lt(a, c),
{
    lemma_octets_order(a.octets, a.octets, a.octets);
    if a.v6 == b.v6 {
        lemma_octets_order(a.octets, b.octets, b.octets);
        lemma_octets_order(b.octets, a.octets, a.octets);
        if b.v6 == c.v6 {
            lemma_octets_order(a.octets, b.octets, c.octets);
        }
    }
}

/// The octets of an address have the length of its family.
pub open spec fn well_sized(a: AddrView) -> bool {
    a.octets.len() == (if a.v6 { 16int } else { 4int })
}

impl ServerAddr {
    /// The octets of every address have the length of its family.
    pub proof fn lemma_well_sized(&self)
        ensures
            well_sized(self@),
    {
    }

    /// Whether `self` comes before `other`.
    pub fn less_than(&self, other: &ServerAddr) -> (r: bool)
        ensures
            r == addr_lt(self@, other@),
    {
        match (&self.ip, &other.ip) {
            (IpAddress::V4(_), IpAddress::V6(_)) => true,
            (IpAddress::V6(_), IpAddress::V4(_)) => false,
            (IpAddress::V4(a), IpAddress::V4(b)) => {
                let c: i8 = compare_octets(a, b);
                if c < 0 {
                    true
                } else if c > 0 {
                    false
                } else {
                    self.port < other.port
                }
            },
            (IpAddress::V6(a), IpAddress::V6(b)) => {
                let c: i8 = compare_octets(a, b);
                if c < 0 {
                    true
                } else if c > 0 {
                    false
                } else {
                    self.port < other.port
                }
            },
        }
    }

    /// Whether two addresses are the same.
    pub fn same_as(&self, other: &ServerAddr) -> (r: bool)
        ensures
            r == (self@ == other@),
    {
        proof {
            lemma_addr_order(self@, other@, other@);
        }
        !self.less_than(other) && !other.less_than(self)
    }
}

/// The dictionary order of two equal-length octet runs: negative, zero or
/// positive as `a` comes before, equals or comes after `b`.
fn compare_octets(a: &[u8], b: &[u8]) -> (r: i8)
    requires
        a@.len() == b@.len(),
    ensures
        r < 0 <==> octets_lt(a@, b@),
        r == 0 <==> a@ == b@,
        r > 0 <==> octets_lt(b@, a@),
{
    let mut i: usize = 0;
    while i < a.len()
        invariant
            a@.len() == b@.len(),
            0 <= i <= a@.len(),
            a@.take(i as int) == b@.take(i as int),
        decreases a@.len() - i,
    {
        if a[i] != b[i] {
            proof {
                lemma_octets_order(a@, b@, b@);
                lemma_octets_order(b@, a@, a@);
            }
            if a[i] < b[i] {
                assert(octets_lt(a@, b@));
                return -1;
            } else {
                assert(octets_lt(b@, a@));
                return 1;
            }
        }
        assert(a@.take(i + 1) =~= a@.take(i as int).push(a@[i as int]));
        assert(b@.take(i + 1) =~= b@.take(i as int).push(b@[i as int]));
        i = i + 1;
    }
    assert(a@ =~= a@.take(i as int));
    assert(b@ =~= b@.take(i as int));
    proof {
        lemma_octets_order(a@, b@, b@);
    }
    0
}

/// Adds an address to a strictly increasing vector, keeping it strictly
/// increasing; an address already there is not added again.
pub fn insert_sorted(set: &mut Vec<ServerAddr>, a: ServerAddr)
    requires
        strictly_sorted(addr_views(old(set)@)),
    ensures
        strictly_sorted(addr_views(final(set)@)),
        addr_views(final(set)@).to_set() == addr_views(old(set)@).to_set().insert(a@),
{
    let ghost s0 = addr_views(set@);
    let mut i: usize = 0;
    while i < set.len() && set[i].less_than(&a)
        invariant
            0 <= i <= set@.len(),
            s0 == addr_views(set@),
            strictly_sorted(s0),
            forall|k: int| 0 <= k < i ==> addr_lt(#[trigger] s0[k], a@),
        decreases set@.len() - i,
    {
        i = i + 1;
    }
    proof {
        a.lemma_well_sized();
    }
    if i < set.len() && set[i].same_as(&a) {
        assert(s0.to_set().insert(a@) =~= s0.to_set()) by {
            assert(s0.to_set().contains(s0[i as int]));
        }
        return;
    }
    set.insert(i, a);
    let ghost s1 = addr_views(set@);
    proof {
        assert(s1 =~= s0.take(i as int).push(a@) + s0.skip(i as int));
        assert forall|p: int, q: int| 0 <= p < q < s1.len() implies addr_lt(
            #[trigger] s1[p],
            #[trigger] s1[q],
        ) by {
            assert(well_sized(s1[p]));
            assert(well_sized(s1[q]));
            if q < i {
            } else if p < i && q == i {
            } else if p < i && q > i {
                assert(s1[q] == s0[q - 1]);
                if i < s0.len() {
                    assert(well_sized(s0[i as int]));
                }
            } else if p == i && q > i {
                assert(s1[q] == s0[q - 1]);
                assert(!addr_lt(s0[i as int], a@));
                assert(s0[i as int] != a@);
                assert(well_sized(s0[i as int]));
                lemma_addr_order(a@, s0[i as int], s1[q]);
                lemma_addr_order(s0[i as int], a@, a@);
            } else {
                assert(s1[p] == s0[p - 1]);
                assert(s1[q] == s0[q - 1]);
            }
        }
        assert(s1.to_set() =~= s0.to_set().insert(a@)) by {
            assert forall|x: AddrView| s1.to_set().contains(x) implies s0.to_set().insert(a@).contains(x) by {
                let k = choose|k: int| 0 <= k < s1.len() && s1[k] == x;
                if k < i {
                    assert(s0[k] == x);
                } else if k > i {
                    assert(s0[k - 1] == x);
                }
            }
            assert forall|x: AddrView| s0.to_set().insert(a@).contains(x) implies s1.to_set().contains(x) by {
                if x == a@ {
                    assert(s1[i as int] == x);
                } else {
                    let k = choose|k: int| 0 <= k < s0.len() && s0[k] == x;
                    if k < i {
                        assert(s1[k] == x);
                    } else {
                        assert(s1[k + 1] == x);
                    }
                }
            }
        }
    }
}

} // verus!
