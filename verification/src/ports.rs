//! The ports to scan, in the order of hit probability.
use vstd::prelude::*;

verus! {

/// The ports from `first` to `last`, both included, in ascending order.
pub open spec fn span(first: int, last: int) -> Seq<u16> {
    Seq::new((if first <= last { last - first + 1 } else { 0 }) as nat, |i: int| (first + i) as u16)
}

/// All ports: 5555 (`adb tcpip`), the ephemeral range 32768-60999 (wireless debugging), the
/// other unprivileged ports, the privileged ports.
pub open spec fn default_order() -> Seq<u16> {
    seq![5555u16] + span(32768, 60999) + span(1024, 5554) + span(5556, 32767) + span(61000, 65535)
        + span(1, 1023)
}

fn push_span(v: &mut Vec<u16>, first: u32, last: u32)
    requires
        first <= last <= 65535,
    ensures
        final(v)@ == old(v)@ + span(first as int, last as int),
{
    let ghost start = v@;
    let mut p: u32 = first;
    assert(v@ =~= start + span(first as int, p - 1));
    while p <= last
        invariant
            first <= p <= last + 1,
            last <= 65535,
            v@ == start + span(first as int, p - 1),
        decreases last + 1 - p,
    {
        v.push(p as u16);
        assert(v@ =~= start + span(first as int, p as int));
        p = p + 1;
    }
}

/// All ports from 1 to 65535, the most likely first.
pub fn default_ports() -> (r: Vec<u16>)
    ensures
        r@ == default_order(),
{
    let mut v: Vec<u16> = Vec::with_capacity(65535);
    v.push(5555);
    assert(v@ =~= seq![5555u16]);
    push_span(&mut v, 32768, 60999);
    push_span(&mut v, 1024, 5554);
    push_span(&mut v, 5556, 32767);
    push_span(&mut v, 61000, 65535);
    push_span(&mut v, 1, 1023);
    v
}

/// The ports from `first` to `last`, both included.
pub fn port_range(first: u16, last: u16) -> (r: Vec<u16>)
    ensures
        r@ == span(first as int, last as int),
{
    let mut v: Vec<u16> = Vec::new();
    if first <= last {
        push_span(&mut v, first as u32, last as u32);
    }
    assert(v@ =~= span(first as int, last as int));
    v
}

/// The position of `port` in the default order.
pub open spec fn rank(port: u16) -> int {
    if port == 5555 {
        0
    } else if 32768 <= port <= 60999 {
        1 + port - 32768
    } else if 1024 <= port <= 5554 {
        28233 + port - 1024
    } else if 5556 <= port <= 32767 {
        32764 + port - 5556
    } else if port >= 61000 {
        59976 + port - 61000
    } else {
        64512 + port - 1
    }
}

/// The default order has every port from 1 to 65535 exactly once: there are 65535 entries,
/// none of them 0, and each such port stands at one place only.
pub proof fn law_every_port_once(port: u16)
    ensures
        default_order().len() == 65535,
        !default_order().contains(0),
        port != 0 ==> 0 <= rank(port) < 65535 && default_order()[rank(port)] == port,
        forall|i: int| 0 <= i < 65535 && #[trigger] default_order()[i] == port ==> i == rank(port),
{
    let d = default_order();
    assert forall|i: int| 0 <= i < 65535 implies #[trigger] d[i] != 0 && i == rank(d[i]) by {
        lemma_entry(i);
    }
}

proof fn lemma_entry(i: int)
    requires
        0 <= i < 65535,
    ensures
        default_order()[i] == (if i == 0 {
            5555
        } else if i < 28233 {
            32768 + i - 1
        } else if i < 32764 {
            1024 + i - 28233
        } else if i < 59976 {
            5556 + i - 32764
        } else if i < 64512 {
            61000 + i - 59976
        } else {
            1 + i - 64512
        }),
{
}

/// The order of hit probability: 5555 comes before the ephemeral range, that before the
/// other unprivileged ports, and those before the privileged ports.
pub proof fn law_likely_ports_first(a: u16, b: u16)
    requires
        b != 0,
        a != 0,
    ensures
        a == 5555 && b != 5555 ==> rank(a) < rank(b),
        32768 <= a <= 60999 && b != 5555 && !(32768 <= b <= 60999) ==> rank(a) < rank(b),
        1024 <= a && b < 1024 ==> rank(a) < rank(b),
        rank(a) == rank(b) ==> a == b,
{
}

/// A range of ports is every port from the first to the last, both included, in ascending
/// order; it is empty if the first comes after the last.
pub proof fn law_range_of_ports(first: u16, last: u16, i: int)
    ensures
        first > last ==> span(first as int, last as int).len() == 0,
        first <= last ==> span(first as int, last as int).len() == last - first + 1,
        first <= last && 0 <= i <= last - first ==> span(first as int, last as int)[i] as int
            == first + i,
{
}

/// Ports that are equally likely stand in ascending order.
pub proof fn law_equally_likely_ascending(a: u16, b: u16)
    requires
        0 < a < b,
        a != 5555,
        b != 5555,
        b < 1024 || (32768 <= a && b <= 60999) || (1024 <= a && !(32768 <= a <= 60999) && !(32768
            <= b <= 60999)),
    ensures
        rank(a) < rank(b),
        default_order()[rank(a)] == a,
        default_order()[rank(b)] == b,
{
    law_every_port_once(a);
    law_every_port_once(b);
}

} // verus!
