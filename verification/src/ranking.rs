//! The order in which hits are presented: plain ADB, ADB over TLS, other open ports; among
//! each by target and port.
use vstd::prelude::*;

use crate::detect::AdbKind;
use crate::scan;
use crate::scan::{Hit, HitModel};
use crate::text;

verus! {

/// What hits are ordered by.
pub struct HitKey {
    pub rank: int,
    pub display: Seq<char>,
    pub port: int,
}

/// The rank of a kind: the smaller, the earlier.
pub open spec fn kind_rank(kind: AdbKind) -> int {
    match kind {
        AdbKind::Plain => 0,
        AdbKind::Tls => 1,
        AdbKind::Open => 2,
    }
}

pub open spec fn key_of(h: HitModel) -> HitKey {
    HitKey { rank: kind_rank(h.kind), display: h.target.display, port: h.port as int }
}

/// Whether `a` comes before `b` or equals it.
pub open spec fn key_le(a: HitKey, b: HitKey) -> bool {
    if a.rank != b.rank {
        a.rank < b.rank
    } else if a.display != b.display {
        text::text_le(a.display, b.display)
    } else {
        a.port <= b.port
    }
}

/// Whether the hits are in ascending order.
pub open spec fn ascending(s: Seq<HitModel>) -> bool {
    forall|i: int, j: int|
        0 <= i <= j < s.len() ==> key_le(key_of(#[trigger] s[i]), key_of(#[trigger] s[j]))
}

/// The hits with the key `k`, in their order.
pub open spec fn with_key(s: Seq<HitModel>, k: HitKey) -> Seq<HitModel>
    decreases s.len(),
{
    if s.len() == 0 {
        Seq::empty()
    } else if key_of(s.last()) == k {
        with_key(s.drop_last(), k).push(s.last())
    } else {
        with_key(s.drop_last(), k)
    }
}

/// Whether `r` is `s` in ascending order, hits with equal keys in the order they have in `s`.
pub open spec fn sorted_from(r: Seq<HitModel>, s: Seq<HitModel>) -> bool {
    &&& ascending(r)
    &&& forall|k: HitKey| #[trigger] with_key(r, k) == with_key(s, k)
}

proof fn lemma_key_le_total(a: HitKey, b: HitKey)
    ensures
        key_le(a, b) || key_le(b, a),
        key_le(a, a),
{
    text::lemma_text_le_total(a.display, b.display);
}

proof fn lemma_key_le_transitive(a: HitKey, b: HitKey, c: HitKey)
    requires
        key_le(a, b),
        key_le(b, c),
    ensures
        key_le(a, c),
{
    if a.rank == b.rank && b.rank == c.rank && a.display != b.display && b.display != c.display {
        text::lemma_text_le_transitive(a.display, b.display, c.display);
        if a.display == c.display {
            text::lemma_text_le_antisymmetric(a.display, b.display);
        }
    }
}

proof fn lemma_with_key_push(s: Seq<HitModel>, h: HitModel, k: HitKey)
    ensures
        with_key(s.push(h), k) == (if key_of(h) == k {
            with_key(s, k).push(h)
        } else {
            with_key(s, k)
        }),
{
    assert(s.push(h).drop_last() =~= s);
}

proof fn lemma_with_key_concat(a: Seq<HitModel>, b: Seq<HitModel>, k: HitKey)
    ensures
        with_key(a + b, k) == with_key(a, k) + with_key(b, k),
    decreases b.len(),
{
    if b.len() == 0 {
        assert(a + b =~= a);
        assert(with_key(a, k) + with_key(b, k) =~= with_key(a, k));
    } else {
        assert((a + b).drop_last() =~= a + b.drop_last());
        lemma_with_key_concat(a, b.drop_last(), k);
        if key_of(b.last()) == k {
            assert(with_key(a, k) + with_key(b.drop_last(), k).push(b.last()) =~= (with_key(a, k)
                + with_key(b.drop_last(), k)).push(b.last()));
        }
    }
}

proof fn lemma_with_key_none(s: Seq<HitModel>, k: HitKey)
    requires
        forall|i: int| 0 <= i < s.len() ==> key_of(#[trigger] s[i]) != k,
    ensures
        with_key(s, k).len() == 0,
    decreases s.len(),
{
    if s.len() > 0 {
        assert(key_of(s[s.len() - 1]) != k);
        assert forall|i: int| 0 <= i < s.len() - 1 implies key_of(#[trigger] s.drop_last()[i])
            != k by {
            assert(s.drop_last()[i] == s[i]);
        }
        lemma_with_key_none(s.drop_last(), k);
    }
}

/// Whether `a` comes before `b` or has the same key.
fn hit_le(a: &Hit, b: &Hit) -> (r: bool)
    ensures
        r == key_le(key_of(a@), key_of(b@)),
{
    let x: u8 = match a.kind {
        AdbKind::Plain => 0,
        AdbKind::Tls => 1,
        AdbKind::Open => 2,
    };
    let y: u8 = match b.kind {
        AdbKind::Plain => 0,
        AdbKind::Tls => 1,
        AdbKind::Open => 2,
    };
    if x != y {
        x < y
    } else if text::same(&a.target.display, &b.target.display) {
        a.port <= b.port
    } else {
        text::le(&a.target.display, &b.target.display)
    }
}

/// Takes the front of `from`, which is not after anything that is left.
proof fn lemma_merge_step(
    out: Seq<HitModel>,
    a: Seq<HitModel>,
    b: Seq<HitModel>,
    i: int,
    j: int,
    from_a: bool,
)
    requires
        ascending(a),
        ascending(b),
        merging(out, a, b, i, j),
        from_a ==> i < a.len() && (j < b.len() ==> key_le(key_of(a[i]), key_of(b[j]))),
        !from_a ==> j < b.len() && (i < a.len() ==> !key_le(key_of(a[i]), key_of(b[j]))),
    ensures
        from_a ==> merging(out.push(a[i]), a, b, i + 1, j),
        !from_a ==> merging(out.push(b[j]), a, b, i, j + 1),
{
    let x = if from_a {
        a[i]
    } else {
        b[j]
    };
    let next = out.push(x);
    let ni = if from_a {
        i + 1
    } else {
        i
    };
    let nj = if from_a {
        j
    } else {
        j + 1
    };
    lemma_key_le_total(key_of(x), key_of(x));
    if i < a.len() && j < b.len() {
        lemma_key_le_total(key_of(a[i]), key_of(b[j]));
    }
    assert forall|k: HitKey| #[trigger] with_key(next, k) == with_key(a.take(ni), k) + with_key(
        b.take(nj),
        k,
    ) by {
        lemma_with_key_push(out, x, k);
        assert(with_key(out, k) == with_key(a.take(i), k) + with_key(b.take(j), k));
        if from_a {
            assert(a.take(i + 1) =~= a.take(i).push(x));
            lemma_with_key_push(a.take(i), x, k);
            if key_of(x) == k {
                assert forall|q: int| 0 <= q < b.take(j).len() implies key_of(
                    #[trigger] b.take(j)[q],
                ) != k by {
                    assert(b.take(j)[q] == b[q]);
                    assert(!key_le(key_of(a[i]), key_of(b[q])));
                }
                lemma_with_key_none(b.take(j), k);
                assert(with_key(b.take(j), k) =~= Seq::<HitModel>::empty());
                assert(with_key(a.take(i), k).push(x) + with_key(b.take(j), k) =~= (with_key(
                    a.take(i),
                    k,
                ) + with_key(b.take(j), k)).push(x));
            }
        } else {
            assert(b.take(j + 1) =~= b.take(j).push(x));
            lemma_with_key_push(b.take(j), x, k);
            if key_of(x) == k {
                assert(with_key(a.take(i), k) + with_key(b.take(j), k).push(x) =~= (with_key(
                    a.take(i),
                    k,
                ) + with_key(b.take(j), k)).push(x));
            }
        }
    }
    assert forall|p: int, q: int| 0 <= p < next.len() && ni <= q < a.len() implies key_le(
        key_of(#[trigger] next[p]),
        key_of(#[trigger] a[q]),
    ) by {
        if p < out.len() {
            assert(next[p] == out[p]);
        } else if from_a {
            assert(key_le(key_of(a[i]), key_of(a[q])));
        } else {
            assert(key_le(key_of(a[i]), key_of(a[q])));
            lemma_key_le_transitive(key_of(b[j]), key_of(a[i]), key_of(a[q]));
        }
    }
    assert forall|p: int, q: int| 0 <= p < next.len() && nj <= q < b.len() implies key_le(
        key_of(#[trigger] next[p]),
        key_of(#[trigger] b[q]),
    ) by {
        if p < out.len() {
            assert(next[p] == out[p]);
        } else if from_a {
            assert(key_le(key_of(b[j]), key_of(b[q])));
            lemma_key_le_transitive(key_of(a[i]), key_of(b[j]), key_of(b[q]));
        } else {
            assert(key_le(key_of(b[j]), key_of(b[q])));
        }
    }
    assert forall|p: int, q: int| 0 <= p < nj && ni <= q < a.len() implies !key_le(
        key_of(#[trigger] a[q]),
        key_of(#[trigger] b[p]),
    ) by {
        if p == j {
            assert(key_le(key_of(a[i]), key_of(a[q])));
            if key_le(key_of(a[q]), key_of(b[p])) {
                lemma_key_le_transitive(key_of(a[i]), key_of(a[q]), key_of(b[p]));
            }
        }
    }
    assert forall|p: int, q: int| 0 <= p <= q < next.len() implies key_le(
        key_of(#[trigger] next[p]),
        key_of(#[trigger] next[q]),
    ) by {
        if q < out.len() {
            assert(next[p] == out[p] && next[q] == out[q]);
        } else if p < out.len() {
            assert(next[p] == out[p]);
        }
    }
}

/// `out` holds the first `i` hits of `a` and the first `j` hits of `b` in order; nothing that
/// is left belongs before any of them, and what is left of `a` belongs after those of `b`.
spec fn merging(
    out: Seq<HitModel>,
    a: Seq<HitModel>,
    b: Seq<HitModel>,
    i: int,
    j: int,
) -> bool {
    &&& 0 <= i <= a.len()
    &&& 0 <= j <= b.len()
    &&& ascending(out)
    &&& forall|k: HitKey| #[trigger]
        with_key(out, k) == with_key(a.take(i), k) + with_key(b.take(j), k)
    &&& forall|p: int, q: int|
        0 <= p < out.len() && i <= q < a.len() ==> key_le(
            key_of(#[trigger] out[p]),
            key_of(#[trigger] a[q]),
        )
    &&& forall|p: int, q: int|
        0 <= p < out.len() && j <= q < b.len() ==> key_le(
            key_of(#[trigger] out[p]),
            key_of(#[trigger] b[q]),
        )
    &&& forall|p: int, q: int|
        0 <= p < j && i <= q < a.len() ==> !key_le(
            key_of(#[trigger] a[q]),
            key_of(#[trigger] b[p]),
        )
}

fn merge(a: &Vec<Hit>, b: &Vec<Hit>) -> (r: Vec<Hit>)
    requires
        ascending(scan::hit_models(a@)),
        ascending(scan::hit_models(b@)),
    ensures
        sorted_from(
            scan::hit_models(r@),
            scan::hit_models(a@) + scan::hit_models(b@),
        ),
{
    let ghost x = scan::hit_models(a@);
    let ghost y = scan::hit_models(b@);
    let mut out: Vec<Hit> = Vec::new();
    let mut i: usize = 0;
    let mut j: usize = 0;
    assert(scan::hit_models(out@) =~= Seq::<HitModel>::empty());
    assert(merging(scan::hit_models(out@), x, y, 0, 0)) by {
        assert forall|k: HitKey| #[trigger]
            with_key(Seq::<HitModel>::empty(), k) == with_key(x.take(0), k) + with_key(
                y.take(0),
                k,
            ) by {
            assert(with_key(x.take(0), k) + with_key(y.take(0), k) =~= Seq::<HitModel>::empty());
        }
    }
    while i < a.len() || j < b.len()
        invariant
            x == scan::hit_models(a@),
            y == scan::hit_models(b@),
            ascending(x),
            ascending(y),
            merging(scan::hit_models(out@), x, y, i as int, j as int),
        decreases a@.len() - i + b@.len() - j,
    {
        let ghost before = out@;
        let from_a: bool = if i < a.len() {
            if j < b.len() {
                hit_le(&a[i], &b[j])
            } else {
                true
            }
        } else {
            false
        };
        proof {
            lemma_merge_step(
                scan::hit_models(out@),
                x,
                y,
                i as int,
                j as int,
                from_a,
            );
        }
        if from_a {
            out.push(a[i].clone());
            i = i + 1;
        } else {
            out.push(b[j].clone());
            j = j + 1;
        }
        assert(scan::hit_models(out@) =~= scan::hit_models(before).push(out@.last()@));
    }
    proof {
        assert(x.take(i as int) =~= x && y.take(j as int) =~= y);
        let r = scan::hit_models(out@);
        assert forall|k: HitKey| #[trigger] with_key(r, k) == with_key(x + y, k) by {
            lemma_with_key_concat(x, y, k);
        }
    }
    out
}

fn sort_range(v: &Vec<Hit>, lo: usize, hi: usize) -> (r: Vec<Hit>)
    requires
        lo <= hi <= v@.len(),
    ensures
        sorted_from(
            scan::hit_models(r@),
            scan::hit_models(v@).subrange(lo as int, hi as int),
        ),
    decreases hi - lo,
{
    let ghost s = scan::hit_models(v@);
    if hi - lo == 0 {
        let r: Vec<Hit> = Vec::new();
        assert(scan::hit_models(r@) =~= s.subrange(lo as int, hi as int));
        r
    } else if hi - lo == 1 {
        let mut r: Vec<Hit> = Vec::new();
        r.push(v[lo].clone());
        assert(scan::hit_models(r@) =~= s.subrange(lo as int, hi as int));
        proof {
            lemma_key_le_total(key_of(r@[0]@), key_of(r@[0]@));
        }
        r
    } else {
        let mid: usize = lo + (hi - lo) / 2;
        let a: Vec<Hit> = sort_range(v, lo, mid);
        let b: Vec<Hit> = sort_range(v, mid, hi);
        let r: Vec<Hit> = merge(&a, &b);
        proof {
            let x = scan::hit_models(a@);
            let y = scan::hit_models(b@);
            let left = s.subrange(lo as int, mid as int);
            let right = s.subrange(mid as int, hi as int);
            assert(left + right =~= s.subrange(lo as int, hi as int));
            assert forall|k: HitKey| #[trigger]
                with_key(scan::hit_models(r@), k) == with_key(left + right, k) by {
                lemma_with_key_concat(x, y, k);
                lemma_with_key_concat(left, right, k);
                assert(with_key(x, k) == with_key(left, k));
                assert(with_key(y, k) == with_key(right, k));
            }
        }
        r
    }
}

/// The hits in the order of presentation. The sort is stable.
pub fn sort_hits(v: &Vec<Hit>) -> (r: Vec<Hit>)
    ensures
        sorted_from(scan::hit_models(r@), scan::hit_models(v@)),
{
    assert(scan::hit_models(v@).subrange(0, v@.len() as int) =~= scan::hit_models(v@));
    sort_range(v, 0, v.len())
}

proof fn lemma_count_by_key(s: Seq<HitModel>, h: HitModel)
    ensures
        s.to_multiset().count(h) == with_key(s, key_of(h)).to_multiset().count(h),
    decreases s.len(),
{
    broadcast use vstd::seq_lib::group_to_multiset_ensures;

    if s.len() > 0 {
        let t = s.drop_last();
        lemma_count_by_key(t, h);
        assert(s =~= t.push(s.last()));
        lemma_with_key_push(t, s.last(), key_of(h));
    }
}

/// Sorting neither loses nor adds nor repeats a hit.
pub proof fn law_sorting_keeps_hits(r: Seq<HitModel>, s: Seq<HitModel>)
    requires
        sorted_from(r, s),
    ensures
        r.to_multiset() == s.to_multiset(),
        r.len() == s.len(),
{
    broadcast use vstd::seq_lib::group_to_multiset_ensures;

    assert forall|h: HitModel| #[trigger] r.to_multiset().count(h) == s.to_multiset().count(h) by {
        lemma_count_by_key(r, h);
        lemma_count_by_key(s, h);
        assert(with_key(r, key_of(h)) == with_key(s, key_of(h)));
    }
    assert(r.to_multiset() =~= s.to_multiset());
    assert(r.to_multiset().len() == r.len());
    assert(s.to_multiset().len() == s.len());
}

/// There is only one sorted form: what a list of hits is presented as is fixed by the list.
pub proof fn law_sorted_form_unique(a: Seq<HitModel>, b: Seq<HitModel>, s: Seq<HitModel>)
    requires
        sorted_from(a, s),
        sorted_from(b, s),
    ensures
        a == b,
    decreases a.len(),
{
    law_sorting_keeps_hits(a, s);
    law_sorting_keeps_hits(b, s);
    lemma_unique(a, b);
}

proof fn lemma_key_le_antisymmetric(a: HitKey, b: HitKey)
    requires
        key_le(a, b),
        key_le(b, a),
    ensures
        a == b,
{
    if a.display != b.display {
        text::lemma_text_le_antisymmetric(a.display, b.display);
    }
}

proof fn lemma_with_key_has_last(s: Seq<HitModel>, i: int)
    requires
        0 <= i < s.len(),
    ensures
        with_key(s, key_of(s[i])).len() > 0,
    decreases s.len(),
{
    if i < s.len() - 1 {
        assert(s.drop_last()[i] == s[i]);
        lemma_with_key_has_last(s.drop_last(), i);
    }
}

proof fn lemma_with_key_in(s: Seq<HitModel>, k: HitKey)
    requires
        with_key(s, k).len() > 0,
    ensures
        exists|i: int| 0 <= i < s.len() && key_of(#[trigger] s[i]) == k,
    decreases s.len(),
{
    if key_of(s.last()) == k {
        assert(key_of(s[s.len() - 1]) == k);
    } else {
        lemma_with_key_in(s.drop_last(), k);
        let i = choose|i: int| 0 <= i < s.drop_last().len() && key_of(#[trigger] s.drop_last()[i]) == k;
        assert(key_of(s[i]) == k);
    }
}

proof fn lemma_unique(a: Seq<HitModel>, b: Seq<HitModel>)
    requires
        ascending(a),
        ascending(b),
        a.len() == b.len(),
        forall|k: HitKey| #[trigger] with_key(a, k) == with_key(b, k),
    ensures
        a == b,
    decreases a.len(),
{
    if a.len() > 0 {
        let ka = key_of(a.last());
        let kb = key_of(b.last());
        lemma_with_key_has_last(a, a.len() - 1);
        lemma_with_key_has_last(b, b.len() - 1);
        assert(with_key(b, ka).len() > 0);
        assert(with_key(a, kb).len() > 0);
        lemma_with_key_in(b, ka);
        lemma_with_key_in(a, kb);
        let i = choose|i: int| 0 <= i < b.len() && key_of(#[trigger] b[i]) == ka;
        let j = choose|j: int| 0 <= j < a.len() && key_of(#[trigger] a[j]) == kb;
        assert(key_le(key_of(b[i]), key_of(b[b.len() - 1])));
        assert(key_le(key_of(a[j]), key_of(a[a.len() - 1])));
        lemma_key_le_antisymmetric(ka, kb);
        assert(with_key(a, ka).last() == with_key(b, ka).last());
        assert(a.last() == b.last());
        let (x, y) = (a.drop_last(), b.drop_last());
        assert forall|k: HitKey| #[trigger] with_key(x, k) == with_key(y, k) by {
            assert(with_key(a, k) == with_key(b, k));
            if k == ka {
                assert(with_key(a, k).drop_last() =~= with_key(x, k));
                assert(with_key(b, k).drop_last() =~= with_key(y, k));
            }
        }
        assert(ascending(x)) by {
            assert forall|p: int, q: int| 0 <= p <= q < x.len() implies key_le(
                key_of(#[trigger] x[p]),
                key_of(#[trigger] x[q]),
            ) by {
                assert(x[p] == a[p] && x[q] == a[q]);
            }
        }
        assert(ascending(y)) by {
            assert forall|p: int, q: int| 0 <= p <= q < y.len() implies key_le(
                key_of(#[trigger] y[p]),
                key_of(#[trigger] y[q]),
            ) by {
                assert(y[p] == b[p] && y[q] == b[q]);
            }
        }
        lemma_unique(x, y);
        assert(a =~= x.push(a.last()));
        assert(b =~= y.push(b.last()));
    } else {
        assert(a =~= b);
    }
}

/// Which of two hits comes first: plain ADB before ADB over TLS before other open ports;
/// among the same kind the one whose target is shown as the lesser text; for the same target
/// the one with the lower port.
pub proof fn law_presentation_order(a: HitModel, b: HitModel)
    ensures
        a.kind is Plain && !(b.kind is Plain) ==> key_le(key_of(a), key_of(b)) && !key_le(
            key_of(b),
            key_of(a),
        ),
        a.kind is Tls && b.kind is Open ==> key_le(key_of(a), key_of(b)) && !key_le(
            key_of(b),
            key_of(a),
        ),
        a.kind == b.kind && a.target.display != b.target.display ==> key_le(key_of(a), key_of(b))
            == text::text_le(a.target.display, b.target.display),
        a.kind == b.kind && a.target.display == b.target.display ==> key_le(key_of(a), key_of(b))
            == (a.port <= b.port),
        key_of(a) == key_of(b) <==> a.kind == b.kind && a.target.display == b.target.display
            && a.port == b.port,
{
}

/// A sorted list of hits has all plain ADB ports in front, then those of ADB over TLS, then
/// the others; within a kind the targets ascend, and within a target the ports.
pub proof fn law_presented_in_order(r: Seq<HitModel>, s: Seq<HitModel>, i: int, j: int)
    requires
        sorted_from(r, s),
        0 <= i < j < r.len(),
    ensures
        r[j].kind is Plain ==> r[i].kind is Plain,
        r[i].kind is Open ==> r[j].kind is Open,
        r[i].kind == r[j].kind ==> text::text_le(r[i].target.display, r[j].target.display),
        r[i].kind == r[j].kind && r[i].target.display == r[j].target.display ==> r[i].port
            <= r[j].port,
{
    assert(key_le(key_of(r[i]), key_of(r[j])));
    text::lemma_text_le_total(r[i].target.display, r[i].target.display);
}

/// Hits that rank the same keep the order in which they were found.
pub proof fn law_equal_hits_keep_order(r: Seq<HitModel>, s: Seq<HitModel>, h: HitModel)
    requires
        sorted_from(r, s),
    ensures
        r.filter(
            |x: HitModel|
                x.kind == h.kind && x.target.display == h.target.display && x.port == h.port,
        ) == s.filter(
            |x: HitModel|
                x.kind == h.kind && x.target.display == h.target.display && x.port == h.port,
        ),
{
    lemma_with_key_filters(r, h);
    lemma_with_key_filters(s, h);
    assert(with_key(r, key_of(h)) == with_key(s, key_of(h)));
}

proof fn lemma_with_key_filters(s: Seq<HitModel>, h: HitModel)
    ensures
        with_key(s, key_of(h)) == s.filter(
            |x: HitModel|
                x.kind == h.kind && x.target.display == h.target.display && x.port == h.port,
        ),
    decreases s.len(),
{
    reveal(Seq::filter);
    if s.len() > 0 {
        lemma_with_key_filters(s.drop_last(), h);
    }
}

} // verus!
