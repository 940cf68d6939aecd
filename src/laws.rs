//! What holds of the ring across operations.
use vstd::prelude::*;
use vstd::relations::total_ordering;
use vstd::set_lib::{full_set_properties, lemma_set_disjoint_lens, lemma_set_subset_finite};

use crate::model::{
    add_missing, converged, is_least, is_least_above, owner_of, positions, positions_of_all,
    replica_hash, successor, with_member, without_member,
};

verus! {

/// The first `r` replicas of `m` sit at pairwise different positions.
pub open spec fn distinct_positions(m: Seq<char>, r: nat) -> bool {
    forall|i: nat, j: nat| i < r && j < r && i != j ==> replica_hash(m, i) != replica_hash(m, j)
}

proof fn lemma_u32_set_finite(d: Set<u32>)
    ensures
        d.finite(),
{
    broadcast use full_set_properties;

    assert(Set::<u32>::full().finite());
    lemma_set_subset_finite(Set::<u32>::full(), d);
}

proof fn lemma_positions_len(m: Seq<char>, r: nat)
    requires
        distinct_positions(m, r),
    ensures
        positions(m, r).len() == r,
    decreases r,
{
    lemma_u32_set_finite(positions(m, r));
    if r == 0 {
        assert(positions(m, r) =~= Set::<u32>::empty());
    } else {
        let p = (r - 1) as nat;
        lemma_u32_set_finite(positions(m, p));
        lemma_positions_len(m, p);
        assert forall|h: u32| positions(m, r).contains(h) <==> (positions(m, p).contains(h) || h
            == replica_hash(m, p)) by {
            if positions(m, r).contains(h) {
                let j = choose|j: nat| j < r && h == replica_hash(m, j);
                if j < p {
                    assert(positions(m, p).contains(h));
                }
            }
            if positions(m, p).contains(h) {
                let j = choose|j: nat| j < p && h == replica_hash(m, j);
                assert(j < r);
            }
        }
        assert(positions(m, r) =~= positions(m, p).insert(replica_hash(m, p)));
        assert(!positions(m, p).contains(replica_hash(m, p)));
    }
}

/// The first position of a non-empty set clockwise from `h` belongs to it:
/// the least above `h` where one is above, else the least of all.
proof fn lemma_successor(d: Set<u32>, h: u32)
    requires
        d.len() > 0 || exists|x: u32| d.contains(x),
    ensures
        d.contains(successor(d, h)),
        (exists|x: u32| d.contains(x) && x > h) ==> is_least_above(d, h, successor(d, h)),
        !(exists|x: u32| d.contains(x) && x > h) ==> is_least(d, successor(d, h)),
{
    let leq = |a: u32, b: u32| a <= b;
    assert(total_ordering(leq));
    lemma_u32_set_finite(d);
    if d.len() == 0 {
        let x = choose|x: u32| d.contains(x);
        assert(d =~= Set::<u32>::empty());
    }
    if exists|x: u32| d.contains(x) && x > h {
        let above = d.filter(|x: u32| x > h);
        lemma_u32_set_finite(above);
        let x = choose|x: u32| d.contains(x) && x > h;
        assert(above.contains(x));
        if above.len() == 0 {
            assert(above =~= Set::<u32>::empty());
        }
        above.find_unique_minimal_ensures(leq);
        let k = above.find_unique_minimal(leq);
        assert(above.contains(k));
        assert forall|y: u32| d.contains(y) && y > h implies k <= y by {
            assert(above.contains(y));
            assert(vstd::relations::is_minimal(leq, k, above));
            if y <= k {
                assert(leq(y, k));
                assert(leq(k, y));
            }
        }
        assert(is_least_above(d, h, k));
    } else {
        d.find_unique_minimal_ensures(leq);
        let k = d.find_unique_minimal(leq);
        assert forall|y: u32| d.contains(y) implies k <= y by {
            assert(vstd::relations::is_minimal(leq, k, d));
            if y <= k {
                assert(leq(y, k));
                assert(leq(k, y));
            }
        }
        assert(is_least(d, k));
        assert forall|k3: u32| !is_least_above(d, h, k3) by {}
    }
}

/// Placing `r` replicas of `m`, at pairwise different positions, on an
/// empty circle gives `r` virtual nodes.
pub proof fn lemma_replica_count(c: Map<u32, Seq<char>>, m: Seq<char>, r: nat)
    requires
        c.dom() == Set::<u32>::empty(),
        distinct_positions(m, r),
    ensures
        with_member(c, m, r).len() == r,
{
    lemma_positions_len(m, r);
    assert(with_member(c, m, r).dom() =~= positions(m, r));
}

/// Placing two members, whose `r` replicas all sit at different positions,
/// on an empty circle gives `2 * r` virtual nodes.
pub proof fn lemma_two_members_count(c: Map<u32, Seq<char>>, a: Seq<char>, b: Seq<char>, r: nat)
    requires
        c.dom() == Set::<u32>::empty(),
        distinct_positions(a, r),
        distinct_positions(b, r),
        positions(a, r).disjoint(positions(b, r)),
    ensures
        with_member(with_member(c, a, r), b, r).len() == 2 * r,
{
    lemma_positions_len(a, r);
    lemma_positions_len(b, r);
    lemma_u32_set_finite(positions(a, r));
    lemma_u32_set_finite(positions(b, r));
    lemma_set_disjoint_lens(positions(a, r), positions(b, r));
    assert(with_member(with_member(c, a, r), b, r).dom() =~= positions(a, r) + positions(b, r));
}

/// Removing a member right after adding it clears what the addition placed:
/// the circle is as if the member had only been removed. From an empty
/// circle, no virtual node is left.
pub proof fn lemma_add_then_remove(c: Map<u32, Seq<char>>, m: Seq<char>, r: nat)
    ensures
        without_member(with_member(c, m, r), m, r) == without_member(c, m, r),
        c.dom() == Set::<u32>::empty() ==> without_member(with_member(c, m, r), m, r).len() == 0,
{
    assert(without_member(with_member(c, m, r), m, r) =~= without_member(c, m, r));
    if c.dom() == Set::<u32>::empty() {
        assert(without_member(c, m, r).dom() =~= Set::<u32>::empty());
    }
}

/// Removing a name whose positions none of the added member's replicas
/// share leaves the circle of one added member unchanged.
pub proof fn lemma_remove_absent(c: Map<u32, Seq<char>>, m: Seq<char>, other: Seq<char>, r: nat)
    requires
        c.dom() == Set::<u32>::empty(),
        positions(m, r).disjoint(positions(other, r)),
    ensures
        without_member(with_member(c, m, r), other, r) == with_member(c, m, r),
        without_member(with_member(c, m, r), other, r).len() == with_member(c, m, r).len(),
{
    assert(without_member(with_member(c, m, r), other, r) =~= with_member(c, m, r));
}

/// On a circle that holds only the replicas of `m`, every hash is owned by
/// `m`.
pub proof fn lemma_single_member_owner(c: Map<u32, Seq<char>>, m: Seq<char>, r: nat, h: u32)
    requires
        c.dom() == Set::<u32>::empty(),
        r > 0,
    ensures
        owner_of(with_member(c, m, r), h) == m,
{
    let c1 = with_member(c, m, r);
    assert(positions(m, r).contains(replica_hash(m, 0)));
    assert(c1.dom().contains(replica_hash(m, 0)));
    lemma_successor(c1.dom(), h);
}

/// Adding a member never moves a hash from one existing owner to another:
/// the owner afterwards is the owner before, or the new member.
pub proof fn lemma_stable_under_growth(c: Map<u32, Seq<char>>, n: Seq<char>, r: nat, h: u32)
    requires
        c.len() > 0,
    ensures
        owner_of(with_member(c, n, r), h) == owner_of(c, h) || owner_of(with_member(c, n, r), h)
            == n,
{
    let c1 = with_member(c, n, r);
    let d = c.dom();
    let d1 = c1.dom();
    lemma_u32_set_finite(d);
    assert(d1.len() > 0 || exists|x: u32| d1.contains(x)) by {
        if d.len() > 0 {
            if !(exists|x: u32| d.contains(x)) {
                assert(d =~= Set::<u32>::empty());
            }
            let x = choose|x: u32| d.contains(x);
            assert(d1.contains(x));
        }
    }
    lemma_successor(d, h);
    lemma_successor(d1, h);
    let k1 = successor(d1, h);
    let k = successor(d, h);
    if !positions(n, r).contains(k1) {
        assert(d.contains(k1));
        if exists|x: u32| d1.contains(x) && x > h {
            assert(k1 > h);
            assert(k <= k1);
            assert(d1.contains(k));
            assert(k1 <= k);
        } else {
            if exists|x: u32| d.contains(x) && x > h {
                let x = choose|x: u32| d.contains(x) && x > h;
                assert(d1.contains(x));
            }
            assert(d1.contains(k));
            assert(k1 <= k && k <= k1);
        }
    }
}

/// Removing a member moves only the hashes it owned: where every replica
/// position of `m` on the circle holds `m`, a hash owned by another member
/// keeps its owner.
pub proof fn lemma_stable_under_removal(c: Map<u32, Seq<char>>, m: Seq<char>, r: nat, h: u32)
    requires
        c.len() > 0,
        forall|p: u32| positions(m, r).contains(p) && c.contains_key(p) ==> c[p] == m,
        owner_of(c, h) != m,
    ensures
        owner_of(without_member(c, m, r), h) == owner_of(c, h),
{
    let c1 = without_member(c, m, r);
    let d = c.dom();
    let d1 = c1.dom();
    lemma_u32_set_finite(d);
    if !(exists|x: u32| d.contains(x)) {
        assert(d =~= Set::<u32>::empty());
    }
    lemma_successor(d, h);
    let k = successor(d, h);
    assert(!positions(m, r).contains(k));
    assert(d1.contains(k));
    lemma_successor(d1, h);
    let k1 = successor(d1, h);
    assert(d.contains(k1));
    if exists|x: u32| d.contains(x) && x > h {
        assert(k1 > h);
        assert(k <= k1 && k1 <= k);
    } else {
        assert(k1 <= k && k <= k1);
    }
}

/// Setting the members of a circle of three members to two new names,
/// whose replicas all sit at different positions, leaves exactly the
/// `2 * r` virtual nodes of the two new names.
pub proof fn lemma_set_to_two_new(
    e: Map<u32, Seq<char>>,
    a: Seq<char>,
    b: Seq<char>,
    c: Seq<char>,
    d: Seq<char>,
    f: Seq<char>,
    r: nat,
)
    requires
        e.dom() == Set::<u32>::empty(),
        d != f,
        !set![a, b, c].contains(d),
        !set![a, b, c].contains(f),
        distinct_positions(d, r),
        distinct_positions(f, r),
        positions(d, r).disjoint(positions(f, r)),
    ensures
        converged(with_member(with_member(with_member(e, a, r), b, r), c, r), set![a, b, c], seq![d, f], r).len()
            == 2 * r,
{
    let c3 = with_member(with_member(with_member(e, a, r), b, r), c, r);
    let members = set![a, b, c];
    let names = seq![d, f];
    let gone = members.difference(names.to_set());
    assert(names.to_set().contains(d) && names.contains(d)) by {
        assert(names[0] == d);
    }
    assert(names.contains(f)) by {
        assert(names[1] == f);
    }
    assert forall|x: Seq<char>| names.to_set().contains(x) implies x == d || x == f by {
        let j = choose|j: int| 0 <= j < names.len() && names[j] == x;
    }
    assert(gone =~= members);
    let stripped = c3.remove_keys(positions_of_all(gone, r));
    assert forall|h: u32| c3.dom().contains(h) implies positions_of_all(gone, r).contains(h) by {
        if positions(c, r).contains(h) {
            assert(gone.contains(c));
        } else if positions(b, r).contains(h) {
            assert(gone.contains(b));
        } else {
            assert(gone.contains(a));
        }
    }
    assert(stripped.dom() =~= Set::<u32>::empty());
    let present = members.difference(gone);
    assert(present =~= Set::<Seq<char>>::empty());
    assert(names.drop_first() =~= seq![f]);
    assert(seq![f].drop_first() =~= Seq::<Seq<char>>::empty());
    let s1 = with_member(stripped, d, r);
    let s2 = with_member(s1, f, r);
    assert(names[0] == d);
    assert(!present.contains(d));
    assert(add_missing(stripped, present, names, r) == add_missing(s1, present.insert(d), seq![f], r));
    assert(seq![f][0] == f);
    assert(!present.insert(d).contains(f));
    assert(add_missing(s1, present.insert(d), seq![f], r) == add_missing(
        s2,
        present.insert(d).insert(f),
        Seq::<Seq<char>>::empty(),
        r,
    ));
    assert(add_missing(stripped, present, names, r) == s2);
    lemma_two_members_count(stripped, d, f, r);
}

} // verus!
