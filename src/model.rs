//! The mathematical model of the ring: where replicas sit, which position
//! owns a hash, and the walks that the queries make.
use vstd::prelude::*;

use crate::key::replica_key;
use crate::outside::fx_hash32;

verus! {

/// The ring position of replica `i` of member `m`.
pub open spec fn replica_hash(m: Seq<char>, i: nat) -> u32 {
    fx_hash32(replica_key(m, i))
}

/// The ring positions of the first `r` replicas of member `m`.
pub open spec fn positions(m: Seq<char>, r: nat) -> Set<u32> {
    Set::new(|h: u32| exists|i: nat| i < r && h == replica_hash(m, i))
}

/// The circle after the first `r` replicas of `m` are placed on `c`; a
/// position already taken is overwritten.
pub open spec fn with_member(c: Map<u32, Seq<char>>, m: Seq<char>, r: nat) -> Map<u32, Seq<char>> {
    c.union_prefer_right(Map::new(|h: u32| positions(m, r).contains(h), |h: u32| m))
}

/// The circle after the positions of the first `r` replicas of `m` are
/// cleared from `c`.
pub open spec fn without_member(c: Map<u32, Seq<char>>, m: Seq<char>, r: nat) -> Map<u32, Seq<char>> {
    c.remove_keys(positions(m, r))
}

/// `k` is the smallest position of `d` above `h`.
pub open spec fn is_least_above(d: Set<u32>, h: u32, k: u32) -> bool {
    d.contains(k) && k > h && forall|x: u32| d.contains(x) && x > h ==> k <= x
}

/// `k` is the smallest position of `d`.
pub open spec fn is_least(d: Set<u32>, k: u32) -> bool {
    d.contains(k) && forall|x: u32| d.contains(x) ==> k <= x
}

/// The first position of `d` clockwise from `h`: the smallest one above
/// `h`, or, where none is above, the smallest of all.
pub open spec fn successor(d: Set<u32>, h: u32) -> u32 {
    if exists|k: u32| is_least_above(d, h, k) {
        choose|k: u32| is_least_above(d, h, k)
    } else {
        choose|k: u32| is_least(d, k)
    }
}

/// The member that owns hash `h` on circle `c`.
pub open spec fn owner_of(c: Map<u32, Seq<char>>, h: u32) -> Seq<char> {
    c[successor(c.dom(), h)]
}

/// Each entry of `s` is below the next.
pub open spec fn strictly_sorted(s: Seq<u32>) -> bool {
    forall|i: int, j: int| 0 <= i < j < s.len() ==> s[i] < s[j]
}

/// `s` lists the positions of circle `c` in ascending order.
pub open spec fn indexes(s: Seq<u32>, c: Map<u32, Seq<char>>) -> bool {
    &&& strictly_sorted(s)
    &&& s.len() == c.len()
    &&& forall|i: int| 0 <= i < s.len() ==> c.contains_key(#[trigger] s[i])
    &&& forall|k: u32| c.contains_key(k) ==> s.contains(k)
}

/// The entries of `s` before `i` are at most `h`, the others above it.
pub open spec fn is_split(s: Seq<u32>, h: u32, i: int) -> bool {
    &&& 0 <= i <= s.len()
    &&& forall|j: int| 0 <= j < i ==> s[j] <= h
    &&& forall|j: int| i <= j < s.len() ==> s[j] > h
}

/// Where a walk of index `s` for hash `h` starts: the first entry above
/// `h`, or the first entry where none is above.
pub open spec fn start_index(s: Seq<u32>, h: u32) -> int {
    let p = choose|i: int| is_split(s, h, i);
    if p == s.len() {
        0
    } else {
        p
    }
}

/// The index position `k` steps clockwise from `start`.
pub open spec fn step(len: int, start: int, k: int) -> int {
    if start + k < len {
        start + k
    } else {
        start + k - len
    }
}

/// The owners met walking once round index `s` of circle `c`, clockwise
/// from the position of hash `h`.
pub open spec fn walk(c: Map<u32, Seq<char>>, s: Seq<u32>, h: u32) -> Seq<Seq<char>> {
    Seq::new(s.len(), |k: int| c[s[step(s.len() as int, start_index(s, h), k)]])
}

/// The first name of `w` from place `k` on that differs from `a`, or the
/// empty name where there is none.
pub open spec fn first_differing(w: Seq<Seq<char>>, a: Seq<char>, k: int) -> Seq<char>
    decreases w.len() - k,
{
    if k < 0 || k >= w.len() {
        Seq::empty()
    } else if w[k] != a {
        w[k]
    } else {
        first_differing(w, a, k + 1)
    }
}

/// `acc` extended by the names of `w` from place `k` on that it does not
/// hold yet, until it holds `n` names or `w` ends.
pub open spec fn gather(w: Seq<Seq<char>>, n: nat, k: int, acc: Seq<Seq<char>>) -> Seq<Seq<char>>
    decreases w.len() - k,
{
    if k < 0 || acc.len() >= n || k >= w.len() {
        acc
    } else if acc.contains(w[k]) {
        gather(w, n, k + 1, acc)
    } else {
        gather(w, n, k + 1, acc.push(w[k]))
    }
}

/// The positions of the first `r` replicas of every member of `s`.
pub open spec fn positions_of_all(s: Set<Seq<char>>, r: nat) -> Set<u32> {
    Set::new(|h: u32| exists|m: Seq<char>| s.contains(m) && positions(m, r).contains(h))
}

/// The circle after each name of `names` in turn that is not among
/// `present` (nor among the names before it) is placed on `c`.
pub open spec fn add_missing(
    c: Map<u32, Seq<char>>,
    present: Set<Seq<char>>,
    names: Seq<Seq<char>>,
    r: nat,
) -> Map<u32, Seq<char>>
    decreases names.len(),
{
    if names.len() == 0 {
        c
    } else if present.contains(names[0]) {
        add_missing(c, present, names.drop_first(), r)
    } else {
        add_missing(with_member(c, names[0], r), present.insert(names[0]), names.drop_first(), r)
    }
}

/// The circle after `set`: the positions of the members that leave are
/// cleared, then the names that are not yet members are placed in order.
pub open spec fn converged(
    c: Map<u32, Seq<char>>,
    members: Set<Seq<char>>,
    names: Seq<Seq<char>>,
    r: nat,
) -> Map<u32, Seq<char>> {
    let gone = members.difference(names.to_set());
    add_missing(c.remove_keys(positions_of_all(gone, r)), members.difference(gone), names, r)
}

pub proof fn lemma_strip_step(c: Map<u32, Seq<char>>, done: Set<Seq<char>>, m: Seq<char>, r: nat)
    ensures
        without_member(c.remove_keys(positions_of_all(done, r)), m, r) == c.remove_keys(
            positions_of_all(done.insert(m), r),
        ),
{
    let a = without_member(c.remove_keys(positions_of_all(done, r)), m, r);
    let b = c.remove_keys(positions_of_all(done.insert(m), r));
    assert forall|h: u32| positions_of_all(done.insert(m), r).contains(h) <==> (positions_of_all(
        done,
        r,
    ).contains(h) || positions(m, r).contains(h)) by {
        if positions_of_all(done.insert(m), r).contains(h) {
            let x = choose|x: Seq<char>| done.insert(m).contains(x) && positions(x, r).contains(h);
            if x != m {
                assert(done.contains(x));
            }
        }
        if positions_of_all(done, r).contains(h) {
            let x = choose|x: Seq<char>| done.contains(x) && positions(x, r).contains(h);
            assert(done.insert(m).contains(x));
        }
        if positions(m, r).contains(h) {
            assert(done.insert(m).contains(m));
        }
    }
    assert(a =~= b);
}

/// At most `n`, and at most `count`.
pub open spec fn cap(n: nat, count: nat) -> nat {
    if count < n {
        count
    } else {
        n
    }
}

/// Gathering keeps the names distinct and stops at `n` of them.
pub proof fn lemma_gather_distinct(w: Seq<Seq<char>>, n: nat, k: int, acc: Seq<Seq<char>>)
    requires
        acc.no_duplicates(),
        acc.len() <= n,
    ensures
        gather(w, n, k, acc).no_duplicates(),
        gather(w, n, k, acc).len() <= n,
    decreases w.len() - k,
{
    if k < 0 || acc.len() >= n || k >= w.len() {
    } else if acc.contains(w[k]) {
        lemma_gather_distinct(w, n, k + 1, acc);
    } else {
        let next = acc.push(w[k]);
        assert forall|i: int, j: int| 0 <= i < j < next.len() implies next[i] != next[j] by {
            if j == acc.len() {
                assert(acc.contains(acc[i]));
            }
        }
        lemma_gather_distinct(w, n, k + 1, next);
    }
}

pub proof fn lemma_with_member_step(c: Map<u32, Seq<char>>, m: Seq<char>, i: nat)
    ensures
        with_member(c, m, i + 1) == with_member(c, m, i).insert(replica_hash(m, i), m),
{
    let a = with_member(c, m, i + 1);
    let b = with_member(c, m, i).insert(replica_hash(m, i), m);
    assert forall|h: u32| positions(m, i + 1).contains(h) <==> (positions(m, i).contains(h) || h
        == replica_hash(m, i)) by {
        if positions(m, i + 1).contains(h) {
            let j = choose|j: nat| j < i + 1 && h == replica_hash(m, j);
            if j < i {
                assert(positions(m, i).contains(h));
            }
        }
        if positions(m, i).contains(h) {
            let j = choose|j: nat| j < i && h == replica_hash(m, j);
            assert(j < i + 1);
        }
        if h == replica_hash(m, i) {
            assert(i < i + 1);
        }
    }
    assert(a =~= b);
}

pub proof fn lemma_without_member_step(c: Map<u32, Seq<char>>, m: Seq<char>, i: nat)
    ensures
        without_member(c, m, i + 1) == without_member(c, m, i).remove(replica_hash(m, i)),
{
    let a = without_member(c, m, i + 1);
    let b = without_member(c, m, i).remove(replica_hash(m, i));
    assert forall|h: u32| positions(m, i + 1).contains(h) <==> (positions(m, i).contains(h) || h
        == replica_hash(m, i)) by {
        if positions(m, i + 1).contains(h) {
            let j = choose|j: nat| j < i + 1 && h == replica_hash(m, j);
            if j < i {
                assert(positions(m, i).contains(h));
            }
        }
        if positions(m, i).contains(h) {
            let j = choose|j: nat| j < i && h == replica_hash(m, j);
            assert(j < i + 1);
        }
        if h == replica_hash(m, i) {
            assert(i < i + 1);
        }
    }
    assert(a =~= b);
}

/// A split point, where one exists, is the one that `start_index` picks.
pub proof fn lemma_split_unique(s: Seq<u32>, h: u32, i: int)
    requires
        is_split(s, h, i),
    ensures
        (choose|p: int| is_split(s, h, p)) == i,
{
    let p = choose|p: int| is_split(s, h, p);
    if p < i {
        assert(s[p] <= h);
    } else if p > i {
        assert(s[i] <= h);
    }
}

/// The entry at which a walk starts is the successor of the hash.
pub proof fn lemma_start_is_successor(s: Seq<u32>, c: Map<u32, Seq<char>>, h: u32, i: int)
    requires
        indexes(s, c),
        is_split(s, h, i),
        s.len() > 0,
    ensures
        0 <= start_index(s, h) < s.len(),
        start_index(s, h) == if i == s.len() {
            0
        } else {
            i
        },
        successor(c.dom(), h) == s[start_index(s, h)],
{
    lemma_split_unique(s, h, i);
    let d = c.dom();
    if i < s.len() {
        let k = s[i];
        assert forall|x: u32| d.contains(x) && x > h implies k <= x by {
            assert(s.contains(x));
            let j = choose|j: int| 0 <= j < s.len() && s[j] == x;
            if j < i {
                assert(s[j] <= h);
            } else if j > i {
                assert(s[i] < s[j]);
            }
        }
        assert(is_least_above(d, h, k));
        let k2 = choose|k2: u32| is_least_above(d, h, k2);
        assert(k2 <= k && k <= k2);
    } else {
        let k = s[0];
        assert forall|x: u32| d.contains(x) implies k <= x by {
            assert(s.contains(x));
            let j = choose|j: int| 0 <= j < s.len() && s[j] == x;
            if j > 0 {
                assert(s[0] < s[j]);
            }
        }
        assert(is_least(d, k));
        assert forall|k3: u32| !is_least_above(d, h, k3) by {
            if is_least_above(d, h, k3) {
                assert(s.contains(k3));
                let j = choose|j: int| 0 <= j < s.len() && s[j] == k3;
                assert(s[j] <= h);
            }
        }
        let k2 = choose|k2: u32| is_least(d, k2);
        assert(k2 <= k && k <= k2);
    }
}

} // verus!
