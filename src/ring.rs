//! The consistent hashing ring.
use vstd::prelude::*;
use vstd::seq_lib::{to_multiset_contains, to_multiset_len};

use crate::key::elt_key;
use crate::model::{
    indexes, lemma_start_is_successor, lemma_with_member_step, lemma_without_member_step,
    owner_of, is_split, cap, converged, add_missing, positions_of_all, lemma_strip_step, first_differing, gather, lemma_gather_distinct, walk, start_index, strictly_sorted, successor, with_member, without_member,
};
use crate::outside::{
    circle_entries, circle_get, circle_insert, circle_keys, circle_len, circle_new,
    circle_remove, fx_hash32, hash_str, member_entries, members_insert, members_new,
    members_remove, members_len, members_contains, members_list, sort_hashes, CircleMap, MemberSet, IndexLock, index_entries, index_lock_new,
    index_lock_replace, index_lock_len, index_lock_at,
};

verus! {

/// The one failure of a query.
#[derive(Debug, PartialEq, Eq, Structural)]
pub enum Error {
    /// The ring has no virtual nodes to route to.
    EmptyCircle,
}

/// A ring of named members, each placed on it as a number of virtual
/// nodes, that routes each key to the member of the first virtual node at
/// or after the key's hash.
pub struct Consistent {
    circle: CircleMap,
    members: MemberSet,
    sorted_hashes: IndexLock,
    number_of_replicas: usize,
}

/// The default number of virtual nodes per member.
pub const DEFAULT_REPLICAS: usize = 20;

/// A sorted permutation of a list without repeats is strictly ascending and
/// holds the same values.
proof fn lemma_sorted_listing(a: Seq<u32>, b: Seq<u32>)
    requires
        a.no_duplicates(),
        a.to_multiset() == b.to_multiset(),
        forall|i: int, j: int| 0 <= i <= j < b.len() ==> b[i] <= b[j],
    ensures
        strictly_sorted(b),
        b.len() == a.len(),
        forall|x: u32| b.contains(x) <==> a.contains(x),
{
    to_multiset_len(a);
    to_multiset_len(b);
    a.lemma_multiset_has_no_duplicates();
    assert forall|x: u32| b.to_multiset().contains(x) implies b.to_multiset().count(x) == 1 by {
        to_multiset_contains(a, x);
        to_multiset_contains(b, x);
    }
    b.lemma_multiset_has_no_duplicates_conv();
    assert forall|x: u32| b.contains(x) <==> a.contains(x) by {
        to_multiset_contains(a, x);
        to_multiset_contains(b, x);
    }
}

impl Default for Consistent {
    /// An empty ring with 20 virtual nodes per member.
    fn default() -> (r: Self)
        ensures
            r.wf(),
            r.circle_view().dom() == Set::<u32>::empty(),
            r.members_view() == Set::<Seq<char>>::empty(),
            r.replicas() == 20,
    {
        Self::new()
    }
}

impl Consistent {
    /// The circle: virtual-node hash to member name.
    pub closed spec fn circle_view(&self) -> Map<u32, Seq<char>> {
        circle_entries(self.circle)
    }

    /// The names of the current members.
    pub closed spec fn members_view(&self) -> Set<Seq<char>> {
        member_entries(self.members)
    }

    /// The lookup index: the circle's positions, ascending.
    pub closed spec fn index_view(&self) -> Seq<u32> {
        index_entries(self.sorted_hashes)
    }

    /// The number of virtual nodes placed per member.
    pub closed spec fn replicas(&self) -> nat {
        self.number_of_replicas as nat
    }

    /// The lookup index lists the circle's positions in ascending order.
    pub open spec fn wf(&self) -> bool {
        &&& indexes(self.index_view(), self.circle_view())
    }

    /// An empty ring with 20 virtual nodes per member.
    pub fn new() -> (r: Self)
        ensures
            r.wf(),
            r.circle_view().dom() == Set::<u32>::empty(),
            r.members_view() == Set::<Seq<char>>::empty(),
            r.replicas() == 20,
    {
        let r = Consistent {
            circle: circle_new(),
            members: members_new(),
            sorted_hashes: index_lock_new(Vec::new()),
            number_of_replicas: DEFAULT_REPLICAS,
        };
        proof {
            assert(r.circle_view().len() == 0);
        }
        r
    }

    /// The same ring, placing `number_of_replicas` virtual nodes per member
    /// from now on.
    pub fn with_number_of_replicas(self, number_of_replicas: usize) -> (r: Self)
        requires
            self.wf(),
        ensures
            r.wf(),
            r.circle_view() == self.circle_view(),
            r.members_view() == self.members_view(),
            r.index_view() == self.index_view(),
            r.replicas() == number_of_replicas,
    {
        let mut s = self;
        s.number_of_replicas = number_of_replicas;
        s
    }

    /// Rebuilds the lookup index from the circle.
    fn update_sorted_hashes(&mut self)
        ensures
            final(self).circle == old(self).circle,
            final(self).members == old(self).members,
            final(self).number_of_replicas == old(self).number_of_replicas,
            indexes(final(self).index_view(), final(self).circle_view()),
    {
        let mut keys = circle_keys(&self.circle);
        let ghost unsorted = keys@;
        sort_hashes(&mut keys);
        proof {
            lemma_sorted_listing(unsorted, keys@);
            let c = self.circle_view();
            assert(keys@.to_set() =~= c.dom());
            unsorted.unique_seq_to_set();
            assert(unsorted.to_set() =~= c.dom());
            assert forall|i: int| 0 <= i < keys@.len() implies c.contains_key(#[trigger] keys@[i]) by {
                assert(keys@.contains(keys@[i]));
            }
        }
        index_lock_replace(&mut self.sorted_hashes, keys);
    }

    /// Places `number_of_replicas` virtual nodes of `elt` on the ring and
    /// makes it a member.
    pub fn add(&mut self, elt: &str)
        requires
            old(self).wf(),
        ensures
            final(self).wf(),
            final(self).circle_view() == with_member(old(self).circle_view(), elt@, old(self).replicas()),
            final(self).members_view() == old(self).members_view().insert(elt@),
            final(self).replicas() == old(self).replicas(),
    {
        let ghost c0 = self.circle_view();
        let mut i: usize = 0;
        while i < self.number_of_replicas
            invariant
                0 <= i <= self.number_of_replicas,
                self.number_of_replicas == old(self).number_of_replicas,
                self.members == old(self).members,
                c0 == old(self).circle_view(),
                self.circle_view() == with_member(c0, elt@, i as nat),
            decreases self.number_of_replicas - i,
        {
            let key = elt_key(elt, i);
            let h = hash_str(key.as_str());
            circle_insert(&mut self.circle, h, elt.to_owned());
            proof {
                lemma_with_member_step(c0, elt@, i as nat);
            }
            i = i + 1;
        }
        members_insert(&mut self.members, elt.to_owned());
        self.update_sorted_hashes();
    }

    /// Clears the positions of the `number_of_replicas` virtual nodes of
    /// `elt` from the ring and drops it from the members.
    pub fn remove(&mut self, elt: &str)
        requires
            old(self).wf(),
        ensures
            final(self).wf(),
            final(self).circle_view() == without_member(old(self).circle_view(), elt@, old(self).replicas()),
            final(self).members_view() == old(self).members_view().remove(elt@),
            final(self).replicas() == old(self).replicas(),
    {
        let ghost c0 = self.circle_view();
        let mut i: usize = 0;
        while i < self.number_of_replicas
            invariant
                0 <= i <= self.number_of_replicas,
                self.number_of_replicas == old(self).number_of_replicas,
                self.members == old(self).members,
                c0 == old(self).circle_view(),
                self.circle_view() == without_member(c0, elt@, i as nat),
            decreases self.number_of_replicas - i,
        {
            let key = elt_key(elt, i);
            let h = hash_str(key.as_str());
            circle_remove(&mut self.circle, h);
            proof {
                lemma_without_member_step(c0, elt@, i as nat);
            }
            i = i + 1;
        }
        members_remove(&mut self.members, elt);
        self.update_sorted_hashes();
    }

    /// Makes the members exactly the names of `elts`: members missing from
    /// `elts` are removed, names of `elts` that are not members are added in
    /// order, and members in `elts` are left as they are.
    pub fn set(&mut self, elts: Vec<&str>)
        requires
            old(self).wf(),
        ensures
            final(self).wf(),
            final(self).members_view() == elts@.map_values(|e: &str| e@).to_set(),
            final(self).circle_view() == converged(
                old(self).circle_view(),
                old(self).members_view(),
                elts@.map_values(|e: &str| e@),
                old(self).replicas(),
            ),
            final(self).replicas() == old(self).replicas(),
    {
        let ghost names = elts@.map_values(|e: &str| e@);
        let ghost r = self.replicas();
        let ghost c0 = self.circle_view();
        let ghost m0 = self.members_view();
        let ghost gone = m0.difference(names.to_set());
        let mut wanted: Vec<String> = Vec::new();
        let mut i: usize = 0;
        while i < elts.len()
            invariant
                0 <= i <= elts@.len(),
                names == elts@.map_values(|e: &str| e@),
                wanted@.map_values(|x: String| x@) == names.subrange(0, i as int),
            decreases elts@.len() - i,
        {
            let ghost prev = wanted@.map_values(|x: String| x@);
            let o = elts[i].to_owned();
            wanted.push(o);
            proof {
                assert(o@ == names[i as int]);
                assert(wanted@.map_values(|x: String| x@) =~= prev.push(o@));
                assert(names.subrange(0, i + 1) =~= names.subrange(0, i as int).push(names[i as int]));
            }
            i = i + 1;
        }
        proof {
            assert(names.subrange(0, elts@.len() as int) =~= names);
        }
        let current = members_list(&self.members);
        let ghost cur = current@.map_values(|y: String| y@);
        let mut leaving: Vec<String> = Vec::new();
        let ghost mut seen = Set::<Seq<char>>::empty();
        let ghost mut lv = Seq::<Seq<char>>::empty();
        proof {
            assert(leaving@.map_values(|y: String| y@) =~= lv);
        }
        let mut i: usize = 0;
        while i < current.len()
            invariant
                0 <= i <= current@.len(),
                wanted@.map_values(|x: String| x@) == names,
                cur == current@.map_values(|y: String| y@),
                forall|x: Seq<char>| cur.contains(x) <==> m0.contains(x),
                seen.subset_of(m0),
                forall|j: int| 0 <= j < i ==> seen.contains(#[trigger] cur[j]),
                lv == leaving@.map_values(|y: String| y@),
                forall|x: Seq<char>| #[trigger] lv.contains(x) <==> (seen.contains(x) && !names.contains(x)),
            decreases current@.len() - i,
        {
            let member = &current[i];
            let ghost lv0 = lv;
            let ghost seen0 = seen;
            proof {
                assert(cur.contains(cur[i as int]));
                assert(member@ == cur[i as int]);
            }
            let kept = slice_contains_member(&wanted, member);
            if !kept {
                leaving.push(member.clone());
                proof {
                    assert(leaving@.map_values(|y: String| y@) =~= lv.push(member@));
                    lv = lv.push(member@);
                }
            }
            proof {
                seen = seen.insert(cur[i as int]);
                assert forall|x: Seq<char>| #[trigger] lv.contains(x) <==> (seen.contains(x) && !names.contains(x)) by {
                    if !kept {
                        assert(lv == lv0.push(member@));
                        if lv.contains(x) && x != member@ {
                            let j = choose|j: int| 0 <= j < lv.len() && lv[j] == x;
                            assert(lv0[j] == x);
                            assert(lv0.contains(x));
                        }
                        if lv0.contains(x) {
                            let j = choose|j: int| 0 <= j < lv0.len() && lv0[j] == x;
                            assert(lv[j] == x);
                        }
                        if x == member@ {
                            assert(lv[lv0.len() as int] == x);
                        }
                    }
                }
            }
            i = i + 1;
        }
        let ghost leave = lv;
        proof {
            assert forall|x: Seq<char>| leave.contains(x) <==> gone.contains(x) by {
                if gone.contains(x) {
                    assert(cur.contains(x));
                    let j = choose|j: int| 0 <= j < cur.len() && cur[j] == x;
                    assert(seen.contains(cur[j]));
                }
            }
        }
        let ghost mut done = Set::<Seq<char>>::empty();
        proof {
            assert(c0.remove_keys(positions_of_all(done, r)) =~= c0);
            assert(m0.difference(done) =~= m0);
        }
        let mut i: usize = 0;
        while i < leaving.len()
            invariant
                0 <= i <= leaving@.len(),
                leave == leaving@.map_values(|y: String| y@),
                forall|x: Seq<char>| leave.contains(x) <==> gone.contains(x),
                self.wf(),
                self.replicas() == r,
                self.circle_view() == c0.remove_keys(positions_of_all(done, r)),
                self.members_view() == m0.difference(done),
                done.subset_of(gone),
                forall|j: int| 0 <= j < i ==> done.contains(#[trigger] leave[j]),
                wanted@.map_values(|x: String| x@) == names,
            decreases leaving@.len() - i,
        {
            let ghost m = leave[i as int];
            proof {
                assert(leave.contains(m));
                lemma_strip_step(c0, done, m, r);
            }
            self.remove(leaving[i].as_str());
            proof {
                assert(self.members_view() =~= m0.difference(done.insert(m)));
                done = done.insert(m);
            }
            i = i + 1;
        }
        let ghost c_mid = c0.remove_keys(positions_of_all(gone, r));
        let ghost m_mid = m0.difference(gone);
        let ghost goal = add_missing(c_mid, m_mid, names, r);
        proof {
            assert forall|x: Seq<char>| gone.contains(x) implies done.contains(x) by {
                assert(leave.contains(x));
                let j = choose|j: int| 0 <= j < leave.len() && leave[j] == x;
            }
            assert(done =~= gone);
            assert(names.subrange(0, names.len() as int) =~= names);
        }
        let ghost mut added = Set::<Seq<char>>::empty();
        proof {
            assert(m_mid.union(added) =~= m_mid);
        }
        let mut i: usize = 0;
        while i < wanted.len()
            invariant
                0 <= i <= wanted@.len(),
                wanted@.map_values(|x: String| x@) == names,
                self.wf(),
                self.replicas() == r,
                goal == add_missing(self.circle_view(), self.members_view(), names.subrange(i as int, names.len() as int), r),
                self.members_view() == m_mid.union(added),
                added.subset_of(names.to_set()),
                forall|j: int| 0 <= j < i ==> added.contains(#[trigger] names[j]),
            decreases wanted@.len() - i,
        {
            let ghost rest = names.subrange(i as int, names.len() as int);
            let ghost x = names[i as int];
            proof {
                assert(rest[0] == x);
                assert(rest.drop_first() =~= names.subrange(i + 1, names.len() as int));
                assert(names.contains(x));
            }
            if !members_contains(&self.members, wanted[i].as_str()) {
                self.add(wanted[i].as_str());
                proof {
                    assert(self.members_view() =~= m_mid.union(added.insert(x)));
                }
            } else {
                proof {
                    assert(m_mid.union(added.insert(x)) =~= m_mid.union(added));
                }
            }
            proof {
                added = added.insert(x);
            }
            i = i + 1;
        }
        proof {
            assert(names.subrange(names.len() as int, names.len() as int).len() == 0);
            assert forall|x: Seq<char>| names.to_set().contains(x) implies added.contains(x) by {
                let j = choose|j: int| 0 <= j < names.len() && names[j] == x;
            }
            assert(self.members_view() =~= names.to_set());
        }
    }

    /// The index of the entry at which a walk for hash `key` starts.
    fn search(&self, key: u32) -> (r: usize)
        requires
            self.wf(),
            self.index_view().len() > 0,
        ensures
            r == start_index(self.index_view(), key),
            r < self.index_view().len(),
            successor(self.circle_view().dom(), key) == self.index_view()[r as int],
    {
        let ghost s = self.index_view();
        let mut lo: usize = 0;
        let mut hi: usize = index_lock_len(&self.sorted_hashes);
        while lo < hi
            invariant
                0 <= lo <= hi <= s.len(),
                s == self.index_view(),
                strictly_sorted(s),
                forall|j: int| 0 <= j < lo ==> s[j] <= key,
                forall|j: int| hi <= j < s.len() ==> s[j] > key,
            decreases hi - lo,
        {
            let mid = lo + (hi - lo) / 2;
            if index_lock_at(&self.sorted_hashes, mid) <= key {
                proof {
                    assert forall|j: int| 0 <= j <= mid implies s[j] <= key by {
                        if j < mid {
                            assert(s[j] < s[mid as int]);
                        }
                    }
                }
                lo = mid + 1;
            } else {
                proof {
                    assert forall|j: int| mid <= j < s.len() implies s[j] > key by {
                        if j > mid {
                            assert(s[mid as int] < s[j]);
                        }
                    }
                }
                hi = mid;
            }
        }
        proof {
            assert(is_split(s, key, lo as int));
            lemma_start_is_successor(s, self.circle_view(), key, lo as int);
        }
        if lo >= index_lock_len(&self.sorted_hashes) {
            0
        } else {
            lo
        }
    }

    /// The member owning the virtual node at index position `i`.
    fn owner_at(&self, i: usize) -> (r: String)
        requires
            self.wf(),
            i < self.index_view().len(),
        ensures
            r@ == self.circle_view()[self.index_view()[i as int]],
    {
        match circle_get(&self.circle, index_lock_at(&self.sorted_hashes, i)) {
            Some(v) => v,
            None => {
                proof {
                    assert(false);
                }
                String::new()
            },
        }
    }

    /// The member that owns `name`: the owner of the first virtual node
    /// clockwise from the hash of `name`.
    pub fn get(&self, name: &str) -> (r: Result<String, Error>)
        requires
            self.wf(),
        ensures
            r is Err <==> self.circle_view().len() == 0,
            r matches Ok(v) ==> v@ == owner_of(self.circle_view(), fx_hash32(name@)),
    {
        if circle_len(&self.circle) == 0 {
            return Err(Error::EmptyCircle);
        }
        let key = hash_str(name);
        let i = self.search(key);
        Ok(self.owner_at(i))
    }

    /// Up to two distinct members for `name`: its owner, and the owner of
    /// the first virtual node clockwise from there that belongs to another
    /// member; that second name is empty where the ring has one member, or
    /// no other member is met.
    pub fn get_two(&self, name: &str) -> (r: Result<(String, String), Error>)
        requires
            self.wf(),
        ensures
            r is Err <==> self.circle_view().len() == 0,
            r matches Ok((a, b)) ==> a@ == owner_of(self.circle_view(), fx_hash32(name@)),
            r matches Ok((a, b)) ==> b@ == (if self.members_view().len() == 1 {
                Seq::<char>::empty()
            } else {
                first_differing(walk(self.circle_view(), self.index_view(), fx_hash32(name@)), a@, 1)
            }),
    {
        if circle_len(&self.circle) == 0 {
            return Err(Error::EmptyCircle);
        }
        let key = hash_str(name);
        let i = self.search(key);
        let a = self.owner_at(i);
        if members_len(&self.members) == 1 {
            return Ok((a, String::new()));
        }
        let len = index_lock_len(&self.sorted_hashes);
        let ghost s = self.index_view();
        let ghost w = walk(self.circle_view(), s, key);
        let mut k: usize = 1;
        while k < len
            invariant
                self.wf(),
                s == self.index_view(),
                w == walk(self.circle_view(), s, key),
                len == s.len(),
                i == start_index(s, key),
                i < len,
                1 <= k <= len,
                key == fx_hash32(name@),
                a@ == owner_of(self.circle_view(), key),
                self.members_view().len() != 1,
                first_differing(w, a@, 1) == first_differing(w, a@, k as int),
            decreases len - k,
        {
            let j = if k < len - i {
                i + k
            } else {
                k - (len - i)
            };
            let v = self.owner_at(j);
            proof {
                assert(v@ == w[k as int]);
            }
            if !v.eq(&a) {
                return Ok((a, v));
            }
            k = k + 1;
        }
        Ok((a, String::new()))
    }

    /// Up to `n` distinct members for `name`, and no more than the ring has:
    /// its owner first, then the owners met walking clockwise once round the
    /// ring, each name once.
    pub fn get_n(&self, name: &str, n: usize) -> (r: Result<Vec<String>, Error>)
        requires
            self.wf(),
        ensures
            r is Err <==> self.circle_view().len() == 0,
            r matches Ok(v) ==> v@.map_values(|x: String| x@) == gather(
                walk(self.circle_view(), self.index_view(), fx_hash32(name@)),
                cap(n as nat, self.members_view().len()),
                0,
                Seq::<Seq<char>>::empty(),
            ),
            r matches Ok(v) ==> v@.map_values(|x: String| x@).no_duplicates(),
            r matches Ok(v) ==> v@.len() <= n && v@.len() <= self.members_view().len(),
    {
        if circle_len(&self.circle) == 0 {
            return Err(Error::EmptyCircle);
        }
        let count = members_len(&self.members);
        let wanted: usize = if count < n {
            count
        } else {
            n
        };
        let key = hash_str(name);
        let i = self.search(key);
        let len = index_lock_len(&self.sorted_hashes);
        let ghost s = self.index_view();
        let ghost w = walk(self.circle_view(), s, key);
        let ghost goal = gather(w, wanted as nat, 0, Seq::<Seq<char>>::empty());
        let mut res: Vec<String> = Vec::new();
        let mut k: usize = 0;
        proof {
            assert(res@.map_values(|x: String| x@) =~= Seq::<Seq<char>>::empty());
        }
        while k < len && res.len() < wanted
            invariant
                self.wf(),
                s == self.index_view(),
                w == walk(self.circle_view(), s, key),
                len == s.len(),
                i == start_index(s, key),
                i < len,
                k <= len,
                goal == gather(w, wanted as nat, k as int, res@.map_values(|x: String| x@)),
            decreases len - k,
        {
            let j = if k < len - i {
                i + k
            } else {
                k - (len - i)
            };
            let v = self.owner_at(j);
            let ghost acc = res@.map_values(|x: String| x@);
            if !slice_contains_member(&res, &v) {
                res.push(v);
                proof {
                    assert(res@.map_values(|x: String| x@) =~= acc.push(w[k as int]));
                }
            }
            k = k + 1;
        }
        proof {
            lemma_gather_distinct(w, wanted as nat, 0, Seq::<Seq<char>>::empty());
        }
        Ok(res)
    }

    /// The number of virtual nodes on the ring.
    pub fn circle_len(&self) -> (r: usize)
        ensures
            r == self.circle_view().len(),
    {
        circle_len(&self.circle)
    }

    /// The length of the lookup index.
    pub fn index_len(&self) -> (r: usize)
        ensures
            r == self.index_view().len(),
    {
        index_lock_len(&self.sorted_hashes)
    }

    /// The current members, each once, in no given order.
    pub fn members(&self) -> (r: Vec<String>)
        ensures
            r@.map_values(|x: String| x@).no_duplicates(),
            forall|x: Seq<char>| r@.map_values(|y: String| y@).contains(x) <==> self.members_view().contains(x),
    {
        members_list(&self.members)
    }

}

/// Whether `member` is one of the names in `set`.
pub fn slice_contains_member(set: &Vec<String>, member: &String) -> (r: bool)
    ensures
        r == set@.map_values(|x: String| x@).contains(member@),
{
    let mut i: usize = 0;
    while i < set.len()
        invariant
            0 <= i <= set@.len(),
            forall|j: int| 0 <= j < i ==> set@[j]@ != member@,
        decreases set@.len() - i,
    {
        if set[i].eq(member) {
            proof {
                assert(set@.map_values(|x: String| x@)[i as int] == member@);
            }
            return true;
        }
        i = i + 1;
    }
    false
}

} // verus!
