use vstd::prelude::*;

use crate::identity::{identity_of, normalize_identity};

verus! {

/// `a`, or the largest `u64` where `a` is beyond it.
pub open spec fn capped(a: nat) -> nat {
    if a > u64::MAX {
        u64::MAX as nat
    } else {
        a
    }
}

/// The count of `k` in `m`: zero for an identity it does not hold.
pub open spec fn count_in(m: Map<Seq<char>, nat>, k: Seq<char>) -> nat {
    if m.contains_key(k) {
        m[k]
    } else {
        0
    }
}

/// `m` with `n` more commits for `k`.
pub open spec fn bumped(m: Map<Seq<char>, nat>, k: Seq<char>, n: nat) -> Map<Seq<char>, nat> {
    m.insert(k, capped(count_in(m, k) + n))
}

/// The totals of `a` and `b` added key by key.
pub open spec fn merged(a: Map<Seq<char>, nat>, b: Map<Seq<char>, nat>) -> Map<Seq<char>, nat> {
    Map::new(
        |k: Seq<char>| a.contains_key(k) || b.contains_key(k),
        |k: Seq<char>| capped(count_in(a, k) + count_in(b, k)),
    )
}

/// The counts of one repository's commits, given each commit's author name, if it has one.
pub open spec fn authors_tally(names: Seq<Option<String>>) -> Map<Seq<char>, nat>
    decreases names.len(),
{
    if names.len() == 0 {
        Map::empty()
    } else {
        let prev = authors_tally(names.drop_last());
        match names.last() {
            Some(n) => bumped(prev, identity_of(n@), 1),
            None => prev,
        }
    }
}

/// The totals after merging the tallies of `ms` in order, starting from none.
pub open spec fn merge_all(ms: Seq<Map<Seq<char>, nat>>) -> Map<Seq<char>, nat>
    decreases ms.len(),
{
    if ms.len() == 0 {
        Map::empty()
    } else {
        merged(merge_all(ms.drop_last()), ms.last())
    }
}

/// The sum of the counts of `k` over the tallies of `ms`.
pub open spec fn sum_of(ms: Seq<Map<Seq<char>, nat>>, k: Seq<char>) -> nat
    decreases ms.len(),
{
    if ms.len() == 0 {
        0
    } else {
        sum_of(ms.drop_last(), k) + count_in(ms.last(), k)
    }
}

/// Merging tallies one after another gives, for each identity, the sum of its
/// counts over all of them, whatever the number of tallies, as long as that sum
/// fits in a `u64`.
pub proof fn merge_all_sums(ms: Seq<Map<Seq<char>, nat>>, k: Seq<char>)
    requires
        sum_of(ms, k) <= u64::MAX,
    ensures
        count_in(merge_all(ms), k) == sum_of(ms, k),
    decreases ms.len(),
{
    if ms.len() > 0 {
        merge_all_sums(ms.drop_last(), k);
    }
}

/// Merging `b` and then `c` into `a` gives the totals that merging `c` and then `b` gives.
pub proof fn merge_order_irrelevant(
    a: Map<Seq<char>, nat>,
    b: Map<Seq<char>, nat>,
    c: Map<Seq<char>, nat>,
)
    ensures
        merged(merged(a, b), c) == merged(merged(a, c), b),
{
    assert(merged(merged(a, b), c) =~= merged(merged(a, c), b));
}

/// Exchanging two neighbouring tallies in the merge order leaves the totals as
/// they are; since such exchanges reach every order, the totals are the same for
/// every order in which the repositories finish.
pub proof fn merge_all_swap(ms: Seq<Map<Seq<char>, nat>>, i: int)
    requires
        0 <= i,
        i + 1 < ms.len(),
    ensures
        merge_all(ms) == merge_all(ms.update(i, ms[i + 1]).update(i + 1, ms[i])),
    decreases ms.len(),
{
    let sw = ms.update(i, ms[i + 1]).update(i + 1, ms[i]);
    if ms.len() == i + 2 {
        let base = merge_all(ms.drop_last().drop_last());
        assert(ms.drop_last().drop_last() =~= sw.drop_last().drop_last());
        assert(merge_all(ms.drop_last()) == merged(base, ms[i]));
        assert(merge_all(sw.drop_last()) == merged(base, ms[i + 1]));
        merge_order_irrelevant(base, ms[i], ms[i + 1]);
    } else {
        merge_all_swap(ms.drop_last(), i);
        assert(ms.drop_last().update(i, ms[i + 1]).update(i + 1, ms[i]) =~= sw.drop_last());
    }
}

/// Counts the commits of one repository, given each commit's author name, if it has one.
/// A commit without a name is not counted.
pub fn count_authors(names: &Vec<Option<String>>) -> (r: Tally)
    ensures
        r.wf(),
        r@ == authors_tally(names@),
{
    let mut t = Tally::new();
    let mut i: usize = 0;
    while i < names.len()
        invariant
            i <= names@.len(),
            t.wf(),
            t@ == authors_tally(names@.take(i as int)),
        decreases names@.len() - i,
    {
        assert(names@.take(i + 1).drop_last() =~= names@.take(i as int));
        match &names[i] {
            Some(name) => {
                let key = normalize_identity(name.as_str());
                t.add(key.as_str(), 1);
            },
            None => {},
        }
        i = i + 1;
    }
    assert(names@.take(names@.len() as int) =~= names@);
    t
}

/// Commit counts keyed by author identity.
pub struct Tally {
    keys: Vec<String>,
    counts: Vec<u64>,
    model: Ghost<Map<Seq<char>, nat>>,
}

/// Whether `a` and `b` hold the same characters.
fn same_text(a: &str, b: &str) -> (r: bool)
    ensures
        r == (a@ == b@),
{
    let n = a.unicode_len();
    if n != b.unicode_len() {
        return false;
    }
    let mut i: usize = 0;
    while i < n
        invariant
            n == a@.len() == b@.len(),
            i <= n,
            forall|j: int| 0 <= j < i ==> a@[j] == b@[j],
        decreases n - i,
    {
        if a.get_char(i) != b.get_char(i) {
            return false;
        }
        i = i + 1;
    }
    assert(a@ =~= b@);
    true
}

impl Tally {
    pub closed spec fn view(&self) -> Map<Seq<char>, nat> {
        self.model@
    }

    /// Keys are distinct, and the model holds exactly the keys with their counts.
    pub closed spec fn wf(&self) -> bool {
        &&& self.keys@.len() == self.counts@.len()
        &&& forall|i: int, j: int|
            0 <= i < j < self.keys@.len() ==> self.keys@[i]@ != self.keys@[j]@
        &&& forall|k: Seq<char>|
            self.model@.contains_key(k) <==> exists|i: int|
                0 <= i < self.keys@.len() && #[trigger] self.keys@[i]@ == k
        &&& forall|i: int|
            0 <= i < self.keys@.len() ==> self.model@[#[trigger] self.keys@[i]@]
                == self.counts@[i] as nat
    }

    /// A tally with no identities.
    pub fn new() -> (r: Tally)
        ensures
            r.wf(),
            r@ == Map::<Seq<char>, nat>::empty(),
    {
        Tally { keys: Vec::new(), counts: Vec::new(), model: Ghost(Map::empty()) }
    }

    /// Number of identities held.
    pub fn len(&self) -> (r: usize)
        requires
            self.wf(),
        ensures
            r == self@.dom().len(),
    {
        proof {
            self.lemma_dom_len();
        }
        self.keys.len()
    }

    proof fn lemma_dom_len(&self)
        requires
            self.wf(),
        ensures
            self@.dom().len() == self.keys@.len(),
            self@.dom().finite(),
    {
        let ks = self.keys@.map_values(|s: String| s@);
        assert forall|i: int, j: int| 0 <= i < j < ks.len() implies ks[i] != ks[j] by {}
        assert(ks.no_duplicates());
        ks.unique_seq_to_set();
        assert(self@.dom() =~= ks.to_set()) by {
            assert forall|k: Seq<char>| self@.dom().contains(k) implies ks.to_set().contains(k) by {
                let i = choose|i: int| 0 <= i < self.keys@.len() && #[trigger] self.keys@[i]@ == k;
                assert(ks[i] == k);
            }
        }
    }

    fn position(&self, key: &str) -> (r: Option<usize>)
        requires
            self.wf(),
        ensures
            match r {
                Some(i) => i < self.keys@.len() && self.keys@[i as int]@ == key@,
                None => !self@.contains_key(key@),
            },
    {
        let mut i: usize = 0;
        while i < self.keys.len()
            invariant
                self.wf(),
                i <= self.keys@.len(),
                forall|j: int| 0 <= j < i ==> self.keys@[j]@ != key@,
            decreases self.keys@.len() - i,
        {
            if same_text(self.keys[i].as_str(), key) {
                return Some(i);
            }
            i = i + 1;
        }
        None
    }

    /// The count of `key`: zero for an identity not held.
    pub fn count_of(&self, key: &str) -> (r: u64)
        requires
            self.wf(),
        ensures
            r as nat == count_in(self@, key@),
    {
        match self.position(key) {
            Some(i) => self.counts[i],
            None => 0,
        }
    }

    /// Adds `n` commits to `key`, stopping at the largest `u64`.
    pub fn add(&mut self, key: &str, n: u64)
        requires
            old(self).wf(),
        ensures
            final(self).wf(),
            final(self)@ == bumped(old(self)@, key@, n as nat),
    {
        broadcast use vstd::string::to_string_from_display_ensures_for_str;

        match self.position(key) {
            Some(i) => {
                let c = self.counts[i].saturating_add(n);
                self.counts.set(i, c);
                self.model = Ghost(self.model@.insert(key@, c as nat));
                assert forall|k: Seq<char>|
                    self.model@.contains_key(k) <==> exists|j: int|
                        0 <= j < self.keys@.len() && #[trigger] self.keys@[j]@ == k by {
                    if k == key@ {
                        assert(self.keys@[i as int]@ == k);
                    } else {
                        assert(old(self).model@.contains_key(k) == self.model@.contains_key(k));
                        assert(old(self).keys@ == self.keys@);
                        assert(old(self).model@.contains_key(k) <==> exists|j: int|
                        0 <= j < old(self).keys@.len() && #[trigger] old(self).keys@[j]@ == k);
                    }
                }
            },
            None => {
                let ghost k0 = self.keys@;
                self.keys.push(key.to_string());
                self.counts.push(n);
                self.model = Ghost(self.model@.insert(key@, n as nat));
                assert forall|k: Seq<char>|
                    self.model@.contains_key(k) <==> exists|j: int|
                        0 <= j < self.keys@.len() && #[trigger] self.keys@[j]@ == k by {
                    if k == key@ {
                        assert(self.keys@[k0.len() as int]@ == k);
                    } else if old(self).model@.contains_key(k) {
                        let j = choose|j: int| 0 <= j < k0.len() && #[trigger] k0[j]@ == k;
                        assert(self.keys@[j]@ == k);
                    }
                    if exists|j: int| 0 <= j < self.keys@.len() && #[trigger] self.keys@[j]@ == k {
                        let j = choose|j: int| 0 <= j < self.keys@.len() && #[trigger] self.keys@[j]@ == k;
                        if j < k0.len() {
                            assert(k0[j]@ == k);
                        }
                    }
                }
            },
        }
    }

    /// Whether `k` is one of the first `i` identities held.
    spec fn among_first(&self, i: int, k: Seq<char>) -> bool {
        exists|j: int| 0 <= j < i && #[trigger] self.keys@[j]@ == k
    }

    /// Adds every count of `other` to this tally.
    pub fn merge(&mut self, other: &Tally)
        requires
            old(self).wf(),
            other.wf(),
        ensures
            final(self).wf(),
            final(self)@ == merged(old(self)@, other@),
    {
        let mut i: usize = 0;
        while i < other.keys.len()
            invariant
                self.wf(),
                other.wf(),
                i <= other.keys@.len(),
                forall|k: Seq<char>|
                    #[trigger] self@.contains_key(k) <==> (old(self)@.contains_key(k)
                        || other.among_first(i as int, k)),
                forall|k: Seq<char>|
                    #[trigger] count_in(self@, k) == capped(
                        count_in(old(self)@, k) + if other.among_first(i as int, k) {
                            count_in(other@, k)
                        } else {
                            0
                        },
                    ),
            decreases other.keys@.len() - i,
        {
            let ghost before = self@;
            let ghost key = other.keys@[i as int]@;
            self.add(other.keys[i].as_str(), other.counts[i]);
            assert(!other.among_first(i as int, key));
            assert(other.among_first(i + 1, key)) by {
                assert(other.keys@[i as int]@ == key);
            }
            assert forall|k: Seq<char>| k != key implies other.among_first(i + 1, k)
                == other.among_first(i as int, k) by {
                if other.among_first(i + 1, k) {
                    let j = choose|j: int| 0 <= j < i + 1 && #[trigger] other.keys@[j]@ == k;
                    assert(j < i);
                }
            }
            assert forall|k: Seq<char>|
                #[trigger] count_in(self@, k) == capped(
                    count_in(old(self)@, k) + if other.among_first(i + 1, k) {
                        count_in(other@, k)
                    } else {
                        0
                    },
                ) by {
                if k != key {
                    assert(count_in(self@, k) == count_in(before, k));
                }
            }
            i = i + 1;
        }
        assert forall|k: Seq<char>| other@.contains_key(k) == other.among_first(i as int, k) by {}
        assert(self@ =~= merged(old(self)@, other@)) by {
            assert forall|k: Seq<char>| #[trigger] self@.contains_key(k) implies self@[k]
                == merged(old(self)@, other@)[k] by {
                assert(count_in(self@, k) == self@[k]);
            }
        }
    }

    /// Identities with their counts, from the largest count down.
    pub fn ranked(&self) -> (r: Vec<(String, u64)>)
        requires
            self.wf(),
        ensures
            r@.len() == self@.dom().len(),
            forall|p: int|
                0 <= p < r@.len() ==> self@.contains_key(#[trigger] r@[p].0@) && self@[r@[p].0@]
                    == r@[p].1 as nat,
            forall|p: int, q: int| 0 <= p < q < r@.len() ==> r@[p].0@ != r@[q].0@,
            forall|p: int, q: int| 0 <= p < q < r@.len() ==> r@[p].1 >= r@[q].1,
    {
        let n = self.keys.len();
        let mut order: Vec<usize> = Vec::new();
        let mut i: usize = 0;
        while i < n
            invariant
                self.wf(),
                n == self.keys@.len(),
                i <= n,
                order@.len() == i,
                order@.no_duplicates(),
                forall|p: int| 0 <= p < order@.len() ==> #[trigger] order@[p] < i,
                forall|p: int, q: int|
                    0 <= p < q < order@.len() ==> self.counts@[order@[p] as int]
                        >= self.counts@[order@[q] as int],
            decreases n - i,
        {
            let c = self.counts[i];
            let mut pos: usize = 0;
            while pos < order.len() && self.counts[order[pos]] >= c
                invariant
                    self.wf(),
                    n == self.keys@.len(),
                    i < n,
                    pos <= order@.len(),
                    forall|p: int| 0 <= p < order@.len() ==> #[trigger] order@[p] < i,
                    forall|p: int| 0 <= p < pos ==> self.counts@[#[trigger] order@[p] as int] >= c,
                decreases order@.len() - pos,
            {
                pos = pos + 1;
            }
            let ghost o0 = order@;
            order.insert(pos, i);
            assert(order@ == o0.insert(pos as int, i));
            assert forall|p: int, q: int| 0 <= p < q < order@.len() implies order@[p] != order@[q] by {
                if p < pos && q == pos {
                    assert(o0[p] < i);
                } else if p == pos {
                    assert(o0[q - 1] < i);
                }
            }
            assert forall|p: int, q: int|
                0 <= p < q < order@.len() implies self.counts@[order@[p] as int]
                >= self.counts@[order@[q] as int] by {
                if q == pos {
                    assert(self.counts@[o0[p] as int] >= c);
                } else if p == pos && q > pos + 1 {
                    assert(self.counts@[o0[pos as int] as int] < c);
                    assert(self.counts@[o0[pos as int] as int] >= self.counts@[o0[q - 1] as int]);
                } else if p == pos && q == pos + 1 {
                    assert(self.counts@[o0[pos as int] as int] < c);
                }
            }
            i = i + 1;
        }
        let mut r: Vec<(String, u64)> = Vec::new();
        let mut p: usize = 0;
        while p < n
            invariant
                self.wf(),
                n == self.keys@.len(),
                order@.len() == n,
                order@.no_duplicates(),
                forall|q: int| 0 <= q < order@.len() ==> #[trigger] order@[q] < n,
                forall|a: int, b: int|
                    0 <= a < b < order@.len() ==> self.counts@[order@[a] as int]
                        >= self.counts@[order@[b] as int],
                p <= n,
                r@.len() == p,
                forall|q: int|
                    0 <= q < p ==> (#[trigger] r@[q]).0@ == self.keys@[order@[q] as int]@ && r@[q].1
                        == self.counts@[order@[q] as int],
            decreases n - p,
        {
            let j = order[p];
            r.push((self.keys[j].clone(), self.counts[j]));
            p = p + 1;
        }
        proof {
            self.lemma_dom_len();
            assert forall|q: int| 0 <= q < r@.len() implies self@.contains_key(#[trigger] r@[q].0@)
                && self@[r@[q].0@] == r@[q].1 as nat by {
                let j = order@[q] as int;
                assert(r@[q].0@ == self.keys@[j]@);
            }
            assert forall|a: int, b: int| 0 <= a < b < r@.len() implies r@[a].0@ != r@[b].0@ by {
                assert(r@[a].0@ == self.keys@[order@[a] as int]@);
                assert(r@[b].0@ == self.keys@[order@[b] as int]@);
                assert(order@[a] != order@[b]);
            }
            assert forall|a: int, b: int| 0 <= a < b < r@.len() implies r@[a].1 >= r@[b].1 by {
                assert(r@[a].1 == self.counts@[order@[a] as int]);
                assert(r@[b].1 == self.counts@[order@[b] as int]);
            }
        }
        r
    }
}

} // verus!
