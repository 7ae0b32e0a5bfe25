use vstd::prelude::*;

verus! {

/// One entry of a directory listing.
pub struct Listing {
    pub path: String,
    pub is_dir: bool,
    /// Whether the entry holds a `.git` entry, file or directory.
    pub has_git: bool,
}

/// What the walk keeps of a listed directory: its path, and whether it holds `.git`.
pub open spec fn entry_of(e: Listing) -> (Seq<char>, bool) {
    (e.path@, e.has_git)
}

/// The directories of a listing, last-listed first: pushed onto the pending
/// stack, the first-listed directory is taken off first.
pub open spec fn queued(entries: Seq<Listing>) -> Seq<(Seq<char>, bool)>
    decreases entries.len(),
{
    if entries.len() == 0 {
        seq![]
    } else {
        let rest = queued(entries.drop_first());
        if entries[0].is_dir {
            rest.push(entry_of(entries[0]))
        } else {
            rest
        }
    }
}

/// Takes entries off the top of `pending` and records those that hold `.git`,
/// until one without `.git` comes up: that directory is handed out for listing.
/// Gives the pending stack, the repositories found and the directory handed out.
pub open spec fn drain(pending: Seq<(Seq<char>, bool)>, found: Seq<Seq<char>>) -> (
    Seq<(Seq<char>, bool)>,
    Seq<Seq<char>>,
    Option<Seq<char>>,
)
    decreases pending.len(),
{
    if pending.len() == 0 {
        (pending, found, None)
    } else {
        let e = pending.last();
        if e.1 {
            drain(pending.drop_last(), found.push(e.0))
        } else {
            (pending.drop_last(), found, Some(e.0))
        }
    }
}

pub open spec fn path_view(r: Option<String>) -> Option<Seq<char>> {
    match r {
        Some(p) => Some(p@),
        None => None,
    }
}

/// A depth-first walk down a directory tree that records each directory holding
/// `.git` and does not look inside it. The caller lists the directory that
/// `next_dir` hands out and passes the listing to `visit`, until `next_dir`
/// returns `None`. Repositories come out in pre-order over the listing order.
pub struct Scan {
    pending: Vec<(String, bool)>,
    found: Vec<String>,
}

impl Scan {
    /// Directories waiting on the stack, the top last, each with whether it holds `.git`.
    pub closed spec fn pending_entries(&self) -> Seq<(Seq<char>, bool)> {
        self.pending@.map_values(|e: (String, bool)| (e.0@, e.1))
    }

    /// Repositories found so far.
    pub closed spec fn found_paths(&self) -> Seq<Seq<char>> {
        self.found@.map_values(|p: String| p@)
    }

    /// A walk from `root`; one whose root is not a directory finds nothing.
    /// The root itself is listed, never recorded.
    pub fn start(root: String, root_is_dir: bool) -> (r: Scan)
        ensures
            r.found_paths() == Seq::<Seq<char>>::empty(),
            r.pending_entries() == (if root_is_dir {
                seq![(root@, false)]
            } else {
                Seq::<(Seq<char>, bool)>::empty()
            }),
    {
        let mut pending: Vec<(String, bool)> = Vec::new();
        let ghost p = root@;
        if root_is_dir {
            pending.push((root, false));
        }
        let r = Scan { pending, found: Vec::new() };
        assert(r.found_paths() =~= Seq::<Seq<char>>::empty());
        if root_is_dir {
            assert(r.pending_entries() =~= seq![(p, false)]);
        } else {
            assert(r.pending_entries() =~= Seq::<(Seq<char>, bool)>::empty());
        }
        r
    }

    /// The next directory to list, or `None` when the walk is over; the
    /// repositories met on the way are recorded.
    pub fn next_dir(&mut self) -> (r: Option<String>)
        ensures
            final(self).pending_entries() == drain(
                old(self).pending_entries(),
                old(self).found_paths(),
            ).0,
            final(self).found_paths() == drain(old(self).pending_entries(), old(self).found_paths()).1,
            path_view(r) == drain(old(self).pending_entries(), old(self).found_paths()).2,
    {
        let ghost d = drain(self.pending_entries(), self.found_paths());
        loop
            invariant
                d == drain(old(self).pending_entries(), old(self).found_paths()),
                drain(self.pending_entries(), self.found_paths()) == d,
            decreases self.pending@.len(),
        {
            let ghost before = self.pending_entries();
            let top = self.pending.pop();
            match top {
                None => {
                    assert(self.pending_entries() =~= before);
                    return None;
                },
                Some(e) => {
                    assert(self.pending_entries() =~= before.drop_last());
                    let (p, g) = e;
                    if g {
                        let ghost f0 = self.found_paths();
                        self.found.push(p);
                        assert(self.found_paths() =~= f0.push(before.last().0));
                    } else {
                        assert(before.last() == (p@, g));
                        return Some(p);
                    }
                },
            }
        }
    }

    /// Takes in the listing of a directory handed out by `next_dir`: its
    /// subdirectories go on the stack so that the first listed comes off first.
    pub fn visit(&mut self, entries: &Vec<Listing>)
        ensures
            final(self).found_paths() == old(self).found_paths(),
            final(self).pending_entries() == old(self).pending_entries() + queued(entries@),
    {
        let mut i: usize = entries.len();
        while i > 0
            invariant
                i <= entries@.len(),
                self.found_paths() == old(self).found_paths(),
                self.pending_entries() == old(self).pending_entries() + queued(
                    entries@.subrange(i as int, entries@.len() as int),
                ),
            decreases i,
        {
            let ghost tail = entries@.subrange(i as int, entries@.len() as int);
            let ghost tail2 = entries@.subrange(i - 1, entries@.len() as int);
            assert(tail2.drop_first() =~= tail);
            let ghost p0 = self.pending_entries();
            let e = &entries[i - 1];
            if e.is_dir {
                self.pending.push((e.path.clone(), e.has_git));
                assert(self.pending_entries() =~= p0.push(entry_of(*e)));
            }
            assert(old(self).pending_entries() + queued(tail2) =~= self.pending_entries());
            i = i - 1;
        }
        assert(entries@.subrange(0, entries@.len() as int) =~= entries@);
    }

    /// Whether no directory is left on the stack.
    pub fn is_done(&self) -> (r: bool)
        ensures
            r == (self.pending_entries().len() == 0),
    {
        self.pending.len() == 0
    }

    /// The repositories found, in the order in which they were found.
    pub fn into_found(self) -> (r: Vec<String>)
        ensures
            r@.map_values(|p: String| p@) == self.found_paths(),
    {
        self.found
    }
}

/// The listing of directory `d` in `tree`, a map from each directory to its entries.
pub open spec fn listing_of(tree: Map<Seq<char>, Seq<Listing>>, d: Seq<char>) -> Seq<Listing> {
    if tree.contains_key(d) {
        tree[d]
    } else {
        seq![]
    }
}

/// The pending stack, the repositories found, and the directories listed.
pub type WalkState = (Seq<(Seq<char>, bool)>, Seq<Seq<char>>, Set<Seq<char>>);

/// One entry taken off the stack: recorded where it holds `.git`, otherwise
/// listed from `tree` with its subdirectories pushed, as `next_dir` and `visit` do.
pub open spec fn walk_step(tree: Map<Seq<char>, Seq<Listing>>, s: WalkState) -> WalkState {
    let e = s.0.last();
    if e.1 {
        (s.0.drop_last(), s.1.push(e.0), s.2)
    } else {
        (s.0.drop_last() + queued(listing_of(tree, e.0)), s.1, s.2.insert(e.0))
    }
}

/// The walk after at most `fuel` steps.
pub open spec fn walk(tree: Map<Seq<char>, Seq<Listing>>, s: WalkState, fuel: nat) -> WalkState
    decreases fuel,
{
    if fuel == 0 || s.0.len() == 0 {
        s
    } else {
        walk(tree, walk_step(tree, s), (fuel - 1) as nat)
    }
}

/// `p` is `root`, or is reached from `root` in `n` steps down through directories without `.git`.
pub open spec fn open_dir(tree: Map<Seq<char>, Seq<Listing>>, root: Seq<char>, p: Seq<char>, n: nat) -> bool
    decreases n,
{
    if n == 0 {
        p == root
    } else {
        exists|q: Seq<char>|
            open_dir(tree, root, q, (n - 1) as nat) && #[trigger] queued(listing_of(tree, q)).contains(
                (p, false),
            )
    }
}

/// `p` is a directory holding `.git` below `root`, and no directory between
/// `root` and `p` holds `.git`.
pub open spec fn outermost_repo(tree: Map<Seq<char>, Seq<Listing>>, root: Seq<char>, p: Seq<char>) -> bool {
    exists|q: Seq<char>, n: nat|
        #![trigger open_dir(tree, root, q, n), queued(listing_of(tree, q)).contains((p, true))]
        open_dir(tree, root, q, n) && queued(listing_of(tree, q)).contains((p, true))
}

/// A pair is queued from a listing exactly when the listing holds a directory
/// with that path and that `.git` mark.
pub proof fn queued_contains(entries: Seq<Listing>, p: Seq<char>, g: bool)
    ensures
        queued(entries).contains((p, g)) <==> exists|i: int|
            0 <= i < entries.len() && (#[trigger] entries[i]).is_dir && entries[i].path@ == p
                && entries[i].has_git == g,
    decreases entries.len(),
{
    if entries.len() > 0 {
        let rest = entries.drop_first();
        queued_contains(rest, p, g);
        if exists|i: int|
            0 <= i < entries.len() && (#[trigger] entries[i]).is_dir && entries[i].path@ == p
                && entries[i].has_git == g {
            let i = choose|i: int|
                0 <= i < entries.len() && (#[trigger] entries[i]).is_dir && entries[i].path@ == p
                    && entries[i].has_git == g;
            if i > 0 {
                assert(rest[i - 1] == entries[i]);
            }
        }
        if queued(rest).contains((p, g)) {
            let j = choose|j: int|
                0 <= j < rest.len() && (#[trigger] rest[j]).is_dir && rest[j].path@ == p
                    && rest[j].has_git == g;
            assert(entries[j + 1] == rest[j]);
        }
        lemma_push_contains(queued(rest), entry_of(entries[0]), (p, g));
    }
}

spec fn walk_inv(tree: Map<Seq<char>, Seq<Listing>>, root: Seq<char>, s: WalkState) -> bool {
    &&& forall|p: Seq<char>|
        #[trigger] s.0.contains((p, false)) ==> exists|n: nat| open_dir(tree, root, p, n)
    &&& forall|p: Seq<char>| #[trigger] s.0.contains((p, true)) ==> outermost_repo(tree, root, p)
    &&& forall|p: Seq<char>| #[trigger] s.1.contains(p) ==> outermost_repo(tree, root, p)
    &&& forall|q: Seq<char>, p: Seq<char>|
        s.2.contains(q) && #[trigger] queued(listing_of(tree, q)).contains((p, false))
            ==> s.2.contains(p) || s.0.contains((p, false))
    &&& forall|q: Seq<char>, p: Seq<char>|
        s.2.contains(q) && #[trigger] queued(listing_of(tree, q)).contains((p, true))
            ==> s.1.contains(p) || s.0.contains((p, true))
    &&& s.2.contains(root) || s.0.contains((root, false))
}

proof fn lemma_concat_contains<T>(a: Seq<T>, b: Seq<T>, x: T)
    ensures
        (a + b).contains(x) <==> a.contains(x) || b.contains(x),
{
    if (a + b).contains(x) {
        let i = choose|i: int| 0 <= i < (a + b).len() && (a + b)[i] == x;
        if i >= a.len() {
            assert(b[i - a.len()] == x);
        }
    }
    if a.contains(x) {
        let i = choose|i: int| 0 <= i < a.len() && a[i] == x;
        assert((a + b)[i] == x);
    }
    if b.contains(x) {
        let i = choose|i: int| 0 <= i < b.len() && b[i] == x;
        assert((a + b)[a.len() + i] == x);
    }
}

proof fn lemma_push_contains<T>(a: Seq<T>, y: T, x: T)
    ensures
        a.push(y).contains(x) <==> a.contains(x) || x == y,
{
    assert(a.push(y) =~= a + seq![y]);
    lemma_concat_contains(a, seq![y], x);
    if x == y {
        assert(seq![y][0] == x);
    }
}

proof fn lemma_pop_contains<T>(a: Seq<T>, x: T)
    requires
        a.len() > 0,
    ensures
        a.contains(x) <==> a.drop_last().contains(x) || x == a.last(),
{
    assert(a =~= a.drop_last().push(a.last()));
    lemma_push_contains(a.drop_last(), a.last(), x);
}

proof fn lemma_step_keeps_inv(tree: Map<Seq<char>, Seq<Listing>>, root: Seq<char>, s: WalkState)
    requires
        walk_inv(tree, root, s),
        s.0.len() > 0,
    ensures
        walk_inv(tree, root, walk_step(tree, s)),
{
    let e = s.0.last();
    let t = walk_step(tree, s);
    assert(s.0.contains(e)) by {
        lemma_pop_contains(s.0, e);
    }
    assert forall|x: (Seq<char>, bool)| s.0.contains(x) <==> s.0.drop_last().contains(x) || x == e by {
        lemma_pop_contains(s.0, x);
    }
    if e.1 {
        assert(outermost_repo(tree, root, e.0)) by {
            assert(s.0.contains((e.0, true)));
        }
        assert forall|p: Seq<char>| #[trigger] t.1.contains(p) implies outermost_repo(tree, root, p) by {
            lemma_push_contains(s.1, e.0, p);
        }
        assert forall|q: Seq<char>, p: Seq<char>|
            t.2.contains(q) && #[trigger] queued(listing_of(tree, q)).contains((p, true))
            implies t.1.contains(p) || t.0.contains((p, true)) by {
            lemma_push_contains(s.1, e.0, p);
        }
        assert forall|q: Seq<char>, p: Seq<char>|
            t.2.contains(q) && #[trigger] queued(listing_of(tree, q)).contains((p, false))
            implies t.2.contains(p) || t.0.contains((p, false)) by {
            if s.0.contains((p, false)) {
                assert(s.0.drop_last().contains((p, false)));
            }
        }
        if s.0.contains((root, false)) {
            assert(s.0.drop_last().contains((root, false)));
        }
        assert forall|p: Seq<char>| #[trigger] t.0.contains((p, false)) implies exists|n: nat|
            open_dir(tree, root, p, n) by {
            lemma_pop_contains(s.0, (p, false));
        }
        assert forall|p: Seq<char>| #[trigger] t.0.contains((p, true)) implies outermost_repo(
            tree,
            root,
            p,
        ) by {
            lemma_pop_contains(s.0, (p, true));
        }
    } else {
        let l = queued(listing_of(tree, e.0));
        assert(s.0.contains((e.0, false)));
        let nd = choose|n: nat| open_dir(tree, root, e.0, n);
        assert forall|x: (Seq<char>, bool)| t.0.contains(x) <==> s.0.drop_last().contains(x)
            || l.contains(x) by {
            lemma_concat_contains(s.0.drop_last(), l, x);
        }
        assert forall|p: Seq<char>| #[trigger] t.0.contains((p, false)) implies exists|n: nat|
            open_dir(tree, root, p, n) by {
            if l.contains((p, false)) {
                assert(open_dir(tree, root, e.0, nd) && queued(listing_of(tree, e.0)).contains(
                    (p, false),
                ));
                assert(open_dir(tree, root, p, nd + 1));
            } else {
                assert(s.0.contains((p, false)));
                let m = choose|m: nat| open_dir(tree, root, p, m);
                assert(open_dir(tree, root, p, m));
            }
        }
        assert forall|p: Seq<char>| #[trigger] t.0.contains((p, true)) implies outermost_repo(
            tree,
            root,
            p,
        ) by {
            if l.contains((p, true)) {
                assert(open_dir(tree, root, e.0, nd) && queued(listing_of(tree, e.0)).contains(
                    (p, true),
                ));
            } else {
                assert(s.0.contains((p, true)));
            }
        }
        assert forall|q: Seq<char>, p: Seq<char>|
            t.2.contains(q) && #[trigger] queued(listing_of(tree, q)).contains((p, false))
            implies t.2.contains(p) || t.0.contains((p, false)) by {
            assert(t.2.contains(e.0));
            if q == e.0 {
                lemma_concat_contains(s.0.drop_last(), l, (p, false));
            } else if s.0.contains((p, false)) && (p, false) != e {
                assert(s.0.drop_last().contains((p, false)));
                lemma_concat_contains(s.0.drop_last(), l, (p, false));
            } else if s.2.contains(p) {
                assert(t.2.contains(p));
            }
        }
        assert forall|q: Seq<char>, p: Seq<char>|
            t.2.contains(q) && #[trigger] queued(listing_of(tree, q)).contains((p, true))
            implies t.1.contains(p) || t.0.contains((p, true)) by {
            if q == e.0 {
                lemma_concat_contains(s.0.drop_last(), l, (p, true));
            } else if s.0.contains((p, true)) {
                assert(s.0.drop_last().contains((p, true)));
                lemma_concat_contains(s.0.drop_last(), l, (p, true));
            }
        }
        if s.0.contains((root, false)) && (root, false) != e {
            assert(s.0.drop_last().contains((root, false)));
            lemma_concat_contains(s.0.drop_last(), l, (root, false));
        }
    }
}

proof fn lemma_walk_keeps_inv(tree: Map<Seq<char>, Seq<Listing>>, root: Seq<char>, s: WalkState, fuel: nat)
    requires
        walk_inv(tree, root, s),
    ensures
        walk_inv(tree, root, walk(tree, s, fuel)),
    decreases fuel,
{
    if fuel > 0 && s.0.len() > 0 {
        lemma_step_keeps_inv(tree, root, s);
        lemma_walk_keeps_inv(tree, root, walk_step(tree, s), (fuel - 1) as nat);
    }
}

proof fn lemma_open_dirs_listed(tree: Map<Seq<char>, Seq<Listing>>, root: Seq<char>, s: WalkState, q: Seq<char>, n: nat)
    requires
        walk_inv(tree, root, s),
        s.0.len() == 0,
        open_dir(tree, root, q, n),
    ensures
        s.2.contains(q),
    decreases n,
{
    if n > 0 {
        let q0 = choose|q0: Seq<char>|
            open_dir(tree, root, q0, (n - 1) as nat) && #[trigger] queued(
                listing_of(tree, q0),
            ).contains((q, false));
        lemma_open_dirs_listed(tree, root, s, q0, (n - 1) as nat);
    }
}

/// A walk from a directory `root` that runs until its stack is empty, with each
/// listing taken from `tree`, finds exactly the directories holding `.git` that
/// lie below `root` and beneath no other directory holding `.git`.
pub proof fn walk_finds_outermost_repos(tree: Map<Seq<char>, Seq<Listing>>, root: Seq<char>, fuel: nat)
    requires
        walk(tree, (seq![(root, false)], seq![], Set::empty()), fuel).0.len() == 0,
    ensures
        forall|p: Seq<char>|
            walk(tree, (seq![(root, false)], seq![], Set::empty()), fuel).1.contains(p)
                <==> outermost_repo(tree, root, p),
{
    let s0: WalkState = (seq![(root, false)], seq![], Set::empty());
    assert(s0.0[0] == (root, false));
    assert forall|x: (Seq<char>, bool)| #[trigger] s0.0.contains(x) implies x == (root, false) by {}
    assert forall|p: Seq<char>| #[trigger] s0.0.contains((p, false)) implies exists|n: nat|
        open_dir(tree, root, p, n) by {
        assert(open_dir(tree, root, p, 0));
    }
    lemma_walk_keeps_inv(tree, root, s0, fuel);
    let s = walk(tree, s0, fuel);
    assert forall|p: Seq<char>| outermost_repo(tree, root, p) implies s.1.contains(p) by {
        let (q, n) = choose|q: Seq<char>, n: nat|
            #![trigger open_dir(tree, root, q, n), queued(listing_of(tree, q)).contains((p, true))]
            open_dir(tree, root, q, n) && queued(listing_of(tree, q)).contains((p, true));
        lemma_open_dirs_listed(tree, root, s, q, n);
    }
}

/// Every directory listed in `tree` ranks below the directory that lists it:
/// the tree is finite in depth and has no cycles.
pub open spec fn ranked_tree(tree: Map<Seq<char>, Seq<Listing>>, h: spec_fn(Seq<char>) -> nat) -> bool {
    forall|d: Seq<char>, p: Seq<char>, g: bool|
        #[trigger] queued(listing_of(tree, d)).contains((p, g)) ==> h(p) < h(d)
}

/// The number of walk steps that an entry of the stack takes: one for itself,
/// and those of its subdirectories where it is listed.
pub open spec fn weight(tree: Map<Seq<char>, Seq<Listing>>, h: spec_fn(Seq<char>) -> nat, e: (Seq<char>, bool)) -> nat
    decreases h(e.0), 1nat, 0nat,
{
    if e.1 {
        1
    } else {
        1 + weight_sum(tree, h, queued(listing_of(tree, e.0)), h(e.0))
    }
}

/// The weights of the entries of `es` that rank below `bound`, added up.
pub open spec fn weight_sum(
    tree: Map<Seq<char>, Seq<Listing>>,
    h: spec_fn(Seq<char>) -> nat,
    es: Seq<(Seq<char>, bool)>,
    bound: nat,
) -> nat
    decreases bound, 0nat, es.len(),
{
    if es.len() == 0 {
        0
    } else {
        weight_sum(tree, h, es.drop_last(), bound) + if h(es.last().0) < bound {
            weight(tree, h, es.last())
        } else {
            0
        }
    }
}

proof fn lemma_weight_sum_concat(
    tree: Map<Seq<char>, Seq<Listing>>,
    h: spec_fn(Seq<char>) -> nat,
    a: Seq<(Seq<char>, bool)>,
    b: Seq<(Seq<char>, bool)>,
    bound: nat,
)
    ensures
        weight_sum(tree, h, a + b, bound) == weight_sum(tree, h, a, bound) + weight_sum(tree, h, b, bound),
    decreases b.len(),
{
    if b.len() == 0 {
        assert(a + b =~= a);
    } else {
        assert((a + b).drop_last() =~= a + b.drop_last());
        lemma_weight_sum_concat(tree, h, a, b.drop_last(), bound);
    }
}

proof fn lemma_weight_sum_bound(
    tree: Map<Seq<char>, Seq<Listing>>,
    h: spec_fn(Seq<char>) -> nat,
    es: Seq<(Seq<char>, bool)>,
    b1: nat,
    b2: nat,
)
    requires
        forall|i: int| 0 <= i < es.len() ==> h((#[trigger] es[i]).0) < b1 && h(es[i].0) < b2,
    ensures
        weight_sum(tree, h, es, b1) == weight_sum(tree, h, es, b2),
    decreases es.len(),
{
    if es.len() > 0 {
        assert(es.last() == es[es.len() - 1]);
        lemma_weight_sum_bound(tree, h, es.drop_last(), b1, b2);
    }
}

/// Each step takes one off the total weight of the stack.
proof fn lemma_step_weight(
    tree: Map<Seq<char>, Seq<Listing>>,
    h: spec_fn(Seq<char>) -> nat,
    s: WalkState,
    bound: nat,
)
    requires
        ranked_tree(tree, h),
        s.0.len() > 0,
        forall|i: int| 0 <= i < s.0.len() ==> h((#[trigger] s.0[i]).0) < bound,
    ensures
        weight_sum(tree, h, walk_step(tree, s).0, bound) + 1 == weight_sum(tree, h, s.0, bound),
        forall|i: int|
            0 <= i < walk_step(tree, s).0.len() ==> h((#[trigger] walk_step(tree, s).0[i]).0) < bound,
{
    let e = s.0.last();
    assert(e == s.0[s.0.len() - 1]);
    let t = walk_step(tree, s);
    assert(weight_sum(tree, h, s.0, bound) == weight_sum(tree, h, s.0.drop_last(), bound) + weight(
        tree,
        h,
        e,
    ));
    if !e.1 {
        let l = queued(listing_of(tree, e.0));
        assert(weight(tree, h, e) == 1 + weight_sum(tree, h, l, h(e.0)));
        assert forall|i: int| 0 <= i < l.len() implies h((#[trigger] l[i]).0) < h(e.0) && h(l[i].0)
            < bound by {
            assert(l.contains(l[i]));
            assert(l.contains((l[i].0, l[i].1)));
        }
        lemma_weight_sum_bound(tree, h, l, h(e.0), bound);
        lemma_weight_sum_concat(tree, h, s.0.drop_last(), l, bound);
        assert forall|i: int| 0 <= i < t.0.len() implies h((#[trigger] t.0[i]).0) < bound by {
            if i < s.0.len() - 1 {
                assert(t.0[i] == s.0[i]);
            } else {
                assert(t.0[i] == l[i - (s.0.len() - 1)]);
            }
        }
    }
}

proof fn lemma_walk_ends(
    tree: Map<Seq<char>, Seq<Listing>>,
    h: spec_fn(Seq<char>) -> nat,
    s: WalkState,
    bound: nat,
    fuel: nat,
)
    requires
        ranked_tree(tree, h),
        forall|i: int| 0 <= i < s.0.len() ==> h((#[trigger] s.0[i]).0) < bound,
        fuel >= weight_sum(tree, h, s.0, bound),
    ensures
        walk(tree, s, fuel).0.len() == 0,
    decreases fuel,
{
    if s.0.len() > 0 {
        lemma_step_weight(tree, h, s, bound);
        lemma_walk_ends(tree, h, walk_step(tree, s), bound, (fuel - 1) as nat);
    }
}

/// On a tree without cycles, a walk from `root` ends after `weight` steps, and
/// it finds exactly the directories holding `.git` that lie below `root` and
/// beneath no other directory holding `.git`.
pub proof fn walk_ends_with_outermost_repos(
    tree: Map<Seq<char>, Seq<Listing>>,
    h: spec_fn(Seq<char>) -> nat,
    root: Seq<char>,
)
    requires
        ranked_tree(tree, h),
    ensures
        ({
            let s = walk(tree, (seq![(root, false)], seq![], Set::empty()), weight(tree, h, (root, false)));
            &&& s.0.len() == 0
            &&& forall|p: Seq<char>| s.1.contains(p) <==> outermost_repo(tree, root, p)
        }),
{
    let s0: WalkState = (seq![(root, false)], seq![], Set::empty());
    let bound = h(root) + 1;
    assert(s0.0.drop_last() =~= Seq::<(Seq<char>, bool)>::empty());
    assert(s0.0.last() == (root, false));
    assert(weight_sum(tree, h, s0.0.drop_last(), bound) == 0);
    assert(weight_sum(tree, h, s0.0, bound) == weight(tree, h, (root, false)));
    lemma_walk_ends(tree, h, s0, bound, weight(tree, h, (root, false)));
    walk_finds_outermost_repos(tree, root, weight(tree, h, (root, false)));
}

/// The number of entries that `drain` takes off `pending`.
pub open spec fn drain_len(pending: Seq<(Seq<char>, bool)>) -> nat
    decreases pending.len(),
{
    if pending.len() == 0 {
        0
    } else if pending.last().1 {
        1 + drain_len(pending.drop_last())
    } else {
        1
    }
}

/// The state of a walk after one round of `next_dir` and, where it hands out
/// a directory `d`, `visit` with the listing of `d` in `tree`.
pub open spec fn round(tree: Map<Seq<char>, Seq<Listing>>, s: WalkState) -> WalkState {
    let d = drain(s.0, s.1);
    match d.2 {
        Some(dir) => (d.0 + queued(listing_of(tree, dir)), d.1, s.2.insert(dir)),
        None => (d.0, d.1, s.2),
    }
}

/// One round of `next_dir` and `visit`, whose contracts give `round`, is a run
/// of `drain_len` steps of the walk.
pub proof fn round_is_walk(tree: Map<Seq<char>, Seq<Listing>>, s: WalkState)
    ensures
        walk(tree, s, drain_len(s.0)) == round(tree, s),
    decreases s.0.len(),
{
    if s.0.len() > 0 {
        let e = s.0.last();
        let t = walk_step(tree, s);
        if e.1 {
            round_is_walk(tree, t);
            assert(drain(s.0, s.1) == drain(t.0, t.1));
            assert(drain_len(s.0) == 1 + drain_len(t.0));
            assert(walk(tree, s, drain_len(s.0)) == walk(tree, t, drain_len(t.0)));
        } else {
            assert(walk(tree, s, 1) == walk(tree, t, 0));
            assert(round(tree, s) == t);
        }
    } else {
        assert(round(tree, s) == s);
    }
}

proof fn lemma_weight_positive(
    tree: Map<Seq<char>, Seq<Listing>>,
    h: spec_fn(Seq<char>) -> nat,
    es: Seq<(Seq<char>, bool)>,
    bound: nat,
)
    requires
        es.len() > 0,
        forall|i: int| 0 <= i < es.len() ==> h((#[trigger] es[i]).0) < bound,
    ensures
        weight_sum(tree, h, es, bound) > 0,
{
    assert(es.last() == es[es.len() - 1]);
    assert(weight(tree, h, es.last()) >= 1);
}

/// Entries pushed on top of `below` are walked to the end, in `weight_sum`
/// steps, before any entry of `below` is taken off; the walk meanwhile is the
/// walk of those entries alone. Since a listing is pushed last-listed first,
/// every repository at or under a directory listed before a sibling is found
/// before every repository at or under that sibling.
pub proof fn walk_keeps_stack_order(
    tree: Map<Seq<char>, Seq<Listing>>,
    h: spec_fn(Seq<char>) -> nat,
    below: Seq<(Seq<char>, bool)>,
    above: Seq<(Seq<char>, bool)>,
    f: Seq<Seq<char>>,
    v: Set<Seq<char>>,
    bound: nat,
)
    requires
        ranked_tree(tree, h),
        forall|i: int| 0 <= i < above.len() ==> h((#[trigger] above[i]).0) < bound,
    ensures
        ({
            let alone = walk(tree, (above, f, v), weight_sum(tree, h, above, bound));
            &&& alone.0.len() == 0
            &&& walk(tree, (below + above, f, v), weight_sum(tree, h, above, bound)) == (
                below,
                alone.1,
                alone.2,
            )
        }),
    decreases weight_sum(tree, h, above, bound),
{
    let k = weight_sum(tree, h, above, bound);
    if above.len() == 0 {
        assert(below + above =~= below);
    } else {
        lemma_weight_positive(tree, h, above, bound);
        let s: WalkState = (above, f, v);
        let both: WalkState = (below + above, f, v);
        lemma_step_weight(tree, h, s, bound);
        let t = walk_step(tree, s);
        assert(both.0.last() == above.last());
        assert(both.0.drop_last() =~= below + above.drop_last());
        let e = above.last();
        if e.1 {
            assert(walk_step(tree, both) == (below + t.0, t.1, t.2));
        } else {
            let l = queued(listing_of(tree, e.0));
            assert(below + above.drop_last() + l =~= below + (above.drop_last() + l));
            assert(walk_step(tree, both) == (below + t.0, t.1, t.2));
        }
        walk_keeps_stack_order(tree, h, below, t.0, t.1, t.2, bound);
        assert(walk(tree, both, k) == walk(tree, walk_step(tree, both), (k - 1) as nat));
        assert(walk(tree, s, k) == walk(tree, t, (k - 1) as nat));
    }
}

} // verus!
