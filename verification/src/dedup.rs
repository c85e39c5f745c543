//! Groups photos into near-duplicate clusters by the Hamming distance of
//! their perceptual hashes.

use vstd::prelude::*;

verus! {

/// Bit `i` of `x`.
pub open spec fn bit(x: u64, i: nat) -> bool {
    (x >> (i as u64)) & 1 == 1
}

/// How many of the lowest `n` bits of `x` are set.
pub open spec fn bits_set(x: u64, n: nat) -> nat
    decreases n,
{
    if n == 0 {
        0
    } else {
        bits_set(x, (n - 1) as nat) + if bit(x, (n - 1) as nat) { 1nat } else { 0nat }
    }
}

/// At how many of the lowest `n` positions `a` and `b` differ.
pub open spec fn bits_differing(a: u64, b: u64, n: nat) -> nat
    decreases n,
{
    if n == 0 {
        0
    } else {
        bits_differing(a, b, (n - 1) as nat) + if bit(a, (n - 1) as nat) != bit(b, (n - 1) as nat) {
            1nat
        } else {
            0nat
        }
    }
}

/// The Hamming distance of two hashes.
pub open spec fn distance(a: u64, b: u64) -> nat {
    bits_differing(a, b, 64)
}

/// `u64::count_ones` counts the ones in the binary representation of `x`.
pub assume_specification[ u64::count_ones ](x: u64) -> (n: u32)
    ensures
        n == bits_set(x, 64),
;

proof fn lemma_xor_marks_differences(a: u64, b: u64, n: nat)
    requires
        n <= 64,
    ensures
        bits_set(a ^ b, n) == bits_differing(a, b, n),
    decreases n,
{
    if n > 0 {
        lemma_xor_marks_differences(a, b, (n - 1) as nat);
        let i = (n - 1) as u64;
        assert((((a ^ b) >> i) & 1 == 1) <==> ((a >> i) & 1 == 1) != ((b >> i) & 1 == 1))
            by (bit_vector);
    }
}

/// In how many bits `a` and `b` differ.
pub fn hamming_distance(a: u64, b: u64) -> (d: u32)
    ensures
        d == distance(a, b),
{
    proof {
        lemma_xor_marks_differences(a, b, 64);
    }
    (a ^ b).count_ones()
}

proof fn lemma_prefix_metric(a: u64, b: u64, c: u64, n: nat)
    ensures
        bits_differing(a, a, n) == 0,
        bits_differing(a, b, n) == bits_differing(b, a, n),
        bits_differing(a, c, n) <= bits_differing(a, b, n) + bits_differing(b, c, n),
        bits_differing(a, b, n) <= n,
    decreases n,
{
    if n > 0 {
        lemma_prefix_metric(a, b, c, (n - 1) as nat);
    }
}

proof fn lemma_zero_prefix(a: u64, b: u64, n: nat)
    requires
        bits_differing(a, b, n) == 0,
    ensures
        forall|i: nat| i < n ==> #[trigger] bit(a, i) == bit(b, i),
    decreases n,
{
    if n > 0 {
        lemma_zero_prefix(a, b, (n - 1) as nat);
    }
}

proof fn lemma_same_high_bits(a: u64, b: u64, i: u64)
    requires
        i < 64,
        forall|k: nat| k < 64 ==> #[trigger] bit(a, k) == bit(b, k),
    ensures
        a >> i == b >> i,
    decreases 64 - i,
{
    assert(bit(a, i as nat) == bit(b, i as nat));
    assert((a >> i) & 1 == 0 || (a >> i) & 1 == 1) by (bit_vector);
    assert((b >> i) & 1 == 0 || (b >> i) & 1 == 1) by (bit_vector);
    if i == 63 {
        assert(a >> 63u64 == b >> 63u64) by (bit_vector)
            requires
                (a >> 63u64) & 1 == (b >> 63u64) & 1,
        ;
    } else {
        let next: u64 = (i + 1) as u64;
        lemma_same_high_bits(a, b, next);
        assert(a >> i == b >> i) by (bit_vector)
            requires
                i < 63,
                next == i + 1,
                a >> next == b >> next,
                (a >> i) & 1 == (b >> i) & 1,
        ;
    }
}

/// The Hamming distance is a metric with values from 0 to 64: it is zero
/// between equal hashes only, symmetric, and obeys the triangle inequality.
pub proof fn law_distance_is_a_metric(a: u64, b: u64, c: u64)
    ensures
        distance(a, b) == 0 <==> a == b,
        distance(a, b) == distance(b, a),
        distance(a, c) <= distance(a, b) + distance(b, c),
        distance(a, b) <= 64,
{
    lemma_prefix_metric(a, b, c, 64);
    if distance(a, b) == 0 {
        lemma_zero_prefix(a, b, 64);
        lemma_same_high_bits(a, b, 0);
        assert(a >> 0u64 == a && b >> 0u64 == b) by (bit_vector);
    }
}

/// Photos `i` and `j` look alike: their hashes are within `threshold`.
pub open spec fn near(hashes: Seq<u64>, threshold: u32, i: int, j: int) -> bool {
    &&& 0 <= i < hashes.len()
    &&& 0 <= j < hashes.len()
    &&& distance(hashes[i], hashes[j]) <= threshold
}

/// `path` leads from photo to photo, each looking like the one before.
pub open spec fn is_chain(hashes: Seq<u64>, threshold: u32, path: Seq<int>) -> bool {
    &&& path.len() > 0
    &&& forall|k: int| 0 <= k < path.len() ==> 0 <= #[trigger] path[k] < hashes.len()
    &&& forall|k: int, l: int|
        0 <= k && l == k + 1 && l < path.len() ==> near(
            hashes,
            threshold,
            #[trigger] path[k],
            #[trigger] path[l],
        )
}

/// Photos `i` and `j` belong to one shot: a chain of look-alikes joins them.
pub open spec fn same_shot(hashes: Seq<u64>, threshold: u32, i: int, j: int) -> bool {
    exists|path: Seq<int>|
        #[trigger] is_chain(hashes, threshold, path) && path.first() == i && path.last() == j
}

/// Position `i` holds an id that no earlier position holds.
pub open spec fn is_first(ids: Seq<usize>, i: int) -> bool {
    0 <= i < ids.len() && forall|j: int| 0 <= j < i ==> #[trigger] ids[j] != ids[i]
}

/// How many different ids the first `n` positions hold.
pub open spec fn distinct_ids(ids: Seq<usize>, n: nat) -> nat
    decreases n,
{
    if n == 0 {
        0
    } else {
        distinct_ids(ids, (n - 1) as nat) + if is_first(ids, n - 1) { 1nat } else { 0nat }
    }
}

proof fn lemma_near_symmetric(hashes: Seq<u64>, threshold: u32, i: int, j: int)
    requires
        near(hashes, threshold, i, j),
    ensures
        near(hashes, threshold, j, i),
{
    law_distance_is_a_metric(hashes[i], hashes[j], hashes[i]);
}

proof fn lemma_shot_reflexive(hashes: Seq<u64>, threshold: u32, i: int)
    requires
        0 <= i < hashes.len(),
    ensures
        same_shot(hashes, threshold, i, i),
{
    let path = seq![i];
    assert(is_chain(hashes, threshold, path));
    assert(path.first() == i && path.last() == i);
}

proof fn lemma_shot_of_near(hashes: Seq<u64>, threshold: u32, i: int, j: int)
    requires
        near(hashes, threshold, i, j),
    ensures
        same_shot(hashes, threshold, i, j),
{
    let path = seq![i, j];
    assert(is_chain(hashes, threshold, path));
    assert(path.first() == i && path.last() == j);
}

proof fn lemma_shot_symmetric(hashes: Seq<u64>, threshold: u32, i: int, j: int)
    requires
        same_shot(hashes, threshold, i, j),
    ensures
        same_shot(hashes, threshold, j, i),
{
    let path = choose|path: Seq<int>|
        #[trigger] is_chain(hashes, threshold, path) && path.first() == i && path.last() == j;
    let back = path.reverse();
    assert forall|k: int, l: int| 0 <= k && l == k + 1 && l < back.len() implies near(
        hashes,
        threshold,
        #[trigger] back[k],
        #[trigger] back[l],
    ) by {
        let n = path.len() as int;
        assert(back[k] == path[n - 1 - k] && back[l] == path[n - 1 - l]);
        assert(near(hashes, threshold, path[n - 1 - l], path[n - 1 - k]));
        lemma_near_symmetric(hashes, threshold, path[n - 1 - l], path[n - 1 - k]);
    }
    assert(is_chain(hashes, threshold, back));
    assert(back.first() == j && back.last() == i);
}

proof fn lemma_shot_transitive(hashes: Seq<u64>, threshold: u32, i: int, j: int, k: int)
    requires
        same_shot(hashes, threshold, i, j),
        same_shot(hashes, threshold, j, k),
    ensures
        same_shot(hashes, threshold, i, k),
{
    let p = choose|path: Seq<int>|
        #[trigger] is_chain(hashes, threshold, path) && path.first() == i && path.last() == j;
    let q = choose|path: Seq<int>|
        #[trigger] is_chain(hashes, threshold, path) && path.first() == j && path.last() == k;
    let path = p + q.drop_first();
    assert forall|m: int, l: int| 0 <= m && l == m + 1 && l < path.len() implies near(
        hashes,
        threshold,
        #[trigger] path[m],
        #[trigger] path[l],
    ) by {
        if l < p.len() {
            assert(near(hashes, threshold, p[m], p[l]));
        } else {
            let c = m - p.len() + 1;
            assert(path[l] == q[c + 1]);
            assert(path[m] == q[c]);
            assert(near(hashes, threshold, q[c], q[c + 1]));
        }
    }
    assert(is_chain(hashes, threshold, path));
    assert(path.first() == i);
    assert(path.last() == k);
}

/// Belonging to one shot is an equivalence on the photos, and look-alikes
/// belong to one shot: `a ~ b` and `b ~ c` put `a` and `c` together even where
/// their own distance exceeds the threshold.
pub proof fn law_same_shot_is_an_equivalence(
    hashes: Seq<u64>,
    threshold: u32,
    i: int,
    j: int,
    k: int,
)
    requires
        0 <= i < hashes.len(),
    ensures
        same_shot(hashes, threshold, i, i),
        same_shot(hashes, threshold, i, j) ==> same_shot(hashes, threshold, j, i),
        same_shot(hashes, threshold, i, j) && same_shot(hashes, threshold, j, k) ==> same_shot(
            hashes,
            threshold,
            i,
            k,
        ),
        near(hashes, threshold, i, j) ==> same_shot(hashes, threshold, i, j),
{
    lemma_shot_reflexive(hashes, threshold, i);
    if same_shot(hashes, threshold, i, j) {
        lemma_shot_symmetric(hashes, threshold, i, j);
        if same_shot(hashes, threshold, j, k) {
            lemma_shot_transitive(hashes, threshold, i, j, k);
        }
    }
    if near(hashes, threshold, i, j) {
        lemma_shot_of_near(hashes, threshold, i, j);
    }
}

/// A higher threshold joins groups and never splits one.
pub proof fn law_higher_threshold_only_joins(
    hashes: Seq<u64>,
    low: u32,
    high: u32,
    i: int,
    j: int,
)
    requires
        low <= high,
        same_shot(hashes, low, i, j),
    ensures
        same_shot(hashes, high, i, j),
{
    let path = choose|path: Seq<int>|
        #[trigger] is_chain(hashes, low, path) && path.first() == i && path.last() == j;
    assert(is_chain(hashes, high, path)) by {
        assert forall|k: int, l: int| 0 <= k && l == k + 1 && l < path.len() implies near(
            hashes,
            high,
            #[trigger] path[k],
            #[trigger] path[l],
        ) by {
            assert(near(hashes, low, path[k], path[l]));
        }
    }
}

/// A disjoint-set forest over `0..n`. Its view gives each element the root of
/// its set.
pub struct UnionFind {
    parent: Vec<usize>,
    root: Ghost<Seq<usize>>,
    depth: Ghost<Seq<nat>>,
}

impl View for UnionFind {
    type V = Seq<usize>;

    closed spec fn view(&self) -> Seq<usize> {
        self.root@
    }
}

impl UnionFind {
    /// Parents lead to the root, each step strictly towards it.
    pub closed spec fn well_formed(&self) -> bool {
        let n = self.parent@.len();
        &&& self.root@.len() == n
        &&& self.depth@.len() == n
        &&& forall|x: int| 0 <= x < n ==> (#[trigger] self.parent@[x]) < n
        &&& forall|x: int| 0 <= x < n ==> (#[trigger] self.root@[x]) < n
        &&& forall|x: int|
            0 <= x < n ==> self.parent@[#[trigger] self.root@[x] as int] == self.root@[x]
        &&& forall|x: int|
            0 <= x < n ==> self.root@[#[trigger] self.parent@[x] as int] == self.root@[x]
        &&& forall|x: int| 0 <= x < n && #[trigger] self.parent@[x] == x ==> self.root@[x] == x
        &&& forall|x: int|
            0 <= x < n && #[trigger] self.parent@[x] != x ==> self.depth@[self.parent@[x] as int]
                < self.depth@[x]
        &&& forall|x: int|
            0 <= x < n ==> self.depth@[#[trigger] self.root@[x] as int] <= self.depth@[x]
    }

    /// `n` sets of one element each.
    pub fn new(n: usize) -> (uf: UnionFind)
        ensures
            uf.well_formed(),
            uf@ == Seq::new(n as nat, |i: int| i as usize),
    {
        let mut parent: Vec<usize> = Vec::new();
        for i in 0..n
            invariant
                parent@.len() == i,
                forall|k: int| 0 <= k < i ==> parent@[k] == k,
        {
            parent.push(i);
        }
        UnionFind {
            parent,
            root: Ghost(Seq::new(n as nat, |i: int| i as usize)),
            depth: Ghost(Seq::new(n as nat, |i: int| 0nat)),
        }
    }

    /// The root of the set that holds `x`; shortens the way to it.
    pub fn find(&mut self, x: usize) -> (r: usize)
        requires
            old(self).well_formed(),
            x < old(self)@.len(),
        ensures
            final(self).well_formed(),
            final(self)@ == old(self)@,
            r == old(self)@[x as int],
            r < old(self)@.len(),
            old(self)@[r as int] == r,
    {
        self.find_root(x)
    }

    fn find_root(&mut self, x: usize) -> (r: usize)
        requires
            old(self).well_formed(),
            x < old(self)@.len(),
        ensures
            final(self).well_formed(),
            final(self)@ == old(self)@,
            final(self).depth == old(self).depth,
            r == old(self)@[x as int],
        decreases old(self).depth@[x as int],
    {
        let p: usize = self.parent[x];
        if p != x {
            let r: usize = self.find_root(p);
            self.parent.set(x, r);
            r
        } else {
            p
        }
    }

    /// Joins the sets of `a` and `b`: the root of `b` becomes the root of both.
    pub fn union(&mut self, a: usize, b: usize)
        requires
            old(self).well_formed(),
            a < old(self)@.len(),
            b < old(self)@.len(),
        ensures
            final(self).well_formed(),
            final(self)@.len() == old(self)@.len(),
            forall|x: int|
                0 <= x < old(self)@.len() ==> #[trigger] final(self)@[x] == if old(self)@[x] == old(
                    self,
                )@[a as int] {
                    old(self)@[b as int]
                } else {
                    old(self)@[x]
                },
    {
        let ra: usize = self.find(a);
        let rb: usize = self.find(b);
        if ra != rb {
            let ghost root = self.root@;
            let ghost depth = self.depth@;
            self.parent.set(ra, rb);
            self.root = Ghost(
                Seq::new(root.len(), |x: int| if root[x] == ra { rb } else { root[x] }),
            );
            self.depth = Ghost(
                Seq::new(
                    root.len(),
                    |x: int| if root[x] == ra { depth[x] + depth[rb as int] + 1 } else { depth[x] },
                ),
            );
        }
    }
}

proof fn lemma_roots_follow_chain(
    hashes: Seq<u64>,
    threshold: u32,
    roots: Seq<usize>,
    path: Seq<int>,
)
    requires
        is_chain(hashes, threshold, path),
        forall|i: int, j: int| #[trigger] near(hashes, threshold, i, j) ==> roots[i] == roots[j],
    ensures
        roots[path.first()] == roots[path.last()],
    decreases path.len(),
{
    if path.len() > 1 {
        let rest = path.drop_last();
        assert forall|k: int, l: int| 0 <= k && l == k + 1 && l < rest.len() implies near(
            hashes,
            threshold,
            #[trigger] rest[k],
            #[trigger] rest[l],
        ) by {
            assert(near(hashes, threshold, path[k], path[l]));
        }
        lemma_roots_follow_chain(hashes, threshold, roots, rest);
        let n = path.len() as int;
        assert(near(hashes, threshold, path[n - 2], path[n - 1]));
    }
}

/// The roots of a forest in which exactly the look-alikes have been joined.
spec fn roots_are_shots(hashes: Seq<u64>, threshold: u32, roots: Seq<usize>) -> bool {
    forall|i: int, j: int|
        0 <= i < hashes.len() && 0 <= j < hashes.len() ==> (#[trigger] roots[i]
            == #[trigger] roots[j] <==> same_shot(hashes, threshold, i, j))
}

/// Joins every two photos that look alike.
fn join_look_alikes(hashes: &[u64], threshold: u32) -> (uf: UnionFind)
    ensures
        uf.well_formed(),
        uf@.len() == hashes@.len(),
        roots_are_shots(hashes@, threshold, uf@),
{
    let n = hashes.len();
    let mut uf = UnionFind::new(n);
    proof {
        assert forall|x: int, y: int|
            0 <= x < n && 0 <= y < n && #[trigger] uf@[x] == #[trigger] uf@[y] implies same_shot(
            hashes@,
            threshold,
            x,
            y,
        ) by {
            lemma_shot_reflexive(hashes@, threshold, x);
        }
    }
    for i in 0..n
        invariant
            n == hashes@.len(),
            uf.well_formed(),
            uf@.len() == n,
            forall|x: int, y: int|
                0 <= x < n && 0 <= y < n && #[trigger] uf@[x] == #[trigger] uf@[y] ==> same_shot(
                    hashes@,
                    threshold,
                    x,
                    y,
                ),
            forall|p: int, q: int|
                p < q && p < i && #[trigger] near(hashes@, threshold, p, q) ==> uf@[p] == uf@[q],
    {
        for j in (i + 1)..n
            invariant
                i < n,
                n == hashes@.len(),
                uf.well_formed(),
                uf@.len() == n,
                forall|x: int, y: int|
                    0 <= x < n && 0 <= y < n && #[trigger] uf@[x] == #[trigger] uf@[y]
                        ==> same_shot(hashes@, threshold, x, y),
                forall|p: int, q: int|
                    p < q && (p < i || p == i && q < j) && #[trigger] near(
                        hashes@,
                        threshold,
                        p,
                        q,
                    ) ==> uf@[p] == uf@[q],
        {
            if hamming_distance(hashes[i], hashes[j]) <= threshold {
                let ghost before = uf@;
                uf.union(i, j);
                proof {
                    assert(near(hashes@, threshold, i as int, j as int));
                    lemma_shot_of_near(hashes@, threshold, i as int, j as int);
                    assert forall|x: int, y: int|
                        0 <= x < n && 0 <= y < n && #[trigger] uf@[x] == #[trigger]
                            uf@[y] implies same_shot(hashes@, threshold, x, y) by {
                        if before[x] != before[y] {
                            lemma_shot_symmetric(hashes@, threshold, i as int, j as int);
                            if before[x] == before[i as int] {
                                assert(before[y] == before[j as int]);
                                assert(same_shot(hashes@, threshold, x, i as int));
                                assert(same_shot(hashes@, threshold, j as int, y));
                                lemma_shot_transitive(
                                    hashes@,
                                    threshold,
                                    x,
                                    i as int,
                                    j as int,
                                );
                                lemma_shot_transitive(hashes@, threshold, x, j as int, y);
                            } else {
                                assert(before[x] == before[j as int]);
                                assert(before[y] == before[i as int]);
                                assert(same_shot(hashes@, threshold, x, j as int));
                                assert(same_shot(hashes@, threshold, i as int, y));
                                lemma_shot_transitive(
                                    hashes@,
                                    threshold,
                                    x,
                                    j as int,
                                    i as int,
                                );
                                lemma_shot_transitive(hashes@, threshold, x, i as int, y);
                            }
                        } else {
                            assert(same_shot(hashes@, threshold, x, y));
                        }
                    }
                }
            }
        }
    }
    proof {
        assert forall|i: int, j: int| #[trigger] near(hashes@, threshold, i, j) implies uf@[i]
            == uf@[j] by {
            if j < i {
                lemma_near_symmetric(hashes@, threshold, i, j);
                assert(near(hashes@, threshold, j, i));
            }
        }
        assert forall|i: int, j: int|
            0 <= i < hashes@.len() && 0 <= j < hashes@.len() implies (#[trigger] uf@[i]
            == #[trigger] uf@[j] <==> same_shot(hashes@, threshold, i, j)) by {
            if same_shot(hashes@, threshold, i, j) {
                let path = choose|path: Seq<int>|
                    #[trigger] is_chain(hashes@, threshold, path) && path.first() == i
                        && path.last() == j;
                lemma_roots_follow_chain(hashes@, threshold, uf@, path);
            }
        }
    }
    uf
}

/// A group id for each photo: photos of one shot share an id, and the ids count
/// up from 1 in the order in which the groups first appear.
pub open spec fn are_groups(hashes: Seq<u64>, threshold: u32, ids: Seq<usize>) -> bool {
    &&& ids.len() == hashes.len()
    &&& forall|i: int, j: int|
        0 <= i < hashes.len() && 0 <= j < hashes.len() ==> (#[trigger] ids[i] == #[trigger] ids[j]
            <==> same_shot(hashes, threshold, i, j))
    &&& forall|i: int| #[trigger] is_first(ids, i) ==> ids[i] == distinct_ids(ids, i as nat) + 1
    &&& forall|i: int| 0 <= i < ids.len() ==> 1 <= #[trigger] ids[i] <= ids.len()
}

/// A group id for each photo: photos of one shot share an id, and the ids
/// count up from 1 in the order in which the groups first appear. A photo
/// without look-alikes is a group of its own.
pub fn group_by_hash(hashes: &[u64], threshold: u32) -> (ids: Vec<usize>)
    ensures
        are_groups(hashes@, threshold, ids@),
{
    let n = hashes.len();
    let mut uf = join_look_alikes(hashes, threshold);
    let ghost roots = uf@;
    let mut id_of_root: Vec<usize> = vec![0usize; n];
    let mut groups: usize = 0;
    let mut ids: Vec<usize> = Vec::new();
    for i in 0..n
        invariant
            n == roots.len(),
            uf.well_formed(),
            uf@ == roots,
            forall|x: int| 0 <= x < n ==> (#[trigger] roots[x]) < n,
            id_of_root@.len() == n,
            ids@.len() == i,
            groups <= i,
            groups == distinct_ids(ids@, i as nat),
            forall|k: int| 0 <= k < i ==> #[trigger] ids@[k] == id_of_root@[roots[k] as int],
            forall|k: int| 0 <= k < i ==> 1 <= #[trigger] ids@[k] <= groups,
            forall|r: int|
                0 <= r < n && #[trigger] id_of_root@[r] != 0 ==> exists|k: int|
                    0 <= k < i && #[trigger] roots[k] == r,
            forall|k: int, l: int|
                0 <= k < i && 0 <= l < i && #[trigger] ids@[k] == #[trigger] ids@[l] ==> roots[k]
                    == roots[l],
            forall|k: int|
                #[trigger] is_first(ids@, k) ==> ids@[k] == distinct_ids(ids@, k as nat) + 1,
    {
        let r: usize = uf.find(i);
        let ghost ids_before = ids@;
        if id_of_root[r] == 0 {
            groups = groups + 1;
            id_of_root.set(r, groups);
            ids.push(groups);
            proof {
                assert forall|k: int| 0 <= k < i implies roots[k] != r by {
                    assert(ids_before[k] >= 1);
                }
                assert forall|k: int| 0 <= k < i implies #[trigger] ids@[k] != ids@[i as int] by {
                    assert(ids@[k] == ids_before[k]);
                }
                assert(is_first(ids@, i as int));
                assert(roots[i as int] == r);
            }
        } else {
            ids.push(id_of_root[r]);
            proof {
                let k = choose|k: int| 0 <= k < i && #[trigger] roots[k] == r;
                assert(ids@[k] == ids_before[k]);
                assert(ids@[k] == ids@[i as int]);
                assert(!is_first(ids@, i as int));
            }
        }
        proof {
            lemma_first_stays(ids_before, ids@, i as nat);
            assert(distinct_ids(ids@, i as nat) == distinct_ids(ids_before, i as nat));
            assert(distinct_ids(ids@, (i + 1) as nat) == groups);
        }
    }
    proof {
        assert forall|i: int, j: int|
            0 <= i < n && 0 <= j < n implies (#[trigger] ids@[i] == #[trigger] ids@[j]
            <==> same_shot(hashes@, threshold, i, j)) by {
            assert(roots[i] == roots[j] <==> same_shot(hashes@, threshold, i, j));
        }
    }
    ids
}

proof fn lemma_first_stays(shorter: Seq<usize>, longer: Seq<usize>, n: nat)
    requires
        n <= shorter.len() <= longer.len(),
        forall|k: int| 0 <= k < shorter.len() ==> #[trigger] longer[k] == shorter[k],
    ensures
        forall|k: int|
            0 <= k < shorter.len() ==> (#[trigger] is_first(longer, k) <==> is_first(shorter, k)),
        forall|m: nat| m <= n ==> #[trigger] distinct_ids(longer, m) == distinct_ids(shorter, m),
    decreases n,
{
    assert forall|k: int| 0 <= k < shorter.len() implies (#[trigger] is_first(longer, k)
        <==> is_first(shorter, k)) by {
        if is_first(longer, k) {
            assert forall|j: int| 0 <= j < k implies #[trigger] shorter[j] != shorter[k] by {
                assert(longer[j] != longer[k]);
            }
        }
        if is_first(shorter, k) {
            assert forall|j: int| 0 <= j < k implies #[trigger] longer[j] != longer[k] by {
                assert(shorter[j] != shorter[k]);
            }
        }
    }
    if n > 0 {
        lemma_first_stays(shorter, longer, (n - 1) as nat);
        let m = (n - 1) as nat;
        assert(is_first(longer, m as int) <==> is_first(shorter, m as int));
        assert(distinct_ids(longer, m) == distinct_ids(shorter, m));
        assert(distinct_ids(longer, n) == distinct_ids(shorter, n));
    }
}

/// How often `v` occurs in `s`.
pub open spec fn occurrences(s: Seq<usize>, v: usize) -> nat
    decreases s.len(),
{
    if s.len() == 0 {
        0
    } else {
        occurrences(s.drop_last(), v) + if s.last() == v { 1nat } else { 0nat }
    }
}

proof fn lemma_occurrences_bounded(s: Seq<usize>, v: usize)
    ensures
        occurrences(s, v) <= s.len(),
    decreases s.len(),
{
    if s.len() > 0 {
        lemma_occurrences_bounded(s.drop_last(), v);
    }
}

/// The size of each group, by id, up to the highest id.
pub open spec fn are_sizes(groups: Seq<usize>, sizes: Seq<usize>) -> bool {
    &&& sizes.len() >= 1
    &&& forall|i: int| 0 <= i < groups.len() ==> (#[trigger] groups[i]) < sizes.len()
    &&& sizes.len() > 1 ==> exists|i: int|
        0 <= i < groups.len() && #[trigger] groups[i] == sizes.len() - 1
    &&& forall|g: int|
        0 <= g < sizes.len() ==> #[trigger] sizes[g] == occurrences(groups, g as usize)
}

/// The size of each group, by id; index 0 stands for "no group". The list ends
/// with the highest id.
pub fn group_sizes(groups: &[usize]) -> (sizes: Vec<usize>)
    requires
        forall|i: int| 0 <= i < groups@.len() ==> (#[trigger] groups@[i]) < usize::MAX,
    ensures
        are_sizes(groups@, sizes@),
{
    let mut highest: usize = 0;
    let n = groups.len();
    for i in 0..n
        invariant
            n == groups@.len(),
            forall|k: int| 0 <= k < i ==> (#[trigger] groups@[k]) <= highest,
            highest > 0 ==> groups@.contains(highest),
            highest < usize::MAX,
            forall|k: int| 0 <= k < n ==> (#[trigger] groups@[k]) < usize::MAX,
    {
        if groups[i] > highest {
            highest = groups[i];
        }
    }
    let mut sizes: Vec<usize> = vec![0usize; highest + 1];
    for i in 0..n
        invariant
            n == groups@.len(),
            sizes@.len() == highest + 1,
            forall|k: int| 0 <= k < n ==> (#[trigger] groups@[k]) <= highest,
            forall|g: int|
                0 <= g < sizes@.len() ==> #[trigger] sizes@[g] == occurrences(
                    groups@.take(i as int),
                    g as usize,
                ),
    {
        let g: usize = groups[i];
        proof {
            let now = groups@.take(i + 1);
            assert(now.drop_last() == groups@.take(i as int));
            assert(now.last() == g);
            lemma_occurrences_bounded(groups@.take(i as int), g);
        }
        sizes.set(g, sizes[g] + 1);
    }
    proof {
        assert(groups@.take(n as int) == groups@);
        if highest > 0 {
            assert(groups@[groups@.index_of(highest)] == highest);
        }
    }
    sizes
}

/// Photos with the same hash are of one shot, whatever the threshold.
pub proof fn law_equal_hashes_are_one_shot(hashes: Seq<u64>, threshold: u32, i: int, j: int)
    requires
        0 <= i < hashes.len(),
        0 <= j < hashes.len(),
        hashes[i] == hashes[j],
    ensures
        same_shot(hashes, threshold, i, j),
{
    law_distance_is_a_metric(hashes[i], hashes[j], hashes[i]);
    lemma_shot_of_near(hashes, threshold, i, j);
}

proof fn lemma_same_ids(hashes: Seq<u64>, threshold: u32, a: Seq<usize>, b: Seq<usize>, n: nat)
    requires
        are_groups(hashes, threshold, a),
        are_groups(hashes, threshold, b),
        n <= hashes.len(),
    ensures
        forall|i: int| 0 <= i < n ==> #[trigger] a[i] == b[i],
        distinct_ids(a, n) == distinct_ids(b, n),
    decreases n,
{
    if n > 0 {
        let m = n - 1;
        lemma_same_ids(hashes, threshold, a, b, m as nat);
        if is_first(a, m) {
            assert forall|k: int| 0 <= k < m implies #[trigger] b[k] != b[m] by {
                assert(a[k] != a[m]);
            }
            assert(is_first(b, m));
        } else {
            let k = choose|k: int| 0 <= k < m && #[trigger] a[k] == a[m];
            assert(same_shot(hashes, threshold, k, m));
            assert(b[k] == b[m]);
            assert(!is_first(b, m));
        }
    }
}

/// Hashes and threshold determine the group ids.
pub proof fn law_groups_are_unique(
    hashes: Seq<u64>,
    threshold: u32,
    a: Seq<usize>,
    b: Seq<usize>,
)
    requires
        are_groups(hashes, threshold, a),
        are_groups(hashes, threshold, b),
    ensures
        a == b,
{
    lemma_same_ids(hashes, threshold, a, b, hashes.len());
}

proof fn lemma_occurs_again(s: Seq<usize>, i: int)
    requires
        0 <= i < s.len(),
    ensures
        occurrences(s, s[i]) >= 1,
        occurrences(s, s[i]) > 1 <==> exists|j: int|
            0 <= j < s.len() && j != i && #[trigger] s[j] == s[i],
    decreases s.len(),
{
    let rest = s.drop_last();
    let last = s.len() - 1;
    if i < last {
        lemma_occurs_again(rest, i);
        if s[last] != s[i] {
            if exists|j: int| 0 <= j < s.len() && j != i && #[trigger] s[j] == s[i] {
                let j = choose|j: int| 0 <= j < s.len() && j != i && #[trigger] s[j] == s[i];
                assert(rest[j] == rest[i]);
            }
            if occurrences(rest, s[i]) > 1 {
                let j = choose|j: int|
                    0 <= j < rest.len() && j != i && #[trigger] rest[j] == rest[i];
                assert(s[j] == s[i]);
            }
        }
    } else {
        lemma_occurs_at_all(rest, s[i]);
        if occurrences(rest, s[i]) > 0 {
            let j = choose|j: int| 0 <= j < rest.len() && #[trigger] rest[j] == s[i];
            assert(s[j] == s[i]);
        }
        if exists|j: int| 0 <= j < s.len() && j != i && #[trigger] s[j] == s[i] {
            let j = choose|j: int| 0 <= j < s.len() && j != i && #[trigger] s[j] == s[i];
            assert(rest[j] == s[i]);
        }
    }
}

proof fn lemma_occurs_at_all(s: Seq<usize>, v: usize)
    ensures
        occurrences(s, v) > 0 <==> exists|j: int| 0 <= j < s.len() && #[trigger] s[j] == v,
    decreases s.len(),
{
    if s.len() > 0 {
        let rest = s.drop_last();
        lemma_occurs_at_all(rest, v);
        if exists|j: int| 0 <= j < s.len() && #[trigger] s[j] == v {
            let j = choose|j: int| 0 <= j < s.len() && #[trigger] s[j] == v;
            if j < s.len() - 1 {
                assert(rest[j] == v);
            }
        }
        if occurrences(rest, v) > 0 {
            let j = choose|j: int| 0 <= j < rest.len() && #[trigger] rest[j] == v;
            assert(s[j] == v);
        }
        if s.last() == v {
            assert(s[s.len() - 1] == v);
        }
    }
}

/// A group has more than one member exactly where another photo is of the same
/// shot.
pub proof fn law_group_size_tells_duplicates(
    hashes: Seq<u64>,
    threshold: u32,
    ids: Seq<usize>,
    i: int,
)
    requires
        are_groups(hashes, threshold, ids),
        0 <= i < hashes.len(),
    ensures
        occurrences(ids, ids[i]) > 1 <==> exists|j: int|
            0 <= j < hashes.len() && j != i && #[trigger] same_shot(hashes, threshold, i, j),
{
    lemma_occurs_again(ids, i);
    if exists|j: int| 0 <= j < ids.len() && j != i && #[trigger] ids[j] == ids[i] {
        let j = choose|j: int| 0 <= j < ids.len() && j != i && #[trigger] ids[j] == ids[i];
        assert(same_shot(hashes, threshold, i, j));
    }
    if exists|j: int|
        0 <= j < hashes.len() && j != i && #[trigger] same_shot(hashes, threshold, i, j) {
        let j = choose|j: int|
            0 <= j < hashes.len() && j != i && #[trigger] same_shot(hashes, threshold, i, j);
        assert(ids[j] == ids[i]);
    }
}

proof fn lemma_joined_by_a_look_alike(hashes: Seq<u64>, threshold: u32, path: Seq<int>)
    requires
        is_chain(hashes, threshold, path),
        path.first() != path.last(),
    ensures
        exists|j: int| j != path.first() && #[trigger] near(hashes, threshold, path.first(), j),
    decreases path.len(),
{
    assert(path.len() > 1);
    if path[1] != path[0] {
        assert(near(hashes, threshold, path[0], path[1]));
    } else {
        let rest = path.drop_first();
        assert forall|k: int, l: int| 0 <= k && l == k + 1 && l < rest.len() implies near(
            hashes,
            threshold,
            #[trigger] rest[k],
            #[trigger] rest[l],
        ) by {
            assert(near(hashes, threshold, path[k + 1], path[l + 1]));
        }
        assert(is_chain(hashes, threshold, rest)) by {
            assert forall|k: int| 0 <= k < rest.len() implies 0 <= #[trigger] rest[k]
                < hashes.len() by {
                assert(rest[k] == path[k + 1]);
            }
        }
        assert(rest.last() == path.last());
        lemma_joined_by_a_look_alike(hashes, threshold, rest);
    }
}

/// A photo is a group of its own exactly where no other photo looks like it.
pub proof fn law_lone_photos_look_like_no_other(
    hashes: Seq<u64>,
    threshold: u32,
    ids: Seq<usize>,
    i: int,
)
    requires
        are_groups(hashes, threshold, ids),
        0 <= i < hashes.len(),
    ensures
        occurrences(ids, ids[i]) == 1 <==> forall|j: int|
            0 <= j < hashes.len() && j != i ==> distance(hashes[i], #[trigger] hashes[j])
                > threshold,
{
    lemma_occurs_again(ids, i);
    law_group_size_tells_duplicates(hashes, threshold, ids, i);
    if occurrences(ids, ids[i]) > 1 {
        let j = choose|j: int|
            0 <= j < hashes.len() && j != i && #[trigger] same_shot(hashes, threshold, i, j);
        let path = choose|path: Seq<int>|
            #[trigger] is_chain(hashes, threshold, path) && path.first() == i && path.last() == j;
        lemma_joined_by_a_look_alike(hashes, threshold, path);
        let k = choose|k: int| k != i && #[trigger] near(hashes, threshold, i, k);
        assert(distance(hashes[i], hashes[k]) <= threshold);
    } else {
        assert forall|j: int| 0 <= j < hashes.len() && j != i implies distance(
            hashes[i],
            #[trigger] hashes[j],
        ) > threshold by {
            if near(hashes, threshold, i, j) {
                lemma_shot_of_near(hashes, threshold, i, j);
                assert(same_shot(hashes, threshold, i, j));
            }
        }
    }
}

proof fn lemma_ids_are_used(ids: Seq<usize>, n: nat, g: nat)
    requires
        n <= ids.len(),
        forall|i: int| #[trigger] is_first(ids, i) ==> ids[i] == distinct_ids(ids, i as nat) + 1,
        1 <= g <= distinct_ids(ids, n),
    ensures
        exists|i: int| 0 <= i < n && #[trigger] ids[i] == g,
    decreases n,
{
    let m = (n - 1) as nat;
    if is_first(ids, m as int) && g == distinct_ids(ids, n) {
        assert(ids[m as int] == g);
    } else {
        lemma_ids_are_used(ids, m, g);
    }
}

proof fn lemma_distinct_ids_grow(ids: Seq<usize>, m: nat, n: nat)
    requires
        m <= n,
    ensures
        distinct_ids(ids, m) <= distinct_ids(ids, n),
    decreases n,
{
    if m < n {
        lemma_distinct_ids_grow(ids, m, (n - 1) as nat);
    }
}

proof fn lemma_id_in_range(ids: Seq<usize>, i: int)
    requires
        forall|i: int| #[trigger] is_first(ids, i) ==> ids[i] == distinct_ids(ids, i as nat) + 1,
        0 <= i < ids.len(),
    ensures
        ids[i] <= distinct_ids(ids, ids.len()),
    decreases i,
{
    if is_first(ids, i) {
        lemma_distinct_ids_grow(ids, (i + 1) as nat, ids.len());
    } else {
        let j = choose|j: int| 0 <= j < i && #[trigger] ids[j] == ids[i];
        lemma_id_in_range(ids, j);
    }
}

/// The sum of a list of sizes.
pub open spec fn total(sizes: Seq<usize>) -> nat
    decreases sizes.len(),
{
    if sizes.len() == 0 {
        0
    } else {
        total(sizes.drop_last()) + sizes.last() as nat
    }
}

proof fn lemma_total_of_sizes(groups: Seq<usize>, sizes: Seq<usize>, n: nat)
    requires
        are_sizes(groups, sizes),
        n <= sizes.len(),
    ensures
        total(sizes.take(n as int)) == sizes_below(groups, n),
    decreases n,
{
    if n > 0 {
        let m = (n - 1) as nat;
        lemma_total_of_sizes(groups, sizes, m);
        assert(sizes.take(n as int).drop_last() == sizes.take(m as int));
        assert(sizes.take(n as int).last() == sizes[m as int]);
    }
}

/// The sizes of the groups of photos: none for the id zero, at least one member
/// for every other id up to the highest, as many as there are photos together,
/// and one exactly for a photo that looks like no other.
pub proof fn law_sizes_of_groups(
    hashes: Seq<u64>,
    threshold: u32,
    ids: Seq<usize>,
    sizes: Seq<usize>,
)
    requires
        are_groups(hashes, threshold, ids),
        are_sizes(ids, sizes),
    ensures
        sizes[0] == 0,
        forall|g: int| 1 <= g < sizes.len() ==> #[trigger] sizes[g] >= 1,
        total(sizes) == hashes.len(),
        forall|i: int|
            0 <= i < hashes.len() ==> (#[trigger] sizes[ids[i] as int] == 1 <==> forall|j: int|
                0 <= j < hashes.len() && j != i ==> distance(hashes[i], #[trigger] hashes[j])
                    > threshold),
{
    lemma_occurs_at_all(ids, 0);
    if occurrences(ids, 0) > 0 {
        let j = choose|j: int| 0 <= j < ids.len() && #[trigger] ids[j] == 0usize;
        assert(1 <= ids[j]);
    }
    assert forall|g: int| 1 <= g < sizes.len() implies #[trigger] sizes[g] >= 1 by {
        let top = choose|i: int| 0 <= i < ids.len() && #[trigger] ids[i] == sizes.len() - 1;
        lemma_id_in_range(ids, top);
        lemma_ids_are_used(ids, ids.len(), g as nat);
        let i = choose|i: int| 0 <= i < ids.len() && #[trigger] ids[i] == g;
        lemma_occurs_at_all(ids, g as usize);
        assert(ids[i] == g as usize);
    }
    law_group_sizes_add_up(ids, sizes.len());
    lemma_total_of_sizes(ids, sizes, sizes.len());
    assert(sizes.take(sizes.len() as int) == sizes);
    assert forall|i: int| 0 <= i < hashes.len() implies (#[trigger] sizes[ids[i] as int] == 1
        <==> forall|j: int|
        0 <= j < hashes.len() && j != i ==> distance(hashes[i], #[trigger] hashes[j])
            > threshold) by {
        law_lone_photos_look_like_no_other(hashes, threshold, ids, i);
        assert(ids[i] < sizes.len());
    }
}

/// The sizes of the groups below `n` together.
pub open spec fn sizes_below(groups: Seq<usize>, n: nat) -> nat
    decreases n,
{
    if n == 0 {
        0
    } else {
        sizes_below(groups, (n - 1) as nat) + occurrences(groups, (n - 1) as usize)
    }
}

/// The sizes of all groups add up to the number of photos.
pub proof fn law_group_sizes_add_up(groups: Seq<usize>, n: nat)
    requires
        n <= usize::MAX + 1,
        forall|i: int| 0 <= i < groups.len() ==> (#[trigger] groups[i]) < n,
    ensures
        sizes_below(groups, n) == groups.len(),
    decreases groups.len(),
{
    if groups.len() == 0 {
        assert(groups == Seq::<usize>::empty());
        lemma_no_groups(n);
    } else {
        let rest = groups.drop_last();
        assert forall|i: int| 0 <= i < rest.len() implies (#[trigger] rest[i]) < n by {
            assert(groups[i] < n);
        }
        law_group_sizes_add_up(rest, n);
        assert(groups[groups.len() - 1] < n);
        lemma_one_more_member(groups, n);
    }
}

proof fn lemma_no_groups(n: nat)
    ensures
        sizes_below(Seq::<usize>::empty(), n) == 0,
    decreases n,
{
    if n > 0 {
        lemma_no_groups((n - 1) as nat);
    }
}

proof fn lemma_one_more_member(groups: Seq<usize>, n: nat)
    requires
        groups.len() > 0,
        n <= usize::MAX + 1,
    ensures
        sizes_below(groups, n) == sizes_below(groups.drop_last(), n) + if groups.last() < n {
            1nat
        } else {
            0nat
        },
    decreases n,
{
    if n > 0 {
        lemma_one_more_member(groups, (n - 1) as nat);
    }
}

proof fn lemma_one_bit_flipped(a: u64, i: u64, n: nat)
    requires
        i < 64,
        n <= 64,
    ensures
        bits_differing(a, a ^ (1u64 << i), n) == if i < n {
            1nat
        } else {
            0nat
        },
    decreases n,
{
    if n > 0 {
        lemma_one_bit_flipped(a, i, (n - 1) as nat);
        let k = (n - 1) as u64;
        assert((((a ^ (1u64 << i)) >> k) & 1 == 1) != ((a >> k) & 1 == 1) <==> k == i)
            by (bit_vector)
            requires
                i < 64,
                k < 64,
        ;
    }
}

proof fn lemma_distance_adds(a: u64, b: u64, i: u64, n: nat)
    requires
        i < 64,
        n <= 64,
        (a >> i) & 1 == (b >> i) & 1,
    ensures
        bits_differing(a, b ^ (1u64 << i), n) == bits_differing(a, b, n) + if i < n {
            1nat
        } else {
            0nat
        },
    decreases n,
{
    if n > 0 {
        lemma_distance_adds(a, b, i, (n - 1) as nat);
        let k = (n - 1) as u64;
        assert((((b ^ (1u64 << i)) >> k) & 1 == 1) != ((b >> k) & 1 == 1) <==> k == i)
            by (bit_vector)
            requires
                i < 64,
                k < 64,
        ;
    }
}

/// The distance counts bits: two hashes that differ in one bit have distance one,
/// and each bit more in which they differ adds one.
pub proof fn law_distance_counts_bits(a: u64, b: u64, i: u64)
    requires
        i < 64,
    ensures
        distance(a, a) == 0,
        distance(a, a ^ (1u64 << i)) == 1,
        (a >> i) & 1 == (b >> i) & 1 ==> distance(a, b ^ (1u64 << i)) == distance(a, b) + 1,
{
    law_distance_is_a_metric(a, a, a);
    lemma_one_bit_flipped(a, i, 64);
    if (a >> i) & 1 == (b >> i) & 1 {
        lemma_distance_adds(a, b, i, 64);
    }
}

/// Two photos whose hashes differ in as many bits as allowed are of one shot, and
/// so are all that such photos lead to; two photos without others are of one shot
/// only so.
pub proof fn law_threshold_is_allowed(hashes: Seq<u64>, threshold: u32, i: int, j: int, k: int)
    requires
        0 <= i < hashes.len(),
        0 <= j < hashes.len(),
        0 <= k < hashes.len(),
    ensures
        distance(hashes[i], hashes[j]) == threshold ==> same_shot(hashes, threshold, i, j),
        distance(hashes[i], hashes[j]) <= threshold && distance(hashes[j], hashes[k]) <= threshold
            ==> same_shot(hashes, threshold, i, k),
        hashes.len() == 2 && i != j && distance(hashes[i], hashes[j]) > threshold ==> !same_shot(
            hashes,
            threshold,
            i,
            j,
        ),
{
    if distance(hashes[i], hashes[j]) <= threshold {
        lemma_shot_of_near(hashes, threshold, i, j);
        if distance(hashes[j], hashes[k]) <= threshold {
            lemma_shot_of_near(hashes, threshold, j, k);
            lemma_shot_transitive(hashes, threshold, i, j, k);
        }
    }
    if hashes.len() == 2 && i != j && distance(hashes[i], hashes[j]) > threshold && same_shot(
        hashes,
        threshold,
        i,
        j,
    ) {
        let path = choose|path: Seq<int>|
            #[trigger] is_chain(hashes, threshold, path) && path.first() == i && path.last() == j;
        lemma_joined_by_a_look_alike(hashes, threshold, path);
        let m = choose|m: int| m != path.first() && #[trigger] near(
            hashes,
            threshold,
            path.first(),
            m,
        );
        assert(m == j);
    }
}

proof fn lemma_earlier_ids(ids: Seq<usize>, i: int, j: int)
    requires
        forall|i: int| #[trigger] is_first(ids, i) ==> ids[i] == distinct_ids(ids, i as nat) + 1,
        0 <= j < i <= ids.len(),
    ensures
        ids[j] <= distinct_ids(ids, i as nat),
    decreases j,
{
    if is_first(ids, j) {
        lemma_distinct_ids_grow(ids, (j + 1) as nat, i as nat);
    } else {
        let k = choose|k: int| 0 <= k < j && #[trigger] ids[k] == ids[j];
        lemma_earlier_ids(ids, i, k);
    }
}

/// The first photo has the id 1, and a photo that begins a new group has the next
/// number behind those of all photos before it.
pub proof fn law_ids_count_up(hashes: Seq<u64>, threshold: u32, ids: Seq<usize>, i: int)
    requires
        are_groups(hashes, threshold, ids),
        0 <= i < hashes.len(),
    ensures
        ids[0] == 1,
        (forall|j: int| 0 <= j < i ==> !#[trigger] same_shot(hashes, threshold, j, i)) && i > 0
            ==> (forall|j: int| 0 <= j < i ==> #[trigger] ids[j] < ids[i]) && (exists|j: int|
            0 <= j < i && #[trigger] ids[j] == ids[i] - 1),
{
    assert(is_first(ids, 0));
    if (forall|j: int| 0 <= j < i ==> !#[trigger] same_shot(hashes, threshold, j, i)) && i > 0 {
        assert(is_first(ids, i)) by {
            assert forall|j: int| 0 <= j < i implies #[trigger] ids[j] != ids[i] by {
                assert(!same_shot(hashes, threshold, j, i));
            }
        }
        assert forall|j: int| 0 <= j < i implies #[trigger] ids[j] < ids[i] by {
            lemma_earlier_ids(ids, i, j);
        }
        lemma_earlier_ids(ids, i, 0);
        lemma_ids_are_used(ids, i as nat, distinct_ids(ids, i as nat));
    }
}

} // verus!
