use vstd::prelude::*;

verus! {

/// The mathematical content of a pair sequence, read as a map built by
/// inserting the pairs in order: on a duplicate key the later pair wins.
pub open spec fn pairs_to_map(s: Seq<(usize, Seq<usize>)>) -> Map<usize, Seq<usize>>
    decreases s.len(),
{
    if s.len() == 0 {
        Map::empty()
    } else {
        pairs_to_map(s.drop_last()).insert(s.last().0, s.last().1)
    }
}

/// Keys strictly increase along the sequence (so they are also distinct).
pub open spec fn keys_sorted(s: Seq<(usize, Seq<usize>)>) -> bool {
    forall|i: int, j: int| 0 <= i < j < s.len() ==> s[i].0 < s[j].0
}

/// Some pair of the sequence carries this key.
pub open spec fn has_key(s: Seq<(usize, Seq<usize>)>, key: usize) -> bool {
    exists|i: int| 0 <= i < s.len() && s[i].0 == key
}

/// The domain of the folded map is exactly the set of keys of the pairs.
proof fn lemma_pairs_to_map_dom(s: Seq<(usize, Seq<usize>)>)
    ensures
        forall|k: usize| #[trigger] pairs_to_map(s).dom().contains(k) <==> has_key(s, k),
    decreases s.len(),
{
    if s.len() > 0 {
        lemma_pairs_to_map_dom(s.drop_last());
        assert forall|k: usize| #[trigger] pairs_to_map(s).dom().contains(k) <==> has_key(
            s,
            k,
        ) by {
            if pairs_to_map(s).dom().contains(k) {
                if k == s.last().0 {
                    assert(s[s.len() - 1].0 == k);
                    assert(has_key(s, k));
                } else {
                    assert(pairs_to_map(s.drop_last()).dom().contains(k));
                    assert(has_key(s.drop_last(), k));
                    let i = choose|i: int|
                        0 <= i < s.drop_last().len() && s.drop_last()[i].0 == k;
                    assert(s.drop_last()[i] == s[i]);
                    assert(s[i].0 == k);
                    assert(has_key(s, k));
                }
            }
            if has_key(s, k) {
                let i = choose|i: int| 0 <= i < s.len() && s[i].0 == k;
                if i < s.len() - 1 {
                    assert(s.drop_last()[i].0 == k);
                    assert(has_key(s.drop_last(), k));
                    assert(pairs_to_map(s.drop_last()).dom().contains(k));
                    assert(pairs_to_map(s).dom().contains(k));
                } else {
                    assert(k == s.last().0);
                    assert(pairs_to_map(s).dom().contains(k));
                }
            }
        }
    }
}

/// With distinct keys, the folded map sends each key to its pair's members.
proof fn lemma_pairs_to_map_at(s: Seq<(usize, Seq<usize>)>, i: int)
    requires
        0 <= i < s.len(),
        forall|i1: int, i2: int| 0 <= i1 < i2 < s.len() ==> s[i1].0 != s[i2].0,
    ensures
        pairs_to_map(s).dom().contains(s[i].0),
        pairs_to_map(s)[s[i].0] == s[i].1,
    decreases s.len(),
{
    if i < s.len() - 1 {
        lemma_pairs_to_map_at(s.drop_last(), i);
        assert(s.drop_last()[i] == s[i]);
        assert(s.last().0 != s[i].0);
    }
}

/// Inserting a pair whose key is fresh inserts its binding into the map,
/// wherever in the sequence the pair lands.
proof fn lemma_pairs_to_map_insert(s: Seq<(usize, Seq<usize>)>, p: int, key: usize, m: Seq<usize>)
    requires
        0 <= p <= s.len(),
        forall|i: int| 0 <= i < s.len() ==> s[i].0 != key,
    ensures
        pairs_to_map(s.insert(p, (key, m))) == pairs_to_map(s).insert(key, m),
    decreases s.len(),
{
    let t = s.insert(p, (key, m));
    if p == s.len() {
        assert(t.drop_last() =~= s);
        assert(t.last() == (key, m));
    } else {
        assert(t.last() == s.last());
        assert(t.drop_last() =~= s.drop_last().insert(p, (key, m)));
        lemma_pairs_to_map_insert(s.drop_last(), p, key, m);
        assert(s.last().0 != key);
        assert(pairs_to_map(s.drop_last()).insert(key, m).insert(s.last().0, s.last().1)
            =~= pairs_to_map(s.drop_last()).insert(s.last().0, s.last().1).insert(key, m));
    }
}

/// Replacing the members of the pair at `p` (keys distinct) overwrites that
/// key's binding in the map.
proof fn lemma_pairs_to_map_update(s: Seq<(usize, Seq<usize>)>, p: int, m: Seq<usize>)
    requires
        0 <= p < s.len(),
        forall|i1: int, i2: int| 0 <= i1 < i2 < s.len() ==> s[i1].0 != s[i2].0,
    ensures
        pairs_to_map(s.update(p, (s[p].0, m))) == pairs_to_map(s).insert(s[p].0, m),
    decreases s.len(),
{
    let t = s.update(p, (s[p].0, m));
    if p == s.len() - 1 {
        assert(t.drop_last() =~= s.drop_last());
        assert(t.last() == (s[p].0, m));
        assert(pairs_to_map(s.drop_last()).insert(s[p].0, m)
            =~= pairs_to_map(s.drop_last()).insert(s.last().0, s.last().1).insert(s[p].0, m));
    } else {
        assert(t.last() == s.last());
        assert(t.drop_last() =~= s.drop_last().update(p, (s[p].0, m)));
        lemma_pairs_to_map_update(s.drop_last(), p, m);
        assert(s.last().0 != s[p].0);
        assert(pairs_to_map(s.drop_last()).insert(s[p].0, m).insert(s.last().0, s.last().1)
            =~= pairs_to_map(s.drop_last()).insert(s.last().0, s.last().1).insert(s[p].0, m));
    }
}

/// A clustering result: cluster id mapped to the indices of its member
/// points. Ids are kept in ascending order, which both makes the map's
/// meaning independent of the order the pairs arrived in and puts each id at
/// the rank the result encoder renumbers it by.
pub struct ClusterMap {
    entries: Vec<(usize, Vec<usize>)>,
}

impl View for ClusterMap {
    type V = Map<usize, Seq<usize>>;

    open spec fn view(&self) -> Map<usize, Seq<usize>> {
        pairs_to_map(self.entries_view())
    }
}

impl ClusterMap {
    /// The entries as (id, member-sequence) pairs, in storage order.
    pub closed spec fn entries_view(self) -> Seq<(usize, Seq<usize>)> {
        Seq::new(self.entries@.len(), |i: int| (self.entries@[i].0, self.entries@[i].1@))
    }

    /// Ids strictly ascend along the entries.
    pub open spec fn wf(self) -> bool {
        keys_sorted(self.entries_view())
    }

    pub fn new() -> (r: ClusterMap)
        ensures
            r.wf(),
            r@ == Map::<usize, Seq<usize>>::empty(),
            r.entries_view() == Seq::<(usize, Seq<usize>)>::empty(),
    {
        let r = ClusterMap { entries: Vec::new() };
        proof {
            assert(r.entries_view() =~= Seq::<(usize, Seq<usize>)>::empty());
        }
        r
    }

    /// The number of distinct cluster ids held.
    pub fn num_clusters(&self) -> (r: usize)
        ensures
            r == self.entries_view().len(),
    {
        self.entries.len()
    }

    /// The cluster id of the entry at rank `j` (ids ascend with the rank).
    pub fn entry_key(&self, j: usize) -> (k: usize)
        requires
            j < self.entries_view().len(),
        ensures
            k == self.entries_view()[j as int].0,
    {
        self.entries[j].0
    }

    /// The member indices of the entry at rank `j`.
    pub fn entry_members(&self, j: usize) -> (v: &Vec<usize>)
        requires
            j < self.entries_view().len(),
        ensures
            v@ == self.entries_view()[j as int].1,
    {
        &self.entries[j].1
    }

    /// Binds `key` to `members`, replacing any earlier binding of `key`
    /// (last wins) and keeping the entries in ascending id order.
    pub fn insert(&mut self, key: usize, members: Vec<usize>)
        requires
            old(self).wf(),
        ensures
            final(self).wf(),
            final(self)@ == old(self)@.insert(key, members@),
    {
        let ghost s0 = self.entries_view();
        let n = self.entries.len();
        let mut p: usize = 0;
        while p < n && self.entries[p].0 < key
            invariant
                p <= n,
                self == old(self),
                n == self.entries@.len(),
                forall|i: int| 0 <= i < p ==> self.entries_view()[i].0 < key,
            decreases n - p,
        {
            p += 1;
        }
        if p < n && self.entries[p].0 == key {
            self.entries[p] = (key, members);
            proof {
                assert(self.entries_view() =~= s0.update(p as int, (key, members@)));
                lemma_pairs_to_map_update(s0, p as int, members@);
            }
        } else {
            self.entries.insert(p, (key, members));
            proof {
                assert(self.entries_view() =~= s0.insert(p as int, (key, members@)));
                assert forall|i: int| 0 <= i < s0.len() implies s0[i].0 != key by {
                    if i >= p {
                        assert(s0[p as int].0 <= s0[i].0);
                    }
                }
                lemma_pairs_to_map_insert(s0, p as int, key, members@);
                let t = self.entries_view();
                assert forall|i: int, j: int| 0 <= i < j < t.len() implies t[i].0 < t[j].0 by {
                    if j < p {
                        assert(t[i] == s0[i] && t[j] == s0[j]);
                    } else if i < p && j == p {
                        assert(t[i] == s0[i]);
                    } else if i < p && j > p {
                        assert(t[i] == s0[i] && t[j] == s0[j - 1]);
                        assert(s0[p as int].0 <= s0[j - 1].0);
                    } else if i == p {
                        assert(t[j] == s0[j - 1]);
                        assert(s0[p as int].0 <= s0[j - 1].0);
                    } else {
                        assert(t[i] == s0[i - 1] && t[j] == s0[j - 1]);
                    }
                }
            }
        }
    }

    /// Rebuilds a cluster map from pairs in any order, later pairs winning on
    /// a duplicate id: the result depends only on the pair sequence's map
    /// content, never on a producer's iteration order.
    pub fn from_pairs(pairs: Vec<(usize, Vec<usize>)>) -> (r: ClusterMap)
        ensures
            r.wf(),
            r@ == pairs_to_map(deep_pairs(pairs@)),
    {
        let mut r = ClusterMap::new();
        let n = pairs.len();
        let mut i: usize = 0;
        while i < n
            invariant
                i <= n,
                n == pairs@.len(),
                r.wf(),
                r@ == pairs_to_map(deep_pairs(pairs@).take(i as int)),
            decreases n - i,
        {
            let key = pairs[i].0;
            let members = pairs[i].1.clone();
            r.insert(key, members);
            proof {
                let d = deep_pairs(pairs@);
                assert(d.take(i + 1).drop_last() =~= d.take(i as int));
                assert(d.take(i + 1).last() == (pairs@[i as int].0, pairs@[i as int].1@));
            }
            i += 1;
        }
        proof {
            assert(deep_pairs(pairs@).take(n as int) =~= deep_pairs(pairs@));
        }
        r
    }
}

/// Reads a sequence of (id, member-vector) pairs at the specification level.
pub open spec fn deep_pairs(s: Seq<(usize, Vec<usize>)>) -> Seq<(usize, Seq<usize>)> {
    Seq::new(s.len(), |i: int| (s[i].0, s[i].1@))
}

/// The 1-based output label of point `idx` under the renumbering that gives
/// the entry at rank r (0-based, ids ascending) the label r + 1: the label of
/// the last entry whose members contain `idx`, or `None` when no entry claims
/// the point (it is noise or was never assigned).
pub open spec fn label_at(entries: Seq<(usize, Seq<usize>)>, idx: usize) -> Option<usize>
    decreases entries.len(),
{
    if entries.len() == 0 {
        None
    } else if entries.last().1.contains(idx) {
        Some(entries.len() as usize)
    } else {
        label_at(entries.drop_last(), idx)
    }
}

/// The host-consumable record a clustering result is encoded into.
pub struct EncodedResult {
    /// For each point, its 1-based cluster label, or `None` for the host's
    /// missing marker: the point is noise or no cluster claimed it.
    pub cluster: Vec<Option<usize>>,
    /// Number of distinct cluster ids in the input map.
    pub n_clusters: usize,
    /// Length of the noise index list; noise membership is reported only as
    /// this count, noise points are simply left missing in `cluster`.
    pub n_noise: usize,
    /// Per-point outlier scores, passed through unchanged (bit patterns of
    /// the host's 64-bit floats), index-aligned with `cluster`.
    pub outlier_scores: Option<Vec<u64>>,
}

/// Builds the assignment vector: entry `idx` is `Some(r + 1)` when the rank-r
/// entry's members contain `idx` (ids ascending, member indices at or beyond
/// `n_points` dropped), `None` otherwise.
fn build_assignment(clusters: &ClusterMap, n_points: usize) -> (r: Vec<Option<usize>>)
    requires
        clusters.wf(),
    ensures
        r@.len() == n_points,
        forall|i: int| 0 <= i < n_points ==> r@[i] == label_at(
            clusters.entries_view(),
            i as usize,
        ),
{
    let ghost ev = clusters.entries_view();
    let mut assignment: Vec<Option<usize>> = Vec::new();
    let mut i: usize = 0;
    while i < n_points
        invariant
            i <= n_points,
            assignment@.len() == i,
            forall|t: int| 0 <= t < i ==> assignment@[t] is None,
        decreases n_points - i,
    {
        assignment.push(None);
        i += 1;
    }
    let k = clusters.entries.len();
    let mut j: usize = 0;
    while j < k
        invariant
            j <= k,
            k == ev.len(),
            ev == clusters.entries_view(),
            clusters.wf(),
            assignment@.len() == n_points,
            forall|t: int| 0 <= t < n_points ==> assignment@[t] == label_at(
                ev.take(j as int),
                t as usize,
            ),
        decreases k - j,
    {
        let members = &clusters.entries[j].1;
        let m = members.len();
        let mut t: usize = 0;
        while t < m
            invariant
                t <= m,
                j < k,
                k == ev.len(),
                ev == clusters.entries_view(),
                m == members@.len(),
                members@ == ev[j as int].1,
                assignment@.len() == n_points,
                forall|q: int| 0 <= q < n_points ==> assignment@[q] == (
                    if members@.take(t as int).contains(q as usize) {
                        Some((j + 1) as usize)
                    } else {
                        label_at(ev.take(j as int), q as usize)
                    }
                ),
            decreases m - t,
        {
            let idx = members[t];
            let ghost before = assignment@;
            if idx < n_points {
                assignment[idx] = Some(j + 1);
            }
            proof {
                assert forall|q: int| 0 <= q < n_points implies assignment@[q] == (
                    if members@.take(t + 1).contains(q as usize) {
                        Some((j + 1) as usize)
                    } else {
                        label_at(ev.take(j as int), q as usize)
                    }
                ) by {
                    assert(members@.take(t + 1) =~= members@.take(t as int).push(members@[t as int]));
                    if q == idx && idx < n_points {
                        assert(members@.take(t + 1)[t as int] == idx);
                        assert(members@.take(t + 1).contains(q as usize));
                    } else {
                        assert(assignment@[q] == before[q]);
                        assert(members@.take(t + 1).contains(q as usize)
                            <==> members@.take(t as int).contains(q as usize));
                    }
                }
            }
            t += 1;
        }
        proof {
            let tj1 = ev.take(j + 1);
            assert(tj1.drop_last() =~= ev.take(j as int));
            assert(tj1.last() == ev[j as int]);
            assert(members@.take(m as int) =~= members@);
            assert forall|q: int| 0 <= q < n_points implies assignment@[q] == label_at(
                tj1,
                q as usize,
            ) by {
                if members@.contains(q as usize) {
                    assert(tj1.last().1.contains(q as usize));
                    assert(label_at(tj1, q as usize) == Some(tj1.len() as usize));
                } else {
                    assert(label_at(tj1, q as usize) == label_at(ev.take(j as int), q as usize));
                }
            }
        }
        j += 1;
    }
    proof {
        assert(ev.take(k as int) =~= ev);
    }
    assignment
}

/// Encodes a clustering result for the host.
///
/// The distinct cluster ids, sorted ascending, are renumbered to the
/// contiguous 1-based labels 1..=n_clusters in that order — a strictly
/// increasing function of the sorted original ids, so the output never
/// depends on a producer's insertion or hash order. Each point claimed by a
/// cluster gets that cluster's label; member indices at or beyond `n_points`
/// are silently dropped as a defensive bound against malformed algorithm
/// output; every other point is left missing. Noise points are counted, not
/// labeled: they stay missing in the assignment.
pub fn encode(clusters: &ClusterMap, noise: &Vec<usize>, n_points: usize) -> (r: EncodedResult)
    requires
        clusters.wf(),
    ensures
        r.cluster@.len() == n_points,
        forall|i: int| 0 <= i < n_points ==> r.cluster@[i] == label_at(
            clusters.entries_view(),
            i as usize,
        ),
        r.n_clusters == clusters.entries_view().len(),
        r.n_noise == noise@.len(),
        r.outlier_scores is None,
{
    let cluster = build_assignment(clusters, n_points);
    EncodedResult {
        cluster,
        n_clusters: clusters.num_clusters(),
        n_noise: noise.len(),
        outlier_scores: None,
    }
}

/// Encodes a clustering result that carries per-point outlier scores.
///
/// Identical to [`encode`] on the assignment and the counts; the scores are
/// attached unchanged, index-aligned with the assignment. Their length
/// equaling `n_points` is the caller's contract, stated here rather than
/// checked at run time.
pub fn encode_with_scores(
    clusters: &ClusterMap,
    noise: &Vec<usize>,
    scores: Vec<u64>,
    n_points: usize,
) -> (r: EncodedResult)
    requires
        clusters.wf(),
        scores@.len() == n_points,
    ensures
        r.cluster@.len() == n_points,
        forall|i: int| 0 <= i < n_points ==> r.cluster@[i] == label_at(
            clusters.entries_view(),
            i as usize,
        ),
        r.n_clusters == clusters.entries_view().len(),
        r.n_noise == noise@.len(),
        r.outlier_scores == Some(scores),
{
    let cluster = build_assignment(clusters, n_points);
    EncodedResult {
        cluster,
        n_clusters: clusters.num_clusters(),
        n_noise: noise.len(),
        outlier_scores: Some(scores),
    }
}

/// No two entries claim the same point index.
pub open spec fn members_disjoint(entries: Seq<(usize, Seq<usize>)>) -> bool {
    forall|j1: int, j2: int, idx: usize|
        0 <= j1 < j2 < entries.len() ==> !(#[trigger] entries[j1].1.contains(idx)
            && #[trigger] entries[j2].1.contains(idx))
}

/// A label is only ever one of 1..=k, and names an entry containing the point.
proof fn lemma_label_at_bounds(entries: Seq<(usize, Seq<usize>)>, idx: usize)
    requires
        entries.len() <= usize::MAX,
    ensures
        label_at(entries, idx) matches Some(l) ==> 1 <= l <= entries.len()
            && entries[l as int - 1].1.contains(idx),
    decreases entries.len(),
{
    if entries.len() > 0 && !entries.last().1.contains(idx) {
        lemma_label_at_bounds(entries.drop_last(), idx);
        match label_at(entries, idx) {
            Some(l) => {
                assert(entries.drop_last()[l as int - 1] == entries[l as int - 1]);
            },
            None => {},
        }
    }
}

/// With disjoint member sets, a point in the rank-j entry gets label j + 1.
proof fn lemma_label_at_of_member(entries: Seq<(usize, Seq<usize>)>, j: int, idx: usize)
    requires
        entries.len() <= usize::MAX,
        members_disjoint(entries),
        0 <= j < entries.len(),
        entries[j].1.contains(idx),
    ensures
        label_at(entries, idx) == Some((j + 1) as usize),
    decreases entries.len(),
{
    if j == entries.len() - 1 {
        assert(entries.last().1.contains(idx));
    } else {
        assert(!entries.last().1.contains(idx));
        let d = entries.drop_last();
        assert(d[j] == entries[j]);
        assert forall|j1: int, j2: int, q: usize|
            0 <= j1 < j2 < d.len() implies !(#[trigger] d[j1].1.contains(q)
                && #[trigger] d[j2].1.contains(q)) by {
            assert(d[j1] == entries[j1] && d[j2] == entries[j2]);
        }
        lemma_label_at_of_member(d, j, idx);
    }
}

/// Law: for a cluster map with k entries whose member sets are nonempty,
/// pairwise disjoint and within range, the set of labels appearing in the
/// assignment is exactly {1, ..., k} (empty when k is 0): any label a point
/// carries lies in 1..=k, and conversely every member of the rank-j entry —
/// nonempty and below `n_points` by hypothesis — carries label j + 1, so
/// each label in 1..=k appears. The cluster count and noise count reported
/// beside the assignment are the entry count and the noise list's length by
/// the encoder's own contract.
pub proof fn lemma_assignment_label_range(entries: Seq<(usize, Seq<usize>)>, n_points: usize)
    requires
        entries.len() <= usize::MAX,
        members_disjoint(entries),
        forall|j: int| 0 <= j < entries.len() ==> #[trigger] entries[j].1.len() > 0,
        forall|j: int, t: int|
            0 <= j < entries.len() && 0 <= t < entries[j].1.len() ==> #[trigger] entries[j].1[t]
                < n_points,
    ensures
        forall|i: usize|
            #[trigger] label_at(entries, i) matches Some(l) ==> 1 <= l <= entries.len(),
        forall|j: int, t: int|
            0 <= j < entries.len() && 0 <= t < entries[j].1.len() ==> label_at(
                entries,
                #[trigger] entries[j].1[t],
            ) == Some((j + 1) as usize),
{
    assert forall|i: usize|
        (#[trigger] label_at(entries, i) matches Some(l) ==> 1 <= l <= entries.len()) by {
        lemma_label_at_bounds(entries, i);
    }
    assert forall|j: int, t: int|
        0 <= j < entries.len() && 0 <= t < entries[j].1.len() implies label_at(
        entries,
        #[trigger] entries[j].1[t],
    ) == Some((j + 1) as usize) by {
        assert(entries[j].1.contains(entries[j].1[t]));
        lemma_label_at_of_member(entries, j, entries[j].1[t]);
    }
}

/// Two sorted entry sequences with the same map content are the same
/// sequence.
pub proof fn lemma_sorted_same_map(a: Seq<(usize, Seq<usize>)>, b: Seq<(usize, Seq<usize>)>)
    requires
        keys_sorted(a),
        keys_sorted(b),
        pairs_to_map(a) == pairs_to_map(b),
    ensures
        a == b,
    decreases a.len(),
{
    lemma_pairs_to_map_dom(a);
    lemma_pairs_to_map_dom(b);
    if a.len() == 0 {
        if b.len() > 0 {
            assert(b[b.len() - 1].0 == b.last().0);
            assert(has_key(b, b.last().0));
            assert(pairs_to_map(a).dom().contains(b.last().0));
            assert(false);
        }
        assert(a =~= b);
    } else if b.len() == 0 {
        assert(a[a.len() - 1].0 == a.last().0);
        assert(has_key(a, a.last().0));
        assert(pairs_to_map(b).dom().contains(a.last().0));
        assert(false);
    } else {
        let ka = a.last().0;
        let kb = b.last().0;
        assert(a[a.len() - 1].0 == ka);
        assert(has_key(a, ka));
        assert(b[b.len() - 1].0 == kb);
        assert(has_key(b, kb));
        assert(pairs_to_map(b).dom().contains(ka));
        let ib = choose|i: int| 0 <= i < b.len() && b[i].0 == ka;
        assert(ka <= kb) by {
            if ib < b.len() - 1 {
                assert(b[ib].0 < b[b.len() - 1].0);
            }
        }
        assert(pairs_to_map(a).dom().contains(kb));
        let ia = choose|i: int| 0 <= i < a.len() && a[i].0 == kb;
        assert(kb <= ka) by {
            if ia < a.len() - 1 {
                assert(a[ia].0 < a[a.len() - 1].0);
            }
        }
        assert(ka == kb);
        assert forall|i1: int, i2: int| 0 <= i1 < i2 < a.len() implies a[i1].0 != a[i2].0 by {}
        assert forall|i1: int, i2: int| 0 <= i1 < i2 < b.len() implies b[i1].0 != b[i2].0 by {}
        lemma_pairs_to_map_at(a, a.len() - 1);
        lemma_pairs_to_map_at(b, b.len() - 1);
        assert(a.last().1 == pairs_to_map(a)[ka]);
        assert(b.last().1 == pairs_to_map(b)[kb]);
        assert(a.last() == b.last());
        let da = a.drop_last();
        let db = b.drop_last();
        lemma_pairs_to_map_dom(da);
        lemma_pairs_to_map_dom(db);
        assert(!has_key(da, ka)) by {
            if has_key(da, ka) {
                let i = choose|i: int| 0 <= i < da.len() && da[i].0 == ka;
                assert(a[i].0 == ka);
                assert(a[i].0 < a[a.len() - 1].0);
            }
        }
        assert(!has_key(db, kb)) by {
            if has_key(db, kb) {
                let i = choose|i: int| 0 <= i < db.len() && db[i].0 == kb;
                assert(b[i].0 == kb);
                assert(b[i].0 < b[b.len() - 1].0);
            }
        }
        let ma = pairs_to_map(a);
        let mda = pairs_to_map(da);
        let mdb = pairs_to_map(db);
        assert(ma == mda.insert(ka, a.last().1));
        assert(pairs_to_map(b) == mdb.insert(kb, b.last().1));
        assert forall|k: usize| #[trigger] mda.dom().contains(k) implies mdb.dom().contains(
            k,
        ) by {
            let i = choose|i: int| 0 <= i < da.len() && da[i].0 == k;
            assert(a[i].0 == k);
            assert(has_key(a, k));
            assert(pairs_to_map(b).dom().contains(k));
            assert(has_key(b, k));
            let i2 = choose|i2: int| 0 <= i2 < b.len() && b[i2].0 == k;
            assert(k != ka);
            assert(i2 < b.len() - 1);
            assert(db[i2].0 == k);
            assert(has_key(db, k));
        }
        assert forall|k: usize| #[trigger] mdb.dom().contains(k) implies mda.dom().contains(
            k,
        ) by {
            let i = choose|i: int| 0 <= i < db.len() && db[i].0 == k;
            assert(b[i].0 == k);
            assert(has_key(b, k));
            assert(pairs_to_map(a).dom().contains(k));
            assert(has_key(a, k));
            let i2 = choose|i2: int| 0 <= i2 < a.len() && a[i2].0 == k;
            assert(k != kb);
            assert(i2 < a.len() - 1);
            assert(da[i2].0 == k);
            assert(has_key(da, k));
        }
        assert forall|k: usize| #[trigger] mda.dom().contains(k) implies mda[k] == mdb[k] by {
            assert(k != ka);
            assert(mda[k] == ma[k]);
            assert(mdb[k] == pairs_to_map(b)[k]);
        }
        assert(mda =~= mdb);
        assert forall|i1: int, i2: int| 0 <= i1 < i2 < da.len() implies da[i1].0 < da[i2].0 by {
            assert(da[i1] == a[i1] && da[i2] == a[i2]);
        }
        assert forall|i1: int, i2: int| 0 <= i1 < i2 < db.len() implies db[i1].0 < db[i2].0 by {
            assert(db[i1] == b[i1] && db[i2] == b[i2]);
        }
        lemma_sorted_same_map(da, db);
        assert(a =~= b) by {
            assert(a.len() == b.len());
            assert forall|i: int| 0 <= i < a.len() implies a[i] == b[i] by {
                if i < a.len() - 1 {
                    assert(da[i] == a[i] && db[i] == b[i]);
                }
            }
        }
    }
}

/// Law: renumbering is deterministic. Two well-formed cluster maps with the
/// same map content — the same cluster ids bound to the same member
/// sequences, however the pairs were produced or ordered — have identical
/// entries, and so give every point the identical output label.
pub proof fn lemma_renumbering_deterministic(a: ClusterMap, b: ClusterMap)
    requires
        a.wf(),
        b.wf(),
        a@ == b@,
    ensures
        a.entries_view() == b.entries_view(),
        forall|i: usize| label_at(a.entries_view(), i) == label_at(b.entries_view(), i),
{
    lemma_sorted_same_map(a.entries_view(), b.entries_view());
}

} // verus!
