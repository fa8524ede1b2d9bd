use vstd::prelude::*;

use crate::cluster::ClusterMap;
use crate::cluster::pairs_to_map;
use crate::error::MarshalError;
use vstd::arithmetic::div_mod::lemma_fundamental_div_mod;

verus! {

/// An ASCII decimal digit.
pub open spec fn is_digit(b: u8) -> bool {
    48 <= b <= 57
}

/// Every byte of the name is a decimal digit.
pub open spec fn all_digits(s: Seq<u8>) -> bool {
    forall|i: int| 0 <= i < s.len() ==> is_digit(#[trigger] s[i])
}

/// The number a digit string denotes, most significant digit first.
pub open spec fn digits_value(s: Seq<u8>) -> int
    decreases s.len(),
{
    if s.len() == 0 {
        0
    } else {
        digits_value(s.drop_last()) * 10 + (s.last() - 48)
    }
}

/// A group name is a valid cluster id: nonempty, all digits, and its value
/// fits the native index type.
pub open spec fn name_parses(s: Seq<u8>) -> bool {
    s.len() > 0 && all_digits(s) && digits_value(s) <= usize::MAX
}

/// The canonical digit string of a non-negative number (no sign, no leading
/// zero except for the number zero itself).
pub open spec fn digits_of(n: int) -> Seq<u8>
    recommends
        n >= 0,
    decreases n,
{
    if n < 10 {
        seq![(48 + n) as u8]
    } else {
        digits_of(n / 10).push((48 + n % 10) as u8)
    }
}

proof fn lemma_digits_value_nonneg(s: Seq<u8>)
    requires
        all_digits(s),
    ensures
        digits_value(s) >= 0,
    decreases s.len(),
{
    if s.len() > 0 {
        assert(forall|i: int|
            0 <= i < s.drop_last().len() ==> is_digit(#[trigger] s.drop_last()[i]));
        lemma_digits_value_nonneg(s.drop_last());
    }
}

/// Reading further digits never shrinks the value.
proof fn lemma_digits_value_prefix_le(s: Seq<u8>, i: int)
    requires
        0 <= i <= s.len(),
        all_digits(s),
    ensures
        digits_value(s.take(i)) <= digits_value(s),
    decreases s.len() - i,
{
    if i == s.len() {
        assert(s.take(i) =~= s);
    } else {
        assert(s.take(i + 1).drop_last() =~= s.take(i));
        assert(s.take(i + 1).last() == s[i]);
        assert(forall|q: int| 0 <= q < s.take(i).len() ==> is_digit(#[trigger] s.take(i)[q]));
        lemma_digits_value_nonneg(s.take(i));
        assert(digits_value(s.take(i + 1)) == digits_value(s.take(i)) * 10 + (s[i] - 48));
        lemma_digits_value_prefix_le(s, i + 1);
    }
}

/// Parses a group name as a decimal cluster id.
///
/// Returns `Some` exactly when the name is nonempty, all decimal digits, and
/// denotes a value the native index type can hold; anything else — an empty
/// name, a sign, other characters, a too-large value — is unparseable.
pub fn parse_cluster_id(name: &Vec<u8>) -> (r: Option<usize>)
    ensures
        r is Some <==> name_parses(name@),
        r matches Some(v) ==> v == digits_value(name@),
{
    let n = name.len();
    if n == 0 {
        return None;
    }
    let mut acc: usize = 0;
    let mut i: usize = 0;
    while i < n
        invariant
            i <= n,
            n == name@.len(),
            all_digits(name@.take(i as int)),
            acc == digits_value(name@.take(i as int)),
        decreases n - i,
    {
        let b = name[i];
        proof {
            assert(name@.take(i + 1).drop_last() =~= name@.take(i as int));
            assert(name@.take(i + 1).last() == name@[i as int]);
        }
        if b < 48 || b > 57 {
            assert(!all_digits(name@));
            return None;
        }
        let d = (b - 48) as usize;
        let acc10 = match acc.checked_mul(10) {
            Some(x) => x,
            None => {
                proof {
                    lemma_digits_value_overflow(name@, i as int, acc as int * 10 + (b - 48));
                }
                return None;
            },
        };
        acc = match acc10.checked_add(d) {
            Some(x) => x,
            None => {
                proof {
                    lemma_digits_value_overflow(name@, i as int, acc as int * 10 + (b - 48));
                }
                return None;
            },
        };
        i += 1;
    }
    proof {
        assert(name@.take(n as int) =~= name@);
    }
    Some(acc)
}

/// If the value is already past the index range after digit `i`, the whole
/// name is unparseable.
proof fn lemma_digits_value_overflow(s: Seq<u8>, i: int, v: int)
    requires
        0 <= i < s.len(),
        all_digits(s.take(i)),
        is_digit(s[i]),
        v == digits_value(s.take(i)) * 10 + (s[i] - 48),
        v > usize::MAX,
    ensures
        !name_parses(s),
{
    if all_digits(s) {
        assert(s.take(i + 1).drop_last() =~= s.take(i));
        assert(s.take(i + 1).last() == s[i]);
        assert(digits_value(s.take(i + 1)) == v);
        lemma_digits_value_prefix_le(s, i + 1);
    }
}

/// Renders a cluster id as its canonical decimal digit string.
pub fn format_cluster_id(id: usize) -> (r: Vec<u8>)
    ensures
        r@ == digits_of(id as int),
    decreases id,
{
    if id < 10 {
        let mut v: Vec<u8> = Vec::new();
        v.push(48 + id as u8);
        proof {
            assert(v@ =~= digits_of(id as int));
        }
        v
    } else {
        let mut v = format_cluster_id(id / 10);
        v.push(48 + (id % 10) as u8);
        proof {
            assert(v@ =~= digits_of(id as int));
        }
        v
    }
}

/// The host's 1-based point indices, shifted to the native 0-based
/// convention.
pub open spec fn minus_one(idxs: Seq<i64>) -> Seq<usize> {
    Seq::new(idxs.len(), |t: int| (idxs[t] - 1) as usize)
}

/// Every index is a representable 1-based point index: positive, and its
/// 0-based form fits the native index type.
pub open spec fn indices_ok(idxs: Seq<i64>) -> bool {
    forall|t: int| 0 <= t < idxs.len() ==> 1 <= #[trigger] idxs[t] && idxs[t] - 1 <= usize::MAX
}

/// Reads a sequence of (name, index-vector) pairs at the specification
/// level.
pub open spec fn deep_labels(s: Seq<(Vec<u8>, Vec<i64>)>) -> Seq<(Seq<u8>, Seq<i64>)> {
    Seq::new(s.len(), |i: int| (s[i].0@, s[i].1@))
}

/// What decoding a partial-label structure means: pairs are read in order,
/// a later pair overwriting an earlier one with the same parsed id (last
/// wins); the first offending pair faults the whole call, an unparseable
/// name taking precedence over a bad index within one pair.
pub open spec fn spec_decode(s: Seq<(Seq<u8>, Seq<i64>)>) -> Result<
    Map<usize, Seq<usize>>,
    MarshalError,
>
    decreases s.len(),
{
    if s.len() == 0 {
        Ok(Map::empty())
    } else {
        match spec_decode(s.drop_last()) {
            Err(e) => Err(e),
            Ok(m) => if !name_parses(s.last().0) {
                Err(MarshalError::LabelNameNotNumeric)
            } else if !indices_ok(s.last().1) {
                Err(MarshalError::LabelIndexOutOfRange)
            } else {
                Ok(m.insert(digits_value(s.last().0) as usize, minus_one(s.last().1)))
            },
        }
    }
}

/// Once a prefix faults, the whole sequence faults the same way.
proof fn lemma_spec_decode_err(s: Seq<(Seq<u8>, Seq<i64>)>, i: int, e: MarshalError)
    requires
        0 <= i <= s.len(),
        spec_decode(s.take(i)) == Err::<Map<usize, Seq<usize>>, MarshalError>(e),
    ensures
        spec_decode(s) == Err::<Map<usize, Seq<usize>>, MarshalError>(e),
    decreases s.len() - i,
{
    if i < s.len() {
        assert(s.take(i + 1).drop_last() =~= s.take(i));
        lemma_spec_decode_err(s, i + 1, e);
    } else {
        assert(s.take(i) =~= s);
    }
}

/// Decodes a host partial-label structure into a cluster map.
///
/// Each group name is parsed as a decimal cluster id and each 1-based point
/// index is shifted to 0-based, preserving order within a group; a duplicate
/// name silently overwrites (last wins). An unparseable name or an index
/// that is not a representable 1-based index is a caller-contract violation:
/// the call faults with the first offending pair's error and returns no
/// partial result.
pub fn decode(labels: &Vec<(Vec<u8>, Vec<i64>)>) -> (r: Result<ClusterMap, MarshalError>)
    ensures
        spec_decode(deep_labels(labels@)) matches Ok(m) ==> r matches Ok(c) && c.wf() && c@ == m,
        spec_decode(deep_labels(labels@)) matches Err(e) ==> r == Err::<ClusterMap, MarshalError>(
            e,
        ),
{
    let ghost dl = deep_labels(labels@);
    let mut map = ClusterMap::new();
    let n = labels.len();
    let mut i: usize = 0;
    while i < n
        invariant
            i <= n,
            n == labels@.len(),
            dl == deep_labels(labels@),
            map.wf(),
            spec_decode(dl.take(i as int)) == Ok::<Map<usize, Seq<usize>>, MarshalError>(map@),
        decreases n - i,
    {
        proof {
            assert(dl.take(i + 1).drop_last() =~= dl.take(i as int));
            assert(dl.take(i + 1).last() == (labels@[i as int].0@, labels@[i as int].1@));
        }
        let id = match parse_cluster_id(&labels[i].0) {
            Some(v) => v,
            None => {
                proof {
                    lemma_spec_decode_err(dl, i + 1, MarshalError::LabelNameNotNumeric);
                }
                return Err(MarshalError::LabelNameNotNumeric);
            },
        };
        let idxs = &labels[i].1;
        let m = idxs.len();
        let mut out: Vec<usize> = Vec::new();
        let mut t: usize = 0;
        while t < m
            invariant
                t <= m,
                m == idxs@.len(),
                idxs@ == labels@[i as int].1@,
                i < n,
                n == labels@.len(),
                dl == deep_labels(labels@),
                map.wf(),
                spec_decode(dl.take(i as int)) == Ok::<Map<usize, Seq<usize>>, MarshalError>(
                    map@,
                ),
                name_parses(labels@[i as int].0@),
                out@.len() == t,
                indices_ok(idxs@.take(t as int)),
                forall|q: int| 0 <= q < t ==> out@[q] == (idxs@[q] - 1) as usize,
            decreases m - t,
        {
            let v = idxs[t];
            let bad = v < 1 || (v - 1) as u64 > usize::MAX as u64;
            if bad {
                proof {
                    assert(dl.take(i + 1).drop_last() =~= dl.take(i as int));
                    assert(dl.take(i + 1).last() == (labels@[i as int].0@, labels@[i as int].1@));
                    assert(!indices_ok(idxs@)) by {
                        if indices_ok(idxs@) {
                            assert(1 <= idxs@[t as int] && idxs@[t as int] - 1 <= usize::MAX);
                        }
                    }
                    lemma_spec_decode_err(dl, i + 1, MarshalError::LabelIndexOutOfRange);
                }
                return Err(MarshalError::LabelIndexOutOfRange);
            }
            out.push((v - 1) as usize);
            proof {
                assert(idxs@.take(t + 1).drop_last() =~= idxs@.take(t as int));
                assert(idxs@.take(t + 1).last() == idxs@[t as int]);
                assert forall|q: int| 0 <= q < idxs@.take(t + 1).len() implies 1 <= #[trigger] idxs@.take(
                    t + 1,
                )[q] && idxs@.take(t + 1)[q] - 1 <= usize::MAX by {
                    if q < t {
                        assert(idxs@.take(t + 1)[q] == idxs@.take(t as int)[q]);
                    }
                }
            }
            t += 1;
        }
        proof {
            assert(idxs@.take(m as int) =~= idxs@);
            assert(out@ =~= minus_one(idxs@));
        }
        map.insert(id, out);
        i += 1;
    }
    proof {
        assert(dl.take(n as int) =~= dl);
    }
    Ok(map)
}

/// Lifts member indices back to the host's 1-based convention.
pub open spec fn plus_one(members: Seq<usize>) -> Seq<i64> {
    Seq::new(members.len(), |t: int| (members[t] + 1) as i64)
}

/// Every member index stays representable after the 1-based shift.
pub open spec fn members_fit_host(entries: Seq<(usize, Seq<usize>)>) -> bool {
    forall|j: int, t: int|
        0 <= j < entries.len() && 0 <= t < entries[j].1.len() ==> #[trigger] entries[j].1[t] + 1
            <= i64::MAX
}

/// The partial-label form of a cluster map: each entry becomes a pair of its
/// id's decimal digit string and its members shifted to 1-based.
pub open spec fn spec_partial_labels(entries: Seq<(usize, Seq<usize>)>) -> Seq<
    (Seq<u8>, Seq<i64>),
> {
    Seq::new(entries.len(), |j: int| (digits_of(entries[j].0 as int), plus_one(entries[j].1)))
}

/// Encodes a cluster map in the host's partial-label format: group names are
/// the decimal cluster ids, group values the members as 1-based indices,
/// order preserved. This is the exact inverse of [`decode`] on its output.
pub fn encode_as_partial_label_format(m: &ClusterMap) -> (r: Vec<(Vec<u8>, Vec<i64>)>)
    requires
        members_fit_host(m.entries_view()),
    ensures
        deep_labels(r@) == spec_partial_labels(m.entries_view()),
{
    let ghost ev = m.entries_view();
    let k = m.num_clusters();
    let mut out: Vec<(Vec<u8>, Vec<i64>)> = Vec::new();
    let mut j: usize = 0;
    while j < k
        invariant
            j <= k,
            k == ev.len(),
            ev == m.entries_view(),
            members_fit_host(ev),
            out@.len() == j,
            forall|q: int|
                0 <= q < j ==> (#[trigger] out@[q].0@, out@[q].1@) == (
                    digits_of(ev[q].0 as int),
                    plus_one(ev[q].1),
                ),
        decreases k - j,
    {
        let name = format_cluster_id(m.entry_key(j));
        let members = m.entry_members(j);
        let c = members.len();
        let mut idxs: Vec<i64> = Vec::new();
        let mut t: usize = 0;
        while t < c
            invariant
                t <= c,
                j < k,
                k == ev.len(),
                ev == m.entries_view(),
                members_fit_host(ev),
                c == members@.len(),
                members@ == ev[j as int].1,
                idxs@.len() == t,
                forall|q: int| 0 <= q < t ==> idxs@[q] == (members@[q] + 1) as i64,
            decreases c - t,
        {
            let x = members[t];
            idxs.push((x as i64) + 1);
            t += 1;
        }
        proof {
            assert(idxs@ =~= plus_one(members@));
        }
        out.push((name, idxs));
        j += 1;
    }
    proof {
        assert(deep_labels(out@) =~= spec_partial_labels(ev));
    }
    out
}

/// Law: the index-base round trip is the identity. Decoding the
/// partial-label form of a cluster map — names the decimal ids, indices
/// shifted to 1-based — succeeds and reproduces exactly the map's content;
/// with the contracts of [`encode_as_partial_label_format`] and [`decode`],
/// running the two functions in that order gives back an equal cluster map.
pub proof fn lemma_partial_label_round_trip(m: ClusterMap)
    requires
        members_fit_host(m.entries_view()),
    ensures
        spec_decode(spec_partial_labels(m.entries_view())) == Ok::<
            Map<usize, Seq<usize>>,
            MarshalError,
        >(m@),
{
    lemma_spec_decode_partial_labels(m.entries_view());
}

proof fn lemma_spec_decode_partial_labels(entries: Seq<(usize, Seq<usize>)>)
    requires
        members_fit_host(entries),
    ensures
        spec_decode(spec_partial_labels(entries)) == Ok::<Map<usize, Seq<usize>>, MarshalError>(
            pairs_to_map(entries),
        ),
    decreases entries.len(),
{
    if entries.len() == 0 {
        assert(spec_partial_labels(entries) =~= Seq::<(Seq<u8>, Seq<i64>)>::empty());
    } else {
        let d = entries.drop_last();
        assert(spec_partial_labels(entries).drop_last() =~= spec_partial_labels(d));
        assert forall|j: int, t: int|
            0 <= j < d.len() && 0 <= t < d[j].1.len() implies #[trigger] d[j].1[t] + 1
            <= i64::MAX by {
            assert(d[j] == entries[j]);
        }
        lemma_spec_decode_partial_labels(d);
        let key = entries.last().0;
        let members = entries.last().1;
        let last = spec_partial_labels(entries).last();
        assert(last == (digits_of(key as int), plus_one(members)));
        lemma_digits_round_trip(key as int);
        assert(name_parses(last.0));
        assert(digits_value(last.0) as usize == key);
        assert forall|t: int| 0 <= t < plus_one(members).len() implies 1 <= #[trigger] plus_one(
            members,
        )[t] && plus_one(members)[t] - 1 <= usize::MAX by {
            assert(entries[entries.len() - 1].1[t] + 1 <= i64::MAX);
        }
        assert(indices_ok(last.1));
        assert(minus_one(plus_one(members)) =~= members);
    }
}

/// Formatting then parsing a cluster id gives the id back.
proof fn lemma_digits_round_trip(n: int)
    requires
        n >= 0,
    ensures
        digits_of(n).len() > 0,
        all_digits(digits_of(n)),
        digits_value(digits_of(n)) == n,
    decreases n,
{
    if n < 10 {
        assert(digits_of(n).last() == (48 + n) as u8);
        assert(digits_of(n).drop_last() =~= Seq::<u8>::empty());
        assert(digits_value(Seq::<u8>::empty()) == 0);
        assert(digits_value(digits_of(n)) == 0 * 10 + ((48 + n) as u8 - 48));
    } else {
        lemma_digits_round_trip(n / 10);
        assert(digits_of(n).drop_last() =~= digits_of(n / 10));
        assert(digits_of(n).last() == (48 + n % 10) as u8);
        lemma_fundamental_div_mod(n, 10);
        assert(0 <= n % 10 < 10);
        assert(digits_value(digits_of(n)) == digits_value(digits_of(n / 10)) * 10 + ((48 + n % 10)
            as u8 - 48));
    }
}

} // verus!
