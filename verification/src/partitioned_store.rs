//! Read batches and the k-way merge streams that combine results from
//! several partitions.

use vstd::prelude::*;

use vstd::multiset::Multiset;

use crate::ordering::{lemma_str_lt_trans, lemma_str_trichotomy, str_compare, str_le, str_lt, KeyOrder};
use crate::types::ReadPoint;

verus! {

/// A block of stored time-series data: what every partition offers its
/// host, whatever engine sits behind it. Metadata scans come back in
/// ascending order; `read` returns one non-empty, time-ordered batch
/// per matching series. Hosts combine several partitions' results with
/// the merge machines below.
pub trait Partition {
    /// A name identifying the partition.
    fn id(&self) -> String;

    /// The partition's advisory size estimate, in bytes.
    fn size(&self) -> u64;

    /// Writes a batch of points, assigning series ids as needed.
    fn write(&mut self, points: &mut Vec<crate::line_parser::PointType>) -> Result<
        (),
        crate::types::StorageError,
    >;

    /// All known tag keys within the range that match the predicate.
    fn get_tag_keys(
        &self,
        range: &crate::types::TimestampRange,
        predicate: &crate::predicate::Predicate,
    ) -> Result<Vec<String>, crate::types::StorageError>;

    /// All values of one tag key within the range that match the
    /// predicate.
    fn get_tag_values(
        &self,
        tag_key: &str,
        range: &crate::types::TimestampRange,
        predicate: &crate::predicate::Predicate,
    ) -> Result<Vec<String>, crate::types::StorageError>;

    /// The matching series' points within the range, one batch per
    /// series.
    fn read(
        &self,
        batch_size: usize,
        predicate: &crate::predicate::Predicate,
        range: &crate::types::TimestampRange,
    ) -> Result<Vec<ReadBatch>, crate::types::StorageError>;
}

/// The typed, time-ordered points of one read batch. Float-typed
/// batches carry IEEE-754 bit patterns; the merges order points by time
/// and never interpret the bits.
#[derive(Debug, Clone, PartialEq, Eq)]
pub enum ReadValues {
    I64(Vec<ReadPoint<i64>>),
    F64(Vec<ReadPoint<u64>>),
}

impl ReadValues {
    /// Number of points held.
    pub open spec fn spec_len(self) -> nat {
        match self {
            ReadValues::I64(vals) => vals@.len(),
            ReadValues::F64(vals) => vals@.len(),
        }
    }

    /// The time of the point at `i`.
    pub open spec fn spec_time_at(self, i: int) -> i64 {
        match self {
            ReadValues::I64(vals) => vals@[i].time,
            ReadValues::F64(vals) => vals@[i].time,
        }
    }

    pub fn is_empty(&self) -> (r: bool)
        ensures
            r <==> self.spec_len() == 0,
    {
        match self {
            ReadValues::I64(vals) => vals.len() == 0,
            ReadValues::F64(vals) => vals.len() == 0,
        }
    }
}

/// A series key together with a non-empty run of its points.
#[derive(Debug, Clone, PartialEq, Eq)]
pub struct ReadBatch {
    pub key: String,
    pub values: ReadValues,
}

/// A point of either type, for stating what a merge emits: the time
/// together with the integer value or the float bit pattern.
#[derive(Debug, Clone, Copy, PartialEq, Eq, Structural)]
pub enum MergedPoint {
    I(i64, i64),
    F(i64, u64),
}

/// Index of the first point of `s` with time strictly after `t`, or
/// `s.len()`.
pub open spec fn first_after<T>(s: Seq<ReadPoint<T>>, t: i64) -> nat
    decreases s.len(),
{
    if s.len() == 0 {
        0
    } else if s[0].time > t {
        0
    } else {
        (1 + first_after(s.skip(1), t)) as nat
    }
}

pub proof fn lemma_first_after<T>(s: Seq<ReadPoint<T>>, t: i64)
    ensures
        first_after(s, t) <= s.len(),
        first_after(s, t) < s.len() ==> s[first_after(s, t) as int].time > t,
        forall|j: int| 0 <= j < first_after(s, t) ==> s[j].time <= t,
    decreases s.len(),
{
    if s.len() == 0 {
    } else if s[0].time > t {
    } else {
        lemma_first_after(s.skip(1), t);
        assert forall|j: int| 0 <= j < first_after(s, t) implies s[j].time <= t by {
            if j > 0 {
                assert(s.skip(1)[j - 1] == s[j]);
            }
        };
        if first_after(s, t) < s.len() {
            assert(s.skip(1)[first_after(s, t) - 1] == s[first_after(s, t) as int]);
        }
    }
}

impl ReadValues {
    /// The times are non-decreasing.
    pub open spec fn spec_sorted(self) -> bool {
        match self {
            ReadValues::I64(v) => crate::memdb::times_sorted(v@),
            ReadValues::F64(v) => crate::memdb::times_sorted(v@),
        }
    }

    /// The held points, as a multiset.
    pub open spec fn spec_points(self) -> Multiset<MergedPoint> {
        match self {
            ReadValues::I64(v) => v@.map_values(|p: ReadPoint<i64>| MergedPoint::I(p.time, p.value)).to_multiset(),
            ReadValues::F64(v) => v@.map_values(|p: ReadPoint<u64>| MergedPoint::F(p.time, p.value)).to_multiset(),
        }
    }
}

impl ReadBatch {
    /// The first and last time in the batch.
    pub fn start_stop_times(&self) -> (r: (i64, i64))
        requires
            self.values.spec_len() > 0,
        ensures
            r.0 == self.values.spec_time_at(0),
            r.1 == self.values.spec_time_at(self.values.spec_len() - 1),
    {
        match &self.values {
            ReadValues::I64(vals) => (vals[0].time, vals[vals.len() - 1].time),
            ReadValues::F64(vals) => (vals[0].time, vals[vals.len() - 1].time),
        }
    }

    /// Sorts the points by time, stably: points with equal times keep
    /// their relative order, witnessed by an index map back into the
    /// unsorted batch.
    pub fn sort_by_time(&mut self)
        ensures
            final(self).key == old(self).key,
            final(self).values.spec_sorted(),
            final(self).values.spec_points() == old(self).values.spec_points(),
            final(self).values.spec_len() == old(self).values.spec_len(),
            final(self).values is I64 <==> old(self).values is I64,
            match (old(self).values, final(self).values) {
                (ReadValues::I64(a), ReadValues::I64(b)) => exists|perm: Seq<int>|
                    stable_perm(a@, b@, perm),
                (ReadValues::F64(a), ReadValues::F64(b)) => exists|perm: Seq<int>|
                    stable_perm(a@, b@, perm),
                _ => false,
            },
    {
        match &mut self.values {
            ReadValues::I64(vals) => {
                let ghost pre = vals@;
                sort_points(vals);
                proof {
                    lemma_map_multiset(
                        pre,
                        vals@,
                        |p: ReadPoint<i64>| MergedPoint::I(p.time, p.value),
                    );
                    let perm = choose|perm: Seq<int>| stable_perm(pre, vals@, perm);
                    assert(stable_perm(pre, vals@, perm));
                }
            },
            ReadValues::F64(vals) => {
                let ghost pre = vals@;
                sort_points(vals);
                proof {
                    lemma_map_multiset(
                        pre,
                        vals@,
                        |p: ReadPoint<u64>| MergedPoint::F(p.time, p.value),
                    );
                    let perm = choose|perm: Seq<int>| stable_perm(pre, vals@, perm);
                    assert(stable_perm(pre, vals@, perm));
                }
            },
        }
    }

    /// Moves every point of `other` with time at or before `t` into
    /// this batch (appended in order); returns whether `other` was
    /// fully drained. Batches of different value types are left alone,
    /// reported as drained.
    pub fn append_below_time(&mut self, other: &mut ReadBatch, t: i64) -> (cleared: bool)
        ensures
            final(self).key == old(self).key,
            final(other).key == old(other).key,
            match (old(self).values, old(other).values) {
                (ReadValues::I64(vals), ReadValues::I64(other_vals)) => {
                    let cut = first_after(other_vals@, t);
                    &&& final(self).values matches ReadValues::I64(nv) && nv@ == vals@
                        + other_vals@.take(cut as int)
                    &&& final(other).values matches ReadValues::I64(ov) && ov@ == other_vals@.skip(
                        cut as int,
                    )
                    &&& cleared <==> cut == other_vals@.len()
                },
                (ReadValues::F64(vals), ReadValues::F64(other_vals)) => {
                    let cut = first_after(other_vals@, t);
                    &&& final(self).values matches ReadValues::F64(nv) && nv@ == vals@
                        + other_vals@.take(cut as int)
                    &&& final(other).values matches ReadValues::F64(ov) && ov@ == other_vals@.skip(
                        cut as int,
                    )
                    &&& cleared <==> cut == other_vals@.len()
                },
                _ => *final(self) == *old(self) && *final(other) == *old(other) && cleared,
            },
    {
        match (&mut self.values, &mut other.values) {
            (ReadValues::I64(vals), ReadValues::I64(other_vals)) => {
                let cleared = drain_prefix_at_or_before(vals, other_vals, t);
                cleared
            },
            (ReadValues::F64(vals), ReadValues::F64(other_vals)) => {
                let cleared = drain_prefix_at_or_before(vals, other_vals, t);
                cleared
            },
            (_, _) => true,
        }
    }
}

/// Moves the prefix of `other` with times at or before `t` to the end
/// of `vals`, in order.
fn drain_prefix_at_or_before<T: Copy>(
    vals: &mut Vec<ReadPoint<T>>,
    other: &mut Vec<ReadPoint<T>>,
    t: i64,
) -> (cleared: bool)
    ensures
        ({
            let cut = first_after(old(other)@, t);
            &&& final(vals)@ == old(vals)@ + old(other)@.take(cut as int)
            &&& final(other)@ == old(other)@.skip(cut as int)
            &&& (cleared <==> cut == old(other)@.len())
        }),
{
    proof {
        lemma_first_after(other@, t);
    }
    let n = other.len();
    let mut cut: usize = 0;
    while cut < n
        invariant_except_break
            cut <= n,
            n == other@.len(),
            first_after(other@, t) <= other@.len(),
            first_after(other@, t) < other@.len() ==> other@[first_after(other@, t) as int].time
                > t,
            forall|j: int| 0 <= j < first_after(other@, t) ==> other@[j].time <= t,
            forall|j: int| 0 <= j < cut ==> other@[j].time <= t,
        ensures
            cut == first_after(other@, t),
        decreases n - cut,
    {
        if other[cut].time > t {
            proof {
                if first_after(other@, t) < cut {
                    assert(other@[first_after(other@, t) as int].time > t);
                }
            }
            break ;
        }
        cut = cut + 1;
    }
    let mut i: usize = 0;
    let ghost other_pre = other@;
    let ghost vals_pre = vals@;
    while i < cut
        invariant
            i <= cut,
            cut <= other@.len(),
            other@ == other_pre,
            vals@ == vals_pre + other_pre.take(i as int),
        decreases cut - i,
    {
        vals.push(other[i]);
        proof {
            assert(vals_pre + other_pre.take(i as int + 1) =~= (vals_pre + other_pre.take(
                i as int,
            )).push(other_pre[i as int]));
        }
        i = i + 1;
    }
    let mut rest: Vec<ReadPoint<T>> = Vec::new();
    let mut j: usize = cut;
    let n2 = other.len();
    while j < n2
        invariant
            cut <= j <= n2,
            n2 == other@.len(),
            other@ == other_pre,
            rest@ == other_pre.subrange(cut as int, j as int),
        decreases n2 - j,
    {
        rest.push(other[j]);
        proof {
            assert(other_pre.subrange(cut as int, j as int + 1) =~= other_pre.subrange(
                cut as int,
                j as int,
            ).push(other_pre[j as int]));
        }
        j = j + 1;
    }
    let cleared = rest.len() == 0;
    *other = rest;
    proof {
        assert(other@ =~= other_pre.skip(cut as int));
    }
    cleared
}

/// Two sequences with the same multiset have, under any map, the same
/// mapped multiset.
pub proof fn lemma_map_multiset<A, B>(s1: Seq<A>, s2: Seq<A>, f: spec_fn(A) -> B)
    requires
        s1.to_multiset() == s2.to_multiset(),
    ensures
        s1.map_values(f).to_multiset() == s2.map_values(f).to_multiset(),
    decreases s1.len(),
{
    broadcast use vstd::seq_lib::group_to_multiset_ensures;

    if s1.len() == 0 {
        assert(s1.to_multiset().len() == 0);
        assert(s2.to_multiset().len() == 0);
        assert(s2.len() == 0);
        assert(s1.map_values(f) =~= s2.map_values(f));
    } else {
        let x = s1[0];
        assert(s1.contains(x));
        assert(s1.to_multiset().count(x) > 0);
        assert(s2.to_multiset().count(x) > 0);
        assert(s2.contains(x));
        let k = choose|k: int| 0 <= k < s2.len() && s2[k] == x;
        let r1 = s1.remove(0);
        let r2 = s2.remove(k);
        assert(r1.to_multiset() =~= s1.to_multiset().remove(x));
        assert(r2.to_multiset() =~= s2.to_multiset().remove(x));
        lemma_map_multiset(r1, r2, f);
        assert(s1.map_values(f).remove(0) =~= r1.map_values(f));
        assert(s2.map_values(f).remove(k) =~= r2.map_values(f));
        assert(s1.map_values(f).remove(0).to_multiset() =~= s1.map_values(f).to_multiset().remove(
            f(x),
        ));
        assert(s2.map_values(f).remove(k).to_multiset() =~= s2.map_values(f).to_multiset().remove(
            f(x),
        ));
        assert(s1.map_values(f).to_multiset().count(f(x)) > 0) by {
            assert(s1.map_values(f)[0] == f(x));
            assert(s1.map_values(f).contains(f(x)));
        };
        assert(s2.map_values(f).to_multiset().count(f(x)) > 0) by {
            assert(s2.map_values(f)[k] == f(x));
            assert(s2.map_values(f).contains(f(x)));
        };
        assert(s1.map_values(f).to_multiset() =~= s2.map_values(f).to_multiset()) by {
            let m1 = s1.map_values(f).to_multiset();
            let m2 = s2.map_values(f).to_multiset();
            assert(m1.remove(f(x)) == m2.remove(f(x)));
            assert forall|y: B| m1.count(y) == m2.count(y) by {
                if y == f(x) {
                    assert(m1.remove(f(x)).count(y) == m1.count(y) - 1);
                    assert(m2.remove(f(x)).count(y) == m2.count(y) - 1);
                } else {
                    assert(m1.remove(f(x)).count(y) == m1.count(y));
                    assert(m2.remove(f(x)).count(y) == m2.count(y));
                }
            };
        };
    }
}

/// Insertion sort by time; the multiset of points is kept.
/// `post` rearranges `pre` through the index map `perm`, stably: the
/// point at `k` came from index `perm[k]`, distinct positions come from
/// distinct indices, and points with equal times keep their original
/// relative order.
pub open spec fn stable_perm<T>(
    pre: Seq<ReadPoint<T>>,
    post: Seq<ReadPoint<T>>,
    perm: Seq<int>,
) -> bool {
    &&& perm.len() == pre.len()
    &&& post.len() == pre.len()
    &&& forall|k: int| 0 <= k < perm.len() ==> 0 <= #[trigger] perm[k] < perm.len()
    &&& forall|k1: int, k2: int|
        #![trigger perm[k1], perm[k2]]
        0 <= k1 < k2 < perm.len() ==> perm[k1] != perm[k2]
    &&& forall|k: int| 0 <= k < perm.len() ==> #[trigger] post[k] == pre[perm[k]]
    &&& forall|k1: int, k2: int|
        #![trigger perm[k1], perm[k2]]
        0 <= k1 < k2 < perm.len() && post[k1].time == post[k2].time ==> perm[k1] < perm[k2]
}

fn sort_points<T: Copy>(v: &mut Vec<ReadPoint<T>>)
    ensures
        crate::memdb::times_sorted(final(v)@),
        final(v)@.to_multiset() == old(v)@.to_multiset(),
        final(v)@.len() == old(v)@.len(),
        exists|perm: Seq<int>| stable_perm(old(v)@, final(v)@, perm),
{
    let n = v.len();
    let mut i: usize = 1;
    let ghost mut perm: Seq<int> = Seq::new(v@.len(), |k: int| k);
    proof {
        broadcast use vstd::seq_lib::group_to_multiset_ensures;

        assert(stable_perm(v@, v@, perm));
    }
    if n == 0 {
        return ;
    }
    while i < n
        invariant
            1 <= i <= n,
            n == v@.len(),
            v@.to_multiset() == old(v)@.to_multiset(),
            stable_perm(old(v)@, v@, perm),
            forall|a: int, b: int| 0 <= a <= b < i ==> v@[a].time <= v@[b].time,
        decreases n - i,
    {
        let mut j: usize = i;
        while j > 0
            invariant_except_break
                0 <= j <= i < n,
                n == v@.len(),
                v@.to_multiset() == old(v)@.to_multiset(),
                stable_perm(old(v)@, v@, perm),
                forall|a: int, b: int|
                    0 <= a <= b <= i && b != j ==> (a == j || v@[a].time <= v@[b].time),
                forall|a: int| #![trigger v@[a]] j < a <= i ==> v@[j as int].time <= v@[a].time,
            ensures
                0 <= j <= i < n,
                n == v@.len(),
                v@.to_multiset() == old(v)@.to_multiset(),
                stable_perm(old(v)@, v@, perm),
                forall|a: int, b: int| 0 <= a <= b <= i ==> v@[a].time <= v@[b].time,
            decreases j,
        {
            if v[j - 1].time <= v[j].time {
                proof {
                    assert forall|a: int, b: int| 0 <= a <= b <= i implies v@[a].time
                        <= v@[b].time by {
                        if a == j as int && b > a {
                        } else if b == j as int && a < b {
                            if a < j - 1 {
                                assert(v@[a].time <= v@[j - 1].time);
                            }
                        }
                    };
                }
                break ;
            }
            let x = v[j - 1];
            let y = v[j];
            let ghost before = v@;
            let ghost perm_before = perm;
            v[j - 1] = y;
            v[j] = x;
            proof {
                perm = perm.update(j - 1, perm[j as int]).update(j as int, perm[j - 1]);
                broadcast use vstd::seq_lib::to_multiset_update;
                broadcast use vstd::seq_lib::group_to_multiset_ensures;
                assert(v@ == before.update(j - 1, y).update(j as int, x));
                assert(stable_perm(old(v)@, v@, perm)) by {
                    assert(x.time > y.time);
                    assert forall|k: int|
                        0 <= k < perm.len() implies #[trigger] v@[k] == old(v)@[perm[k]] by {
                        if k == j - 1 {
                            assert(perm[k] == perm_before[j as int]);
                            assert(v@[k] == before[j as int]);
                        } else if k == j as int {
                            assert(perm[k] == perm_before[j - 1]);
                            assert(v@[k] == before[j - 1]);
                        } else {
                            assert(perm[k] == perm_before[k]);
                            assert(v@[k] == before[k]);
                        }
                    };
                    assert forall|k1: int, k2: int|
                        #![trigger perm[k1], perm[k2]]
                        0 <= k1 < k2 < perm.len() implies perm[k1] != perm[k2] by {
                        let o1: int = if k1 == j - 1 {
                            j as int
                        } else if k1 == j as int {
                            j - 1
                        } else {
                            k1
                        };
                        let o2: int = if k2 == j - 1 {
                            j as int
                        } else if k2 == j as int {
                            j - 1
                        } else {
                            k2
                        };
                        assert(perm[k1] == perm_before[o1]);
                        assert(perm[k2] == perm_before[o2]);
                        assert(o1 != o2);
                        if o1 < o2 {
                            assert(perm_before[o1] != perm_before[o2]);
                        } else {
                            assert(perm_before[o2] != perm_before[o1]);
                        }
                    };
                    assert forall|k1: int, k2: int|
                        #![trigger perm[k1], perm[k2]]
                        0 <= k1 < k2 < perm.len() && v@[k1].time == v@[k2].time implies perm[k1]
                        < perm[k2] by {
                        if k1 == j - 1 && k2 == j as int {
                            assert(v@[k1] == before[j as int] && v@[k2] == before[j - 1]);
                        } else if k2 == j - 1 {
                            assert(v@[k1] == before[k1] && v@[k2] == before[j as int]);
                            assert(before[k1].time == before[j as int].time ==> perm_before[k1]
                                < perm_before[j as int]);
                        } else if k1 == j - 1 {
                            assert(v@[k1] == before[j as int] && v@[k2] == before[k2]);
                            assert(before[j as int].time == before[k2].time ==> perm_before[
                                j as int] < perm_before[k2]);
                        } else if k2 == j as int {
                            assert(v@[k1] == before[k1] && v@[k2] == before[j - 1]);
                            assert(before[k1].time == before[j - 1].time ==> perm_before[k1]
                                < perm_before[j - 1]);
                        } else if k1 == j as int {
                            assert(v@[k1] == before[j - 1] && v@[k2] == before[k2]);
                            assert(before[j - 1].time == before[k2].time ==> perm_before[j - 1]
                                < perm_before[k2]);
                        } else {
                            assert(v@[k1] == before[k1] && v@[k2] == before[k2]);
                            assert(before[k1].time == before[k2].time ==> perm_before[k1]
                                < perm_before[k2]);
                        }
                    };
                };
                let m0 = before.to_multiset();
                assert(before[j - 1] == x && before.contains(x));
                assert(m0.count(x) > 0);
                let m1 = before.update(j - 1, y).to_multiset();
                assert(m1 == m0.insert(y).remove(x));
                assert(before.update(j - 1, y)[j as int] == y);
                assert(v@.to_multiset() == m1.insert(x).remove(y));
                assert(v@.to_multiset() =~= before.to_multiset()) by {
                    assert forall|e: ReadPoint<T>|
                        m1.insert(x).remove(y).count(e) == m0.count(e) by {
                        assert(m0.insert(y).count(e) == m0.count(e) + (if e == y {
                            1int
                        } else {
                            0
                        }));
                    };
                };
                assert forall|a: int, b: int|
                    0 <= a <= b <= i && b != j - 1 implies (a == j - 1 || v@[a].time
                    <= v@[b].time) by {
                    if a != j - 1 && b != j - 1 {
                        if a == j as int {
                            assert(v@[a] == before[j - 1]);
                            if b > j {
                                assert(before[j as int].time <= before[b].time);
                            }
                        } else if b == j as int {
                            assert(v@[b] == before[j - 1]);
                            assert(before[a].time <= before[j - 1].time);
                        } else {
                            assert(v@[a] == before[a] && v@[b] == before[b]);
                        }
                    }
                };
                assert forall|a: int| #![trigger v@[a]] j - 1 < a <= i implies v@[j - 1].time
                    <= v@[a].time by {
                    if a == j as int {
                    } else {
                        assert(v@[a] == before[a]);
                        assert(before[j as int].time <= before[a].time);
                    }
                };
            }
            j = j - 1;
            if j == 0 {
                proof {
                    assert forall|a: int, b: int| 0 <= a <= b <= i implies v@[a].time
                        <= v@[b].time by {
                        if a == 0 && b > 0 {
                        }
                    };
                }
                break ;
            }
        }
        i = i + 1;
    }
    proof {
        assert(stable_perm(old(v)@, v@, perm));
    }
}

// ---------------------------------------------------------------------------
// The merge state machines. Each input occupies one slot; the host
// drives the machine by filling pending slots from its streams
// (`feed`) and stepping the merge (`poll_next`), which either asks for
// more input, emits the next item, or reports the end.

/// What one poll of a merge returns: more input is needed, or the next
/// item (`None` at the end of the merged stream).
#[derive(Debug, Clone, PartialEq, Eq)]
pub enum MergePoll<T> {
    Pending,
    Ready(Option<T>),
}

/// One input slot: waiting for the next item, holding it, or past the
/// end of its input.
#[derive(Debug, Clone, PartialEq, Eq)]
pub enum SlotState<T> {
    Pending,
    Ready(T),
    Exhausted,
}

/// The per-input state of a merge.
#[derive(Debug, Clone, PartialEq, Eq)]
pub struct StreamState<T> {
    pub next: SlotState<T>,
}

/// A k-way merge-sort with deduplication over string inputs, each
/// strictly ascending: the merged output is strictly ascending and
/// holds exactly the union of the input values.
#[derive(Debug)]
pub struct StringMergeStream {
    pub states: Vec<StreamState<String>>,
    pub drained: bool,
}

impl StringMergeStream {
    /// No slot is waiting for input.
    pub open spec fn all_determined(self) -> bool {
        forall|i: int|
            0 <= i < self.states@.len() ==> !((#[trigger] self.states@[i]).next is Pending)
    }

    /// Some slot holds a value.
    pub open spec fn some_ready(self) -> bool {
        exists|i: int| 0 <= i < self.states@.len() && (#[trigger] self.states@[i]).next is Ready
    }

    /// A merge over `n` inputs, all waiting for their first item.
    pub fn new(n: usize) -> (s: StringMergeStream)
        ensures
            s.states@.len() == n,
            forall|i: int| 0 <= i < n ==> (#[trigger] s.states@[i]).next is Pending,
            !s.drained,
    {
        let mut states: Vec<StreamState<String>> = Vec::new();
        let mut i: usize = 0;
        while i < n
            invariant
                i <= n,
                states@.len() == i,
                forall|j: int| 0 <= j < i ==> (#[trigger] states@[j]).next is Pending,
            decreases n - i,
        {
            states.push(StreamState { next: SlotState::Pending });
            i = i + 1;
        }
        StringMergeStream { states, drained: false }
    }

    /// Whether slot `i` needs its next input item.
    pub fn input_pending(&self, i: usize) -> (r: bool)
        requires
            i < self.states@.len(),
        ensures
            r <==> self.states@[i as int].next is Pending,
    {
        match self.states[i].next {
            SlotState::Pending => true,
            _ => false,
        }
    }

    /// Hands slot `i` the next item of its input, or `None` at its
    /// end.
    pub fn feed(&mut self, i: usize, item: Option<String>)
        requires
            i < old(self).states@.len(),
            old(self).states@[i as int].next is Pending,
        ensures
            final(self).states@.len() == old(self).states@.len(),
            final(self).states@[i as int].next == match item {
                Some(v) => SlotState::Ready(v),
                None => SlotState::<String>::Exhausted,
            },
            forall|j: int|
                0 <= j < old(self).states@.len() && j != i ==> final(self).states@[j] == old(self).states@[j],
            final(self).drained == old(self).drained,
    {
        match item {
            Some(v) => {
                self.states[i].next = SlotState::Ready(v);
            },
            None => {
                self.states[i].next = SlotState::Exhausted;
            },
        }
    }

    /// One merge step. With any slot pending it asks for input; with
    /// every input exhausted it ends the stream; otherwise it emits the
    /// least held value and sets every slot holding that value back to
    /// pending.
    pub fn poll_next(&mut self) -> (r: MergePoll<String>)
        ensures
            old(self).drained ==> r == MergePoll::<String>::Ready(None::<String>) && *final(self)
                == *old(self),
            !old(self).drained && !old(self).all_determined() ==> r
                == MergePoll::<String>::Pending && *final(self) == *old(self),
            !old(self).drained && old(self).all_determined() && !old(self).some_ready() ==> r
                == MergePoll::<String>::Ready(None::<String>) && final(self).drained && final(self).states == old(self).states,
            !old(self).drained && old(self).all_determined() && old(self).some_ready() ==> (match r {
                MergePoll::Ready(Some(m)) => {
                    &&& exists|i: int|
                        #![trigger old(self).states@[i]]
                        {
                            &&& 0 <= i < old(self).states@.len()
                            &&& old(self).states@[i].next matches SlotState::Ready(v) && v@ == m@
                        }
                    &&& forall|i: int|
                        0 <= i < old(self).states@.len() ==> match (#[trigger] old(self).states@[i]).next {
                            SlotState::Ready(v) => if v@ == m@ {
                                final(self).states@[i].next is Pending
                            } else {
                                str_lt(m@, v@) && final(self).states@[i] == old(self).states@[i]
                            },
                            _ => final(self).states@[i] == old(self).states@[i],
                        }
                    &&& final(self).states@.len() == old(self).states@.len()
                    &&& final(self).drained == old(self).drained
                },
                _ => false,
            }),
    {
        if self.drained {
            return MergePoll::Ready(None);
        }
        let n = self.states.len();
        let mut i: usize = 0;
        while i < n
            invariant
                i <= n,
                n == self.states@.len(),
                *self == *old(self),
                !self.drained,
                forall|j: int|
                    0 <= j < i ==> !((#[trigger] self.states@[j]).next is Pending),
            decreases n - i,
        {
            if self.input_pending(i) {
                return MergePoll::Pending;
            }
            i = i + 1;
        }
        // choose the least held value
        let mut best: Option<&String> = None;
        let ghost mut best_at: int = 0;
        let mut i: usize = 0;
        while i < n
            invariant
                i <= n,
                n == self.states@.len(),
                *self == *old(self),
                !self.drained,
                old(self).all_determined(),
                match best {
                    Some(b) => {
                        &&& 0 <= best_at < i
                        &&& self.states@[best_at].next matches SlotState::Ready(v) && v@ == b@
                        &&& forall|j: int|
                            0 <= j < i ==> match (#[trigger] self.states@[j]).next {
                                SlotState::Ready(v) => str_le(b@, v@),
                                _ => true,
                            }
                    },
                    None => forall|j: int|
                        0 <= j < i ==> !((#[trigger] self.states@[j]).next is Ready),
                },
            decreases n - i,
        {
            match &self.states[i].next {
                SlotState::Ready(v) => {
                    match best {
                        None => {
                            best = Some(v);
                            proof {
                                best_at = i as int;
                            }
                        },
                        Some(b) => {
                            if str_compare(v.as_str(), b.as_str()) == KeyOrder::Less {
                                proof {
                                    let bv = b@;
                                    assert forall|j: int|
                                        0 <= j < i implies match (#[trigger] self.states@[j]).next {
                                        SlotState::Ready(w) => str_le(v@, w@),
                                        _ => true,
                                    } by {
                                        match self.states@[j].next {
                                            SlotState::Ready(w) => {
                                                if bv == w@ {
                                                } else {
                                                    lemma_str_lt_trans(v@, bv, w@);
                                                }
                                            },
                                            _ => {},
                                        }
                                    };
                                    best_at = i as int;
                                }
                                best = Some(v);
                            } else {
                                proof {
                                    lemma_str_trichotomy(v@, b@);
                                }
                            }
                        },
                    }
                },
                _ => {},
            }
            i = i + 1;
        }
        let m: String = match best {
            Some(b) => b.clone(),
            None => {
                self.drained = true;
                return MergePoll::Ready(None);
            },
        };
        // set every slot holding the emitted value back to pending
        let ghost pre = *self;
        let mut i: usize = 0;
        while i < n
            invariant
                i <= n,
                n == self.states@.len(),
                pre == *old(self),
                !pre.drained,
                pre.all_determined(),
                self.drained == pre.drained,
                pre.states@[best_at].next matches SlotState::Ready(bv) && bv@ == m@,
                0 <= best_at < n,
                forall|j: int|
                    0 <= j < n ==> match (#[trigger] pre.states@[j]).next {
                        SlotState::Ready(v) => str_le(m@, v@),
                        _ => true,
                    },
                forall|j: int|
                    i <= j < n ==> (#[trigger] self.states@[j]) == pre.states@[j],
                forall|j: int|
                    0 <= j < i ==> match (#[trigger] pre.states@[j]).next {
                        SlotState::Ready(v) => if v@ == m@ {
                            self.states@[j].next is Pending
                        } else {
                            self.states@[j] == pre.states@[j]
                        },
                        _ => self.states@[j] == pre.states@[j],
                    },
            decreases n - i,
        {
            let equal = match &self.states[i].next {
                SlotState::Ready(v) => str_compare(v.as_str(), m.as_str())
                    == KeyOrder::Equal,
                _ => false,
            };
            if equal {
                self.states[i].next = SlotState::Pending;
            }
            i = i + 1;
        }
        proof {
            assert forall|j: int|
                0 <= j < n implies match (#[trigger] pre.states@[j]).next {
                SlotState::Ready(v) => if v@ == m@ {
                    self.states@[j].next is Pending
                } else {
                    str_lt(m@, v@) && self.states@[j] == pre.states@[j]
                },
                _ => self.states@[j] == pre.states@[j],
            } by {
                match pre.states@[j].next {
                    SlotState::Ready(v) => {
                        if v@ != m@ {
                            lemma_str_trichotomy(m@, v@);
                        }
                    },
                    _ => {},
                }
            };
        }
        MergePoll::Ready(Some(m))
    }
}

// ---------------------------------------------------------------------------
// The string-merge law on complete inputs: driving the machine over
// strictly ascending inputs yields a strictly ascending output holding
// exactly the union of the input values.

/// Strictly ascending in `str_lt`.
pub open spec fn strs_ascending(s: Seq<String>) -> bool {
    forall|a: int, b: int| 0 <= a < b < s.len() ==> str_lt((#[trigger] s[a])@, (#[trigger] s[b])@)
}

/// The loop measure: every feed and every emission pays at least one
/// unit.
spec fn slot_weight<T>(s: StreamState<T>) -> int {
    match s.next {
        SlotState::Pending => 1,
        SlotState::Ready(_) => 2,
        SlotState::Exhausted => 0,
    }
}

spec fn weights<T>(ss: Seq<StreamState<T>>) -> int
    decreases ss.len(),
{
    if ss.len() == 0 {
        0
    } else {
        slot_weight(ss[0]) + weights(ss.skip(1))
    }
}

proof fn lemma_weights_update<T>(ss: Seq<StreamState<T>>, i: int, s2: StreamState<T>)
    requires
        0 <= i < ss.len(),
    ensures
        weights(ss.update(i, s2)) == weights(ss) - slot_weight(ss[i]) + slot_weight(s2),
    decreases ss.len(),
{
    if i == 0 {
        assert(ss.update(0, s2)[0] == s2);
        assert(ss.update(0, s2).skip(1) =~= ss.skip(1));
    } else {
        assert(ss.update(i, s2)[0] == ss[0]);
        assert(ss.update(i, s2).skip(1) =~= ss.skip(1).update(i - 1, s2));
        assert(ss.skip(1)[i - 1] == ss[i]);
        lemma_weights_update(ss.skip(1), i - 1, s2);
    }
}

proof fn lemma_weights_nonneg<T>(ss: Seq<StreamState<T>>)
    ensures
        weights(ss) >= 0,
    decreases ss.len(),
{
    if ss.len() > 0 {
        lemma_weights_nonneg(ss.skip(1));
    }
}

/// No slot's weight grows across an emitting poll.
proof fn lemma_weights_le<T>(pre: Seq<StreamState<T>>, post: Seq<StreamState<T>>)
    requires
        pre.len() == post.len(),
        forall|i: int|
            0 <= i < pre.len() ==> slot_weight(#[trigger] post[i]) <= slot_weight(pre[i]),
    ensures
        weights(post) <= weights(pre),
    decreases pre.len(),
{
    if pre.len() > 0 {
        assert forall|i: int|
            0 <= i < pre.skip(1).len() implies slot_weight(#[trigger] post.skip(1)[i])
            <= slot_weight(pre.skip(1)[i]) by {
            assert(post.skip(1)[i] == post[i + 1]);
            assert(pre.skip(1)[i] == pre[i + 1]);
        };
        lemma_weights_le(pre.skip(1), post.skip(1));
    }
}

/// A consumed slot pays one unit of the measure.
proof fn lemma_weights_consumed<T>(
    pre: Seq<StreamState<T>>,
    post: Seq<StreamState<T>>,
    iw: int,
)
    requires
        pre.len() == post.len(),
        0 <= iw < pre.len(),
        forall|i: int|
            0 <= i < pre.len() ==> slot_weight(#[trigger] post[i]) <= slot_weight(pre[i]),
        slot_weight(post[iw]) < slot_weight(pre[iw]),
    ensures
        weights(post) < weights(pre),
    decreases pre.len(),
{
    assert forall|i: int|
        0 <= i < pre.skip(1).len() implies slot_weight(#[trigger] post.skip(1)[i])
        <= slot_weight(pre.skip(1)[i]) by {
        assert(post.skip(1)[i] == post[i + 1]);
        assert(pre.skip(1)[i] == pre[i + 1]);
    };
    if iw == 0 {
        lemma_weights_le(pre.skip(1), post.skip(1));
    } else {
        assert(pre.skip(1)[iw - 1] == pre[iw]);
        assert(post.skip(1)[iw - 1] == post[iw]);
        lemma_weights_consumed(pre.skip(1), post.skip(1), iw - 1);
    }
}

spec fn remaining_from<T>(inputs: Seq<Vec<T>>, pos: Seq<usize>, k: int) -> int
    decreases inputs.len() - k,
{
    if k < 0 || k >= inputs.len() {
        0
    } else {
        (inputs[k]@.len() - pos[k]) + remaining_from(inputs, pos, k + 1)
    }
}

proof fn lemma_remaining_update<T>(
    inputs: Seq<Vec<T>>,
    pos: Seq<usize>,
    i: int,
    p2: usize,
    k: int,
)
    requires
        0 <= i < inputs.len(),
        pos.len() == inputs.len(),
        0 <= k <= inputs.len(),
    ensures
        remaining_from(inputs, pos.update(i, p2), k) == remaining_from(inputs, pos, k) + (if k
            <= i {
            pos[i] - p2
        } else {
            0
        }),
    decreases inputs.len() - k,
{
    if k < inputs.len() {
        lemma_remaining_update(inputs, pos, i, p2, k + 1);
    }
}

proof fn lemma_remaining_nonneg<T>(inputs: Seq<Vec<T>>, pos: Seq<usize>, k: int)
    requires
        pos.len() == inputs.len(),
        forall|i: int| 0 <= i < inputs.len() ==> (#[trigger] pos[i]) <= inputs[i]@.len(),
        0 <= k,
    ensures
        remaining_from(inputs, pos, k) >= 0,
    decreases inputs.len() - k,
{
    if k < inputs.len() {
        lemma_remaining_nonneg(inputs, pos, k + 1);
    }
}

/// How many values of input `i` have been folded into the output: the
/// consumed ones, less the one still held in the slot.
pub open spec fn done_count<T>(s: StreamState<T>, p: usize) -> int {
    p - (if s.next is Ready {
        1int
    } else {
        0
    })
}

/// The set of values the inputs hold, over all of them.
pub open spec fn inputs_value_set(inputs: Seq<Vec<String>>) -> Set<Seq<char>> {
    Set::new(
        |x: Seq<char>|
            exists|i: int, j: int|
                0 <= i < inputs.len() && 0 <= j < (#[trigger] inputs[i])@.len() && (
                #[trigger] inputs[i]@[j])@ == x,
    )
}

/// Merges the given inputs, each strictly ascending, into one strictly
/// ascending sequence holding exactly the union of the input values:
/// every merged value is an input value, and every input value is
/// merged.
#[verifier::rlimit(100)]
pub fn merge_all(inputs: &Vec<Vec<String>>) -> (out: Vec<String>)
    requires
        forall|i: int| 0 <= i < inputs@.len() ==> strs_ascending((#[trigger] inputs@[i])@),
    ensures
        strs_ascending(out@),
        crate::memdb::str_set(out@) == inputs_value_set(inputs@),
{
    let n = inputs.len();
    let mut merger = StringMergeStream::new(n);
    let mut pos: Vec<usize> = Vec::new();
    let mut i0: usize = 0;
    while i0 < n
        invariant
            i0 <= n,
            pos@.len() == i0,
            forall|i: int| 0 <= i < i0 ==> (#[trigger] pos@[i]) == 0,
        decreases n - i0,
    {
        pos.push(0);
        i0 = i0 + 1;
    }
    let mut out: Vec<String> = Vec::new();
    // ghost source maps: where each output value came from, and where
    // each folded-in input value went
    let ghost mut wit_out: Seq<(int, int)> = Seq::empty();
    let ghost mut wit_in: Seq<Seq<int>> = Seq::new(n as nat, |i: int| Seq::<int>::empty());
    loop
        invariant_except_break
            n == inputs@.len(),
            forall|i: int| 0 <= i < n ==> strs_ascending((#[trigger] inputs@[i])@),
            merger.states@.len() == n,
            pos@.len() == n,
            !merger.drained,
            forall|i: int| 0 <= i < n ==> (#[trigger] pos@[i]) <= inputs@[i]@.len(),
            forall|i: int|
                0 <= i < n ==> match (#[trigger] merger.states@[i]).next {
                    SlotState::Pending => true,
                    SlotState::Ready(v) => pos@[i] >= 1 && v == inputs@[i]@[pos@[i] - 1],
                    SlotState::Exhausted => pos@[i] == inputs@[i]@.len(),
                },
            strs_ascending(out@),
            forall|i: int, k: int|
                0 <= i < n && 0 <= k < out@.len() ==> match (#[trigger] merger.states@[i]).next {
                    SlotState::Ready(v) => str_lt((#[trigger] out@[k])@, v@),
                    _ => true,
                },
            forall|i: int, j: int, k: int|
                #![trigger inputs@[i]@[j], out@[k]]
                0 <= i < n && pos@[i] <= j < inputs@[i]@.len() && 0 <= k < out@.len() ==> str_lt(
                    out@[k]@,
                    inputs@[i]@[j]@,
                ),
            wit_out.len() == out@.len(),
            forall|k: int|
                0 <= k < wit_out.len() ==> {
                    let s = #[trigger] wit_out[k];
                    &&& 0 <= s.0 < n
                    &&& 0 <= s.1 < inputs@[s.0]@.len()
                    &&& inputs@[s.0]@[s.1]@ == out@[k]@
                },
            wit_in.len() == n,
            forall|i: int|
                0 <= i < n ==> (#[trigger] wit_in[i]).len() == done_count(
                    merger.states@[i],
                    pos@[i],
                ),
            forall|i: int, j: int|
                #![trigger wit_in[i][j]]
                0 <= i < n && 0 <= j < wit_in[i].len() ==> 0 <= wit_in[i][j] < out@.len()
                    && out@[wit_in[i][j]]@ == inputs@[i]@[j]@,
        ensures
            n == inputs@.len(),
            pos@.len() == n,
            wit_in.len() == n,
            strs_ascending(out@),
            forall|i: int|
                0 <= i < n ==> (#[trigger] pos@[i]) == inputs@[i]@.len() && done_count(
                    merger.states@[i],
                    pos@[i],
                ) == inputs@[i]@.len(),
            wit_out.len() == out@.len(),
            forall|k: int|
                0 <= k < wit_out.len() ==> {
                    let s = #[trigger] wit_out[k];
                    &&& 0 <= s.0 < n
                    &&& 0 <= s.1 < inputs@[s.0]@.len()
                    &&& inputs@[s.0]@[s.1]@ == out@[k]@
                },
            forall|i: int|
                0 <= i < n ==> (#[trigger] wit_in[i]).len() == done_count(
                    merger.states@[i],
                    pos@[i],
                ),
            forall|i: int, j: int|
                #![trigger wit_in[i][j]]
                0 <= i < n && 0 <= j < wit_in[i].len() ==> 0 <= wit_in[i][j] < out@.len()
                    && out@[wit_in[i][j]]@ == inputs@[i]@[j]@,
        decreases 2 * remaining_from(inputs@, pos@, 0) + weights(merger.states@),
    {
        proof {
            lemma_weights_nonneg(merger.states@);
            lemma_remaining_nonneg(inputs@, pos@, 0);
        }
        let ghost pre_m = merger;
        let ghost pre_pos = pos@;
        let ghost pre_out = out@;
        let r = merger.poll_next();
        match r {
            MergePoll::Ready(None) => {
                proof {
                    assert(pre_m.all_determined() && !pre_m.some_ready());
                    assert forall|i: int|
                        0 <= i < n implies (#[trigger] pos@[i]) == inputs@[i]@.len()
                        && done_count(merger.states@[i], pos@[i]) == inputs@[i]@.len() by {
                        assert(merger.states@[i] == pre_m.states@[i]);
                        assert(!(pre_m.states@[i].next is Pending));
                        assert(!(pre_m.states@[i].next is Ready));
                    };
                    assert forall|i: int|
                        0 <= i < n implies (#[trigger] wit_in[i]).len() == done_count(
                        merger.states@[i],
                        pos@[i],
                    ) by {
                        assert(merger.states@[i] == pre_m.states@[i]);
                    };
                }
                break ;
            },
            MergePoll::Ready(Some(m)) => {
                proof {
                    assert(pre_m.all_determined() && pre_m.some_ready());
                }
                let ghost iw = choose|i: int|
                    #![trigger pre_m.states@[i]]
                    {
                        &&& 0 <= i < pre_m.states@.len()
                        &&& pre_m.states@[i].next matches SlotState::Ready(v) && v@ == m@
                    };
                proof {
                    assert(inputs@[iw]@[pos@[iw] - 1]@ == m@);
                    assert forall|k: int| 0 <= k < pre_out.len() implies str_lt(
                        (#[trigger] pre_out[k])@,
                        m@,
                    ) by {
                        assert(pre_m.states@[iw].next matches SlotState::Ready(v) && str_lt(
                            pre_out[k]@,
                            v@,
                        ));
                    };
                }
                let ghost m_g = m;
                out.push(m);
                proof {
                    wit_out = wit_out.push((iw, pos@[iw] - 1));
                    let ghost wit_in_before = wit_in;
                    wit_in = Seq::new(
                        n as nat,
                        |i: int|
                            if pre_m.states@[i].next matches SlotState::Ready(v) && v@ == m_g@ {
                                wit_in_before[i].push(pre_out.len() as int)
                            } else {
                                wit_in_before[i]
                            },
                    );
                    assert(out@ == pre_out.push(m_g));
                    assert(strs_ascending(out@)) by {
                        assert forall|a: int, b: int| 0 <= a < b < out@.len() implies str_lt(
                            (#[trigger] out@[a])@,
                            (#[trigger] out@[b])@,
                        ) by {
                            if b < pre_out.len() {
                                assert(out@[a] == pre_out[a] && out@[b] == pre_out[b]);
                            } else {
                                assert(out@[a] == pre_out[a] && out@[b] == m_g);
                            }
                        };
                    };
                    assert forall|i: int, k: int|
                        0 <= i < n && 0 <= k < out@.len() implies match (
                    #[trigger] merger.states@[i]).next {
                        SlotState::Ready(v) => str_lt((#[trigger] out@[k])@, v@),
                        _ => true,
                    } by {
                        match pre_m.states@[i].next {
                            SlotState::Ready(v) => {
                                if v@ == m_g@ {
                                    assert(merger.states@[i].next is Pending);
                                } else {
                                    assert(merger.states@[i] == pre_m.states@[i]);
                                    assert(str_lt(m_g@, v@));
                                    if k < pre_out.len() {
                                        assert(out@[k] == pre_out[k]);
                                        lemma_str_lt_trans(out@[k]@, m_g@, v@);
                                    } else {
                                        assert(out@[k] == m_g);
                                    }
                                }
                            },
                            _ => {
                                assert(merger.states@[i] == pre_m.states@[i]);
                            },
                        }
                    };
                    assert forall|i: int, j: int, k: int|
                        #![trigger inputs@[i]@[j], out@[k]]
                        0 <= i < n && pos@[i] <= j < inputs@[i]@.len() && 0 <= k
                            < out@.len() implies str_lt(out@[k]@, inputs@[i]@[j]@) by {
                        if k < pre_out.len() {
                            assert(out@[k] == pre_out[k]);
                        } else {
                            assert(out@[k] == m_g);
                            match pre_m.states@[i].next {
                                SlotState::Ready(v) => {
                                    assert(v == inputs@[i]@[pos@[i] - 1]);
                                    assert(str_lt(v@, inputs@[i]@[j]@));
                                    if v@ == m_g@ {
                                    } else {
                                        lemma_str_lt_trans(m_g@, v@, inputs@[i]@[j]@);
                                    }
                                },
                                SlotState::Pending => {
                                    assert(false);
                                },
                                SlotState::Exhausted => {
                                    assert(pos@[i] == inputs@[i]@.len());
                                },
                            }
                        }
                    };
                    assert forall|k: int| 0 <= k < wit_out.len() implies {
                        let s = #[trigger] wit_out[k];
                        &&& 0 <= s.0 < n
                        &&& 0 <= s.1 < inputs@[s.0]@.len()
                        &&& inputs@[s.0]@[s.1]@ == out@[k]@
                    } by {
                        if k < pre_out.len() {
                            assert(out@[k] == pre_out[k]);
                        } else {
                            assert(wit_out[k] == (iw, pos@[iw] - 1));
                        }
                    };
                    assert forall|i: int|
                        0 <= i < n implies (#[trigger] wit_in[i]).len() == done_count(
                        merger.states@[i],
                        pos@[i],
                    ) by {
                        match pre_m.states@[i].next {
                            SlotState::Ready(v) => {
                                if v@ == m_g@ {
                                    assert(wit_in[i] == wit_in_before[i].push(
                                        pre_out.len() as int,
                                    ));
                                    assert(merger.states@[i].next is Pending);
                                } else {
                                    assert(wit_in[i] == wit_in_before[i]);
                                    assert(merger.states@[i] == pre_m.states@[i]);
                                }
                            },
                            _ => {
                                assert(wit_in[i] == wit_in_before[i]);
                                assert(merger.states@[i] == pre_m.states@[i]);
                            },
                        }
                    };
                    assert forall|i: int, j: int|
                        #![trigger wit_in[i][j]]
                        0 <= i < n && 0 <= j < wit_in[i].len() implies 0 <= wit_in[i][j]
                        < out@.len() && out@[wit_in[i][j]]@ == inputs@[i]@[j]@ by {
                        match pre_m.states@[i].next {
                            SlotState::Ready(v) => {
                                if v@ == m_g@ {
                                    assert(wit_in[i] == wit_in_before[i].push(
                                        pre_out.len() as int,
                                    ));
                                    if j < wit_in_before[i].len() {
                                        assert(wit_in[i][j] == wit_in_before[i][j]);
                                        assert(out@[wit_in_before[i][j]] == pre_out[
                                        wit_in_before[i][j]]);
                                    } else {
                                        assert(wit_in[i][j] == pre_out.len() as int);
                                        assert(j == pos@[i] - 1);
                                        assert(out@[pre_out.len() as int] == m_g);
                                        assert(v == inputs@[i]@[pos@[i] - 1]);
                                    }
                                } else {
                                    assert(wit_in[i] == wit_in_before[i]);
                                    assert(wit_in[i][j] == wit_in_before[i][j]);
                                    assert(out@[wit_in_before[i][j]] == pre_out[wit_in_before[
                                    i][j]]);
                                }
                            },
                            _ => {
                                assert(wit_in[i] == wit_in_before[i]);
                                assert(wit_in[i][j] == wit_in_before[i][j]);
                                assert(out@[wit_in_before[i][j]] == pre_out[wit_in_before[i][
                                j]]);
                            },
                        }
                    };
                    // the measure: the emitting slot was consumed
                    assert forall|i: int|
                        0 <= i < pre_m.states@.len() implies slot_weight(
                        #[trigger] merger.states@[i],
                    ) <= slot_weight(pre_m.states@[i]) by {
                        match pre_m.states@[i].next {
                            SlotState::Ready(v) => {
                                if v@ == m_g@ {
                                    assert(merger.states@[i].next is Pending);
                                } else {
                                    assert(merger.states@[i] == pre_m.states@[i]);
                                }
                            },
                            _ => {
                                assert(merger.states@[i] == pre_m.states@[i]);
                            },
                        }
                    };
                    assert(slot_weight(merger.states@[iw]) < slot_weight(pre_m.states@[iw]));
                    lemma_weights_consumed(pre_m.states@, merger.states@, iw);
                    assert(2 * remaining_from(inputs@, pos@, 0) + weights(merger.states@) < 2
                        * remaining_from(inputs@, pre_pos, 0) + weights(pre_m.states@));
                    lemma_weights_nonneg(merger.states@);
                    lemma_remaining_nonneg(inputs@, pos@, 0);
                }
            },
            MergePoll::Pending => {
                proof {
                    assert(merger == pre_m);
                    assert(!pre_m.all_determined());
                }
                let ghost s0 = choose|i: int|
                    0 <= i < merger.states@.len() && (#[trigger] merger.states@[i]).next
                        is Pending;
                let mut i: usize = 0;
                while i < n
                    invariant
                        i <= n,
                        n == inputs@.len(),
                        forall|ii: int| 0 <= ii < n ==> strs_ascending((#[trigger] inputs@[ii])@),
                        merger.states@.len() == n,
                        pos@.len() == n,
                        !merger.drained,
                        0 <= s0 < n,
                        pre_m.states@[s0].next is Pending,
                        forall|ii: int|
                            i <= ii < n ==> (#[trigger] merger.states@[ii])
                                == pre_m.states@[ii],
                        forall|ii: int| i <= ii < n ==> (#[trigger] pos@[ii]) == pre_pos[ii],
                        s0 < i ==> 2 * remaining_from(inputs@, pos@, 0) + weights(merger.states@)
                            < 2 * remaining_from(inputs@, pre_pos, 0) + weights(pre_m.states@),
                        2 * remaining_from(inputs@, pos@, 0) + weights(merger.states@) <= 2
                            * remaining_from(inputs@, pre_pos, 0) + weights(pre_m.states@),
                        out@ == pre_out,
                        wit_out.len() == out@.len(),
                        forall|k: int|
                            0 <= k < wit_out.len() ==> {
                                let s = #[trigger] wit_out[k];
                                &&& 0 <= s.0 < n
                                &&& 0 <= s.1 < inputs@[s.0]@.len()
                                &&& inputs@[s.0]@[s.1]@ == out@[k]@
                            },
                        wit_in.len() == n,
                        forall|ii: int|
                            0 <= ii < n ==> (#[trigger] wit_in[ii]).len() == done_count(
                                merger.states@[ii],
                                pos@[ii],
                            ),
                        forall|ii: int, j: int|
                            #![trigger wit_in[ii][j]]
                            0 <= ii < n && 0 <= j < wit_in[ii].len() ==> 0 <= wit_in[ii][j]
                                < out@.len() && out@[wit_in[ii][j]]@ == inputs@[ii]@[j]@,
                        forall|ii: int|
                            0 <= ii < n ==> (#[trigger] pos@[ii]) <= inputs@[ii]@.len(),
                        forall|ii: int|
                            0 <= ii < n ==> match (#[trigger] merger.states@[ii]).next {
                                SlotState::Pending => true,
                                SlotState::Ready(v) => pos@[ii] >= 1 && v == inputs@[ii]@[pos@[ii]
                                    - 1],
                                SlotState::Exhausted => pos@[ii] == inputs@[ii]@.len(),
                            },
                        forall|ii: int, k: int|
                            0 <= ii < n && 0 <= k < out@.len() ==> match (
                            #[trigger] merger.states@[ii]).next {
                                SlotState::Ready(v) => str_lt((#[trigger] out@[k])@, v@),
                                _ => true,
                            },
                        forall|ii: int, j: int, k: int|
                            #![trigger inputs@[ii]@[j], out@[k]]
                            0 <= ii < n && pos@[ii] <= j < inputs@[ii]@.len() && 0 <= k
                                < out@.len() ==> str_lt(out@[k]@, inputs@[ii]@[j]@),
                    decreases n - i,
                {
                    if merger.input_pending(i) {
                        let ghost st_before = merger.states@;
                        let ghost pos_before = pos@;
                        if pos[i] < inputs[i].len() {
                            let item = inputs[i][pos[i]].clone();
                            let ghost item_g = item;
                            merger.feed(i, Some(item));
                            pos[i] = pos[i] + 1;
                            proof {
                                assert(pos@ == pos_before.update(i as int, pos@[i as int]));
                                assert(merger.states@ == st_before.update(
                                    i as int,
                                    merger.states@[i as int],
                                ));
                                lemma_weights_update(
                                    st_before,
                                    i as int,
                                    merger.states@[i as int],
                                );
                                lemma_remaining_update(
                                    inputs@,
                                    pos_before,
                                    i as int,
                                    pos@[i as int],
                                    0,
                                );
                                assert(item_g == inputs@[i as int]@[pos@[i as int] - 1]);
                                assert forall|ii: int, k: int|
                                    0 <= ii < n && 0 <= k < out@.len() implies match (
                                #[trigger] merger.states@[ii]).next {
                                    SlotState::Ready(v) => str_lt((#[trigger] out@[k])@, v@),
                                    _ => true,
                                } by {
                                    if ii == i {
                                        assert(str_lt(
                                            out@[k]@,
                                            inputs@[ii]@[pos_before[ii] as int]@,
                                        ));
                                    } else {
                                        assert(merger.states@[ii] == st_before[ii]);
                                    }
                                };
                                assert forall|ii: int|
                                    0 <= ii < n implies (#[trigger] wit_in[ii]).len()
                                    == done_count(merger.states@[ii], pos@[ii]) by {
                                    if ii == i {
                                        assert(done_count(merger.states@[ii], pos@[ii])
                                            == done_count(st_before[ii], pos_before[ii]));
                                    } else {
                                        assert(merger.states@[ii] == st_before[ii]);
                                        assert(pos@[ii] == pos_before[ii]);
                                    }
                                };
                            }
                        } else {
                            merger.feed(i, None);
                            proof {
                                assert(merger.states@ == st_before.update(
                                    i as int,
                                    merger.states@[i as int],
                                ));
                                lemma_weights_update(
                                    st_before,
                                    i as int,
                                    merger.states@[i as int],
                                );
                                assert forall|ii: int|
                                    0 <= ii < n implies (#[trigger] wit_in[ii]).len()
                                    == done_count(merger.states@[ii], pos@[ii]) by {
                                    if ii == i {
                                        assert(done_count(merger.states@[ii], pos@[ii])
                                            == done_count(st_before[ii], pos@[ii]));
                                    } else {
                                        assert(merger.states@[ii] == st_before[ii]);
                                    }
                                };
                            }
                        }
                    }
                    i = i + 1;
                }
                proof {
                    assert(2 * remaining_from(inputs@, pos@, 0) + weights(merger.states@) < 2
                        * remaining_from(inputs@, pre_pos, 0) + weights(pre_m.states@));
                    lemma_weights_nonneg(merger.states@);
                    lemma_remaining_nonneg(inputs@, pos@, 0);
                }
            },
        }
    }
    proof {
        assert(crate::memdb::str_set(out@) =~= inputs_value_set(inputs@)) by {
            assert forall|x: Seq<char>|
                crate::memdb::str_set(out@).contains(x) implies inputs_value_set(
                inputs@,
            ).contains(x) by {
                let k = choose|k: int| 0 <= k < out@.len() && (#[trigger] out@[k])@ == x;
                let s = wit_out[k];
                assert(0 <= s.0 < inputs@.len() && 0 <= s.1 < inputs@[s.0]@.len() && inputs@[
                s.0]@[s.1]@ == x);
            };
            assert forall|x: Seq<char>|
                inputs_value_set(inputs@).contains(x) implies crate::memdb::str_set(
                out@,
            ).contains(x) by {
                let (i, j) = choose|i: int, j: int|
                    0 <= i < inputs@.len() && 0 <= j < (#[trigger] inputs@[i])@.len() && (
                    #[trigger] inputs@[i]@[j])@ == x;
                assert(wit_in[i].len() == inputs@[i]@.len());
                let k = wit_in[i][j];
                assert(0 <= k < out@.len() && out@[k]@ == x);
            };
        };
    }
    out
}

/// The points one slot holds.
pub open spec fn slot_points(s: StreamState<ReadBatch>) -> Multiset<MergedPoint> {
    match s.next {
        SlotState::Ready(b) => b.values.spec_points(),
        _ => Multiset::empty(),
    }
}

/// The points held across all slots.
pub open spec fn total_points(ss: Seq<StreamState<ReadBatch>>) -> Multiset<MergedPoint>
    decreases ss.len(),
{
    if ss.len() == 0 {
        Multiset::empty()
    } else {
        slot_points(ss[0]).add(total_points(ss.skip(1)))
    }
}

/// Changing one slot changes the total by that slot's points.
pub proof fn lemma_total_points_update(
    ss: Seq<StreamState<ReadBatch>>,
    i: int,
    s2: StreamState<ReadBatch>,
)
    requires
        0 <= i < ss.len(),
    ensures
        total_points(ss.update(i, s2)).add(slot_points(ss[i])) == total_points(ss).add(
            slot_points(s2),
        ),
    decreases ss.len(),
{
    broadcast use vstd::multiset::group_multiset_axioms;

    if i == 0 {
        assert(ss.update(0, s2)[0] == s2);
        assert(ss.update(0, s2).skip(1) =~= ss.skip(1));
        assert(total_points(ss.update(0, s2)) == slot_points(s2).add(total_points(ss.skip(1))));
        assert(total_points(ss) == slot_points(ss[0]).add(total_points(ss.skip(1))));
        assert forall|e: MergedPoint|
            total_points(ss.update(0, s2)).add(slot_points(ss[0])).count(e) == total_points(
                ss,
            ).add(slot_points(s2)).count(e) by {
            assert(total_points(ss.update(0, s2)).count(e) == slot_points(s2).count(e)
                + total_points(ss.skip(1)).count(e));
            assert(total_points(ss).count(e) == slot_points(ss[0]).count(e) + total_points(
                ss.skip(1),
            ).count(e));
        };
        assert(total_points(ss.update(0, s2)).add(slot_points(ss[0])) =~= total_points(ss).add(
            slot_points(s2),
        ));
    } else {
        assert(ss.update(i, s2)[0] == ss[0]);
        assert(ss.update(i, s2).skip(1) =~= ss.skip(1).update(i - 1, s2));
        assert(ss.skip(1)[i - 1] == ss[i]);
        lemma_total_points_update(ss.skip(1), i - 1, s2);
        assert(total_points(ss.update(i, s2)) == slot_points(ss[0]).add(
            total_points(ss.skip(1).update(i - 1, s2)),
        ));
        assert(total_points(ss) == slot_points(ss[0]).add(total_points(ss.skip(1))));
        assert(total_points(ss.skip(1).update(i - 1, s2)).add(slot_points(ss[i]))
            == total_points(ss.skip(1)).add(slot_points(s2)));
        assert forall|e: MergedPoint|
            total_points(ss.update(i, s2)).add(slot_points(ss[i])).count(e) == total_points(
                ss,
            ).add(slot_points(s2)).count(e) by {
            assert(total_points(ss.skip(1).update(i - 1, s2)).add(slot_points(ss[i])).count(e)
                == total_points(ss.skip(1)).add(slot_points(s2)).count(e));
            assert(total_points(ss.update(i, s2)).count(e) == slot_points(ss[0]).count(e)
                + total_points(ss.skip(1).update(i - 1, s2)).count(e));
            assert(total_points(ss).count(e) == slot_points(ss[0]).count(e) + total_points(
                ss.skip(1),
            ).count(e));
        };
        assert(total_points(ss.update(i, s2)).add(slot_points(ss[i])) =~= total_points(ss).add(
            slot_points(s2),
        ));
    }
}

/// A k-way merge over keyed, time-ordered batches: batches come out in
/// ascending key order and, within one key, split so that times never
/// run backwards across emitted batches.
#[derive(Debug)]
pub struct ReadMergeStream {
    pub states: Vec<StreamState<ReadBatch>>,
    pub drained: bool,
}

impl ReadMergeStream {
    /// Every held batch is non-empty and time-sorted, and batches that
    /// share a key share a value type.
    pub open spec fn wf(self) -> bool {
        &&& forall|i: int|
            0 <= i < self.states@.len() ==> match (#[trigger] self.states@[i]).next {
                SlotState::Ready(b) => b.values.spec_len() > 0 && b.values.spec_sorted(),
                _ => true,
            }
        &&& forall|i: int, j: int|
            0 <= i < self.states@.len() && 0 <= j < self.states@.len() ==> match (
            (#[trigger] self.states@[i]).next,
            (#[trigger] self.states@[j]).next,
            ) {
                (SlotState::Ready(a), SlotState::Ready(b)) => a.key@ == b.key@ ==> (
                a.values is I64 <==> b.values is I64),
                _ => true,
            }
    }

    /// No slot is waiting for input.
    pub open spec fn all_determined(self) -> bool {
        forall|i: int|
            0 <= i < self.states@.len() ==> !((#[trigger] self.states@[i]).next is Pending)
    }

    /// Some slot holds a batch.
    pub open spec fn some_ready(self) -> bool {
        exists|i: int| 0 <= i < self.states@.len() && (#[trigger] self.states@[i]).next is Ready
    }

    /// A merge over `n` inputs, all waiting for their first batch.
    pub fn new(n: usize) -> (s: ReadMergeStream)
        ensures
            s.states@.len() == n,
            forall|i: int| 0 <= i < n ==> (#[trigger] s.states@[i]).next is Pending,
            !s.drained,
            s.wf(),
    {
        let mut states: Vec<StreamState<ReadBatch>> = Vec::new();
        let mut i: usize = 0;
        while i < n
            invariant
                i <= n,
                states@.len() == i,
                forall|j: int| 0 <= j < i ==> (#[trigger] states@[j]).next is Pending,
            decreases n - i,
        {
            states.push(StreamState { next: SlotState::Pending });
            i = i + 1;
        }
        ReadMergeStream { states, drained: false }
    }

    /// Whether slot `i` needs its next input batch.
    pub fn input_pending(&self, i: usize) -> (r: bool)
        requires
            i < self.states@.len(),
        ensures
            r <==> self.states@[i as int].next is Pending,
    {
        match self.states[i].next {
            SlotState::Pending => true,
            _ => false,
        }
    }

    /// Hands slot `i` the next batch of its input, or `None` at its
    /// end. A batch must be non-empty, time-sorted, and of the same
    /// value type as any held batch of the same key.
    pub fn feed(&mut self, i: usize, item: Option<ReadBatch>)
        requires
            i < old(self).states@.len(),
            old(self).states@[i as int].next is Pending,
            old(self).wf(),
            match item {
                Some(b) => b.values.spec_len() > 0 && b.values.spec_sorted() && forall|j: int|
                    0 <= j < old(self).states@.len() ==> match (#[trigger] old(self).states@[j]).next {
                        SlotState::Ready(c) => c.key@ == b.key@ ==> (c.values is I64 <==> b.values
                            is I64),
                        _ => true,
                    },
                None => true,
            },
        ensures
            final(self).wf(),
            final(self).states@.len() == old(self).states@.len(),
            final(self).states@[i as int].next == match item {
                Some(b) => SlotState::Ready(b),
                None => SlotState::<ReadBatch>::Exhausted,
            },
            forall|j: int|
                0 <= j < old(self).states@.len() && j != i ==> final(self).states@[j] == old(self).states@[j],
            final(self).drained == old(self).drained,
            total_points(final(self).states@) == total_points(old(self).states@).add(
                match item {
                    Some(b) => b.values.spec_points(),
                    None => Multiset::empty(),
                },
            ),
    {
        let ghost pre = self.states@;
        let ghost it = item;
        match item {
            Some(b) => {
                self.states[i].next = SlotState::Ready(b);
            },
            None => {
                self.states[i].next = SlotState::Exhausted;
            },
        }
        proof {
            assert(self.states@ == pre.update(i as int, self.states@[i as int]));
            lemma_total_points_update(pre, i as int, self.states@[i as int]);
            assert(slot_points(pre[i as int]) == Multiset::<MergedPoint>::empty());
            assert(total_points(self.states@) =~= total_points(pre).add(
                match it {
                    Some(b) => b.values.spec_points(),
                    None => Multiset::empty(),
                },
            ));
            assert forall|a: int, b: int|
                0 <= a < self.states@.len() && 0 <= b < self.states@.len() implies match (
            (#[trigger] self.states@[a]).next,
            (#[trigger] self.states@[b]).next,
            ) {
                (SlotState::Ready(x), SlotState::Ready(y)) => x.key@ == y.key@ ==> (
                x.values is I64 <==> y.values is I64),
                _ => true,
            } by {
                if a != i && b != i {
                    assert(self.states@[a] == pre[a]);
                    assert(self.states@[b] == pre[b]);
                } else if a == i && b != i {
                    assert(self.states@[b] == pre[b]);
                } else if a != i && b == i {
                    assert(self.states@[a] == pre[a]);
                }
            };
        }
    }

    /// Picks the slot holding the batch with the least key; among
    /// slots of that key, the one whose batch ends earliest. Returns
    /// the slot count when no slot holds a batch.
    fn select_leader(&self) -> (r: (usize, i64))
        requires
            self.wf(),
        ensures
            r.0 <= self.states@.len(),
            (r.0 as int) == self.states@.len() ==> forall|j: int|
                0 <= j < self.states@.len() ==> !((#[trigger] self.states@[j]).next is Ready),
            (r.0 as int) < self.states@.len() ==> match self.states@[r.0 as int].next {
                SlotState::Ready(b) => {
                    &&& b.values.spec_len() > 0
                    &&& r.1 == b.values.spec_time_at(b.values.spec_len() - 1)
                    &&& forall|j: int|
                        0 <= j < self.states@.len() ==> match (#[trigger] self.states@[j]).next {
                            SlotState::Ready(c) => str_le(b.key@, c.key@) && (c.key@ == b.key@
                                ==> r.1 <= c.values.spec_time_at(c.values.spec_len() - 1)),
                            _ => true,
                        }
                },
                _ => false,
            },
    {
        let n = self.states.len();
        let mut lead: usize = n;
        let mut lead_end: i64 = 0;
        let mut i: usize = 0;
        while i < n
            invariant
                i <= n,
                n == self.states@.len(),
                self.wf(),
                lead == n || (lead < i && (match self.states@[lead as int].next {
                    SlotState::Ready(b) => {
                        &&& b.values.spec_len() > 0
                        &&& lead_end == b.values.spec_time_at(b.values.spec_len() - 1)
                        &&& forall|j: int|
                            0 <= j < i ==> match (#[trigger] self.states@[j]).next {
                                SlotState::Ready(c) => str_le(b.key@, c.key@) && (c.key@ == b.key@
                                    ==> lead_end <= c.values.spec_time_at(
                                    c.values.spec_len() - 1,
                                )),
                                _ => true,
                            }
                    },
                    _ => false,
                })),
                lead == n ==> forall|j: int|
                    0 <= j < i ==> !((#[trigger] self.states@[j]).next is Ready),
            decreases n - i,
        {
            let is_ready = match &self.states[i].next {
                SlotState::Ready(_) => true,
                _ => false,
            };
            if is_ready {
                if lead >= n {
                    let end = match &self.states[i].next {
                        SlotState::Ready(b) => b.start_stop_times().1,
                        _ => 0,
                    };
                    lead = i;
                    lead_end = end;
                } else {
                    let (cmp, end) = match (&self.states[i].next, &self.states[lead].next) {
                        (SlotState::Ready(b), SlotState::Ready(l)) => (
                            str_compare(b.key.as_str(), l.key.as_str()),
                            b.start_stop_times().1,
                        ),
                        _ => (KeyOrder::Equal, 0),
                    };
                    if cmp == KeyOrder::Less {
                        proof {
                            let bk = match self.states@[i as int].next {
                                SlotState::Ready(b) => b.key@,
                                _ => Seq::empty(),
                            };
                            let lk = match self.states@[lead as int].next {
                                SlotState::Ready(l) => l.key@,
                                _ => Seq::empty(),
                            };
                            assert forall|j: int|
                                0 <= j < i implies match (#[trigger] self.states@[j]).next {
                                SlotState::Ready(c) => str_le(bk, c.key@) && (c.key@ == bk
                                    ==> end <= c.values.spec_time_at(c.values.spec_len() - 1)),
                                _ => true,
                            } by {
                                match self.states@[j].next {
                                    SlotState::Ready(c) => {
                                        if lk == c.key@ {
                                        } else {
                                            lemma_str_lt_trans(bk, lk, c.key@);
                                        }
                                        if c.key@ == bk {
                                            lemma_str_trichotomy(bk, lk);
                                        }
                                    },
                                    _ => {},
                                }
                            };
                        }
                        lead = i;
                        lead_end = end;
                    } else if cmp == KeyOrder::Equal {
                        if end < lead_end {
                            lead = i;
                            lead_end = end;
                        } else {
                            proof {
                                lemma_str_trichotomy(
                                    match self.states@[lead as int].next {
                                        SlotState::Ready(l) => l.key@,
                                        _ => Seq::empty(),
                                    },
                                    match self.states@[i as int].next {
                                        SlotState::Ready(b) => b.key@,
                                        _ => Seq::empty(),
                                    },
                                );
                            }
                        }
                    } else {
                        proof {
                            lemma_str_trichotomy(
                                match self.states@[lead as int].next {
                                    SlotState::Ready(l) => l.key@,
                                    _ => Seq::empty(),
                                },
                                match self.states@[i as int].next {
                                    SlotState::Ready(b) => b.key@,
                                    _ => Seq::empty(),
                                },
                            );
                        }
                    }
                }
            }
            i = i + 1;
        }
        (lead, lead_end)
    }

    /// Moves, from every other slot holding the same key, the points
    /// at or before `tstar` into `batch`; fully drained slots become
    /// pending again.
    fn drain_same_key(
        &mut self,
        lead: usize,
        tstar: i64,
        batch: &mut ReadBatch,
        Ghost(pre): Ghost<ReadMergeStream>,
    )
        requires
            old(self).states@.len() == pre.states@.len(),
            (lead as int) < pre.states@.len(),
            pre.wf(),
            old(self).drained == pre.drained,
            pre.states@[lead as int].next matches SlotState::Ready(lb) && {
                &&& lb.values.spec_len() > 0
                &&& lb.values.spec_sorted()
                &&& tstar == lb.values.spec_time_at(lb.values.spec_len() - 1)
                &&& old(batch).key == lb.key
                &&& (old(batch).values is I64 <==> lb.values is I64)
            },
            forall|j: int|
                0 <= j < pre.states@.len() ==> match (#[trigger] pre.states@[j]).next {
                    SlotState::Ready(c) => str_le(old(batch).key@, c.key@) && (c.key@ == old(batch).key@ ==> tstar <= c.values.spec_time_at(c.values.spec_len() - 1)),
                    _ => true,
                },
            old(self).states@[lead as int].next is Pending,
            forall|j: int|
                0 <= j < pre.states@.len() && j != lead ==> (#[trigger] old(self).states@[j])
                    == pre.states@[j],
            old(batch).values.spec_len() > 0,
            exists|p: int|
                0 <= p < old(batch).values.spec_len() && #[trigger] old(batch).values.spec_time_at(p) == tstar,
            forall|p: int|
                0 <= p < old(batch).values.spec_len() ==> old(batch).values.spec_time_at(p)
                    <= tstar,
            old(batch).values.spec_points().add(total_points(old(self).states@))
                == total_points(pre.states@),
        ensures
            final(self).states@.len() == pre.states@.len(),
            final(self).drained == old(self).drained,
            final(self).states@[lead as int].next is Pending,
            final(batch).key == old(batch).key,
            final(batch).values is I64 <==> old(batch).values is I64,
            final(batch).values.spec_len() > 0,
            exists|p: int|
                0 <= p < final(batch).values.spec_len() && #[trigger] final(batch).values.spec_time_at(p) == tstar,
            forall|p: int|
                0 <= p < final(batch).values.spec_len() ==> final(batch).values.spec_time_at(p)
                    <= tstar,
            final(batch).values.spec_points().add(total_points(final(self).states@))
                == total_points(pre.states@),
            forall|j: int|
                0 <= j < pre.states@.len() && j != lead ==> match (
                #[trigger] pre.states@[j]).next {
                    SlotState::Ready(c) => if c.key@ == old(batch).key@ {
                        (final(self).states@[j].next is Pending || (final(self).states@[j].next
                            matches SlotState::Ready(c2) && c2.key@ == c.key@ && (c2.values
                            is I64 <==> c.values is I64) && c2.values.spec_len() > 0
                            && c2.values.spec_sorted() && (forall|p: int|
                            0 <= p < c2.values.spec_len() ==> c2.values.spec_time_at(p)
                                > tstar))) && drained_slot(c, final(self).states@[j].next, tstar)
                    } else {
                        final(self).states@[j] == pre.states@[j]
                    },
                    _ => final(self).states@[j] == pre.states@[j],
                },
    {
        let n = self.states.len();
        let mut i: usize = 0;
        while i < n
            invariant
                i <= n,
                n == self.states@.len(),
                pre.states@.len() == n,
                pre.wf(),
                0 <= lead < n,
                batch.key == old(batch).key,
                (batch.values is I64 <==> old(batch).values is I64),
                self.drained == pre.drained,
                pre.states@[lead as int].next matches SlotState::Ready(lb) && {
                    &&& lb.values.spec_len() > 0
                    &&& lb.values.spec_sorted()
                    &&& tstar == lb.values.spec_time_at(lb.values.spec_len() - 1)
                    &&& batch.key == lb.key
                    &&& (batch.values is I64 <==> lb.values is I64)
                },
                forall|j: int|
                    0 <= j < n ==> match (#[trigger] pre.states@[j]).next {
                        SlotState::Ready(c) => str_le(batch.key@, c.key@) && (c.key@ == batch.key@
                            ==> tstar <= c.values.spec_time_at(c.values.spec_len() - 1)),
                        _ => true,
                    },
                self.states@[lead as int].next is Pending,
                batch.values.spec_len() > 0,
                exists|p: int|
                    0 <= p < batch.values.spec_len() && #[trigger] batch.values.spec_time_at(p)
                        == tstar,
                forall|p: int|
                    0 <= p < batch.values.spec_len() ==> batch.values.spec_time_at(p) <= tstar,
                batch.values.spec_points().add(total_points(self.states@)) == total_points(
                    pre.states@,
                ),
                forall|j: int|
                    i <= j < n && j != lead ==> (#[trigger] self.states@[j]) == pre.states@[j],
                forall|j: int|
                    0 <= j < n && j != lead ==> match (#[trigger] pre.states@[j]).next {
                        SlotState::Ready(c) => if c.key@ == batch.key@ && j < i {
                            (self.states@[j].next is Pending || (self.states@[j].next
                                matches SlotState::Ready(c2) && c2.key@ == c.key@ && (c2.values
                                is I64 <==> c.values is I64) && c2.values.spec_len() > 0
                                && c2.values.spec_sorted() && (forall|p: int|
                                0 <= p < c2.values.spec_len() ==> c2.values.spec_time_at(p)
                                    > tstar))) && drained_slot(c, self.states@[j].next, tstar)
                        } else {
                            self.states@[j] == pre.states@[j]
                        },
                        _ => self.states@[j] == pre.states@[j],
                    },
            decreases n - i,
        {
            if i != lead {
                let same_key = match &self.states[i].next {
                    SlotState::Ready(b) => str_compare(b.key.as_str(), batch.key.as_str())
                        == KeyOrder::Equal,
                    _ => false,
                };
                if same_key {
                    let ghost st_before = self.states@;
                    let ghost batch_before = *batch;
                    let mut cleared = false;
                    match &mut self.states[i].next {
                        SlotState::Ready(b) => {
                            proof {
                                lemma_first_after_window(b.values, tstar);
                            }
                            cleared = batch.append_below_time(b, tstar);
                        },
                        _ => {},
                    }
                    proof {
                        broadcast use vstd::multiset::group_multiset_axioms;

                        assert(self.states@ == st_before.update(
                            i as int,
                            self.states@[i as int],
                        ));
                        lemma_total_points_update(
                            st_before,
                            i as int,
                            self.states@[i as int],
                        );
                        lemma_append_points(
                            batch_before,
                            *batch,
                            st_before[i as int],
                            self.states@[i as int],
                            tstar,
                        );
                        let w = choose|p: int|
                            0 <= p < batch_before.values.spec_len()
                                && #[trigger] batch_before.values.spec_time_at(p) == tstar;
                        assert(batch.values.spec_time_at(w) == tstar);
                        assert forall|e: MergedPoint|
                            batch.values.spec_points().add(total_points(self.states@)).count(e)
                                == total_points(pre.states@).count(e) by {
                            assert(total_points(self.states@).add(
                                slot_points(st_before[i as int]),
                            ).count(e) == total_points(st_before).add(
                                slot_points(self.states@[i as int]),
                            ).count(e));
                            assert(batch.values.spec_points().add(
                                slot_points(self.states@[i as int]),
                            ).count(e) == batch_before.values.spec_points().add(
                                slot_points(st_before[i as int]),
                            ).count(e));
                            assert(batch_before.values.spec_points().add(
                                total_points(st_before),
                            ).count(e) == total_points(pre.states@).count(e));
                        };
                        assert(batch.values.spec_points().add(total_points(self.states@))
                            =~= total_points(pre.states@));
                        assert(st_before[i as int] == pre.states@[i as int]);
                        if !cleared {
                            match st_before[i as int].next {
                                SlotState::Ready(c0) => {
                                    match c0.values {
                                        ReadValues::I64(cv) => {
                                            lemma_first_after(cv@, tstar);
                                        },
                                        ReadValues::F64(cv) => {
                                            lemma_first_after(cv@, tstar);
                                        },
                                    }
                                },
                                _ => {},
                            }
                            assert(self.states@[i as int].next matches SlotState::Ready(c2x)
                                && c2x.values.spec_len() > 0);
                        }
                    }
                    if cleared {
                        let ghost st2 = self.states@;
                        self.states[i].next = SlotState::Pending;
                        proof {
                            broadcast use vstd::multiset::group_multiset_axioms;
                            broadcast use vstd::seq_lib::group_to_multiset_ensures;

                            assert(self.states@ == st2.update(i as int, self.states@[i as int]));
                            lemma_total_points_update(st2, i as int, self.states@[i as int]);
                            assert(slot_points(self.states@[i as int])
                                == Multiset::<MergedPoint>::empty());
                            assert(slot_points(st2[i as int]) =~= Multiset::<
                                MergedPoint,
                            >::empty()) by {
                                match st2[i as int].next {
                                    SlotState::Ready(b0) => {
                                        assert(b0.values.spec_len() == 0);
                                        match b0.values {
                                            ReadValues::I64(v0) => {
                                                assert(v0@.map_values(
                                                    |p: ReadPoint<i64>| MergedPoint::I(
                                                        p.time,
                                                        p.value,
                                                    ),
                                                ) =~= Seq::<MergedPoint>::empty());
                                                Seq::<MergedPoint>::empty().to_multiset_ensures();
                                            },
                                            ReadValues::F64(v0) => {
                                                assert(v0@.map_values(
                                                    |p: ReadPoint<u64>| MergedPoint::F(
                                                        p.time,
                                                        p.value,
                                                    ),
                                                ) =~= Seq::<MergedPoint>::empty());
                                                Seq::<MergedPoint>::empty().to_multiset_ensures();
                                            },
                                        }
                                    },
                                    _ => {},
                                }
                            };
                            assert forall|e: MergedPoint|
                                batch.values.spec_points().add(
                                    total_points(self.states@),
                                ).count(e) == total_points(pre.states@).count(e) by {
                                assert(total_points(self.states@).add(
                                    slot_points(st2[i as int]),
                                ).count(e) == total_points(st2).add(
                                    slot_points(self.states@[i as int]),
                                ).count(e));
                                assert(batch.values.spec_points().add(total_points(st2)).count(e)
                                    == total_points(pre.states@).count(e));
                            };
                            assert(batch.values.spec_points().add(total_points(self.states@))
                                =~= total_points(pre.states@));
                        }
                    }
                    proof {
                        match pre.states@[i as int].next {
                            SlotState::Ready(c) => {
                                assert(drained_slot(c, self.states@[i as int].next, tstar)) by {
                                    match c.values {
                                        ReadValues::I64(bv) => {
                                            lemma_first_after(bv@, tstar);
                                        },
                                        ReadValues::F64(bv) => {
                                            lemma_first_after(bv@, tstar);
                                        },
                                    }
                                };
                            },
                            _ => {},
                        }
                    }
                }
            }
            i = i + 1;
        }
    }

}


// ---------------------------------------------------------------------------
// The read-merge conservation law on complete inputs: driving the
// machine over whole inputs emits exactly the points the inputs held,
// as a multiset.

/// The points of the batches of `bs` from index `k` on.
pub open spec fn batches_points_from(bs: Seq<ReadBatch>, k: int) -> Multiset<MergedPoint>
    decreases bs.len() - k,
{
    if k < 0 || k >= bs.len() {
        Multiset::empty()
    } else {
        bs[k].values.spec_points().add(batches_points_from(bs, k + 1))
    }
}

/// The points of the not-yet-fed batches of every input.
pub open spec fn inputs_points_from(
    inputs: Seq<Vec<ReadBatch>>,
    pos: Seq<usize>,
    i: int,
) -> Multiset<MergedPoint>
    decreases inputs.len() - i,
{
    if i < 0 || i >= inputs.len() {
        Multiset::empty()
    } else {
        batches_points_from(inputs[i]@, pos[i] as int).add(inputs_points_from(inputs, pos, i + 1))
    }
}

/// The points of every batch of every input.
pub open spec fn inputs_all_points(inputs: Seq<Vec<ReadBatch>>, i: int) -> Multiset<MergedPoint>
    decreases inputs.len() - i,
{
    if i < 0 || i >= inputs.len() {
        Multiset::empty()
    } else {
        batches_points_from(inputs[i]@, 0).add(inputs_all_points(inputs, i + 1))
    }
}

proof fn lemma_batches_points_push(bs: Seq<ReadBatch>, b: ReadBatch, k: int)
    requires
        0 <= k <= bs.len(),
    ensures
        batches_points_from(bs.push(b), k) == batches_points_from(bs, k).add(
            b.values.spec_points(),
        ),
    decreases bs.len() - k,
{
    broadcast use vstd::multiset::group_multiset_axioms;

    if k == bs.len() {
        assert(bs.push(b)[k] == b);
        assert(batches_points_from(bs.push(b), k) == b.values.spec_points().add(
            batches_points_from(bs.push(b), k + 1),
        ));
        assert(batches_points_from(bs.push(b), k) =~= batches_points_from(bs, k).add(
            b.values.spec_points(),
        ));
    } else {
        assert(bs.push(b)[k] == bs[k]);
        lemma_batches_points_push(bs, b, k + 1);
        assert(batches_points_from(bs.push(b), k) =~= batches_points_from(bs, k).add(
            b.values.spec_points(),
        ));
    }
}

proof fn lemma_inputs_points_feed(
    inputs: Seq<Vec<ReadBatch>>,
    pos: Seq<usize>,
    i: int,
    k: int,
)
    requires
        pos.len() == inputs.len(),
        0 <= i < inputs.len(),
        (pos[i] as int) < inputs[i]@.len(),
        (pos[i] as int) + 1 <= usize::MAX,
        0 <= k <= inputs.len(),
    ensures
        inputs_points_from(inputs, pos, k) == inputs_points_from(
            inputs,
            pos.update(i, (pos[i] + 1) as usize),
            k,
        ).add(
            if k <= i {
                inputs[i]@[pos[i] as int].values.spec_points()
            } else {
                Multiset::empty()
            },
        ),
    decreases inputs.len() - k,
{
    broadcast use vstd::multiset::group_multiset_axioms;

    let pos2 = pos.update(i, (pos[i] + 1) as usize);
    if k < inputs.len() {
        lemma_inputs_points_feed(inputs, pos, i, k + 1);
        if k == i {
            assert(batches_points_from(inputs[i]@, pos[i] as int) == inputs[i]@[
            pos[i] as int].values.spec_points().add(
                batches_points_from(inputs[i]@, pos[i] + 1),
            ));
            assert(pos2[k] as int == pos[i] + 1);
            assert(inputs_points_from(inputs, pos, k) =~= inputs_points_from(
                inputs,
                pos2,
                k,
            ).add(inputs[i]@[pos[i] as int].values.spec_points()));
        } else {
            assert(pos2[k] == pos[k]);
            if k <= i {
                assert(inputs_points_from(inputs, pos, k) =~= inputs_points_from(
                    inputs,
                    pos2,
                    k,
                ).add(inputs[i]@[pos[i] as int].values.spec_points()));
            } else {
                assert(inputs_points_from(inputs, pos, k) =~= inputs_points_from(
                    inputs,
                    pos2,
                    k,
                ).add(Multiset::empty()));
            }
        }
    } else {
        assert(inputs_points_from(inputs, pos, k) =~= inputs_points_from(inputs, pos2, k).add(
            Multiset::empty(),
        ));
    }
}

proof fn lemma_inputs_points_zero(inputs: Seq<Vec<ReadBatch>>, pos: Seq<usize>, i: int)
    requires
        pos.len() == inputs.len(),
        forall|k: int| 0 <= k < pos.len() ==> (#[trigger] pos[k]) == 0,
        0 <= i,
    ensures
        inputs_points_from(inputs, pos, i) == inputs_all_points(inputs, i),
    decreases inputs.len() - i,
{
    if i < inputs.len() {
        lemma_inputs_points_zero(inputs, pos, i + 1);
    }
}

proof fn lemma_inputs_points_exhausted(
    inputs: Seq<Vec<ReadBatch>>,
    pos: Seq<usize>,
    i: int,
)
    requires
        pos.len() == inputs.len(),
        forall|k: int| 0 <= k < pos.len() ==> (#[trigger] pos[k]) as int == inputs[k]@.len(),
        0 <= i,
    ensures
        inputs_points_from(inputs, pos, i) == Multiset::<MergedPoint>::empty(),
    decreases inputs.len() - i,
{
    broadcast use vstd::multiset::group_multiset_axioms;

    if i < inputs.len() {
        lemma_inputs_points_exhausted(inputs, pos, i + 1);
        assert(inputs_points_from(inputs, pos, i) =~= Multiset::<MergedPoint>::empty());
    }
}

proof fn lemma_total_points_all_idle(ss: Seq<StreamState<ReadBatch>>)
    requires
        forall|i: int| 0 <= i < ss.len() ==> !((#[trigger] ss[i]).next is Ready),
    ensures
        total_points(ss) == Multiset::<MergedPoint>::empty(),
    decreases ss.len(),
{
    broadcast use vstd::multiset::group_multiset_axioms;

    if ss.len() > 0 {
        assert forall|i: int|
            0 <= i < ss.skip(1).len() implies !((#[trigger] ss.skip(1)[i]).next is Ready) by {
            assert(ss.skip(1)[i] == ss[i + 1]);
        };
        lemma_total_points_all_idle(ss.skip(1));
        assert(total_points(ss) =~= Multiset::<MergedPoint>::empty());
    }
}

/// Copies a batch, point for point.
fn clone_read_batch(b: &ReadBatch) -> (r: ReadBatch)
    ensures
        r.key == b.key,
        match (b.values, r.values) {
            (ReadValues::I64(x), ReadValues::I64(y)) => y@ == x@,
            (ReadValues::F64(x), ReadValues::F64(y)) => y@ == x@,
            _ => false,
        },
{
    let values = match &b.values {
        ReadValues::I64(v) => ReadValues::I64(clone_points(v)),
        ReadValues::F64(v) => ReadValues::F64(clone_points(v)),
    };
    ReadBatch { key: b.key.clone(), values }
}

fn clone_points<T: Copy>(v: &Vec<ReadPoint<T>>) -> (r: Vec<ReadPoint<T>>)
    ensures
        r@ == v@,
{
    let mut r: Vec<ReadPoint<T>> = Vec::new();
    let n = v.len();
    let mut i: usize = 0;
    while i < n
        invariant
            i <= n,
            n == v@.len(),
            r@ == v@.take(i as int),
        decreases n - i,
    {
        r.push(v[i]);
        proof {
            assert(v@.take(i as int + 1) =~= v@.take(i as int).push(v@[i as int]));
        }
        i = i + 1;
    }
    proof {
        assert(v@.take(n as int) =~= v@);
    }
    r
}

/// Merges the given keyed batch inputs completely: the multiset of all
/// emitted points equals the multiset of all input points — nothing is
/// lost, duplicated or invented. Inputs must hold non-empty,
/// time-sorted batches, and batches of one key must share a value type
/// across all inputs.
#[verifier::spinoff_prover]
#[verifier::rlimit(100)]
pub fn merge_read_all(inputs: &Vec<Vec<ReadBatch>>) -> (out: Vec<ReadBatch>)
    requires
        forall|i: int, j: int|
            #![trigger inputs@[i]@[j]]
            0 <= i < inputs@.len() && 0 <= j < inputs@[i]@.len() ==> inputs@[i]@[
            j].values.spec_len() > 0 && inputs@[i]@[j].values.spec_sorted(),
        forall|i1: int, j1: int, i2: int, j2: int|
            #![trigger inputs@[i1]@[j1], inputs@[i2]@[j2]]
            0 <= i1 < inputs@.len() && 0 <= j1 < inputs@[i1]@.len() && 0 <= i2 < inputs@.len()
                && 0 <= j2 < inputs@[i2]@.len() && inputs@[i1]@[j1].key@ == inputs@[i2]@[j2].key@
                ==> (inputs@[i1]@[j1].values is I64 <==> inputs@[i2]@[j2].values is I64),
    ensures
        batches_points_from(out@, 0) == inputs_all_points(inputs@, 0),
{
    let n = inputs.len();
    let mut merger = ReadMergeStream::new(n);
    let mut pos: Vec<usize> = Vec::new();
    let mut i0: usize = 0;
    while i0 < n
        invariant
            i0 <= n,
            pos@.len() == i0,
            forall|i: int| 0 <= i < i0 ==> (#[trigger] pos@[i]) == 0,
        decreases n - i0,
    {
        pos.push(0);
        i0 = i0 + 1;
    }
    let mut out: Vec<ReadBatch> = Vec::new();
    // ghost source of each held batch's key and type
    let ghost mut wit_slot: Seq<(int, int)> = Seq::new(n as nat, |i: int| (0int, 0int));
    proof {
        broadcast use vstd::multiset::group_multiset_axioms;

        lemma_inputs_points_zero(inputs@, pos@, 0);
        assert(total_points(merger.states@) =~= Multiset::<MergedPoint>::empty()) by {
            lemma_total_points_all_idle(merger.states@);
        };
        assert(batches_points_from(out@, 0).add(total_points(merger.states@)).add(
            inputs_points_from(inputs@, pos@, 0),
        ) =~= inputs_all_points(inputs@, 0));
    }
    loop
        invariant_except_break
            n == inputs@.len(),
            forall|i: int, j: int|
                #![trigger inputs@[i]@[j]]
                0 <= i < n && 0 <= j < inputs@[i]@.len() ==> inputs@[i]@[j].values.spec_len() > 0
                    && inputs@[i]@[j].values.spec_sorted(),
            forall|i1: int, j1: int, i2: int, j2: int|
                #![trigger inputs@[i1]@[j1], inputs@[i2]@[j2]]
                0 <= i1 < n && 0 <= j1 < inputs@[i1]@.len() && 0 <= i2 < n && 0 <= j2
                    < inputs@[i2]@.len() && inputs@[i1]@[j1].key@ == inputs@[i2]@[j2].key@ ==> (
                inputs@[i1]@[j1].values is I64 <==> inputs@[i2]@[j2].values is I64),
            merger.states@.len() == n,
            merger.wf(),
            pos@.len() == n,
            !merger.drained,
            forall|i: int| 0 <= i < n ==> (#[trigger] pos@[i]) <= inputs@[i]@.len(),
            wit_slot.len() == n,
            forall|i: int|
                0 <= i < n ==> match (#[trigger] merger.states@[i]).next {
                    SlotState::Ready(b) => {
                        let s = wit_slot[i];
                        &&& 0 <= s.0 < n
                        &&& 0 <= s.1 < inputs@[s.0]@.len()
                        &&& b.key@ == inputs@[s.0]@[s.1].key@
                        &&& (b.values is I64 <==> inputs@[s.0]@[s.1].values is I64)
                    },
                    SlotState::Exhausted => pos@[i] as int == inputs@[i]@.len(),
                    SlotState::Pending => true,
                },
            batches_points_from(out@, 0).add(total_points(merger.states@)).add(
                inputs_points_from(inputs@, pos@, 0),
            ) == inputs_all_points(inputs@, 0),
        ensures
            n == inputs@.len(),
            pos@.len() == n,
            merger.states@.len() == n,
            forall|i: int| 0 <= i < n ==> !((#[trigger] merger.states@[i]).next is Ready),
            forall|i: int| 0 <= i < n ==> (#[trigger] pos@[i]) as int == inputs@[i]@.len(),
            batches_points_from(out@, 0).add(total_points(merger.states@)).add(
                inputs_points_from(inputs@, pos@, 0),
            ) == inputs_all_points(inputs@, 0),
        decreases 2 * remaining_from(inputs@, pos@, 0) + weights(merger.states@),
    {
        proof {
            lemma_weights_nonneg(merger.states@);
            lemma_remaining_nonneg(inputs@, pos@, 0);
        }
        let ghost pre_m = merger;
        let ghost pre_pos = pos@;
        let ghost pre_out = out@;
        let r = merger.poll_next();
        match r {
            MergePoll::Ready(None) => {
                proof {
                    assert(pre_m.all_determined() && !pre_m.some_ready());
                    assert forall|i: int|
                        0 <= i < n implies !((#[trigger] merger.states@[i]).next is Ready) by {
                        assert(merger.states@[i] == pre_m.states@[i]);
                        assert(!(pre_m.states@[i].next is Pending));
                        assert(!(pre_m.states@[i].next is Ready));
                    };
                    assert forall|i: int|
                        0 <= i < n implies (#[trigger] pos@[i]) as int
                        == inputs@[i]@.len() by {
                        assert(merger.states@[i] == pre_m.states@[i]);
                        assert(!(pre_m.states@[i].next is Pending));
                        assert(!(pre_m.states@[i].next is Ready));
                    };
                }
                break ;
            },
            MergePoll::Ready(Some(batch)) => {
                proof {
                    assert(pre_m.all_determined() && pre_m.some_ready());
                }
                let ghost batch_g = batch;
                out.push(batch);
                proof {
                    broadcast use vstd::multiset::group_multiset_axioms;

                    assert(out@ == pre_out.push(batch_g));
                    lemma_batches_points_push(pre_out, batch_g, 0);
                    assert(batch_g.values.spec_points().add(total_points(merger.states@))
                        == total_points(pre_m.states@));
                    assert forall|e: MergedPoint|
                        batches_points_from(out@, 0).add(total_points(merger.states@)).add(
                            inputs_points_from(inputs@, pos@, 0),
                        ).count(e) == inputs_all_points(inputs@, 0).count(e) by {
                        assert(batches_points_from(out@, 0).count(e) == batches_points_from(
                            pre_out,
                            0,
                        ).count(e) + batch_g.values.spec_points().count(e));
                        assert(batch_g.values.spec_points().count(e) + total_points(
                            merger.states@,
                        ).count(e) == total_points(pre_m.states@).count(e));
                        assert(batches_points_from(pre_out, 0).count(e) + total_points(
                            pre_m.states@,
                        ).count(e) + inputs_points_from(inputs@, pos@, 0).count(e)
                            == inputs_all_points(inputs@, 0).count(e));
                    };
                    assert(batches_points_from(out@, 0).add(total_points(merger.states@)).add(
                        inputs_points_from(inputs@, pos@, 0),
                    ) =~= inputs_all_points(inputs@, 0));
                    // the held batches keep their key and type through
                    // the drain, so the slot sources stay right
                    let lead = choose|lead: int|
                        #![trigger pre_m.states@[lead]]
                        {
                            &&& 0 <= lead < pre_m.states@.len()
                            &&& pre_m.states@[lead].next matches SlotState::Ready(lb2) && {
                                &&& lb2.key@ == batch_g.key@
                                &&& lb2.values.spec_len() > 0
                                &&& lb2.values.spec_time_at(lb2.values.spec_len() - 1)
                                    == batch_g.values.spec_time_at(
                                    batch_g.values.spec_len() - 1,
                                )
                                &&& forall|i: int|
                                    0 <= i < pre_m.states@.len() ==> match (
                                    #[trigger] pre_m.states@[i]).next {
                                        SlotState::Ready(b) => b.key@ == batch_g.key@
                                            ==> lb2.values.spec_time_at(
                                            lb2.values.spec_len() - 1,
                                        ) <= b.values.spec_time_at(b.values.spec_len() - 1),
                                        _ => true,
                                    }
                            }
                            &&& merger.states@[lead].next is Pending
                            &&& forall|i: int|
                                0 <= i < pre_m.states@.len() && i != lead ==> match (
                                #[trigger] pre_m.states@[i]).next {
                                    SlotState::Ready(b) => if b.key@ == batch_g.key@ {
                                        drained_slot(
                                            b,
                                            merger.states@[i].next,
                                            batch_g.values.spec_time_at(
                                                batch_g.values.spec_len() - 1,
                                            ),
                                        )
                                    } else {
                                        merger.states@[i] == pre_m.states@[i]
                                    },
                                    _ => merger.states@[i] == pre_m.states@[i],
                                }
                        };
                    assert forall|i: int|
                        0 <= i < n implies match (#[trigger] merger.states@[i]).next {
                        SlotState::Ready(b) => {
                            let s = wit_slot[i];
                            &&& 0 <= s.0 < n
                            &&& 0 <= s.1 < inputs@[s.0]@.len()
                            &&& b.key@ == inputs@[s.0]@[s.1].key@
                            &&& (b.values is I64 <==> inputs@[s.0]@[s.1].values is I64)
                        },
                        SlotState::Exhausted => pos@[i] as int == inputs@[i]@.len(),
                        SlotState::Pending => true,
                    } by {
                        if i != lead {
                            match pre_m.states@[i].next {
                                SlotState::Ready(b) => {
                                    if b.key@ == batch_g.key@ {
                                        match b.values {
                                            ReadValues::I64(bv) => {},
                                            ReadValues::F64(bv) => {},
                                        }
                                    } else {
                                        assert(merger.states@[i] == pre_m.states@[i]);
                                    }
                                },
                                _ => {
                                    assert(merger.states@[i] == pre_m.states@[i]);
                                },
                            }
                        }
                    };
                    // the measure: the leader was consumed
                    assert forall|i: int|
                        0 <= i < pre_m.states@.len() implies slot_weight(
                        #[trigger] merger.states@[i],
                    ) <= slot_weight(pre_m.states@[i]) by {
                        if i != lead {
                            match pre_m.states@[i].next {
                                SlotState::Ready(b) => {
                                    if b.key@ == batch_g.key@ {
                                        match b.values {
                                            ReadValues::I64(bv) => {},
                                            ReadValues::F64(bv) => {},
                                        }
                                    } else {
                                        assert(merger.states@[i] == pre_m.states@[i]);
                                    }
                                },
                                _ => {
                                    assert(merger.states@[i] == pre_m.states@[i]);
                                },
                            }
                        }
                    };
                    assert(slot_weight(merger.states@[lead]) < slot_weight(
                        pre_m.states@[lead],
                    ));
                    lemma_weights_consumed(pre_m.states@, merger.states@, lead);
                    assert(2 * remaining_from(inputs@, pos@, 0) + weights(merger.states@) < 2
                        * remaining_from(inputs@, pre_pos, 0) + weights(pre_m.states@));
                    lemma_weights_nonneg(merger.states@);
                    lemma_remaining_nonneg(inputs@, pos@, 0);
                }
            },
            MergePoll::Pending => {
                proof {
                    assert(merger == pre_m);
                    assert(!pre_m.all_determined());
                }
                let ghost s0 = choose|i: int|
                    0 <= i < merger.states@.len() && (#[trigger] merger.states@[i]).next
                        is Pending;
                let mut i: usize = 0;
                while i < n
                    invariant
                        i <= n,
                        n == inputs@.len(),
                        forall|ii: int, j: int|
                            #![trigger inputs@[ii]@[j]]
                            0 <= ii < n && 0 <= j < inputs@[ii]@.len() ==> inputs@[ii]@[
                            j].values.spec_len() > 0 && inputs@[ii]@[j].values.spec_sorted(),
                        forall|i1: int, j1: int, i2: int, j2: int|
                            #![trigger inputs@[i1]@[j1], inputs@[i2]@[j2]]
                            0 <= i1 < n && 0 <= j1 < inputs@[i1]@.len() && 0 <= i2 < n && 0 <= j2
                                < inputs@[i2]@.len() && inputs@[i1]@[j1].key@ == inputs@[i2]@[
                            j2].key@ ==> (inputs@[i1]@[j1].values is I64 <==> inputs@[i2]@[
                            j2].values is I64),
                        merger.states@.len() == n,
                        merger.wf(),
                        pos@.len() == n,
                        !merger.drained,
                        0 <= s0 < n,
                        pre_m.states@[s0].next is Pending,
                        forall|ii: int|
                            i <= ii < n ==> (#[trigger] merger.states@[ii])
                                == pre_m.states@[ii],
                        forall|ii: int| i <= ii < n ==> (#[trigger] pos@[ii]) == pre_pos[ii],
                        s0 < i ==> 2 * remaining_from(inputs@, pos@, 0) + weights(merger.states@)
                            < 2 * remaining_from(inputs@, pre_pos, 0) + weights(pre_m.states@),
                        2 * remaining_from(inputs@, pos@, 0) + weights(merger.states@) <= 2
                            * remaining_from(inputs@, pre_pos, 0) + weights(pre_m.states@),
                        out@ == pre_out,
                        forall|ii: int|
                            0 <= ii < n ==> (#[trigger] pos@[ii]) <= inputs@[ii]@.len(),
                        wit_slot.len() == n,
                        forall|ii: int|
                            0 <= ii < n ==> match (#[trigger] merger.states@[ii]).next {
                                SlotState::Ready(b) => {
                                    let s = wit_slot[ii];
                                    &&& 0 <= s.0 < n
                                    &&& 0 <= s.1 < inputs@[s.0]@.len()
                                    &&& b.key@ == inputs@[s.0]@[s.1].key@
                                    &&& (b.values is I64 <==> inputs@[s.0]@[s.1].values is I64)
                                },
                                SlotState::Exhausted => pos@[ii] as int == inputs@[ii]@.len(),
                                SlotState::Pending => true,
                            },
                        batches_points_from(out@, 0).add(total_points(merger.states@)).add(
                            inputs_points_from(inputs@, pos@, 0),
                        ) == inputs_all_points(inputs@, 0),
                    decreases n - i,
                {
                    if merger.input_pending(i) {
                        let ghost st_before = merger.states@;
                        let ghost pos_before = pos@;
                        if pos[i] < inputs[i].len() {
                            let item = clone_read_batch(&inputs[i][pos[i]]);
                            let ghost item_g = item;
                            proof {
                                let src_b = inputs@[i as int]@[pos@[i as int] as int];
                                assert(item_g.key@ == src_b.key@);
                                assert(item_g.values.spec_points() == src_b.values.spec_points());
                                assert(item_g.values.spec_len() == src_b.values.spec_len());
                                assert(item_g.values.spec_sorted() == src_b.values.spec_sorted());
                                assert(item_g.values is I64 <==> src_b.values is I64);
                                assert forall|jj: int|
                                    0 <= jj < merger.states@.len() implies match (
                                #[trigger] merger.states@[jj]).next {
                                    SlotState::Ready(c) => c.key@ == item_g.key@ ==> (c.values
                                        is I64 <==> item_g.values is I64),
                                    _ => true,
                                } by {
                                    match merger.states@[jj].next {
                                        SlotState::Ready(c) => {
                                            let s = wit_slot[jj];
                                            assert(c.key@ == inputs@[s.0]@[s.1].key@);
                                        },
                                        _ => {},
                                    }
                                };
                            }
                            merger.feed(i, Some(item));
                            pos[i] = pos[i] + 1;
                            proof {
                                broadcast use vstd::multiset::group_multiset_axioms;

                                wit_slot = wit_slot.update(
                                    i as int,
                                    (i as int, pos_before[i as int] as int),
                                );
                                assert(pos@ == pos_before.update(i as int, pos@[i as int]));
                                assert(merger.states@ == st_before.update(
                                    i as int,
                                    merger.states@[i as int],
                                ));
                                lemma_weights_update(
                                    st_before,
                                    i as int,
                                    merger.states@[i as int],
                                );
                                lemma_remaining_update(
                                    inputs@,
                                    pos_before,
                                    i as int,
                                    pos@[i as int],
                                    0,
                                );
                                lemma_inputs_points_feed(inputs@, pos_before, i as int, 0);
                                assert(item_g.values.spec_points() == inputs@[i as int]@[
                                pos_before[i as int] as int].values.spec_points());
                                assert(total_points(merger.states@) == total_points(
                                    st_before,
                                ).add(item_g.values.spec_points()));
                                assert forall|e: MergedPoint|
                                    batches_points_from(out@, 0).add(
                                        total_points(merger.states@),
                                    ).add(inputs_points_from(inputs@, pos@, 0)).count(e)
                                        == inputs_all_points(inputs@, 0).count(e) by {
                                    assert(inputs_points_from(inputs@, pos_before, 0).count(e)
                                        == inputs_points_from(inputs@, pos@, 0).count(e)
                                        + inputs@[i as int]@[
                                        pos_before[i as int] as int].values.spec_points().count(
                                            e,
                                        ));
                                    assert(batches_points_from(out@, 0).count(e) + total_points(
                                        st_before,
                                    ).count(e) + inputs_points_from(
                                        inputs@,
                                        pos_before,
                                        0,
                                    ).count(e) == inputs_all_points(inputs@, 0).count(e));
                                };
                                assert(batches_points_from(out@, 0).add(
                                    total_points(merger.states@),
                                ).add(inputs_points_from(inputs@, pos@, 0))
                                    =~= inputs_all_points(inputs@, 0));
                                assert forall|ii: int|
                                    0 <= ii < n implies match (
                                #[trigger] merger.states@[ii]).next {
                                    SlotState::Ready(b) => {
                                        let s = wit_slot[ii];
                                        &&& 0 <= s.0 < n
                                        &&& 0 <= s.1 < inputs@[s.0]@.len()
                                        &&& b.key@ == inputs@[s.0]@[s.1].key@
                                        &&& (b.values is I64 <==> inputs@[s.0]@[s.1].values
                                            is I64)
                                    },
                                    SlotState::Exhausted => pos@[ii] as int
                                        == inputs@[ii]@.len(),
                                    SlotState::Pending => true,
                                } by {
                                    if ii != i {
                                        assert(merger.states@[ii] == st_before[ii]);
                                        assert(wit_slot[ii] == (wit_slot)[ii]);
                                        assert(pos@[ii] == pos_before[ii]);
                                    }
                                };
                            }
                        } else {
                            merger.feed(i, None);
                            proof {
                                broadcast use vstd::multiset::group_multiset_axioms;

                                assert(merger.states@ == st_before.update(
                                    i as int,
                                    merger.states@[i as int],
                                ));
                                lemma_weights_update(
                                    st_before,
                                    i as int,
                                    merger.states@[i as int],
                                );
                                assert(total_points(merger.states@) == total_points(
                                    st_before,
                                ).add(Multiset::empty()));
                                assert(total_points(merger.states@) =~= total_points(st_before));
                                assert forall|ii: int|
                                    0 <= ii < n implies match (
                                #[trigger] merger.states@[ii]).next {
                                    SlotState::Ready(b) => {
                                        let s = wit_slot[ii];
                                        &&& 0 <= s.0 < n
                                        &&& 0 <= s.1 < inputs@[s.0]@.len()
                                        &&& b.key@ == inputs@[s.0]@[s.1].key@
                                        &&& (b.values is I64 <==> inputs@[s.0]@[s.1].values
                                            is I64)
                                    },
                                    SlotState::Exhausted => pos@[ii] as int
                                        == inputs@[ii]@.len(),
                                    SlotState::Pending => true,
                                } by {
                                    if ii != i {
                                        assert(merger.states@[ii] == st_before[ii]);
                                    }
                                };
                            }
                        }
                    }
                    i = i + 1;
                }
                proof {
                    assert(2 * remaining_from(inputs@, pos@, 0) + weights(merger.states@) < 2
                        * remaining_from(inputs@, pre_pos, 0) + weights(pre_m.states@));
                    lemma_weights_nonneg(merger.states@);
                    lemma_remaining_nonneg(inputs@, pos@, 0);
                }
            },
        }
    }
    proof {
        broadcast use vstd::multiset::group_multiset_axioms;

        lemma_total_points_all_idle(merger.states@);
        lemma_inputs_points_exhausted(inputs@, pos@, 0);
        assert(batches_points_from(out@, 0) =~= inputs_all_points(inputs@, 0));
    }
    out
}

/// What is left of a competing batch after the points at or before `t`
/// were drained into the emitted batch: with `cut` the first index
/// strictly after `t`, the slot is pending again when everything was
/// taken, and otherwise holds exactly the suffix from `cut` on, under
/// the same key.
pub open spec fn drained_slot(b: ReadBatch, s2: SlotState<ReadBatch>, t: i64) -> bool {
    match b.values {
        ReadValues::I64(bv) => {
            let cut = first_after(bv@, t);
            if cut == bv@.len() {
                s2 is Pending
            } else {
                s2 matches SlotState::Ready(b2) && b2.key == b.key && (b2.values
                    matches ReadValues::I64(v2) && v2@ == bv@.skip(cut as int))
            }
        },
        ReadValues::F64(bv) => {
            let cut = first_after(bv@, t);
            if cut == bv@.len() {
                s2 is Pending
            } else {
                s2 matches SlotState::Ready(b2) && b2.key == b.key && (b2.values
                    matches ReadValues::F64(v2) && v2@ == bv@.skip(cut as int))
            }
        },
    }
}

/// What an emitting poll of the read merge guarantees: a non-empty,
/// time-sorted batch of the least held key; points conserved; and the
/// still-held batches of that key strictly later than everything
/// emitted.
pub open spec fn emit_ok(pre: ReadMergeStream, post: ReadMergeStream, batch: ReadBatch) -> bool {
    &&& batch.values.spec_len() > 0
    &&& batch.values.spec_sorted()
    &&& forall|i: int|
        0 <= i < pre.states@.len() ==> match (#[trigger] pre.states@[i]).next {
            SlotState::Ready(b) => str_le(batch.key@, b.key@),
            _ => true,
        }
    &&& batch.values.spec_points().add(total_points(post.states@)) == total_points(pre.states@)
    &&& forall|i: int|
        0 <= i < post.states@.len() ==> match (#[trigger] post.states@[i]).next {
            SlotState::Ready(b2) => b2.key@ == batch.key@ ==> forall|p: int|
                0 <= p < b2.values.spec_len() ==> b2.values.spec_time_at(p)
                    > batch.values.spec_time_at(batch.values.spec_len() - 1),
            _ => true,
        }
    &&& exists|lead: int|
        #![trigger pre.states@[lead]]
        {
            &&& 0 <= lead < pre.states@.len()
            &&& pre.states@[lead].next matches SlotState::Ready(lb) && {
                &&& lb.key@ == batch.key@
                &&& lb.values.spec_len() > 0
                &&& lb.values.spec_time_at(lb.values.spec_len() - 1)
                    == batch.values.spec_time_at(batch.values.spec_len() - 1)
                &&& forall|i: int|
                    0 <= i < pre.states@.len() ==> match (#[trigger] pre.states@[i]).next {
                        SlotState::Ready(b) => b.key@ == batch.key@
                            ==> lb.values.spec_time_at(lb.values.spec_len() - 1)
                            <= b.values.spec_time_at(b.values.spec_len() - 1),
                        _ => true,
                    }
            }
            &&& post.states@[lead].next is Pending
            &&& forall|i: int|
                0 <= i < pre.states@.len() && i != lead ==> match (
                #[trigger] pre.states@[i]).next {
                    SlotState::Ready(b) => if b.key@ == batch.key@ {
                        drained_slot(
                            b,
                            post.states@[i].next,
                            batch.values.spec_time_at(batch.values.spec_len() - 1),
                        )
                    } else {
                        post.states@[i] == pre.states@[i]
                    },
                    _ => post.states@[i] == pre.states@[i],
                }
        }
    &&& post.states@.len() == pre.states@.len()
    &&& post.drained == pre.drained
}

impl ReadMergeStream {
    /// One merge step. With any slot pending it asks for input; with
    /// every input exhausted it ends the stream. Otherwise it picks the
    /// least key, takes the batch with the earliest final time as the
    /// leader, moves every point at or before that time from the other
    /// batches of that key into it, and emits the combined batch sorted
    /// by time. No point is lost or invented: the emitted points plus
    /// the points still held equal the points held before.
    #[verifier::rlimit(100)]
    pub fn poll_next(&mut self) -> (r: MergePoll<ReadBatch>)
        requires
            old(self).wf(),
        ensures
            final(self).wf(),
            old(self).drained ==> r == MergePoll::<ReadBatch>::Ready(None::<ReadBatch>)
                && *final(self) == *old(self),
            !old(self).drained && !old(self).all_determined() ==> r
                == MergePoll::<ReadBatch>::Pending && *final(self) == *old(self),
            !old(self).drained && old(self).all_determined() && !old(self).some_ready() ==> r
                == MergePoll::<ReadBatch>::Ready(None::<ReadBatch>) && final(self).drained
                && final(self).states == old(self).states,
            !old(self).drained && old(self).all_determined() && old(self).some_ready() ==> (match r {
                MergePoll::Ready(Some(batch)) => emit_ok(*old(self), *final(self), batch),
                _ => false,
            }),
    {
        if self.drained {
            return MergePoll::Ready(None);
        }
        let n = self.states.len();
        let mut i: usize = 0;
        while i < n
            invariant
                i <= n,
                n == self.states@.len(),
                *self == *old(self),
                self.wf(),
                !self.drained,
                forall|j: int|
                    0 <= j < i ==> !((#[trigger] self.states@[j]).next is Pending),
            decreases n - i,
        {
            if self.input_pending(i) {
                return MergePoll::Pending;
            }
            i = i + 1;
        }
        // select the least key; among its batches, the one ending
        // earliest leads
        let (lead, lead_end) = self.select_leader();
        if lead >= n {
            self.drained = true;
            return MergePoll::Ready(None);
        }
        // take the leader's batch out
        let ghost pre = *self;
        let mut taken = StreamState { next: SlotState::Pending };
        core::mem::swap(&mut self.states[lead], &mut taken);
        let mut batch = match taken.next {
            SlotState::Ready(b) => b,
            _ => ReadBatch { key: String::new(), values: ReadValues::I64(Vec::new()) },
        };
        proof {
            assert(self.states@ == pre.states@.update(lead as int, self.states@[lead as int]));
            lemma_total_points_update(
                pre.states@,
                lead as int,
                self.states@[lead as int],
            );
        }
        let tstar = lead_end;
        proof {
            broadcast use vstd::multiset::group_multiset_axioms;

            assert(batch.values.spec_time_at(batch.values.spec_len() - 1) == tstar);
            assert(slot_points(self.states@[lead as int]) == Multiset::<MergedPoint>::empty());
            let lb_points = slot_points(pre.states@[lead as int]);
            assert(batch.values.spec_points() == lb_points);
            assert(total_points(self.states@).add(lb_points) == total_points(pre.states@).add(
                Multiset::<MergedPoint>::empty(),
            ));
            assert forall|e: MergedPoint|
                batch.values.spec_points().add(total_points(self.states@)).count(e)
                    == total_points(pre.states@).count(e) by {
                assert(total_points(self.states@).add(lb_points).count(e) == total_points(
                    pre.states@,
                ).add(Multiset::<MergedPoint>::empty()).count(e));
            };
            assert(batch.values.spec_points().add(total_points(self.states@)) =~= total_points(
                pre.states@,
            ));
            assert forall|p: int|
                0 <= p < batch.values.spec_len() implies batch.values.spec_time_at(p)
                <= tstar by {
                match batch.values {
                    ReadValues::I64(v) => {
                        assert(v@[p].time <= v@[v@.len() - 1].time);
                    },
                    ReadValues::F64(v) => {
                        assert(v@[p].time <= v@[v@.len() - 1].time);
                    },
                }
            };
        }
        self.drain_same_key(lead, tstar, &mut batch, Ghost(pre));
        let ghost batch_unsorted = batch;
        batch.sort_by_time();
        proof {
            lemma_emit_finalize(pre, *self, lead as int, tstar, batch_unsorted, batch);
        }
        MergePoll::Ready(Some(batch))
    }
}

/// A point of `v2` at `p` shares its time with some point of `v1`,
/// when both hold the same points.
proof fn lemma_point_time_transfer_at(v1: ReadValues, v2: ReadValues, p: int)
    requires
        v1.spec_points() == v2.spec_points(),
        0 <= p < v2.spec_len(),
    ensures
        exists|q: int|
            0 <= q < v1.spec_len() && #[trigger] v1.spec_time_at(q) == v2.spec_time_at(p),
{
    broadcast use vstd::seq_lib::group_to_multiset_ensures;

    match v2 {
        ReadValues::I64(s2) => {
            let f = |x: ReadPoint<i64>| MergedPoint::I(x.time, x.value);
            let e = f(s2@[p]);
            assert(s2@.map_values(f)[p] == e);
            assert(s2@.map_values(f).contains(e));
            assert(v2.spec_points().count(e) > 0);
            assert(v1.spec_points().count(e) > 0);
            match v1 {
                ReadValues::I64(s1) => {
                    assert(s1@.map_values(f).to_multiset().count(e) > 0);
                    assert(s1@.map_values(f).contains(e));
                    let q = choose|q: int|
                        0 <= q < s1@.map_values(f).len() && s1@.map_values(f)[q] == e;
                    assert(f(s1@[q]) == e);
                    assert(v1.spec_time_at(q) == v2.spec_time_at(p));
                },
                ReadValues::F64(s1) => {
                    let g = |x: ReadPoint<u64>| MergedPoint::F(x.time, x.value);
                    assert(s1@.map_values(g).to_multiset().count(e) > 0);
                    assert(s1@.map_values(g).contains(e));
                    let q = choose|q: int|
                        0 <= q < s1@.map_values(g).len() && s1@.map_values(g)[q] == e;
                    assert(g(s1@[q]) == e);
                    assert(false);
                },
            }
        },
        ReadValues::F64(s2) => {
            let f = |x: ReadPoint<u64>| MergedPoint::F(x.time, x.value);
            let e = f(s2@[p]);
            assert(s2@.map_values(f)[p] == e);
            assert(s2@.map_values(f).contains(e));
            assert(v2.spec_points().count(e) > 0);
            assert(v1.spec_points().count(e) > 0);
            match v1 {
                ReadValues::F64(s1) => {
                    assert(s1@.map_values(f).to_multiset().count(e) > 0);
                    assert(s1@.map_values(f).contains(e));
                    let q = choose|q: int|
                        0 <= q < s1@.map_values(f).len() && s1@.map_values(f)[q] == e;
                    assert(f(s1@[q]) == e);
                    assert(v1.spec_time_at(q) == v2.spec_time_at(p));
                },
                ReadValues::I64(s1) => {
                    let g = |x: ReadPoint<i64>| MergedPoint::I(x.time, x.value);
                    assert(s1@.map_values(g).to_multiset().count(e) > 0);
                    assert(s1@.map_values(g).contains(e));
                    let q = choose|q: int|
                        0 <= q < s1@.map_values(g).len() && s1@.map_values(g)[q] == e;
                    assert(g(s1@[q]) == e);
                    assert(false);
                },
            }
        },
    }
}

/// The leader slot witnesses the emitted batch's shape: its key, its
/// final time, its minimality, and the exact residue of every
/// competitor.
proof fn lemma_emit_lead_witness(
    pre: ReadMergeStream,
    post: ReadMergeStream,
    lead: int,
    tstar: i64,
    batch: ReadBatch,
)
    requires
        0 <= lead < pre.states@.len(),
        post.states@.len() == pre.states@.len(),
        pre.states@[lead].next matches SlotState::Ready(lb) && {
            &&& lb.key@ == batch.key@
            &&& lb.values.spec_len() > 0
            &&& tstar == lb.values.spec_time_at(lb.values.spec_len() - 1)
        },
        forall|j: int|
            0 <= j < pre.states@.len() ==> match (#[trigger] pre.states@[j]).next {
                SlotState::Ready(c) => c.key@ == batch.key@ ==> tstar <= c.values.spec_time_at(
                    c.values.spec_len() - 1,
                ),
                _ => true,
            },
        post.states@[lead].next is Pending,
        forall|j: int|
            0 <= j < pre.states@.len() && j != lead ==> match (#[trigger] pre.states@[j]).next {
                SlotState::Ready(c) => if c.key@ == batch.key@ {
                    drained_slot(c, post.states@[j].next, tstar)
                } else {
                    post.states@[j] == pre.states@[j]
                },
                _ => post.states@[j] == pre.states@[j],
            },
        batch.values.spec_len() > 0,
        batch.values.spec_time_at(batch.values.spec_len() - 1) == tstar,
    ensures
        exists|lead2: int|
            #![trigger pre.states@[lead2]]
            {
                &&& 0 <= lead2 < pre.states@.len()
                &&& pre.states@[lead2].next matches SlotState::Ready(lb2) && {
                    &&& lb2.key@ == batch.key@
                    &&& lb2.values.spec_len() > 0
                    &&& lb2.values.spec_time_at(lb2.values.spec_len() - 1)
                        == batch.values.spec_time_at(batch.values.spec_len() - 1)
                    &&& forall|i: int|
                        0 <= i < pre.states@.len() ==> match (#[trigger] pre.states@[i]).next {
                            SlotState::Ready(b) => b.key@ == batch.key@
                                ==> lb2.values.spec_time_at(lb2.values.spec_len() - 1)
                                <= b.values.spec_time_at(b.values.spec_len() - 1),
                            _ => true,
                        }
                }
                &&& post.states@[lead2].next is Pending
                &&& forall|i: int|
                    0 <= i < pre.states@.len() && i != lead2 ==> match (
                    #[trigger] pre.states@[i]).next {
                        SlotState::Ready(b) => if b.key@ == batch.key@ {
                            drained_slot(
                                b,
                                post.states@[i].next,
                                batch.values.spec_time_at(batch.values.spec_len() - 1),
                            )
                        } else {
                            post.states@[i] == pre.states@[i]
                        },
                        _ => post.states@[i] == pre.states@[i],
                    }
            },
{
    let t2 = batch.values.spec_time_at(batch.values.spec_len() - 1);
    assert(t2 == tstar);
    assert forall|i: int|
        0 <= i < pre.states@.len() && i != lead implies match (#[trigger] pre.states@[i]).next {
        SlotState::Ready(b) => if b.key@ == batch.key@ {
            drained_slot(b, post.states@[i].next, t2)
        } else {
            post.states@[i] == pre.states@[i]
        },
        _ => post.states@[i] == pre.states@[i],
    } by {};
    assert(pre.states@[lead].next matches SlotState::Ready(lb3) && lb3.key@ == batch.key@);
}

/// Puts together, after the final sort, everything an emitting poll
/// promises.
#[verifier::rlimit(100)]
proof fn lemma_emit_finalize(
    pre: ReadMergeStream,
    post: ReadMergeStream,
    lead: int,
    tstar: i64,
    bu: ReadBatch,
    batch: ReadBatch,
)
    requires
        pre.wf(),
        post.states@.len() == pre.states@.len(),
        0 <= lead < pre.states@.len(),
        post.drained == pre.drained,
        pre.states@[lead].next matches SlotState::Ready(lb) && {
            &&& bu.key == lb.key
            &&& lb.values.spec_len() > 0
            &&& tstar == lb.values.spec_time_at(lb.values.spec_len() - 1)
        },
        forall|j: int|
            0 <= j < pre.states@.len() ==> match (#[trigger] pre.states@[j]).next {
                SlotState::Ready(c) => str_le(bu.key@, c.key@) && (c.key@ == bu.key@ ==> tstar
                    <= c.values.spec_time_at(c.values.spec_len() - 1)),
                _ => true,
            },
        post.states@[lead].next is Pending,
        forall|j: int|
            0 <= j < pre.states@.len() && j != lead ==> match (#[trigger] pre.states@[j]).next {
                SlotState::Ready(c) => if c.key@ == bu.key@ {
                    (post.states@[j].next is Pending || (post.states@[j].next
                        matches SlotState::Ready(c2) && c2.key@ == c.key@ && (c2.values
                        is I64 <==> c.values is I64) && c2.values.spec_len() > 0
                        && c2.values.spec_sorted() && (forall|p: int|
                        0 <= p < c2.values.spec_len() ==> c2.values.spec_time_at(p) > tstar)))
                        && drained_slot(c, post.states@[j].next, tstar)
                } else {
                    post.states@[j] == pre.states@[j]
                },
                _ => post.states@[j] == pre.states@[j],
            },
        bu.values.spec_len() > 0,
        exists|p: int|
            0 <= p < bu.values.spec_len() && #[trigger] bu.values.spec_time_at(p) == tstar,
        forall|p: int| 0 <= p < bu.values.spec_len() ==> bu.values.spec_time_at(p) <= tstar,
        bu.values.spec_points().add(total_points(post.states@)) == total_points(pre.states@),
        batch.key == bu.key,
        batch.values.spec_sorted(),
        batch.values.spec_points() == bu.values.spec_points(),
        batch.values.spec_len() == bu.values.spec_len(),
    ensures
        emit_ok(pre, post, batch),
        post.wf(),
{
    assert forall|p: int|
        0 <= p < batch.values.spec_len() implies batch.values.spec_time_at(p) <= tstar by {
        lemma_point_time_transfer_at(bu.values, batch.values, p);
        let q = choose|q: int|
            0 <= q < bu.values.spec_len() && #[trigger] bu.values.spec_time_at(q)
                == batch.values.spec_time_at(p);
    };
    let p0 = choose|p: int|
        0 <= p < bu.values.spec_len() && #[trigger] bu.values.spec_time_at(p) == tstar;
    lemma_point_time_transfer_at(batch.values, bu.values, p0);
    let q0 = choose|q: int|
        0 <= q < batch.values.spec_len() && #[trigger] batch.values.spec_time_at(q)
            == bu.values.spec_time_at(p0);
    assert(batch.values.spec_time_at(batch.values.spec_len() - 1) == tstar) by {
        match batch.values {
            ReadValues::I64(v) => {
                assert(v@[q0].time <= v@[v@.len() - 1].time);
            },
            ReadValues::F64(v) => {
                assert(v@[q0].time <= v@[v@.len() - 1].time);
            },
        }
    };
    // residues strictly later than everything emitted
    assert forall|i: int|
        0 <= i < post.states@.len() implies match (#[trigger] post.states@[i]).next {
        SlotState::Ready(b2) => b2.key@ == batch.key@ ==> forall|p: int|
            0 <= p < b2.values.spec_len() ==> b2.values.spec_time_at(p)
                > batch.values.spec_time_at(batch.values.spec_len() - 1),
        _ => true,
    } by {
        if i != lead {
            match pre.states@[i].next {
                SlotState::Ready(c) => {},
                _ => {},
            }
        }
    };
    // the invariant carries over
    assert forall|a: int, b: int|
        0 <= a < post.states@.len() && 0 <= b < post.states@.len() implies match (
    (#[trigger] post.states@[a]).next,
    (#[trigger] post.states@[b]).next,
    ) {
        (SlotState::Ready(x), SlotState::Ready(y)) => x.key@ == y.key@ ==> (x.values is I64
            <==> y.values is I64),
        _ => true,
    } by {
        match (post.states@[a].next, post.states@[b].next) {
            (SlotState::Ready(x), SlotState::Ready(y)) => {
                assert(pre.states@[a].next matches SlotState::Ready(xp) && xp.key@ == x.key@ && (
                xp.values is I64 <==> x.values is I64));
                assert(pre.states@[b].next matches SlotState::Ready(yp) && yp.key@ == y.key@ && (
                yp.values is I64 <==> y.values is I64));
            },
            _ => {},
        }
    };
    assert forall|i: int|
        0 <= i < pre.states@.len() implies match (#[trigger] pre.states@[i]).next {
        SlotState::Ready(b) => str_le(batch.key@, b.key@),
        _ => true,
    } by {};
    assert forall|i: int|
        0 <= i < pre.states@.len() implies match (#[trigger] pre.states@[i]).next {
        SlotState::Ready(b) => if b.key@ == batch.key@ {
            post.states@[i].next is Pending || (post.states@[i].next
                matches SlotState::Ready(b2) && b2.key@ == b.key@)
        } else {
            post.states@[i] == pre.states@[i]
        },
        _ => post.states@[i] == pre.states@[i],
    } by {
        if i == lead {
        }
    };
    assert(batch.values.spec_points().add(total_points(post.states@)) == total_points(
        pre.states@,
    ));
    assert forall|j: int|
        0 <= j < pre.states@.len() implies match (#[trigger] pre.states@[j]).next {
        SlotState::Ready(c) => c.key@ == batch.key@ ==> tstar <= c.values.spec_time_at(
            c.values.spec_len() - 1,
        ),
        _ => true,
    } by {
        match pre.states@[j].next {
            SlotState::Ready(c) => {
                assert(str_le(bu.key@, c.key@) && (c.key@ == bu.key@ ==> tstar
                    <= c.values.spec_time_at(c.values.spec_len() - 1)));
            },
            _ => {},
        }
    };
    assert forall|j: int|
        0 <= j < pre.states@.len() && j != lead implies match (#[trigger] pre.states@[j]).next {
        SlotState::Ready(c) => if c.key@ == batch.key@ {
            drained_slot(c, post.states@[j].next, tstar)
        } else {
            post.states@[j] == pre.states@[j]
        },
        _ => post.states@[j] == pre.states@[j],
    } by {};
    lemma_emit_lead_witness(pre, post, lead, tstar, batch);
    assert(emit_ok(pre, post, batch));
    assert forall|i: int|
        0 <= i < post.states@.len() implies match (#[trigger] post.states@[i]).next {
        SlotState::Ready(b) => b.values.spec_len() > 0 && b.values.spec_sorted(),
        _ => true,
    } by {
        if i != lead {
            match pre.states@[i].next {
                SlotState::Ready(c) => {},
                _ => {},
            }
        }
    };
    assert(post.wf());
}

/// Every point in the window of a sorted batch at or before `t` keeps
/// that bound, and the rest lie strictly after it.
proof fn lemma_first_after_window(v: ReadValues, t: i64)
    requires
        v.spec_sorted(),
    ensures
        match v {
            ReadValues::I64(vals) => {
                let cut = first_after(vals@, t);
                &&& forall|p: int| 0 <= p < cut ==> vals@[p].time <= t
                &&& forall|p: int| cut <= p < vals@.len() ==> vals@[p].time > t
            },
            ReadValues::F64(vals) => {
                let cut = first_after(vals@, t);
                &&& forall|p: int| 0 <= p < cut ==> vals@[p].time <= t
                &&& forall|p: int| cut <= p < vals@.len() ==> vals@[p].time > t
            },
        },
{
    match v {
        ReadValues::I64(vals) => {
            lemma_first_after(vals@, t);
            let cut = first_after(vals@, t);
            assert forall|p: int| cut <= p < vals@.len() implies vals@[p].time > t by {
                assert(vals@[cut as int].time > t);
                assert(vals@[cut as int].time <= vals@[p].time);
            };
        },
        ReadValues::F64(vals) => {
            lemma_first_after(vals@, t);
            let cut = first_after(vals@, t);
            assert forall|p: int| cut <= p < vals@.len() implies vals@[p].time > t by {
                assert(vals@[cut as int].time > t);
                assert(vals@[cut as int].time <= vals@[p].time);
            };
        },
    }
}

/// What one `append_below_time` does to the points of the combined
/// batch and the drained slot.
proof fn lemma_append_points(
    b_pre: ReadBatch,
    b_post: ReadBatch,
    s_pre: StreamState<ReadBatch>,
    s_post: StreamState<ReadBatch>,
    t: i64,
)
    requires
        s_pre.next matches SlotState::Ready(c) && {
            &&& c.key@ == b_pre.key@
            &&& c.values.spec_sorted()
            &&& (c.values is I64 <==> b_pre.values is I64)
        },
        s_post.next matches SlotState::Ready(c2) && (match (b_pre.values, (s_pre.next)->Ready_0.values) {
            (ReadValues::I64(vals), ReadValues::I64(other_vals)) => {
                let cut = first_after(other_vals@, t);
                &&& b_post.values matches ReadValues::I64(nv) && nv@ == vals@ + other_vals@.take(
                    cut as int,
                )
                &&& c2.values matches ReadValues::I64(ov) && ov@ == other_vals@.skip(cut as int)
                &&& c2.key@ == (s_pre.next)->Ready_0.key@
            },
            (ReadValues::F64(vals), ReadValues::F64(other_vals)) => {
                let cut = first_after(other_vals@, t);
                &&& b_post.values matches ReadValues::F64(nv) && nv@ == vals@ + other_vals@.take(
                    cut as int,
                )
                &&& c2.values matches ReadValues::F64(ov) && ov@ == other_vals@.skip(cut as int)
                &&& c2.key@ == (s_pre.next)->Ready_0.key@
            },
            _ => false,
        }),
        b_post.key == b_pre.key,
        forall|p: int| 0 <= p < b_pre.values.spec_len() ==> b_pre.values.spec_time_at(p) <= t,
    ensures
        b_post.values.spec_points().add(slot_points(s_post)) == b_pre.values.spec_points().add(
            slot_points(s_pre),
        ),
        forall|p: int| 0 <= p < b_post.values.spec_len() ==> b_post.values.spec_time_at(p) <= t,
        b_post.values.spec_len() >= b_pre.values.spec_len(),
        (match s_post.next {
            SlotState::Ready(c2) => c2.values.spec_sorted() && (c2.values is I64 <==> (
            s_pre.next)->Ready_0.values is I64) && (forall|p: int|
                0 <= p < c2.values.spec_len() ==> c2.values.spec_time_at(p) > t),
            _ => true,
        }),
        b_post.values is I64 <==> b_pre.values is I64,
        forall|p: int|
            0 <= p < b_pre.values.spec_len() ==> b_post.values.spec_time_at(p)
                == b_pre.values.spec_time_at(p),
{
    broadcast use vstd::multiset::group_multiset_axioms;
    broadcast use vstd::seq_lib::group_to_multiset_ensures;

    let c = (s_pre.next)->Ready_0;
    let c2 = (s_post.next)->Ready_0;
    lemma_first_after_window(c.values, t);
    match (b_pre.values, c.values) {
        (ReadValues::I64(vals), ReadValues::I64(other_vals)) => {
            let cut = first_after(other_vals@, t) as int;
            lemma_first_after(other_vals@, t);
            let f = |p: ReadPoint<i64>| MergedPoint::I(p.time, p.value);
            let nv = (b_post.values)->I64_0;
            let ov = (c2.values)->I64_0;
            assert(nv@.map_values(f) =~= vals@.map_values(f) + other_vals@.take(cut).map_values(
                f,
            ));
            vstd::seq_lib::lemma_multiset_commutative(
                vals@.map_values(f),
                other_vals@.take(cut).map_values(f),
            );
            assert(ov@.map_values(f) =~= other_vals@.skip(cut).map_values(f));
            assert(other_vals@.map_values(f) =~= other_vals@.take(cut).map_values(f)
                + other_vals@.skip(cut).map_values(f));
            vstd::seq_lib::lemma_multiset_commutative(
                other_vals@.take(cut).map_values(f),
                other_vals@.skip(cut).map_values(f),
            );
            let bm = vals@.map_values(f).to_multiset();
            let tm = other_vals@.take(cut).map_values(f).to_multiset();
            let sm = other_vals@.skip(cut).map_values(f).to_multiset();
            assert(b_post.values.spec_points() == bm.add(tm));
            assert(slot_points(s_post) == sm);
            assert(b_pre.values.spec_points() == bm);
            assert(slot_points(s_pre) == tm.add(sm));
            assert forall|e: MergedPoint|
                bm.add(tm).add(sm).count(e) == bm.add(tm.add(sm)).count(e) by {};
            assert(b_post.values.spec_points().add(slot_points(s_post))
                =~= b_pre.values.spec_points().add(slot_points(s_pre)));
            assert forall|p: int|
                0 <= p < nv@.len() implies nv@[p].time <= t by {
                if p >= vals@.len() {
                    assert(nv@[p] == other_vals@.take(cut)[p - vals@.len()]);
                } else {
                    assert(nv@[p] == vals@[p]);
                    assert(b_pre.values.spec_time_at(p) <= t);
                }
            };
            assert forall|p: int| 0 <= p < ov@.len() implies ov@[p].time > t by {
                assert(ov@[p] == other_vals@[cut + p]);
            };
            assert(crate::memdb::times_sorted(ov@)) by {
                assert forall|a: int, b: int| 0 <= a <= b < ov@.len() implies ov@[a].time
                    <= ov@[b].time by {
                    assert(ov@[a] == other_vals@[cut + a]);
                    assert(ov@[b] == other_vals@[cut + b]);
                };
            };
        },
        (ReadValues::F64(vals), ReadValues::F64(other_vals)) => {
            let cut = first_after(other_vals@, t) as int;
            lemma_first_after(other_vals@, t);
            let f = |p: ReadPoint<u64>| MergedPoint::F(p.time, p.value);
            let nv = (b_post.values)->F64_0;
            let ov = (c2.values)->F64_0;
            assert(nv@.map_values(f) =~= vals@.map_values(f) + other_vals@.take(cut).map_values(
                f,
            ));
            vstd::seq_lib::lemma_multiset_commutative(
                vals@.map_values(f),
                other_vals@.take(cut).map_values(f),
            );
            assert(ov@.map_values(f) =~= other_vals@.skip(cut).map_values(f));
            assert(other_vals@.map_values(f) =~= other_vals@.take(cut).map_values(f)
                + other_vals@.skip(cut).map_values(f));
            vstd::seq_lib::lemma_multiset_commutative(
                other_vals@.take(cut).map_values(f),
                other_vals@.skip(cut).map_values(f),
            );
            let bm = vals@.map_values(f).to_multiset();
            let tm = other_vals@.take(cut).map_values(f).to_multiset();
            let sm = other_vals@.skip(cut).map_values(f).to_multiset();
            assert(b_post.values.spec_points() == bm.add(tm));
            assert(slot_points(s_post) == sm);
            assert(b_pre.values.spec_points() == bm);
            assert(slot_points(s_pre) == tm.add(sm));
            assert forall|e: MergedPoint|
                bm.add(tm).add(sm).count(e) == bm.add(tm.add(sm)).count(e) by {};
            assert(b_post.values.spec_points().add(slot_points(s_post))
                =~= b_pre.values.spec_points().add(slot_points(s_pre)));
            assert forall|p: int|
                0 <= p < nv@.len() implies nv@[p].time <= t by {
                if p >= vals@.len() {
                    assert(nv@[p] == other_vals@.take(cut)[p - vals@.len()]);
                } else {
                    assert(nv@[p] == vals@[p]);
                    assert(b_pre.values.spec_time_at(p) <= t);
                }
            };
            assert forall|p: int| 0 <= p < ov@.len() implies ov@[p].time > t by {
                assert(ov@[p] == other_vals@[cut + p]);
            };
            assert(crate::memdb::times_sorted(ov@)) by {
                assert forall|a: int, b: int| 0 <= a <= b < ov@.len() implies ov@[a].time
                    <= ov@[b].time by {
                    assert(ov@[a] == other_vals@[cut + a]);
                    assert(ov@[b] == other_vals@[cut + b]);
                };
            };
        },
        _ => {},
    }
}

} // verus!
